use vstd::prelude::*;

verus! {

/// A half-open range `[start, end)` of byte offsets into the UTF-8 text of one source,
/// together with the name of that source.
#[derive(Debug, Clone, PartialEq)]
pub struct Span {
    pub file_name: String,
    pub start: usize,
    pub end: usize,
}

impl Span {
    pub fn new(file_name: String, start: usize, end: usize) -> (r: Span)
        ensures
            r.file_name == file_name,
            r.start == start,
            r.end == end,
    {
        Span { file_name, start, end }
    }
}

/// The lexical category of a token. The text of a token is not carried here:
/// it is recovered from the source through the token's span.
#[derive(Clone, Copy, Debug, PartialEq, Eq, Structural)]
pub enum TokenKind {
    Integer,
    /// Reserved: the scanner does not recognise a fractional part, so no
    /// token of this kind is produced.
    Float,
    Identifier,
    OpenParen,
    CloseParen,
    OpenBrace,
    CloseBrace,
    Plus,
    Minus,
    Star,
    Slash,
    Equal,
    NotEqual,
    LessThan,
    GreaterThan,
    LessEqual,
    GreaterEqual,
    Bang,
    Assign,
    Colon,
    Let,
    If,
    Else,
    While,
    Fn,
    /// One character that starts no lexeme.
    Bad,
    EndOfFile,
}

/// A classified, positioned unit of source text.
#[derive(Debug, Clone, PartialEq)]
pub struct Token {
    pub loc: Span,
    pub kind: TokenKind,
}

impl Token {
    /// The kind and the span bounds of the token, as mathematical values.
    pub open spec fn model(&self) -> (TokenKind, int, int) {
        (self.kind, self.loc.start as int, self.loc.end as int)
    }

    pub fn new(loc: Span, kind: TokenKind) -> (r: Token)
        ensures
            r.loc == loc,
            r.kind == kind,
    {
        Token { loc, kind }
    }

    pub fn get_kind(&self) -> (r: &TokenKind)
        ensures
            *r == self.kind,
    {
        &self.kind
    }

    pub fn get_span(&self) -> (r: (usize, usize))
        ensures
            r == (self.loc.start, self.loc.end),
    {
        (self.loc.start, self.loc.end)
    }
}

} // verus!
