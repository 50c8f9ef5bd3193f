use vstd::prelude::*;

use vstd::utf8::encode_utf8;

use crate::offsets::{byte_offset, lemma_byte_offset_step, lemma_byte_range, utf8_width};
use crate::token::{Span, Token, TokenKind};

verus! {

/// Characters that separate tokens and produce none: space, tab and newline.
pub open spec fn is_blank(c: char) -> bool {
    c == ' ' || c == '\t' || c == '\n'
}

pub open spec fn is_digit(c: char) -> bool {
    '0' <= c && c <= '9'
}

/// Characters that may start or continue an identifier: ASCII letters and `_`.
pub open spec fn is_ident_char(c: char) -> bool {
    ('a' <= c && c <= 'z') || ('A' <= c && c <= 'Z') || c == '_'
}

/// The first position at or after `p` whose character does not satisfy `f`
/// (or the end of `s`).
pub open spec fn run_end(s: Seq<char>, p: int, f: spec_fn(char) -> bool) -> int
    decreases s.len() - p,
{
    if 0 <= p < s.len() && f(s[p]) {
        run_end(s, p + 1, f)
    } else {
        p
    }
}

pub open spec fn blank_end(s: Seq<char>, p: int) -> int {
    run_end(s, p, |c: char| is_blank(c))
}

pub open spec fn digits_end(s: Seq<char>, p: int) -> int {
    run_end(s, p, |c: char| is_digit(c))
}

pub open spec fn ident_end(s: Seq<char>, p: int) -> int {
    run_end(s, p, |c: char| is_ident_char(c))
}

/// The keyword spelled by `w`, if any.
pub open spec fn keyword(w: Seq<char>) -> Option<TokenKind> {
    if w == seq!['l', 'e', 't'] {
        Some(TokenKind::Let)
    } else if w == seq!['i', 'f'] {
        Some(TokenKind::If)
    } else if w == seq!['e', 'l', 's', 'e'] {
        Some(TokenKind::Else)
    } else if w == seq!['w', 'h', 'i', 'l', 'e'] {
        Some(TokenKind::While)
    } else if w == seq!['f', 'n'] {
        Some(TokenKind::Fn)
    } else {
        None
    }
}

/// An operator that takes a following `=` as its second character when there is one.
pub open spec fn with_eq(s: Seq<char>, p: int, two: TokenKind, one: TokenKind) -> (TokenKind, int) {
    if p + 1 < s.len() && s[p + 1] == '=' {
        (two, p + 2)
    } else {
        (one, p + 1)
    }
}

/// The kind and end of the lexeme that starts at `p` (a position holding a
/// character that is not blank), by maximal munch.
pub open spec fn lexeme_at(s: Seq<char>, p: int) -> (TokenKind, int) {
    let c = s[p];
    if is_digit(c) {
        (TokenKind::Integer, digits_end(s, p))
    } else if is_ident_char(c) {
        let e = ident_end(s, p);
        match keyword(s.subrange(p, e)) {
            Some(k) => (k, e),
            None => (TokenKind::Identifier, e),
        }
    } else if c == '+' {
        (TokenKind::Plus, p + 1)
    } else if c == '-' {
        (TokenKind::Minus, p + 1)
    } else if c == '*' {
        (TokenKind::Star, p + 1)
    } else if c == '/' {
        (TokenKind::Slash, p + 1)
    } else if c == '(' {
        (TokenKind::OpenParen, p + 1)
    } else if c == ')' {
        (TokenKind::CloseParen, p + 1)
    } else if c == '{' {
        (TokenKind::OpenBrace, p + 1)
    } else if c == '}' {
        (TokenKind::CloseBrace, p + 1)
    } else if c == ':' {
        (TokenKind::Colon, p + 1)
    } else if c == '!' {
        with_eq(s, p, TokenKind::NotEqual, TokenKind::Bang)
    } else if c == '=' {
        with_eq(s, p, TokenKind::Equal, TokenKind::Assign)
    } else if c == '<' {
        with_eq(s, p, TokenKind::LessEqual, TokenKind::LessThan)
    } else if c == '>' {
        with_eq(s, p, TokenKind::GreaterEqual, TokenKind::GreaterThan)
    } else {
        (TokenKind::Bad, p + 1)
    }
}

/// The token that scanning from position `p` produces, as (kind, start, end):
/// blanks are skipped, then one lexeme is taken, or an empty end-of-file token
/// where nothing is left.
pub open spec fn next_at(s: Seq<char>, p: int) -> (TokenKind, int, int) {
    let b = blank_end(s, p);
    if b >= s.len() {
        (TokenKind::EndOfFile, b, b)
    } else {
        let (k, e) = lexeme_at(s, b);
        (k, b, e)
    }
}

/// The tokens scanned from position `p` up to, and not including, the
/// end-of-file token.
pub open spec fn tokens_from(s: Seq<char>, p: int) -> Seq<(TokenKind, int, int)>
    decreases s.len() - p,
    when 0 <= p <= s.len()
    via tokens_from_decreases
{
    let t = next_at(s, p);
    if t.0 == TokenKind::EndOfFile {
        Seq::empty()
    } else {
        seq![t] + tokens_from(s, t.2)
    }
}

#[via_fn]
proof fn tokens_from_decreases(s: Seq<char>, p: int) {
    lemma_next_at_bounds(s, p);
}

/// A token of the model with its bounds turned from character positions
/// into byte offsets in the UTF-8 encoding of `s`.
pub open spec fn in_bytes(s: Seq<char>, t: (TokenKind, int, int)) -> (TokenKind, int, int) {
    (t.0, byte_offset(s, t.1), byte_offset(s, t.2))
}

pub open spec fn all_in_bytes(s: Seq<char>, ts: Seq<(TokenKind, int, int)>) -> Seq<(TokenKind, int, int)> {
    ts.map_values(|t: (TokenKind, int, int)| in_bytes(s, t))
}

/// The position reached after scanning `n` tokens from position `p`.
pub open spec fn pos_after(s: Seq<char>, p: int, n: nat) -> int
    decreases n,
{
    if n == 0 {
        p
    } else {
        pos_after(s, next_at(s, p).2, (n - 1) as nat)
    }
}

/// The token that the call numbered `n` (from 0) returns when scanning
/// repeatedly from position `p`.
pub open spec fn nth_call(s: Seq<char>, p: int, n: nat) -> (TokenKind, int, int) {
    next_at(s, pos_after(s, p, n))
}

/// A run ends inside the text, every character before its end satisfies the
/// predicate, and the character at its end (if any) does not.
pub proof fn lemma_run_end(s: Seq<char>, p: int, f: spec_fn(char) -> bool)
    requires
        0 <= p <= s.len(),
    ensures
        p <= run_end(s, p, f) <= s.len(),
        forall|q: int| p <= q < run_end(s, p, f) ==> f(#[trigger] s[q]),
        run_end(s, p, f) < s.len() ==> !f(s[run_end(s, p, f)]),
    decreases s.len() - p,
{
    if p < s.len() && f(s[p]) {
        lemma_run_end(s, p + 1, f);
    }
}

proof fn lemma_next_at_bounds(s: Seq<char>, p: int)
    requires
        0 <= p <= s.len(),
    ensures
        p <= next_at(s, p).1 <= next_at(s, p).2 <= s.len(),
        next_at(s, p).0 == TokenKind::EndOfFile <==> next_at(s, p).1 == s.len(),
        next_at(s, p).0 == TokenKind::EndOfFile ==> next_at(s, p).2 == s.len(),
        next_at(s, p).0 != TokenKind::EndOfFile ==> next_at(s, p).1 < next_at(s, p).2,
        forall|q: int| p <= q < next_at(s, p).1 ==> is_blank(#[trigger] s[q]),
{
    let b = blank_end(s, p);
    lemma_run_end(s, p, |c: char| is_blank(c));
    if b < s.len() {
        lemma_run_end(s, b, |c: char| is_digit(c));
        lemma_run_end(s, b, |c: char| is_ident_char(c));
        let e = ident_end(s, b);
        if is_ident_char(s[b]) {
            let w = s.subrange(b, e);
            if w == seq!['l', 'e', 't'] || w == seq!['i', 'f'] || w == seq!['e', 'l', 's', 'e']
                || w == seq!['w', 'h', 'i', 'l', 'e'] || w == seq!['f', 'n'] {
                assert(keyword(w) != Some(TokenKind::EndOfFile));
            }
        }
    }
}

/// A character that starts no lexeme: neither blank, digit nor identifier
/// character, nor one of the operator and punctuation characters.
pub open spec fn is_unknown(c: char) -> bool {
    &&& !is_blank(c)
    &&& !is_digit(c)
    &&& !is_ident_char(c)
    &&& c != '+' && c != '-' && c != '*' && c != '/'
    &&& c != '(' && c != ')' && c != '{' && c != '}'
    &&& c != ':' && c != '!' && c != '=' && c != '<' && c != '>'
}

/// What the text of a scanned token is: an `Integer` is a maximal non-empty
/// run of digits, an `Identifier` a maximal non-empty run of identifier
/// characters that spells no keyword, and a keyword token spells its keyword.
pub open spec fn lexeme_fits(s: Seq<char>, t: (TokenKind, int, int)) -> bool {
    let w = s.subrange(t.1, t.2);
    match t.0 {
        TokenKind::Integer => {
            &&& t.1 < t.2
            &&& forall|q: int| t.1 <= q < t.2 ==> is_digit(#[trigger] s[q])
            &&& (t.2 == s.len() || !is_digit(s[t.2]))
        },
        TokenKind::Identifier => {
            &&& t.1 < t.2
            &&& forall|q: int| t.1 <= q < t.2 ==> is_ident_char(#[trigger] s[q])
            &&& (t.2 == s.len() || !is_ident_char(s[t.2]))
            &&& keyword(w) is None
        },
        TokenKind::Let | TokenKind::If | TokenKind::Else | TokenKind::While | TokenKind::Fn => {
            keyword(w) == Some(t.0)
        },
        _ => true,
    }
}

proof fn lemma_end_stays(s: Seq<char>, n: nat)
    ensures
        next_at(s, s.len() as int) == (TokenKind::EndOfFile, s.len() as int, s.len() as int),
        pos_after(s, s.len() as int, n) == s.len(),
    decreases n,
{
    if n > 0 {
        lemma_end_stays(s, (n - 1) as nat);
    }
}

/// Scanning from any position reaches the end-of-file token after at most as
/// many tokens as characters remain, and every later call produces the
/// end-of-file token again. The calls before it produce exactly `tokens_from`.
pub proof fn lemma_stream_ends(s: Seq<char>, p: int)
    requires
        0 <= p <= s.len(),
    ensures
        tokens_from(s, p).len() <= s.len() - p,
        forall|n: nat|
            n < tokens_from(s, p).len() ==> #[trigger] nth_call(s, p, n) == tokens_from(s, p)[n as int]
                && nth_call(s, p, n).0 != TokenKind::EndOfFile,
        forall|n: nat|
            n >= tokens_from(s, p).len() ==> (#[trigger] nth_call(s, p, n)).0
                == TokenKind::EndOfFile,
    decreases s.len() - p,
{
    lemma_next_at_bounds(s, p);
    let t = next_at(s, p);
    if t.0 == TokenKind::EndOfFile {
        assert forall|n: nat| n >= tokens_from(s, p).len() implies (#[trigger] nth_call(
            s,
            p,
            n,
        )).0 == TokenKind::EndOfFile by {
            lemma_end_stays(s, 0);
            if n > 0 {
                lemma_end_stays(s, (n - 1) as nat);
            }
        }
    } else {
        lemma_stream_ends(s, t.2);
        let rest = tokens_from(s, t.2);
        assert(tokens_from(s, p) == seq![t] + rest);
        assert forall|n: nat| n < tokens_from(s, p).len() implies #[trigger] nth_call(s, p, n)
            == tokens_from(s, p)[n as int] && nth_call(s, p, n).0 != TokenKind::EndOfFile by {
            if n > 0 {
                assert(nth_call(s, p, n) == nth_call(s, t.2, (n - 1) as nat));
            }
        }
        assert forall|n: nat| n >= tokens_from(s, p).len() implies (#[trigger] nth_call(
            s,
            p,
            n,
        )).0 == TokenKind::EndOfFile by {
            assert(nth_call(s, p, n) == nth_call(s, t.2, (n - 1) as nat));
        }
    }
}

proof fn lemma_lexeme_fits(s: Seq<char>, p: int)
    requires
        0 <= p <= s.len(),
        next_at(s, p).0 != TokenKind::EndOfFile,
    ensures
        lexeme_fits(s, next_at(s, p)),
{
    lemma_next_at_bounds(s, p);
    let b = blank_end(s, p);
    lemma_run_end(s, b, |c: char| is_digit(c));
    lemma_run_end(s, b, |c: char| is_ident_char(c));
}

/// The tokens scanned from one input lie inside the input in order, without
/// overlap, each non-empty, and the text of each is its lexeme.
pub proof fn lemma_token_spans(s: Seq<char>, p: int)
    requires
        0 <= p <= s.len(),
    ensures
        forall|i: int|
            0 <= i < tokens_from(s, p).len() ==> p <= (#[trigger] tokens_from(s, p)[i]).1
                < tokens_from(s, p)[i].2 <= s.len(),
        forall|i: int, j: int|
            0 <= i < j < tokens_from(s, p).len() ==> (#[trigger] tokens_from(s, p)[i]).2
                <= (#[trigger] tokens_from(s, p)[j]).1,
        forall|i: int|
            0 <= i < tokens_from(s, p).len() ==> lexeme_fits(s, #[trigger] tokens_from(s, p)[i]),
    decreases s.len() - p,
{
    lemma_next_at_bounds(s, p);
    let t = next_at(s, p);
    if t.0 != TokenKind::EndOfFile {
        lemma_token_spans(s, t.2);
        lemma_lexeme_fits(s, p);
        let rest = tokens_from(s, t.2);
        let all = tokens_from(s, p);
        assert(all == seq![t] + rest);
        assert forall|i: int| 0 <= i < all.len() implies p <= (#[trigger] all[i]).1 < all[i].2
            <= s.len() && lexeme_fits(s, all[i]) by {
            if i > 0 {
                assert(all[i] == rest[i - 1]);
            }
        }
        assert forall|i: int, j: int| 0 <= i < j < all.len() implies (#[trigger] all[i]).2
            <= (#[trigger] all[j]).1 by {
            assert(all[j] == rest[j - 1]);
            if i > 0 {
                assert(all[i] == rest[i - 1]);
            }
        }
    }
}

/// Input made of blanks alone scans to the end-of-file token at once.
pub proof fn lemma_blank_input(s: Seq<char>)
    requires
        forall|q: int| 0 <= q < s.len() ==> is_blank(#[trigger] s[q]),
    ensures
        next_at(s, 0) == (TokenKind::EndOfFile, s.len() as int, s.len() as int),
        tokens_from(s, 0).len() == 0,
{
    lemma_run_end(s, 0, |c: char| is_blank(c));
}

/// A character that starts no lexeme becomes a `Bad` token covering exactly
/// that character, and scanning then goes on from the next position as if
/// the input began there.
pub proof fn lemma_unknown_char(s: Seq<char>, p: int, q: int)
    requires
        0 <= p <= q < s.len(),
        is_unknown(s[q]),
    ensures
        exists|i: int|
            0 <= i < tokens_from(s, p).len() && #[trigger] tokens_from(s, p)[i] == (
                TokenKind::Bad,
                q,
                q + 1,
            ) && tokens_from(s, p).subrange(i + 1, tokens_from(s, p).len() as int)
                == tokens_from(s, q + 1),
    decreases s.len() - p,
{
    lemma_next_at_bounds(s, p);
    let t = next_at(s, p);
    let all = tokens_from(s, p);
    let b = blank_end(s, p);
    lemma_run_end(s, b, |c: char| is_digit(c));
    lemma_run_end(s, b, |c: char| is_ident_char(c));
    assert(t.1 <= q);
    assert(all == seq![t] + tokens_from(s, t.2));
    if t.1 == q {
        assert(t == (TokenKind::Bad, q, q + 1));
        assert(all.subrange(1, all.len() as int) =~= tokens_from(s, q + 1));
        assert(all[0] == (TokenKind::Bad, q, q + 1));
    } else {
        assert(t.2 <= q);
        lemma_unknown_char(s, t.2, q);
        let rest = tokens_from(s, t.2);
        let i = choose|i: int|
            0 <= i < rest.len() && #[trigger] rest[i] == (TokenKind::Bad, q, q + 1)
                && rest.subrange(i + 1, rest.len() as int) == tokens_from(s, q + 1);
        assert(all[i + 1] == rest[i]);
        assert(all.subrange(i + 2, all.len() as int) =~= rest.subrange(i + 1, rest.len() as int));
    }
}

/// A token of the model moved `d` positions to the right.
pub open spec fn shifted(t: (TokenKind, int, int), d: int) -> (TokenKind, int, int) {
    (t.0, t.1 + d, t.2 + d)
}

proof fn lemma_run_end_suffix(s: Seq<char>, p: int, k: int, f: spec_fn(char) -> bool)
    requires
        0 <= p <= s.len(),
        0 <= k <= s.len() - p,
    ensures
        run_end(s, p + k, f) == p + run_end(s.subrange(p, s.len() as int), k, f),
    decreases s.len() - p - k,
{
    let t = s.subrange(p, s.len() as int);
    if k < t.len() {
        assert(s[p + k] == t[k]);
        lemma_run_end_suffix(s, p, k + 1, f);
    }
}

proof fn lemma_next_at_suffix(s: Seq<char>, p: int, k: int)
    requires
        0 <= p <= s.len(),
        0 <= k <= s.len() - p,
    ensures
        next_at(s, p + k) == shifted(next_at(s.subrange(p, s.len() as int), k), p),
{
    let t = s.subrange(p, s.len() as int);
    lemma_run_end_suffix(s, p, k, |c: char| is_blank(c));
    lemma_run_end(t, k, |c: char| is_blank(c));
    let b = blank_end(t, k);
    if b < t.len() {
        assert(s[p + b] == t[b]);
        lemma_run_end_suffix(s, p, b, |c: char| is_digit(c));
        lemma_run_end_suffix(s, p, b, |c: char| is_ident_char(c));
        lemma_run_end(t, b, |c: char| is_ident_char(c));
        let e = ident_end(t, b);
        assert(s.subrange(p + b, p + e) =~= t.subrange(b, e));
        if b + 1 < t.len() {
            assert(s[p + b + 1] == t[b + 1]);
        }
    }
}

/// Scanning from position `p` produces what scanning the text after `p` on
/// its own produces, every token moved by `p`.
pub proof fn lemma_scan_suffix(s: Seq<char>, p: int)
    requires
        0 <= p <= s.len(),
    ensures
        tokens_from(s, p) == tokens_from(s.subrange(p, s.len() as int), 0).map_values(
            |t: (TokenKind, int, int)| shifted(t, p),
        ),
{
    lemma_scan_suffix_from(s, p, 0);
}

proof fn lemma_scan_suffix_from(s: Seq<char>, p: int, k: int)
    requires
        0 <= p <= s.len(),
        0 <= k <= s.len() - p,
    ensures
        tokens_from(s, p + k) == tokens_from(s.subrange(p, s.len() as int), k).map_values(
            |t: (TokenKind, int, int)| shifted(t, p),
        ),
    decreases s.len() - p - k,
{
    let t = s.subrange(p, s.len() as int);
    lemma_next_at_suffix(s, p, k);
    lemma_next_at_bounds(t, k);
    let x = next_at(t, k);
    if x.0 != TokenKind::EndOfFile {
        lemma_scan_suffix_from(s, p, x.2);
        assert(tokens_from(t, k) == seq![x] + tokens_from(t, x.2));
        assert(tokens_from(s, p + k) == seq![shifted(x, p)] + tokens_from(s, p + x.2));
        assert(tokens_from(s, p + k) =~= tokens_from(t, k).map_values(
            |u: (TokenKind, int, int)| shifted(u, p),
        ));
    } else {
        assert(tokens_from(s, p + k) =~= tokens_from(t, k).map_values(
            |u: (TokenKind, int, int)| shifted(u, p),
        ));
    }
}

/// Looks up a word in the fixed keyword table.
fn keyword_kind(w: &Vec<char>) -> (r: Option<TokenKind>)
    ensures
        r == keyword(w@),
{
    if w.len() == 3 && w[0] == 'l' && w[1] == 'e' && w[2] == 't' {
        assert(w@ =~= seq!['l', 'e', 't']);
        Some(TokenKind::Let)
    } else if w.len() == 2 && w[0] == 'i' && w[1] == 'f' {
        assert(w@ =~= seq!['i', 'f']);
        Some(TokenKind::If)
    } else if w.len() == 4 && w[0] == 'e' && w[1] == 'l' && w[2] == 's' && w[3] == 'e' {
        assert(w@ =~= seq!['e', 'l', 's', 'e']);
        Some(TokenKind::Else)
    } else if w.len() == 5 && w[0] == 'w' && w[1] == 'h' && w[2] == 'i' && w[3] == 'l' && w[4]
        == 'e' {
        assert(w@ =~= seq!['w', 'h', 'i', 'l', 'e']);
        Some(TokenKind::While)
    } else if w.len() == 2 && w[0] == 'f' && w[1] == 'n' {
        assert(w@ =~= seq!['f', 'n']);
        Some(TokenKind::Fn)
    } else {
        proof {
            if w@ == seq!['l', 'e', 't'] {
                assert(w@[0] == 'l' && w@[1] == 'e' && w@[2] == 't');
            }
            if w@ == seq!['i', 'f'] {
                assert(w@[0] == 'i' && w@[1] == 'f');
            }
            if w@ == seq!['e', 'l', 's', 'e'] {
                assert(w@[0] == 'e' && w@[1] == 'l' && w@[2] == 's' && w@[3] == 'e');
            }
            if w@ == seq!['w', 'h', 'i', 'l', 'e'] {
                assert(w@[0] == 'w' && w@[1] == 'h' && w@[2] == 'i' && w@[3] == 'l' && w@[4]
                    == 'e');
            }
            if w@ == seq!['f', 'n'] {
                assert(w@[0] == 'f' && w@[1] == 'n');
            }
        }
        None
    }
}

/// A pull-based scanner over one source. Each call of `next_token` produces
/// one token; after the end of the input every call produces an empty
/// end-of-file token.
pub struct Lexer {
    source: Vec<char>,
    file_name: String,
    current_pos: usize,
    current_byte: usize,
    end: usize,
    start: usize,
    current_token: Option<Token>,
}

impl Lexer {
    /// The characters being scanned.
    pub closed spec fn text(&self) -> Seq<char> {
        self.source@
    }

    /// The position of the next unread character.
    pub closed spec fn pos(&self) -> int {
        self.current_pos as int
    }

    /// The name that every produced span carries.
    pub closed spec fn name(&self) -> Seq<char> {
        self.file_name@
    }

    /// The token produced most recently, if any.
    pub closed spec fn last(&self) -> Option<Token> {
        self.current_token
    }

    /// The cursor's byte offset matches its character position, and token
    /// bounds are byte offsets that fit in `usize`.
    pub closed spec fn inv(&self) -> bool {
        &&& self.current_pos <= self.source.len()
        &&& self.current_byte == byte_offset(self.source@, self.current_pos as int)
        &&& self.start <= self.current_byte
        &&& encode_utf8(self.source@).len() <= usize::MAX
    }

    pub open spec fn wf(&self) -> bool {
        &&& 0 <= self.pos() <= self.text().len()
        &&& self.inv()
    }

    pub fn new(file_name: &str, source: &str) -> (r: Lexer)
        ensures
            r.wf(),
            r.text() == source@,
            r.pos() == 0,
            r.name() == file_name@,
            r.last() is None,
    {
        let mut chars: Vec<char> = Vec::new();
        for c in it: source.chars()
            invariant
                it.seq() == source@,
                chars@ == source@.subrange(0, it.index() as int),
        {
            chars.push(c);
        }
        proof {
            assert(chars@ =~= source@);
            assert(source@.subrange(0, 0) =~= Seq::<char>::empty());
        }
        // The encoding's length is a slice length, so it fits in `usize`.
        let encoded_len = source.as_bytes().len();
        assert(encoded_len == encode_utf8(source@).len());
        Lexer {
            source: chars,
            file_name: file_name.to_owned(),
            current_pos: 0,
            current_byte: 0,
            start: 0,
            end: 0,
            current_token: None,
        }
    }

    fn get_char(&self) -> (r: Option<char>)
        ensures
            r == (if self.current_pos < self.source.len() {
                Some(self.source@[self.current_pos as int])
            } else {
                None
            }),
    {
        if self.current_pos < self.source.len() {
            Some(self.source[self.current_pos])
        } else {
            None
        }
    }

    fn is_end(&self) -> (r: bool)
        ensures
            r == (self.current_pos >= self.source.len()),
    {
        self.get_char().is_none()
    }

    fn advance(&mut self)
        requires
            old(self).wf(),
            old(self).current_pos < old(self).source.len(),
        ensures
            final(self).wf(),
            final(self).current_pos == old(self).current_pos + 1,
            final(self).moved_from(old(self)),
    {
        let c = self.source[self.current_pos];
        let w = utf8_width(c);
        proof {
            lemma_byte_offset_step(self.source@, self.pos());
            lemma_byte_range(self.source@, self.pos() + 1, self.source@.len() as int);
        }
        self.current_byte = self.current_byte + w;
        self.current_pos += 1;
    }

    /// `self` differs from `prev` at most in the position of the cursor.
    spec fn moved_from(&self, prev: &Lexer) -> bool {
        &&& self.source == prev.source
        &&& self.file_name == prev.file_name
        &&& self.start == prev.start
        &&& self.end == prev.end
        &&& self.current_token == prev.current_token
    }

    fn make_token(&mut self, kind: TokenKind) -> (r: Token)
        requires
            old(self).wf(),
        ensures
            final(self).wf(),
            r.model() == (kind, old(self).start as int, old(self).current_byte as int),
            r.loc.file_name@ == old(self).file_name@,
            final(self).source == old(self).source,
            final(self).file_name == old(self).file_name,
            final(self).current_pos == old(self).current_pos,
            final(self).current_byte == old(self).current_byte,
            final(self).start == old(self).start,
            final(self).end == old(self).current_byte,
            final(self).current_token is Some,
            final(self).current_token->0.model() == r.model(),
            final(self).current_token->0.loc.file_name@ == old(self).file_name@,
    {
        self.end = self.current_byte;
        let kept = Token::new(Span::new(self.file_name.clone(), self.start, self.end), kind);
        self.current_token = Some(kept);
        Token::new(Span::new(self.file_name.clone(), self.start, self.end), kind)
    }

    /// Skips a run of spaces and tabs.
    fn skip_whitespace(&mut self)
        requires
            old(self).wf(),
        ensures
            final(self).wf(),
            final(self).moved_from(old(self)),
            old(self).current_pos <= final(self).current_pos,
            forall|q: int|
                old(self).pos() <= q < final(self).pos() ==> (#[trigger] old(self).source@[q] == ' '
                    || old(self).source@[q] == '\t'),
            blank_end(final(self).source@, final(self).pos()) == blank_end(
                old(self).source@,
                old(self).pos(),
            ),
            final(self).current_pos < final(self).source.len() ==> {
                let c = final(self).source@[final(self).pos()];
                c != ' ' && c != '\t'
            },
    {
        let ghost prev = *self;
        while !self.is_end()
            invariant
                self.wf(),
                self.moved_from(&prev),
                prev.current_pos <= self.current_pos,
                forall|q: int|
                    prev.pos() <= q < self.pos() ==> (#[trigger] prev.source@[q] == ' '
                        || prev.source@[q] == '\t'),
                blank_end(self.source@, self.pos()) == blank_end(prev.source@, prev.pos()),
            ensures
                self.current_pos < self.source.len() ==> {
                    let c = self.source@[self.pos()];
                    c != ' ' && c != '\t'
                },
            decreases self.source.len() - self.current_pos,
        {
            let ch = self.get_char().unwrap();
            if ch == ' ' || ch == '\t' {
                self.advance();
                continue;
            }
            break;
        }
    }

    /// Skips a run of newlines.
    fn consume_newline(&mut self)
        requires
            old(self).wf(),
        ensures
            final(self).wf(),
            final(self).moved_from(old(self)),
            old(self).current_pos <= final(self).current_pos,
            forall|q: int|
                old(self).pos() <= q < final(self).pos() ==> #[trigger] old(self).source@[q]
                    == '\n',
            blank_end(final(self).source@, final(self).pos()) == blank_end(
                old(self).source@,
                old(self).pos(),
            ),
            final(self).current_pos < final(self).source.len() ==> final(self).source@[final(self).pos()]
                != '\n',
    {
        let ghost prev = *self;
        while !self.is_end()
            invariant
                self.wf(),
                self.moved_from(&prev),
                prev.current_pos <= self.current_pos,
                forall|q: int| prev.pos() <= q < self.pos() ==> #[trigger] prev.source@[q] == '\n',
                blank_end(self.source@, self.pos()) == blank_end(prev.source@, prev.pos()),
            ensures
                self.current_pos < self.source.len() ==> self.source@[self.pos()] != '\n',
            decreases self.source.len() - self.current_pos,
        {
            let ch = self.get_char().unwrap();
            if ch == '\n' {
                self.advance();
                continue;
            }
            break;
        }
    }

    /// Skips blanks in any mixture: runs of spaces and tabs, and runs of newlines.
    fn skip_blanks(&mut self)
        requires
            old(self).wf(),
        ensures
            final(self).wf(),
            final(self).moved_from(old(self)),
            final(self).pos() == blank_end(old(self).source@, old(self).pos()),
    {
        let ghost prev = *self;
        loop
            invariant
                self.wf(),
                self.moved_from(&prev),
                blank_end(self.source@, self.pos()) == blank_end(prev.source@, prev.pos()),
            ensures
                self.wf(),
                self.moved_from(&prev),
                self.pos() == blank_end(prev.source@, prev.pos()),
            decreases self.source.len() - self.current_pos,
        {
            let before = self.current_pos;
            self.skip_whitespace();
            self.consume_newline();
            if self.current_pos == before {
                break;
            }
        }
    }

    /// Consumes a maximal run of ASCII letters and `_` and classifies it as
    /// a keyword or an identifier.
    fn parse_ident_or_keyword(&mut self) -> (r: TokenKind)
        requires
            old(self).wf(),
        ensures
            final(self).wf(),
            final(self).moved_from(old(self)),
            final(self).pos() == ident_end(old(self).source@, old(self).pos()),
            old(self).current_pos <= final(self).current_pos,
            r == match keyword(old(self).source@.subrange(old(self).pos(), final(self).pos())) {
                Some(k) => k,
                None => TokenKind::Identifier,
            },
    {
        let ghost prev = *self;
        let mut ident: Vec<char> = Vec::new();
        while !self.is_end()
            invariant
                self.wf(),
                self.moved_from(&prev),
                prev.current_pos <= self.current_pos,
                ident_end(self.source@, self.pos()) == ident_end(prev.source@, prev.pos()),
                ident@ == self.source@.subrange(prev.pos(), self.pos()),
            ensures
                self.wf(),
                self.moved_from(&prev),
                self.pos() == ident_end(prev.source@, prev.pos()),
                prev.current_pos <= self.current_pos,
                ident@ == self.source@.subrange(prev.pos(), self.pos()),
            decreases self.source.len() - self.current_pos,
        {
            let ch = self.get_char().unwrap();
            if Lexer::test_ident(ch) {
                ident.push(ch);
                self.advance();
                proof {
                    assert(ident@ =~= self.source@.subrange(prev.pos(), self.pos()));
                }
                continue;
            }
            break;
        }
        match keyword_kind(&ident) {
            Some(kind) => kind,
            None => TokenKind::Identifier,
        }
    }

    /// Consumes a maximal run of decimal digits.
    fn parse_integer(&mut self)
        requires
            old(self).wf(),
        ensures
            final(self).wf(),
            final(self).moved_from(old(self)),
            final(self).pos() == digits_end(old(self).source@, old(self).pos()),
            old(self).current_pos <= final(self).current_pos,
    {
        let ghost prev = *self;
        while !self.is_end()
            invariant
                self.wf(),
                self.moved_from(&prev),
                prev.current_pos <= self.current_pos,
                digits_end(self.source@, self.pos()) == digits_end(prev.source@, prev.pos()),
            ensures
                self.wf(),
                self.moved_from(&prev),
                prev.current_pos <= self.current_pos,
                self.pos() == digits_end(prev.source@, prev.pos()),
            decreases self.source.len() - self.current_pos,
        {
            let ch = self.get_char().unwrap();
            if ch >= '0' && ch <= '9' {
                self.advance();
                continue;
            }
            break;
        }
    }

    /// Consumes the next character if it is `=`; says whether it did.
    fn take_eq(&mut self) -> (r: bool)
        requires
            old(self).wf(),
        ensures
            final(self).wf(),
            final(self).moved_from(old(self)),
            r == (old(self).current_pos < old(self).source.len() && old(self).source@[old(
                self,
            ).pos()] == '='),
            final(self).pos() == old(self).pos() + if r {
                1int
            } else {
                0int
            },
    {
        match self.get_char() {
            Some(ch) => {
                if ch == '=' {
                    self.advance();
                    true
                } else {
                    false
                }
            },
            None => false,
        }
    }

    /// The last token produced, without advancing.
    pub fn peek_token(&self) -> (r: Option<&Token>)
        ensures
            r is Some <==> self.last() is Some,
            r is Some ==> *r->0 == self.last()->0,
    {
        match &self.current_token {
            Some(t) => Some(t),
            None => None,
        }
    }

    /// Scans and returns the next token: blanks are skipped, then the longest
    /// lexeme at the cursor is taken. An unrecognised character becomes a
    /// one-character `Bad` token; at the end of the input the token is an empty
    /// `EndOfFile` at the end, and stays so on every further call.
    pub fn next_token(&mut self) -> (r: Token)
        requires
            old(self).wf(),
        ensures
            final(self).wf(),
            final(self).text() == old(self).text(),
            final(self).name() == old(self).name(),
            r.model() == in_bytes(old(self).text(), next_at(old(self).text(), old(self).pos())),
            r.loc.file_name@ == old(self).name(),
            final(self).pos() == next_at(old(self).text(), old(self).pos()).2,
            byte_offset(old(self).text(), old(self).pos()) <= r.loc.start <= r.loc.end
                <= encode_utf8(old(self).text()).len(),
            final(self).last() is Some,
            final(self).last()->0.model() == r.model(),
            final(self).last()->0.loc.file_name@ == old(self).name(),
    {
        proof {
            let t = next_at(self.source@, self.pos());
            lemma_next_at_bounds(self.source@, self.pos());
            lemma_byte_range(self.source@, self.pos(), t.1);
            lemma_byte_range(self.source@, t.1, t.2);
            lemma_byte_range(self.source@, t.2, self.source@.len() as int);
            assert(self.source@.subrange(0, self.source@.len() as int) =~= self.source@);
        }
        self.skip_blanks();
        self.start = self.current_byte;
        let c = match self.get_char() {
            Some(c) => c,
            None => {
                return self.make_token(TokenKind::EndOfFile);
            },
        };
        if c >= '0' && c <= '9' {
            self.parse_integer();
            return self.make_token(TokenKind::Integer);
        }
        if Lexer::test_ident(c) {
            let kind = self.parse_ident_or_keyword();
            return self.make_token(kind);
        }
        self.advance();
        let kind = match c {
            '+' => TokenKind::Plus,
            '-' => TokenKind::Minus,
            '*' => TokenKind::Star,
            '/' => TokenKind::Slash,
            '(' => TokenKind::OpenParen,
            ')' => TokenKind::CloseParen,
            '{' => TokenKind::OpenBrace,
            '}' => TokenKind::CloseBrace,
            ':' => TokenKind::Colon,
            '!' => if self.take_eq() {
                TokenKind::NotEqual
            } else {
                TokenKind::Bang
            },
            '=' => if self.take_eq() {
                TokenKind::Equal
            } else {
                TokenKind::Assign
            },
            '<' => if self.take_eq() {
                TokenKind::LessEqual
            } else {
                TokenKind::LessThan
            },
            '>' => if self.take_eq() {
                TokenKind::GreaterEqual
            } else {
                TokenKind::GreaterThan
            },
            _ => TokenKind::Bad,
        };
        self.make_token(kind)
    }

    /// Scans to the end of the input and returns every token before the
    /// end-of-file token.
    pub fn get_tokens(&mut self) -> (r: Vec<Token>)
        requires
            old(self).wf(),
        ensures
            final(self).wf(),
            final(self).text() == old(self).text(),
            final(self).name() == old(self).name(),
            r@.map_values(|t: Token| t.model()) == all_in_bytes(
                old(self).text(),
                tokens_from(old(self).text(), old(self).pos()),
            ),
            forall|i: int| 0 <= i < r@.len() ==> (#[trigger] r@[i]).loc.file_name@ == old(self).name(),
            final(self).pos() == old(self).text().len(),
            final(self).last() is Some,
            final(self).last()->0.model() == (
                TokenKind::EndOfFile,
                encode_utf8(old(self).text()).len() as int,
                encode_utf8(old(self).text()).len() as int,
            ),
    {
        let ghost s = self.text();
        let ghost p0 = self.pos();
        let ghost mut q = self.pos();
        let mut tokens: Vec<Token> = Vec::new();
        let mut token = self.next_token();
        while token.kind != TokenKind::EndOfFile
            invariant
                self.wf(),
                self.text() == s,
                self.name() == old(self).name(),
                0 <= p0 <= s.len(),
                0 <= q <= s.len(),
                token.model() == in_bytes(s, next_at(s, q)),
                token.loc.file_name@ == self.name(),
                self.pos() == next_at(s, q).2,
                self.last() is Some,
                self.last()->0.model() == token.model(),
                all_in_bytes(s, tokens_from(s, p0)) == tokens@.map_values(|t: Token| t.model())
                    + all_in_bytes(s, tokens_from(s, q)),
                forall|i: int| 0 <= i < tokens@.len() ==> (#[trigger] tokens@[i]).loc.file_name@ == self.name(),
            decreases 2 * (s.len() - self.pos()) + if token.kind == TokenKind::EndOfFile {
                0int
            } else {
                1int
            },
        {
            let ghost e = next_at(s, q).2;
            proof {
                lemma_next_at_bounds(s, q);
                assert(tokens_from(s, q) == seq![next_at(s, q)] + tokens_from(s, e));
                assert(all_in_bytes(s, tokens_from(s, q)) =~= seq![in_bytes(s, next_at(s, q))]
                    + all_in_bytes(s, tokens_from(s, e)));
            }
            let ghost before = tokens@;
            tokens.push(token);
            proof {
                assert(tokens@.map_values(|t: Token| t.model()) =~= before.map_values(
                    |t: Token| t.model(),
                ).push(in_bytes(s, next_at(s, q))));
                assert(all_in_bytes(s, tokens_from(s, p0)) =~= tokens@.map_values(
                    |t: Token| t.model(),
                ) + all_in_bytes(s, tokens_from(s, e)));
                q = e;
            }
            token = self.next_token();
            proof {
                lemma_next_at_bounds(s, q);
            }
        }
        proof {
            lemma_next_at_bounds(s, q);
            assert(s.subrange(0, s.len() as int) =~= s);
            assert(all_in_bytes(s, tokens_from(s, q)) =~= Seq::empty());
            assert(all_in_bytes(s, tokens_from(s, p0)) =~= tokens@.map_values(|t: Token| t.model()));
        }
        tokens
    }

    fn test_ident(c: char) -> (r: bool)
        ensures
            r == is_ident_char(c),
    {
        (c >= 'a' && c <= 'z') || (c >= 'A' && c <= 'Z') || c == '_'
    }
}

} // verus!
