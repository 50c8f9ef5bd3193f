use vstd::prelude::*;

use crate::token::Token;
use crate::tokenizer::{in_bytes, nth_call, pos_after, Lexer};

verus! {

/// The front of a parser: it owns the lexer and pulls tokens from it.
pub struct Parser {
    lex: Lexer,
}

impl Parser {
    /// The lexer that tokens are pulled from.
    pub closed spec fn lex(&self) -> Lexer {
        self.lex
    }

    pub fn new(lex: Lexer) -> (r: Parser)
        ensures
            r.lex() == lex,
    {
        Parser { lex }
    }

    /// The lexer, for looking at its state (such as its last token).
    pub fn lexer(&self) -> (r: &Lexer)
        ensures
            *r == self.lex(),
    {
        &self.lex
    }

    /// Pulls the next three tokens of the stream, in order.
    pub fn parse(&mut self) -> (r: Vec<Token>)
        requires
            old(self).lex().wf(),
        ensures
            final(self).lex().wf(),
            final(self).lex().text() == old(self).lex().text(),
            final(self).lex().name() == old(self).lex().name(),
            final(self).lex().pos() == pos_after(old(self).lex().text(), old(self).lex().pos(), 3),
            r@.len() == 3,
            forall|k: int|
                0 <= k < 3 ==> (#[trigger] r@[k]).model() == in_bytes(
                    old(self).lex().text(),
                    nth_call(old(self).lex().text(), old(self).lex().pos(), k as nat),
                ),
            final(self).lex().last() is Some,
            final(self).lex().last()->0.model() == r@[2].model(),
    {
        let ghost s = self.lex.text();
        let ghost p = self.lex.pos();
        let mut tokens: Vec<Token> = Vec::new();
        let first = self.lex.next_token();
        let ghost p1 = self.lex.pos();
        tokens.push(first);
        let second = self.lex.next_token();
        let ghost p2 = self.lex.pos();
        tokens.push(second);
        let third = self.lex.next_token();
        tokens.push(third);
        proof {
            assert(pos_after(s, p1, 0) == p1);
            assert(pos_after(s, p2, 0) == p2);
            assert(pos_after(s, self.lex.pos(), 0) == self.lex.pos());
            assert(pos_after(s, p, 1) == p1);
            assert(pos_after(s, p1, 1) == p2);
            assert(pos_after(s, p, 2) == p2);
            assert(pos_after(s, p2, 1) == self.lex.pos());
            assert(pos_after(s, p1, 2) == self.lex.pos());
            assert(pos_after(s, p, 3) == self.lex.pos());
            assert(pos_after(s, p, 0) == p);
            assert(tokens@[0].model() == in_bytes(s, nth_call(s, p, 0)));
            assert(tokens@[1].model() == in_bytes(s, nth_call(s, p, 1)));
            assert(tokens@[2].model() == in_bytes(s, nth_call(s, p, 2)));
        }
        tokens
    }
}

} // verus!
