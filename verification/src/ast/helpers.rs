//! The token cursor the parser consumes from, and the matching helpers
//! that give it one token of lookahead.

use vstd::prelude::*;

verus! {

use crate::tokenizer::tokens::{Token, TokenKind, TokenV, kind_of, views_of};

/// A peekable cursor over the token sequence of one line: the tokens and
/// the position of the next one to consume.
#[derive(Debug)]
pub struct TokenStream {
    tokens: Vec<Token>,
    pos: usize,
}

impl TokenStream {
    /// The models of all tokens under the cursor.
    pub closed spec fn toks(self) -> Seq<TokenV> {
        views_of(self.tokens@)
    }

    /// The position of the next token to consume.
    pub closed spec fn pos(self) -> int {
        self.pos as int
    }

    /// The cursor's internal consistency.
    pub closed spec fn wf(self) -> bool {
        self.pos <= self.tokens@.len()
    }

    /// Opens a cursor at the start of a token sequence.
    pub fn new(tokens: Vec<Token>) -> (s: Self)
        ensures
            s.wf(),
            s.toks() == views_of(tokens@),
            s.pos() == 0,
    {
        TokenStream { tokens, pos: 0 }
    }

    /// How many tokens are left to consume.
    pub fn remaining(&self) -> (n: usize)
        requires
            self.wf(),
        ensures
            n == self.toks().len() - self.pos(),
    {
        self.tokens.len() - self.pos
    }

    /// Consumes the next token.
    pub fn next(&mut self) -> (r: Option<Token>)
        requires
            old(self).wf(),
        ensures
            final(self).wf(),
            final(self).toks() == old(self).toks(),
            match r {
                Some(t) => old(self).pos() < old(self).toks().len() && t@ == old(self).toks()[
                    old(self).pos()
                ] && final(self).pos() == old(self).pos() + 1,
                None => old(self).pos() == old(self).toks().len() && final(self).pos() == old(
                    self,
                ).pos(),
            },
    {
        if self.pos < self.tokens.len() {
            let t = self.tokens[self.pos].dup();
            self.pos = self.pos + 1;
            Some(t)
        } else {
            None
        }
    }
}

/// A consistent stream stands between the start and the end of its tokens.
pub broadcast proof fn lemma_stream_bounds(s: TokenStream)
    ensures
        #[trigger] s.wf() ==> 0 <= s.pos() <= s.toks().len(),
{
    assert(s.toks().len() == s.tokens@.len());
}

/// Takes a look at the next token of the stream without consuming it.
pub fn peek(tokens_iter: &TokenStream) -> (r: Option<Token>)
    requires
        tokens_iter.wf(),
    ensures
        match r {
            Some(t) => tokens_iter.pos() < tokens_iter.toks().len() && t@ == tokens_iter.toks()[
                tokens_iter.pos()
            ],
            None => tokens_iter.pos() == tokens_iter.toks().len(),
        },
{
    if tokens_iter.pos < tokens_iter.tokens.len() {
        Some(tokens_iter.tokens[tokens_iter.pos].dup())
    } else {
        None
    }
}

/// Tries to match the next token against some kind of the given list,
/// comparing its shape only. If it matches, consumes it from the stream.
pub fn match_token(kinds_to_match: &[TokenKind], tokens_iter: &mut TokenStream) -> (r: Option<
    Token,
>)
    requires
        old(tokens_iter).wf(),
    ensures
        final(tokens_iter).wf(),
        final(tokens_iter).toks() == old(tokens_iter).toks(),
        ({
            let ts = old(tokens_iter).toks();
            let p = old(tokens_iter).pos();
            if p < ts.len() && kinds_to_match@.contains(kind_of(ts[p])) {
                r matches Some(t) && t@ == ts[p] && final(tokens_iter).pos() == p + 1
            } else {
                r is None && final(tokens_iter).pos() == p
            }
        }),
{
    let current = match peek(tokens_iter) {
        Some(t) => t,
        None => {
            return None;
        },
    };
    let kind = current.kind();
    let mut i: usize = 0;
    while i < kinds_to_match.len()
        invariant
            0 <= i <= kinds_to_match@.len(),
            forall|j: int| 0 <= j < i ==> kinds_to_match@[j] != kind,
            tokens_iter.wf(),
            *tokens_iter == *old(tokens_iter),
            old(tokens_iter).pos() < old(tokens_iter).toks().len(),
            current@ == old(tokens_iter).toks()[old(tokens_iter).pos()],
            kind == kind_of(current@),
        decreases kinds_to_match@.len() - i,
    {
        if kinds_to_match[i] == kind {
            return tokens_iter.next();
        }
        i = i + 1;
    }
    None
}

/// Tries to match the next token against some token of the given list,
/// comparing its shape and its payload. If it matches, consumes it from
/// the stream.
pub fn match_concrete_token(tokens_to_match: &[Token], tokens_iter: &mut TokenStream) -> (r:
    Option<Token>)
    requires
        old(tokens_iter).wf(),
    ensures
        final(tokens_iter).wf(),
        final(tokens_iter).toks() == old(tokens_iter).toks(),
        ({
            let ts = old(tokens_iter).toks();
            let p = old(tokens_iter).pos();
            if p < ts.len() && (exists|j: int|
                0 <= j < tokens_to_match@.len() && (#[trigger] tokens_to_match@[j])@ == ts[p]) {
                r matches Some(t) && t@ == ts[p] && final(tokens_iter).pos() == p + 1
            } else {
                r is None && final(tokens_iter).pos() == p
            }
        }),
{
    let current = match peek(tokens_iter) {
        Some(t) => t,
        None => {
            return None;
        },
    };
    let mut i: usize = 0;
    while i < tokens_to_match.len()
        invariant
            0 <= i <= tokens_to_match@.len(),
            forall|j: int| 0 <= j < i ==> (#[trigger] tokens_to_match@[j])@ != current@,
            tokens_iter.wf(),
            *tokens_iter == *old(tokens_iter),
            old(tokens_iter).pos() < old(tokens_iter).toks().len(),
            current@ == old(tokens_iter).toks()[old(tokens_iter).pos()],
        decreases tokens_to_match@.len() - i,
    {
        if &current == &tokens_to_match[i] {
            return tokens_iter.next();
        }
        i = i + 1;
    }
    None
}

} // verus!
