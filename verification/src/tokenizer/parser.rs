//! The tokenizer: drives the sub-parsers over one line of input and
//! collects the emitted tokens, or reports the first lexing error.

use vstd::prelude::*;

verus! {

use crate::is_digit;
use crate::tokenizer::helpers::{CharCursor, is_op_char, is_ws, num_tail, op_of_char, peek};
broadcast use crate::tokenizer::helpers::lemma_cursor_bounds;
use crate::tokenizer::helpers::{parse_number, parse_operator};
use crate::tokenizer::tokens::{Token, TokenV, normalize, views_of};
use crate::tokenizer::helpers::{lemma_num_tail_bound, lemma_scan_raw, lemma_scan_window};
use crate::tokenizer::tokens::{is_normal_num, lemma_normal_fixed, lemma_normalize_normal};
use crate::tokenizer::tokens::{dot_from, lemma_dot_from_bounds, lemma_dot_from_spec};
use crate::tokenizer::tokens::{spec_render_token, spec_render_tokens, wf_token};

/// Caps a position at the end of the text.
pub open spec fn cap_at(len: int, i: int) -> int {
    if i <= len {
        i
    } else {
        len
    }
}

/// What lexing the source from position `i` yields: the token sequence of
/// the rest of the text, or the message of the first lexing error. A digit
/// starts a maximal numeric run (malformed runs are an error), an operator
/// symbol is one token, whitespace is skipped, and anything else is an
/// unexpected token.
pub open spec fn spec_lex(s: Seq<char>, i: int) -> Result<Seq<TokenV>, Seq<char>>
    decreases s.len() - i,
{
    if !(0 <= i < s.len()) {
        Ok(Seq::empty())
    } else if is_digit(s[i]) {
        match num_tail(s, i + 1, false) {
            None => Err("cannot parse number"@),
            Some(k) => {
                let next = cap_at(s.len() as int, i + 1 + k);
                let raw = s.subrange(i, next);
                match spec_lex(s, next) {
                    Err(m) => Err(m),
                    Ok(rest) => Ok(seq![TokenV::Number(normalize(raw))] + rest),
                }
            },
        }
    } else if is_op_char(s[i]) {
        match spec_lex(s, i + 1) {
            Err(m) => Err(m),
            Ok(rest) => Ok(seq![TokenV::Operator(op_of_char(s[i]))] + rest),
        }
    } else if is_ws(s[i]) {
        spec_lex(s, i + 1)
    } else {
        Err("unexpected token"@)
    }
}

/// Every token the lexer emits is well formed: its numbers are in
/// canonical form.
pub proof fn lemma_lex_wf(s: Seq<char>, i: int)
    requires
        0 <= i <= s.len(),
    ensures
        spec_lex(s, i) matches Ok(ts) ==> forall|k: int|
            0 <= k < ts.len() ==> crate::tokenizer::tokens::wf_token(#[trigger] ts[k]),
    decreases s.len() - i,
{
    if i < s.len() {
        if is_digit(s[i]) {
            match num_tail(s, i + 1, false) {
                None => {},
                Some(k) => {
                    lemma_num_tail_bound(s, i + 1, false);
                    let next = cap_at(s.len() as int, i + 1 + k);
                    assert(next == i + 1 + k);
                    lemma_scan_raw(s, i);
                    lemma_normalize_normal(s.subrange(i, i + 1 + k));
                    lemma_lex_wf(s, next);
                },
            }
        } else if is_op_char(s[i]) {
            lemma_lex_wf(s, i + 1);
        } else if is_ws(s[i]) {
            lemma_lex_wf(s, i + 1);
        }
    }
}

/// Lexing a text whose suffix from `i` is the canonical rendering of a
/// well-formed token sequence yields exactly that sequence.
#[verifier::rlimit(100)]
proof fn lemma_lex_at(w: Seq<char>, i: int, ts: Seq<TokenV>)
    requires
        0 <= i <= w.len(),
        w.subrange(i, w.len() as int) == crate::tokenizer::tokens::spec_render_tokens(ts),
        forall|k: int| 0 <= k < ts.len() ==> crate::tokenizer::tokens::wf_token(
            #[trigger] ts[k],
        ),
    ensures
        spec_lex(w, i) == Ok::<Seq<TokenV>, Seq<char>>(ts),
    decreases ts.len(),
{
    let r = spec_render_tokens(ts);
    if ts.len() == 0 {
        assert(i == w.len());
        assert(ts =~= Seq::<TokenV>::empty());
    } else {
        let t0 = ts[0];
        assert(wf_token(t0));
        let piece = spec_render_token(t0);
        let plen = piece.len() as int;
        assert(forall|x: int| i <= x < w.len() ==> #[trigger] w[x] == r[x - i]);
        if ts.len() == 1 {
            assert(r == piece);
            assert(w.len() - i == plen);
        } else {
            assert(r == piece + seq![' '] + spec_render_tokens(ts.drop_first()));
            assert(w.len() - i == r.len());
            assert(forall|x: int| 0 <= x < plen ==> #[trigger] r[x] == piece[x]);
            assert(r[plen] == ' ');
        }
        match t0 {
            TokenV::Operator(op) => {
                assert(piece == seq![op.spec_char()]);
                assert(w[i] == r[0]);
                assert(w[i] == op.spec_char());
                assert(is_op_char(w[i]) && !is_digit(w[i]));
                assert(op_of_char(op.spec_char()) == op);
                if ts.len() == 1 {
                    assert(spec_render_tokens(ts.drop_first()).len() == 0);
                    assert(w.subrange(i + 1, w.len() as int) =~= spec_render_tokens(
                        ts.drop_first(),
                    ));
                    lemma_lex_at(w, i + 1, ts.drop_first());
                } else {
                    assert(w[i + 1] == ' ');
                    assert(is_ws(w[i + 1]));
                    assert(w.subrange(i + 2, w.len() as int) =~= spec_render_tokens(
                        ts.drop_first(),
                    ));
                    lemma_lex_at(w, i + 2, ts.drop_first());
                    assert(spec_lex(w, i + 1) == spec_lex(w, i + 2));
                }
                assert(seq![t0] + ts.drop_first() =~= ts);
                assert(spec_lex(w, i) == Ok::<Seq<TokenV>, Seq<char>>(ts));
            },
            TokenV::Number(n) => {
                assert(is_normal_num(n));
                lemma_dot_from_bounds(n, 0);
                lemma_dot_from_spec(n, 0);
                assert(w.subrange(i, i + plen) =~= n);
                assert(w[i] == r[0]);
                assert(w[i] == n[0]);
                assert(is_digit(n[0]));
                if ts.len() == 1 {
                    assert(i + plen == w.len());
                } else {
                    assert(w[i + plen] == ' ');
                    assert(!(is_digit(w[i + plen]) || w[i + plen] == '.'));
                }
                lemma_scan_window(w, i, n, 1, false);
                assert(num_tail(w, i + 1, false) == Some((plen - 1) as nat));
                let next = cap_at(w.len() as int, i + plen);
                assert(next == i + plen);
                assert(w.subrange(i, next) == n);
                lemma_normal_fixed(n);
                if ts.len() == 1 {
                    assert(w.subrange(next, w.len() as int) =~= spec_render_tokens(
                        ts.drop_first(),
                    ));
                    lemma_lex_at(w, next, ts.drop_first());
                } else {
                    assert(is_ws(w[next]));
                    assert(w.subrange(next + 1, w.len() as int) =~= spec_render_tokens(
                        ts.drop_first(),
                    ));
                    lemma_lex_at(w, next + 1, ts.drop_first());
                    assert(spec_lex(w, next) == spec_lex(w, next + 1));
                }
                assert(seq![t0] + ts.drop_first() =~= ts);
                assert(spec_lex(w, i) == Ok::<Seq<TokenV>, Seq<char>>(ts));
            },
        }
    }
}

proof fn lemma_lex_all_ws(u: Seq<char>, j: int)
    requires
        0 <= j <= u.len(),
        forall|x: int| j <= x < u.len() ==> is_ws(#[trigger] u[x]),
    ensures
        spec_lex(u, j) == Ok::<Seq<TokenV>, Seq<char>>(Seq::empty()),
    decreases u.len() - j,
{
    if j < u.len() {
        assert(is_ws(u[j]));
        assert(!is_digit(u[j]) && !is_op_char(u[j]));
        lemma_lex_all_ws(u, j + 1);
    }
}

proof fn lemma_num_tail_ext(s: Seq<char>, u: Seq<char>, i: int, has_dot: bool)
    requires
        0 <= i <= s.len(),
        s.len() <= u.len(),
        u.subrange(0, s.len() as int) == s,
        s.len() == u.len() || !(is_digit(u[s.len() as int]) || u[s.len() as int] == '.'),
    ensures
        num_tail(u, i, has_dot) == num_tail(s, i, has_dot),
    decreases s.len() - i,
{
    assert(forall|x: int| 0 <= x < s.len() ==> #[trigger] u[x] == s[x]);
    if i < s.len() {
        lemma_num_tail_ext(s, u, i + 1, has_dot);
        lemma_num_tail_ext(s, u, i + 1, true);
    }
}

/// Trailing whitespace is ignored: appending spaces and newlines to a line
/// changes neither its tokens nor its error.
pub proof fn lemma_lex_trailing_whitespace(s: Seq<char>, w: Seq<char>, i: int)
    requires
        0 <= i <= s.len(),
        forall|x: int| 0 <= x < w.len() ==> is_ws(#[trigger] w[x]),
    ensures
        spec_lex(s + w, i) == spec_lex(s, i),
    decreases s.len() - i,
{
    let u = s + w;
    assert(u.subrange(0, s.len() as int) =~= s);
    assert(forall|x: int| 0 <= x < s.len() ==> #[trigger] u[x] == s[x]);
    if s.len() < u.len() {
        assert(u[s.len() as int] == w[0]);
        assert(is_ws(w[0]));
        assert(!(is_digit(u[s.len() as int]) || u[s.len() as int] == '.'));
    }
    if i < s.len() {
        if is_digit(s[i]) {
            lemma_num_tail_ext(s, u, i + 1, false);
            match num_tail(s, i + 1, false) {
                None => {},
                Some(k) => {
                    lemma_num_tail_bound(s, i + 1, false);
                    let next = cap_at(s.len() as int, i + 1 + k);
                    assert(next == i + 1 + k);
                    assert(cap_at(u.len() as int, i + 1 + k) == next);
                    assert(u.subrange(i, next) =~= s.subrange(i, next));
                    lemma_lex_trailing_whitespace(s, w, next);
                },
            }
        } else if is_op_char(s[i]) {
            lemma_lex_trailing_whitespace(s, w, i + 1);
        } else if is_ws(s[i]) {
            lemma_lex_trailing_whitespace(s, w, i + 1);
        }
    } else {
        assert(forall|x: int| i <= x < u.len() ==> is_ws(#[trigger] u[x]));
        lemma_lex_all_ws(u, i);
    }
}

/// Lexing the rendering of what the lexer produced yields the same token
/// sequence: the tokens of a valid input, joined with a separating space,
/// form a valid input again, with a structurally equal token vector.
pub proof fn lemma_lex_render_round_trip(s: Seq<char>)
    requires
        spec_lex(s, 0) is Ok,
    ensures
        ({
            let ts = spec_lex(s, 0)->Ok_0;
            spec_lex(crate::tokenizer::tokens::spec_render_tokens(ts), 0) == Ok::<
                Seq<TokenV>,
                Seq<char>,
            >(ts)
        }),
{
    let ts = spec_lex(s, 0)->Ok_0;
    let w = crate::tokenizer::tokens::spec_render_tokens(ts);
    lemma_lex_wf(s, 0);
    assert(w.subrange(0, w.len() as int) =~= w);
    lemma_lex_at(w, 0, ts);
}

/// A lexing failure: a static message under the `TOKENIZER` category.
#[derive(Clone, Copy, Debug)]
pub struct TokenizerError {
    message: &'static str,
}

impl View for TokenizerError {
    type V = Seq<char>;

    closed spec fn view(&self) -> Seq<char> {
        self.message@
    }
}

impl TokenizerError {
    pub fn new(message: &'static str) -> (e: Self)
        ensures
            e@ == message@,
    {
        Self { message }
    }

    /// The message body of the error.
    pub fn message(&self) -> (m: &'static str)
        ensures
            m@ == self@,
    {
        self.message
    }

    /// The full diagnostic line for the error channel.
    pub fn diagnostic(&self) -> (s: String)
        ensures
            s@ == "[TOKENIZER ERROR]: "@ + self@,
    {
        let mut s = String::from_str("[TOKENIZER ERROR]: ");
        s.append(self.message);
        s
    }
}

/// The lexer: consumes the characters of one source line and accumulates
/// the tokens they spell.
#[derive(Debug)]
pub struct Tokenizer<'a> {
    pub chars: CharCursor<'a>,
    pub tokens: Vec<Token>,
}

impl<'a> Tokenizer<'a> {
    /// The source line under the cursor.
    pub closed spec fn src(self) -> Seq<char> {
        self.chars.src()
    }

    /// The position of the next character to consume.
    pub closed spec fn pos(self) -> int {
        self.chars.pos()
    }

    /// The tokenizer's internal consistency.
    pub closed spec fn wf(self) -> bool {
        self.chars.wf()
    }

    pub fn new(source: &'a str) -> (t: Self)
        ensures
            t.wf(),
            t.src() == source@,
            t.pos() == 0,
            t.tokens@ == Seq::<Token>::empty(),
    {
        Self { chars: CharCursor::new(source), tokens: Vec::new() }
    }

    /// Whether every character has been consumed.
    pub fn is_end(&self) -> (b: bool)
        requires
            self.wf(),
        ensures
            b == (self.pos() == self.src().len()),
    {
        self.chars.remaining() == 0
    }

    /// How many characters are left to consume.
    pub fn remaining(&self) -> (n: usize)
        requires
            self.wf(),
        ensures
            n == self.src().len() - self.pos(),
    {
        self.chars.remaining()
    }

    /// Scans one token (or one whitespace skip) at the cursor: a digit
    /// engages the number sub-parser, anything else the operator one, and
    /// a character neither accepts is an unexpected token.
    fn scan_token(&mut self) -> (r: Result<(), TokenizerError>)
        requires
            old(self).wf(),
            old(self).pos() < old(self).src().len(),
        ensures
            final(self).wf(),
            final(self).src() == old(self).src(),
            ({
                let s = old(self).src();
                let p = old(self).pos();
                match r {
                    Ok(()) => {
                        &&& p < final(self).pos() <= s.len()
                        &&& final(self).tokens@.len() >= old(self).tokens@.len()
                        &&& final(self).tokens@.subrange(0, old(self).tokens@.len() as int)
                            == old(self).tokens@
                        &&& spec_lex(s, p) == (match spec_lex(s, final(self).pos()) {
                            Ok(rest) => Ok(
                                views_of(
                                    final(self).tokens@.skip(old(self).tokens@.len() as int),
                                ) + rest,
                            ),
                            Err(m) => Err::<Seq<TokenV>, Seq<char>>(m),
                        })
                    },
                    Err(e) => {
                        &&& spec_lex(s, p) == Err::<Seq<TokenV>, Seq<char>>(e@)
                        &&& final(self).tokens@ == old(self).tokens@
                        &&& p <= final(self).pos() <= s.len()
                    },
                }
            }),
    {
        let ghost s = old(self).src();
        let ghost p = old(self).pos();
        let c = match peek(&self.chars) {
            Some(c) => c,
            None => {
                // Unreachable under the precondition; kept total for safety.
                return Err(TokenizerError::new("unexpected token"));
            },
        };
        if crate::is_digit_char(c) {
            match parse_number(&mut self.chars) {
                Ok(Some(token)) => {
                    let ghost k = num_tail(s, p + 1, false)->Some_0;
                    proof {
                        crate::tokenizer::helpers::lemma_num_tail_bound(s, p + 1, false);
                        assert(cap_at(s.len() as int, p + 1 + k) == p + 1 + k);
                    }
                    self.tokens.push(token);
                    proof {
                        assert(final(self).tokens@.subrange(0, old(self).tokens@.len() as int)
                            =~= old(self).tokens@);
                        assert(final(self).tokens@.skip(old(self).tokens@.len() as int)
                            =~= seq![token]);
                        assert(views_of(seq![token]) =~= seq![token@]);
                        if spec_lex(s, p + 1 + k) is Ok {
                            assert(seq![token@] + spec_lex(s, p + 1 + k)->Ok_0
                                =~= seq![TokenV::Number(normalize(s.subrange(p, p + 1 + k)))]
                                + spec_lex(s, p + 1 + k)->Ok_0);
                        }
                    }
                    Ok(())
                },
                Ok(None) => {
                    // The number sub-parser never succeeds without a token.
                    proof {
                        assert(false);
                    }
                    Err(TokenizerError::new("unexpected token"))
                },
                Err(_) => Err(TokenizerError::new("cannot parse number")),
            }
        } else {
            match parse_operator(&mut self.chars) {
                Ok(Some(token)) => {
                    self.tokens.push(token);
                    proof {
                        assert(final(self).tokens@.subrange(0, old(self).tokens@.len() as int)
                            =~= old(self).tokens@);
                        assert(final(self).tokens@.skip(old(self).tokens@.len() as int)
                            =~= seq![token]);
                        assert(views_of(seq![token]) =~= seq![token@]);
                    }
                    Ok(())
                },
                Ok(None) => {
                    proof {
                        assert(final(self).tokens@.subrange(0, old(self).tokens@.len() as int)
                            =~= old(self).tokens@);
                        assert(final(self).tokens@.skip(old(self).tokens@.len() as int)
                            =~= Seq::<Token>::empty());
                        assert(views_of(Seq::<Token>::empty()) =~= Seq::<TokenV>::empty());
                        if spec_lex(s, p + 1) is Ok {
                            assert(Seq::<TokenV>::empty() + spec_lex(s, p + 1)->Ok_0
                                =~= spec_lex(s, p + 1)->Ok_0);
                        }
                    }
                    Ok(())
                },
                Err(_) => Err(TokenizerError::new("unexpected token")),
            }
        }
    }

    /// Lexes the whole line, appending every token it spells to `tokens`,
    /// or stops at the first lexing error.
    pub fn tokenize(&mut self) -> (r: Result<(), TokenizerError>)
        requires
            old(self).wf(),
        ensures
            final(self).wf(),
            final(self).src() == old(self).src(),
            ({
                let s = old(self).src();
                let p = old(self).pos();
                match r {
                    Ok(()) => {
                        &&& spec_lex(s, p) matches Ok(ts)
                            && views_of(final(self).tokens@)
                                == views_of(old(self).tokens@) + ts
                        &&& final(self).tokens@.subrange(0, old(self).tokens@.len() as int)
                            == old(self).tokens@
                        &&& final(self).pos() == s.len()
                    },
                    Err(e) => {
                        &&& spec_lex(s, p) == Err::<Seq<TokenV>, Seq<char>>(e@)
                        &&& final(self).tokens@.subrange(0, old(self).tokens@.len() as int)
                            == old(self).tokens@
                    },
                }
            }),
    {
        let ghost s = old(self).src();
        let ghost p = old(self).pos();
        let ghost n0 = old(self).tokens@.len() as int;
        while !self.is_end()
            invariant
                self.wf(),
                self.src() == s,
                s == old(self).src(),
                p == old(self).pos(),
                n0 == old(self).tokens@.len() as int,
                p <= self.pos() <= s.len(),
                self.tokens@.len() >= n0,
                self.tokens@.subrange(0, n0) == old(self).tokens@,
                spec_lex(s, p) == (match spec_lex(s, self.pos()) {
                    Ok(rest) => Ok(views_of(self.tokens@.skip(n0)) + rest),
                    Err(m) => Err::<Seq<TokenV>, Seq<char>>(m),
                }),
            decreases s.len() - self.pos(),
        {
            let ghost pos_before = self.pos();
            let ghost toks_before = self.tokens@;
            match self.scan_token() {
                Ok(()) => {
                    proof {
                        assert(self.tokens@.subrange(0, n0)
                            =~= toks_before.subrange(0, n0));
                        assert(self.tokens@.skip(n0)
                            =~= toks_before.skip(n0) + self.tokens@.skip(
                            toks_before.len() as int,
                        ));
                        if spec_lex(s, self.pos()) is Ok {
                            assert(views_of(self.tokens@.skip(n0))
                                =~= views_of(toks_before.skip(n0)) + views_of(
                                self.tokens@.skip(toks_before.len() as int),
                            ));
                            assert(views_of(toks_before.skip(n0)) + (views_of(
                                self.tokens@.skip(toks_before.len() as int),
                            ) + spec_lex(s, self.pos())->Ok_0)
                                =~= views_of(self.tokens@.skip(n0)) + spec_lex(
                                s,
                                self.pos(),
                            )->Ok_0);
                        }
                    }
                },
                Err(e) => {
                    return Err(e);
                },
            }
        }
        proof {
            assert(spec_lex(s, self.pos()) == Ok::<Seq<TokenV>, Seq<char>>(Seq::<TokenV>::empty()));
            assert(views_of(self.tokens@.skip(n0)) + Seq::<TokenV>::empty()
                =~= views_of(self.tokens@.skip(n0)));
            assert(views_of(self.tokens@) =~= views_of(self.tokens@.subrange(0, n0))
                + views_of(self.tokens@.skip(n0)));
            assert(views_of(old(self).tokens@) == views_of(self.tokens@.subrange(0, n0)));
        }
        Ok(())
    }
}

} // verus!
