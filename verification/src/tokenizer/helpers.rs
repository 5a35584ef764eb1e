//! The character-level sub-parsers of the lexer: one for numeric literals
//! and one for operator symbols, both driven over a shared cursor.

use vstd::prelude::*;

verus! {

use crate::is_digit;
use crate::is_digit_char;
use crate::tokenizer::tokens::{Number, Operator, Token, TokenV};
use crate::tokenizer::tokens::{is_raw_num, normalize};
use crate::tokenizer::tokens::{count_char, lemma_count_concat, lemma_count_singleton};
use crate::tokenizer::tokens::{dot_from, lemma_count_two, lemma_dot_from_bounds};
use crate::tokenizer::tokens::lemma_dot_from_spec;

/// A character that renders an operator.
pub open spec fn is_op_char(c: char) -> bool {
    c == '+' || c == '-' || c == '*' || c == '/'
}

/// The operator a character stands for.
pub open spec fn op_of_char(c: char) -> Operator {
    if c == '+' {
        Operator::Plus
    } else if c == '-' {
        Operator::Minus
    } else if c == '*' {
        Operator::Star
    } else {
        Operator::Slash
    }
}

/// The two whitespace characters the lexer skips.
pub open spec fn is_ws(c: char) -> bool {
    c == ' ' || c == '\n'
}

/// A cursor over the characters of one line of input: the source text and
/// the position of the next character to consume.
#[derive(Debug)]
pub struct CharCursor<'a> {
    s: &'a str,
    pos: usize,
    len: usize,
}

impl<'a> CharCursor<'a> {
    /// The full source text under the cursor.
    pub closed spec fn src(self) -> Seq<char> {
        self.s@
    }

    /// The position of the next character to consume.
    pub closed spec fn pos(self) -> int {
        self.pos as int
    }

    /// The cursor's internal consistency.
    pub closed spec fn wf(self) -> bool {
        self.len == self.s@.len() && self.pos <= self.len
    }

    /// Opens a cursor at the start of a source line.
    pub fn new(source: &'a str) -> (c: Self)
        ensures
            c.wf(),
            c.src() == source@,
            c.pos() == 0,
    {
        let len = source.unicode_len();
        CharCursor { s: source, pos: 0, len }
    }

    /// How many characters are left to consume.
    pub fn remaining(&self) -> (n: usize)
        requires
            self.wf(),
        ensures
            n == self.src().len() - self.pos(),
    {
        self.len - self.pos
    }

    /// Consumes one character.
    pub fn advance(&mut self)
        requires
            old(self).wf(),
            old(self).pos() < old(self).src().len(),
        ensures
            final(self).wf(),
            final(self).src() == old(self).src(),
            final(self).pos() == old(self).pos() + 1,
    {
        self.pos = self.pos + 1;
    }

    /// The current position, as a machine integer.
    pub fn position(&self) -> (p: usize)
        ensures
            p == self.pos(),
    {
        self.pos
    }

    /// The source text between two character positions.
    pub fn slice(&self, from: usize, to: usize) -> (r: &'a str)
        requires
            self.wf(),
            from <= to <= self.src().len(),
        ensures
            r@ == self.src().subrange(from as int, to as int),
    {
        self.s.substring_char(from, to)
    }
}

/// A consistent cursor stands between the start and the end of its text.
pub broadcast proof fn lemma_cursor_bounds(c: CharCursor)
    ensures
        #[trigger] c.wf() ==> 0 <= c.pos() <= c.src().len(),
{
}

/// Takes a look at the current character of the cursor without consuming it.
pub fn peek(chars: &CharCursor) -> (r: Option<char>)
    requires
        chars.wf(),
    ensures
        match r {
            Some(c) => chars.pos() < chars.src().len() && c == chars.src()[chars.pos()],
            None => chars.pos() == chars.src().len(),
        },
{
    if chars.pos < chars.len {
        Some(chars.s.get_char(chars.pos))
    } else {
        None
    }
}

/// Parses the character under the cursor as an operator token, consuming it,
/// or consumes it silently when it is whitespace; any other character is a
/// failure that consumes nothing.
pub fn parse_operator<'a, 'b>(chars: &'b mut CharCursor<'a>) -> (r: Result<
    Option<Token>,
    &'static str,
>)
    requires
        old(chars).wf(),
    ensures
        final(chars).wf(),
        final(chars).src() == old(chars).src(),
        ({
            let s = old(chars).src();
            let p = old(chars).pos();
            match r {
                Ok(Some(t)) => p < s.len() && is_op_char(s[p]) && t@ == TokenV::Operator(
                    op_of_char(s[p]),
                ) && final(chars).pos() == p + 1,
                Ok(None) => p < s.len() && is_ws(s[p]) && final(chars).pos() == p + 1,
                Err(m) => !(p < s.len() && (is_op_char(s[p]) || is_ws(s[p]))) && m@
                    == "cannot parse operator"@ && final(chars).pos() == p,
            }
        }),
{
    let c = peek(chars);
    match c {
        Some('+') => {
            chars.advance();
            Ok(Some(Token::Operator(Operator::Plus)))
        },
        Some('-') => {
            chars.advance();
            Ok(Some(Token::Operator(Operator::Minus)))
        },
        Some('*') => {
            chars.advance();
            Ok(Some(Token::Operator(Operator::Star)))
        },
        Some('/') => {
            chars.advance();
            Ok(Some(Token::Operator(Operator::Slash)))
        },
        Some(' ') | Some('\n') => {
            chars.advance();
            Ok(None)
        },
        _ => Err("cannot parse operator"),
    }
}

/// How many characters the number scan consumes after its leading digit,
/// starting at `i` with `has_dot` telling whether a dot was already seen:
/// digits always continue the run, a first dot continues it, a second dot
/// is a malformed literal (`None`), and any other character ends it.
pub open spec fn num_tail(s: Seq<char>, i: int, has_dot: bool) -> Option<nat>
    decreases s.len() - i,
{
    if !(0 <= i < s.len()) {
        Some(0)
    } else if is_digit(s[i]) {
        match num_tail(s, i + 1, has_dot) {
            None => None,
            Some(k) => Some((k + 1) as nat),
        }
    } else if s[i] == '.' {
        if has_dot {
            None
        } else {
            match num_tail(s, i + 1, true) {
                None => None,
                Some(k) => Some((k + 1) as nat),
            }
        }
    } else {
        Some(0)
    }
}

pub proof fn lemma_num_tail_bound(s: Seq<char>, i: int, has_dot: bool)
    requires
        0 <= i <= s.len(),
    ensures
        num_tail(s, i, has_dot) matches Some(k) ==> i + k <= s.len(),
    decreases s.len() - i,
{
    if i < s.len() && (is_digit(s[i]) || s[i] == '.') {
        lemma_num_tail_bound(s, i + 1, has_dot);
        lemma_num_tail_bound(s, i + 1, true);
    }
}

pub proof fn lemma_num_tail_chars(s: Seq<char>, i: int, has_dot: bool)
    requires
        0 <= i <= s.len(),
    ensures
        num_tail(s, i, has_dot) matches Some(k) ==> {
            &&& forall|j: int| i <= j < i + k ==> is_digit(#[trigger] s[j]) || s[j] == '.'
            &&& count_char(s.subrange(i, i + k), '.') + (if has_dot {
                1int
            } else {
                0int
            }) <= 1
        },
    decreases s.len() - i,
{
    if i < s.len() && (is_digit(s[i]) || s[i] == '.') {
        let d2 = if s[i] == '.' {
            true
        } else {
            has_dot
        };
        if !(s[i] == '.' && has_dot) {
            lemma_num_tail_chars(s, i + 1, d2);
            lemma_num_tail_bound(s, i + 1, d2);
            match num_tail(s, i + 1, d2) {
                Some(k2) => {
                    let k = k2 + 1;
                    assert(s.subrange(i, i + k) =~= seq![s[i]] + s.subrange(i + 1, i + 1 + k2));
                    lemma_count_concat(seq![s[i]], s.subrange(i + 1, i + 1 + k2), '.');
                    lemma_count_singleton(s[i], '.');
                },
                None => {},
            }
        }
    } else {
        assert(s.subrange(i, i) =~= Seq::<char>::empty());
    }
}

/// A successful number scan collects a raw numeric literal.
pub proof fn lemma_scan_raw(s: Seq<char>, p: int)
    requires
        0 <= p < s.len(),
        is_digit(s[p]),
        num_tail(s, p + 1, false) is Some,
    ensures
        ({
            let k = num_tail(s, p + 1, false)->Some_0;
            is_raw_num(s.subrange(p, p + 1 + k))
        }),
{
    let k = num_tail(s, p + 1, false)->Some_0;
    lemma_num_tail_bound(s, p + 1, false);
    lemma_num_tail_chars(s, p + 1, false);
    let raw = s.subrange(p, p + 1 + k);
    assert(raw =~= seq![s[p]] + s.subrange(p + 1, p + 1 + k));
    lemma_count_concat(seq![s[p]], s.subrange(p + 1, p + 1 + k), '.');
    lemma_count_singleton(s[p], '.');
    assert(count_char(raw, '.') <= 1);
    assert(forall|j: int| 0 <= j < raw.len() ==> is_digit(#[trigger] raw[j]) || raw[j] == '.');
    let d = dot_from(raw, 0);
    lemma_dot_from_bounds(raw, 0);
    lemma_dot_from_spec(raw, 0);
    assert(d >= 1) by {
        assert(raw[0] == s[p]);
    }
    if d < raw.len() {
        assert(forall|j: int| d + 1 <= j < raw.len() ==> is_digit(#[trigger] raw[j])) by {
            assert forall|j: int| d + 1 <= j < raw.len() && !is_digit(#[trigger] raw[j])
                implies false by {
                assert(raw[j] == '.');
                lemma_count_two(raw, '.', d, j);
            }
        }
    }
}

/// Scanning inside a canonical numeric literal embedded in a larger text
/// consumes exactly the rest of the literal, provided the character after
/// it (if any) cannot extend a numeric run.
pub proof fn lemma_scan_window(w: Seq<char>, base: int, n: Seq<char>, j: int, has_dot: bool)
    requires
        crate::tokenizer::tokens::is_normal_num(n),
        0 <= base,
        base + n.len() <= w.len(),
        w.subrange(base, base + n.len()) == n,
        1 <= j <= n.len(),
        has_dot == (dot_from(n, 0) < j),
        base + n.len() == w.len() || !(is_digit(w[base + n.len()]) || w[base + n.len()]
            == '.'),
    ensures
        num_tail(w, base + j, has_dot) == Some((n.len() - j) as nat),
    decreases n.len() - j,
{
    lemma_dot_from_bounds(n, 0);
    lemma_dot_from_spec(n, 0);
    let d = dot_from(n, 0);
    if j < n.len() {
        assert(w[base + j] == n[j]);
        if j < d {
            assert(is_digit(n[j]));
            lemma_scan_window(w, base, n, j + 1, has_dot);
        } else if j == d {
            assert(n[j] == '.');
            assert(!has_dot);
            lemma_scan_window(w, base, n, j + 1, true);
            assert(!is_digit('.'));
        } else {
            assert(is_digit(n[j]));
            lemma_scan_window(w, base, n, j + 1, has_dot);
        }
    } else {
        if base + n.len() == w.len() {
        } else {
            assert(!(is_digit(w[base + j]) || w[base + j] == '.'));
        }
    }
}

/// Parses the maximal numeric literal under the cursor, consuming it and
/// emitting its token in canonical form. A second dot in the run is a hard
/// failure; a cursor that does not stand on a digit is a failure that
/// consumes nothing.
pub fn parse_number<'a, 'b>(chars: &'b mut CharCursor<'a>) -> (r: Result<
    Option<Token>,
    &'static str,
>)
    requires
        old(chars).wf(),
    ensures
        final(chars).wf(),
        final(chars).src() == old(chars).src(),
        ({
            let s = old(chars).src();
            let p = old(chars).pos();
            match r {
                Ok(opt) => {
                    &&& p < s.len()
                    &&& is_digit(s[p])
                    &&& num_tail(s, p + 1, false) matches Some(k)
                        && opt matches Some(t)
                        && t@ == TokenV::Number(normalize(s.subrange(p, p + 1 + k)))
                        && final(chars).pos() == p + 1 + k
                },
                Err(m) => {
                    &&& m@ == "cannot parse number"@
                    &&& if p < s.len() && is_digit(s[p]) {
                        num_tail(s, p + 1, false) is None && p <= final(chars).pos()
                            <= s.len()
                    } else {
                        final(chars).pos() == p
                    }
                },
            }
        }),
{
    let ghost s = old(chars).src();
    let start = chars.position();
    let ghost p = start as int;
    let starts_with_digit = match peek(chars) {
        Some(c) => is_digit_char(c),
        None => false,
    };
    if !starts_with_digit {
        return Err("cannot parse number");
    }
    chars.advance();

    let mut has_dot = false;
    loop
        invariant
            s == old(chars).src(),
            p == old(chars).pos(),
            chars.wf(),
            chars.src() == s,
            p + 1 <= chars.pos() <= s.len(),
            p < s.len() && is_digit(s[p]),
            (match num_tail(s, chars.pos(), has_dot) {
                None => num_tail(s, p + 1, false) is None,
                Some(k) => num_tail(s, p + 1, false) == Some((chars.pos() - (p + 1) + k) as nat),
            }),
            forall|j: int| p + 1 <= j < chars.pos()
                ==> is_digit(#[trigger] s[j]) || s[j] == '.',
            has_dot <==> exists|j: int| p + 1 <= j < chars.pos() && #[trigger] s[j] == '.',
            forall|i2: int, j2: int| p + 1 <= i2 < chars.pos() && p + 1 <= j2 < chars.pos()
                && #[trigger] s[i2] == '.' && #[trigger] s[j2] == '.' ==> i2 == j2,
        ensures
            chars.wf(),
            chars.src() == s,
            p + 1 <= chars.pos() <= s.len(),
            num_tail(s, p + 1, false) == Some((chars.pos() - (p + 1)) as nat),
            forall|j: int| p + 1 <= j < chars.pos()
                ==> is_digit(#[trigger] s[j]) || s[j] == '.',
            forall|i2: int, j2: int| p + 1 <= i2 < chars.pos() && p + 1 <= j2 < chars.pos()
                && #[trigger] s[i2] == '.' && #[trigger] s[j2] == '.' ==> i2 == j2,
        decreases s.len() - chars.pos(),
    {
        match peek(chars) {
            Some(c) => {
                if is_digit_char(c) {
                    chars.advance();
                } else if c == '.' {
                    if has_dot {
                        return Err("cannot parse number");
                    }
                    has_dot = true;
                    chars.advance();
                } else {
                    break;
                }
            },
            None => {
                break;
            },
        }
    }

    let end = chars.position();
    let ghost cur = end as int;
    let raw = chars.slice(start, end);
    proof {
        let rv = raw@;
        assert(rv.len() == cur - p);
        assert(rv[0] == s[p]);
        assert(forall|j: int| 1 <= j < rv.len()
            ==> (is_digit(#[trigger] rv[j]) || rv[j] == '.'));
        crate::tokenizer::tokens::lemma_dot_from_bounds(rv, 0);
        crate::tokenizer::tokens::lemma_dot_from_spec(rv, 0);
        let d = crate::tokenizer::tokens::dot_from(rv, 0);
        assert(d >= 1);
        if d < rv.len() {
            assert(rv[d] == '.');
            assert(forall|k: int| d + 1 <= k < rv.len() ==> #[trigger] rv[k] != '.') by {
                assert(forall|k: int| d + 1 <= k < rv.len() && #[trigger] rv[k] == '.'
                    ==> s[k + p] == '.' && s[d + p] == '.' && k + p == d + p);
            }
        }
        assert(is_raw_num(rv));
    }
    let token = Token::Number(Number::from_raw(raw));
    Ok(Some(token))
}

} // verus!
