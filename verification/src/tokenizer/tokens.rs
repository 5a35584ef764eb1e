//! The closed set of lexical tokens and their textual rendering.

use vstd::prelude::*;

verus! {

use crate::is_digit;

/// The four arithmetic operator symbols.
#[derive(Clone, Copy, Debug, PartialEq, Eq, Structural)]
pub enum Operator {
    Minus,
    Plus,
    Star,
    Slash,
}

impl Operator {
    /// The single character this operator renders as.
    pub open spec fn spec_char(self) -> char {
        match self {
            Operator::Plus => '+',
            Operator::Minus => '-',
            Operator::Star => '*',
            Operator::Slash => '/',
        }
    }

    /// Renders the operator as its symbol.
    pub fn symbol(&self) -> (s: &'static str)
        ensures
            s@ =~= seq![self.spec_char()],
    {
        match self {
            Operator::Plus => {
                proof { reveal_strlit("+"); }
                "+"
            },
            Operator::Minus => {
                proof { reveal_strlit("-"); }
                "-"
            },
            Operator::Star => {
                proof { reveal_strlit("*"); }
                "*"
            },
            Operator::Slash => {
                proof { reveal_strlit("/"); }
                "/"
            },
        }
    }
}

/// Index of the first `.` in `s` at or after `i`, or `s.len()` if none.
pub open spec fn dot_from(s: Seq<char>, i: int) -> int
    decreases s.len() - i,
{
    if !(0 <= i < s.len()) {
        s.len() as int
    } else if s[i] == '.' {
        i
    } else {
        dot_from(s, i + 1)
    }
}

/// Index of the first character in `s[i..d]` that is not `'0'`, or `d` if
/// the whole range is zeros.
pub open spec fn first_nonzero(s: Seq<char>, i: int, d: int) -> int
    decreases d - i,
{
    if i < d && s[i] == '0' {
        first_nonzero(s, i + 1, d)
    } else {
        i
    }
}

/// Position just after the last character of `s[d+1..e]` that is not `'0'`,
/// never receding past `d + 1`.
pub open spec fn last_nonzero_end(s: Seq<char>, e: int, d: int) -> int
    decreases e - d,
{
    if e > d + 1 && s[e - 1] == '0' {
        last_nonzero_end(s, e - 1, d)
    } else {
        e
    }
}

/// Every character of `s` in `[i, j)` is a digit.
pub open spec fn digits_in(s: Seq<char>, i: int, j: int) -> bool {
    forall|k: int| i <= k < j ==> is_digit(#[trigger] s[k])
}

/// A raw numeric literal as the lexer collects it: one or more digits,
/// optionally followed by `.` and zero or more digits.
pub open spec fn is_raw_num(s: Seq<char>) -> bool {
    let d = dot_from(s, 0);
    &&& s.len() >= 1
    &&& d >= 1
    &&& digits_in(s, 0, d)
    &&& (d < s.len() ==> digits_in(s, d + 1, s.len() as int))
}

/// The canonical form of a numeric literal: no redundant leading zeros in
/// the integer part, and a fractional part, if present, that is nonempty
/// and does not end in `'0'`.
pub open spec fn is_normal_num(s: Seq<char>) -> bool {
    let d = dot_from(s, 0);
    &&& s.len() >= 1
    &&& d >= 1
    &&& digits_in(s, 0, d)
    &&& (d == 1 || s[0] != '0')
    &&& (d < s.len() ==> {
        &&& d + 2 <= s.len()
        &&& digits_in(s, d + 1, s.len() as int)
        &&& s[s.len() - 1] != '0'
    })
}

/// The canonical form of a raw numeric literal: leading zeros stripped from
/// the integer part (keeping a single `'0'` where it would vanish), trailing
/// zeros stripped from the fractional part, and the dot dropped when the
/// fractional part vanishes.
pub open spec fn normalize(s: Seq<char>) -> Seq<char> {
    let d = dot_from(s, 0);
    let a = first_nonzero(s, 0, d);
    let int_part = if a == d { seq!['0'] } else { s.subrange(a, d) };
    let e = if d < s.len() { last_nonzero_end(s, s.len() as int, d) } else { d };
    let frac_part = if d < s.len() { s.subrange(d + 1, e) } else { Seq::<char>::empty() };
    if frac_part.len() == 0 {
        int_part
    } else {
        int_part + seq!['.'] + frac_part
    }
}

pub proof fn lemma_dot_from_bounds(s: Seq<char>, i: int)
    requires
        0 <= i <= s.len(),
    ensures
        i <= dot_from(s, i) <= s.len(),
    decreases s.len() - i,
{
    if i < s.len() && s[i] != '.' {
        lemma_dot_from_bounds(s, i + 1);
    }
}

pub proof fn lemma_first_nonzero_bounds(s: Seq<char>, i: int, d: int)
    requires
        i <= d,
    ensures
        i <= first_nonzero(s, i, d) <= d,
    decreases d - i,
{
    if i < d && s[i] == '0' {
        lemma_first_nonzero_bounds(s, i + 1, d);
    }
}

pub proof fn lemma_last_nonzero_end_bounds(s: Seq<char>, e: int, d: int)
    requires
        d + 1 <= e,
    ensures
        d + 1 <= last_nonzero_end(s, e, d) <= e,
    decreases e - d,
{
    if e > d + 1 && s[e - 1] == '0' {
        lemma_last_nonzero_end_bounds(s, e - 1, d);
    }
}

pub proof fn lemma_dot_from_first(s: Seq<char>, i: int, r: int)
    requires
        0 <= i <= r <= s.len(),
        forall|k: int| i <= k < r ==> #[trigger] s[k] != '.',
        r == s.len() || s[r] == '.',
    ensures
        dot_from(s, i) == r,
    decreases r - i,
{
    if i < r {
        lemma_dot_from_first(s, i + 1, r);
    }
}

pub proof fn lemma_dot_from_spec(s: Seq<char>, i: int)
    requires
        0 <= i <= s.len(),
    ensures
        forall|k: int| i <= k < dot_from(s, i) ==> #[trigger] s[k] != '.',
        dot_from(s, i) < s.len() ==> s[dot_from(s, i)] == '.',
    decreases s.len() - i,
{
    if i < s.len() && s[i] != '.' {
        lemma_dot_from_spec(s, i + 1);
    }
}

pub proof fn lemma_first_nonzero_spec(s: Seq<char>, i: int, d: int)
    requires
        i <= d,
    ensures
        forall|k: int| i <= k < first_nonzero(s, i, d) ==> #[trigger] s[k] == '0',
        first_nonzero(s, i, d) == d || s[first_nonzero(s, i, d)] != '0',
    decreases d - i,
{
    if i < d && s[i] == '0' {
        lemma_first_nonzero_spec(s, i + 1, d);
    }
}

pub proof fn lemma_last_nonzero_end_spec(s: Seq<char>, e: int, d: int)
    requires
        d + 1 <= e,
    ensures
        forall|k: int| last_nonzero_end(s, e, d) <= k < e ==> #[trigger] s[k] == '0',
        last_nonzero_end(s, e, d) == d + 1 || s[last_nonzero_end(s, e, d) - 1] != '0',
    decreases e - d,
{
    if e > d + 1 && s[e - 1] == '0' {
        lemma_last_nonzero_end_spec(s, e - 1, d);
    }
}

/// Normalizing a raw literal yields a literal in canonical form.
pub proof fn lemma_normalize_normal(s: Seq<char>)
    requires
        is_raw_num(s),
    ensures
        is_normal_num(normalize(s)),
{
    let d = dot_from(s, 0);
    lemma_dot_from_bounds(s, 0);
    let a = first_nonzero(s, 0, d);
    lemma_first_nonzero_bounds(s, 0, d);
    lemma_first_nonzero_spec(s, 0, d);
    let int_part = if a == d { seq!['0'] } else { s.subrange(a, d) };
    assert(digits_in(int_part, 0, int_part.len() as int)) by {
        assert(is_digit('0'));
    }
    let n = normalize(s);
    if d < s.len() {
        let e = last_nonzero_end(s, s.len() as int, d);
        lemma_last_nonzero_end_bounds(s, s.len() as int, d);
        lemma_last_nonzero_end_spec(s, s.len() as int, d);
        let frac_part = s.subrange(d + 1, e);
        if frac_part.len() == 0 {
            assert(n == int_part);
            lemma_dot_from_first(n, 0, n.len() as int);
        } else {
            let dn = int_part.len() as int;
            assert(n[dn] == '.');
            assert(forall|k: int| 0 <= k < dn ==> #[trigger] n[k] == int_part[k]);
            lemma_dot_from_first(n, 0, dn);
            assert(digits_in(n, 0, dn));
            assert(e > d + 1);
            assert(s[e - 1] != '0');
            assert(n[n.len() - 1] == s[e - 1]);
            assert(digits_in(n, dn + 1, n.len() as int)) by {
                assert(forall|k: int| dn + 1 <= k < n.len()
                    ==> #[trigger] n[k] == frac_part[k - dn - 1]);
            }
        }
    } else {
        assert(n == int_part);
        lemma_dot_from_first(n, 0, n.len() as int);
    }
}

/// Canonical form is a fixpoint of normalization.
pub proof fn lemma_normal_fixed(n: Seq<char>)
    requires
        is_normal_num(n),
    ensures
        normalize(n) == n,
{
    let d = dot_from(n, 0);
    lemma_dot_from_bounds(n, 0);
    lemma_dot_from_spec(n, 0);
    let a = first_nonzero(n, 0, d);
    lemma_first_nonzero_bounds(n, 0, d);
    lemma_first_nonzero_spec(n, 0, d);
    if a == d {
        // Only a one-digit integer part can be all zeros in canonical form.
        assert(n[0] == '0');
        assert(d == 1);
    }
    if d < n.len() {
        let e = last_nonzero_end(n, n.len() as int, d);
        assert(e == n.len());
        let frac_part = n.subrange(d + 1, e);
        assert(frac_part.len() > 0);
        if a == d {
            assert(normalize(n) =~= n);
        } else {
            assert(a == 0);
            assert(normalize(n) =~= n);
        }
    } else {
        if a == d {
            assert(normalize(n) =~= n);
        } else {
            assert(a == 0);
            assert(normalize(n) =~= n);
        }
    }
}

/// A numeric token value: the decimal digits of the literal as scanned,
/// held in canonical form.
#[derive(Clone, Debug)]
pub struct Number {
    text: String,
}

impl View for Number {
    type V = Seq<char>;

    closed spec fn view(&self) -> Seq<char> {
        self.text@
    }
}

impl Number {
    /// The canonical-form invariant of the stored digits.
    pub open spec fn wf(self) -> bool {
        is_normal_num(self@)
    }

    /// The literal text of the number.
    pub fn text(&self) -> (s: &str)
        ensures
            s@ == self@,
    {
        self.text.as_str()
    }

    /// Builds a number from a raw literal, putting it into canonical form.
    pub fn from_raw(s: &str) -> (n: Number)
        requires
            is_raw_num(s@),
        ensures
            n@ == normalize(s@),
    {
        let len: usize = s.unicode_len();
        let ghost sv = s@;

        // Locate the dot, if any.
        let mut d: usize = 0;
        while d < len && s.get_char(d) != '.'
            invariant
                0 <= d <= len,
                len == sv.len(),
                sv == s@,
                dot_from(sv, 0) == dot_from(sv, d as int),
            decreases len - d,
        {
            d = d + 1;
        }
        assert(dot_from(sv, 0) == d as int);

        // Skip redundant leading zeros of the integer part.
        let mut a: usize = 0;
        while a < d && s.get_char(a) == '0'
            invariant
                0 <= a <= d <= len,
                len == sv.len(),
                sv == s@,
                first_nonzero(sv, 0, d as int) == first_nonzero(sv, a as int, d as int),
            decreases d - a,
        {
            a = a + 1;
        }
        assert(first_nonzero(sv, 0, d as int) == a as int);

        let mut out: String;
        if a == d {
            proof { reveal_strlit("0"); }
            out = String::from_str("0");
            assert(out@ =~= seq!['0']);
        } else {
            out = String::from_str(s.substring_char(a, d));
        }

        if d < len {
            // Drop trailing zeros of the fractional part.
            let mut e: usize = len;
            while e > d + 1 && s.get_char(e - 1) == '0'
                invariant
                    d + 1 <= e <= len,
                    d < len,
                    len == sv.len(),
                    sv == s@,
                    last_nonzero_end(sv, len as int, d as int)
                        == last_nonzero_end(sv, e as int, d as int),
                decreases e - d,
            {
                e = e - 1;
            }
            assert(last_nonzero_end(sv, len as int, d as int) == e as int);
            if e > d + 1 {
                proof { reveal_strlit("."); }
                out.append(".");
                out.append(s.substring_char(d + 1, e));
                assert(out@ =~= normalize(sv));
            } else {
                assert(sv.subrange(d + 1, e as int).len() == 0);
            }
        }
        assert(out@ =~= normalize(sv));
        Number { text: out }
    }

    /// Rebuilds an equal number.
    pub fn dup(&self) -> (n: Number)
        ensures
            n == *self,
    {
        Number { text: self.text.clone() }
    }
}

impl Number {
    /// Builds a number from any literal text, if it is one the lexer would
    /// accept: one or more digits, optionally followed by `.` and digits.
    pub fn from_literal(s: &str) -> (r: Option<Number>)
        ensures
            match r {
                Some(n) => is_raw_num(s@) && n@ == normalize(s@) && n.wf(),
                None => !is_raw_num(s@),
            },
    {
        let len: usize = s.unicode_len();
        let ghost sv = s@;
        if len == 0 {
            return None;
        }

        // Every character up to a first dot must be a digit, and every
        // character after it as well; a second dot is malformed.
        let mut i: usize = 0;
        let mut dot: usize = len;
        while i < len
            invariant
                0 <= i <= len,
                len == sv.len(),
                sv == s@,
                dot == len || (1 <= dot < i && sv[dot as int] == '.'),
                forall|k: int| 0 <= k < i && k != dot ==> is_digit(#[trigger] sv[k]),
                forall|k: int| 0 <= k < i && sv[k] == '.' ==> k == dot,
            decreases len - i,
        {
            let c = s.get_char(i);
            if c == '.' {
                if dot < len || i == 0 {
                    proof {
                        if dot < len {
                            lemma_dot_from_spec(sv, 0);
                            lemma_dot_from_bounds(sv, 0);
                            if is_raw_num(sv) {
                                assert(dot_from(sv, 0) == dot as int) by {
                                    lemma_dot_from_first(sv, 0, dot as int);
                                }
                            }
                        }
                    }
                    return None;
                }
                dot = i;
            } else if !crate::is_digit_char(c) {
                proof {
                    lemma_dot_from_bounds(sv, 0);
                    lemma_dot_from_spec(sv, 0);
                }
                return None;
            }
            i = i + 1;
        }
        proof {
            if dot == len {
                lemma_dot_from_first(sv, 0, sv.len() as int);
            } else {
                lemma_dot_from_first(sv, 0, dot as int);
            }
            assert(dot_from(sv, 0) == dot as int);
            assert(is_raw_num(sv));
            lemma_normalize_normal(sv);
        }
        Some(Number::from_raw(s))
    }
}

impl PartialEq for Number {
    fn eq(&self, other: &Number) -> (r: bool) {
        self.text == other.text
    }
}

impl vstd::std_specs::cmp::PartialEqSpecImpl for Number {
    open spec fn obeys_eq_spec() -> bool {
        true
    }

    open spec fn eq_spec(&self, other: &Number) -> bool {
        self@ == other@
    }
}

/// A lexical token: a number or an operator symbol.
#[derive(Clone, Debug)]
pub enum Token {
    Number(Number),
    Operator(Operator),
}

/// The mathematical model of a token: a number is its canonical digit
/// sequence, an operator is its symbol.
pub enum TokenV {
    Number(Seq<char>),
    Operator(Operator),
}

impl View for Token {
    type V = TokenV;

    open spec fn view(&self) -> TokenV {
        match self {
            Token::Number(n) => TokenV::Number(n@),
            Token::Operator(op) => TokenV::Operator(*op),
        }
    }
}

/// The two shapes a token can take, without their payloads.
#[derive(Clone, Copy, Debug, PartialEq, Eq, Structural)]
pub enum TokenKind {
    Number,
    Operator,
}

/// The shape of a token.
pub open spec fn kind_of(t: TokenV) -> TokenKind {
    match t {
        TokenV::Number(_) => TokenKind::Number,
        TokenV::Operator(_) => TokenKind::Operator,
    }
}

/// A token is well formed when a numeric payload is in canonical form.
pub open spec fn wf_token(t: TokenV) -> bool {
    match t {
        TokenV::Number(text) => is_normal_num(text),
        TokenV::Operator(_) => true,
    }
}

/// The canonical text of one token.
pub open spec fn spec_render_token(t: TokenV) -> Seq<char> {
    match t {
        TokenV::Number(text) => text,
        TokenV::Operator(op) => seq![op.spec_char()],
    }
}

/// The canonical text of a token sequence: the tokens' renderings joined
/// with a single separating space.
pub open spec fn spec_render_tokens(ts: Seq<TokenV>) -> Seq<char>
    decreases ts.len(),
{
    if ts.len() == 0 {
        Seq::empty()
    } else if ts.len() == 1 {
        spec_render_token(ts[0])
    } else {
        spec_render_token(ts[0]) + seq![' '] + spec_render_tokens(ts.drop_first())
    }
}

impl Token {
    /// The shape of this token.
    pub fn kind(&self) -> (k: TokenKind)
        ensures
            k == kind_of(self@),
    {
        match self {
            Token::Number(_) => TokenKind::Number,
            Token::Operator(_) => TokenKind::Operator,
        }
    }

    /// Renders the token as its canonical text.
    pub fn render(&self) -> (s: String)
        ensures
            s@ == spec_render_token(self@),
    {
        match self {
            Token::Number(n) => String::from_str(n.text()),
            Token::Operator(op) => String::from_str(op.symbol()),
        }
    }

    /// Rebuilds an equal token.
    pub fn dup(&self) -> (t: Token)
        ensures
            t == *self,
    {
        match self {
            Token::Number(n) => Token::Number(n.dup()),
            Token::Operator(op) => Token::Operator(*op),
        }
    }
}

impl PartialEq for Token {
    fn eq(&self, other: &Token) -> (r: bool) {
        match (self, other) {
            (Token::Number(a), Token::Number(b)) => a == b,
            (Token::Operator(a), Token::Operator(b)) => a == b,
            _ => false,
        }
    }
}

impl vstd::std_specs::cmp::PartialEqSpecImpl for Token {
    open spec fn obeys_eq_spec() -> bool {
        true
    }

    open spec fn eq_spec(&self, other: &Token) -> bool {
        self@ == other@
    }
}

/// How many times `c` occurs in `s`.
pub open spec fn count_char(s: Seq<char>, c: char) -> nat
    decreases s.len(),
{
    if s.len() == 0 {
        0
    } else {
        count_char(s.drop_last(), c) + if s.last() == c {
            1nat
        } else {
            0nat
        }
    }
}

pub proof fn lemma_count_concat(a: Seq<char>, b: Seq<char>, c: char)
    ensures
        count_char(a + b, c) == count_char(a, c) + count_char(b, c),
    decreases b.len(),
{
    if b.len() == 0 {
        assert(a + b =~= a);
    } else {
        lemma_count_concat(a, b.drop_last(), c);
        assert((a + b).drop_last() =~= a + b.drop_last());
        assert((a + b).last() == b.last());
    }
}

pub proof fn lemma_count_singleton(x: char, c: char)
    ensures
        count_char(seq![x], c) == if x == c {
            1nat
        } else {
            0nat
        },
{
    let s = seq![x];
    assert(s.drop_last() =~= Seq::<char>::empty());
    assert(count_char(s.drop_last(), c) == 0);
}

pub proof fn lemma_count_absent(s: Seq<char>, c: char)
    requires
        forall|i: int| 0 <= i < s.len() ==> #[trigger] s[i] != c,
    ensures
        count_char(s, c) == 0,
    decreases s.len(),
{
    if s.len() > 0 {
        lemma_count_absent(s.drop_last(), c);
    }
}

pub proof fn lemma_count_present(s: Seq<char>, c: char, i: int)
    requires
        0 <= i < s.len(),
        s[i] == c,
    ensures
        count_char(s, c) >= 1,
    decreases s.len(),
{
    if i == s.len() - 1 {
    } else {
        lemma_count_present(s.drop_last(), c, i);
    }
}

pub proof fn lemma_count_two(s: Seq<char>, c: char, i: int, j: int)
    requires
        0 <= i < j < s.len(),
        s[i] == c,
        s[j] == c,
    ensures
        count_char(s, c) >= 2,
{
    let front = s.subrange(0, j);
    let back = s.subrange(j, s.len() as int);
    assert(s =~= front + back);
    lemma_count_concat(front, back, c);
    lemma_count_present(front, c, i);
    lemma_count_present(back, c, 0);
}

/// The model of an executable token sequence.
pub open spec fn views_of(ts: Seq<Token>) -> Seq<TokenV> {
    ts.map_values(|t: Token| t@)
}

/// Renders a token sequence as its canonical text, the tokens joined with
/// a single separating space.
pub fn render_tokens(tokens: &Vec<Token>) -> (s: String)
    ensures
        s@ == spec_render_tokens(views_of(tokens@)),
{
    let mut out = String::new();
    let mut i: usize = 0;
    let ghost tv = views_of(tokens@);
    proof {
        assert(tv.skip(0) =~= tv);
        assert(out@ + spec_render_tokens(tv) =~= spec_render_tokens(tv));
    }
    while i < tokens.len()
        invariant
            0 <= i <= tokens.len(),
            tv == views_of(tokens@),
            tv.len() == tokens.len(),
            spec_render_tokens(tv) == out@ + spec_render_tokens(tv.skip(i as int)),
        decreases tokens.len() - i,
    {
        proof {
            assert(tv.skip(i as int).drop_first() =~= tv.skip(i as int + 1));
            assert(tv.skip(i as int)[0] == tv[i as int]);
        }
        let piece = tokens[i].render();
        out.append(piece.as_str());
        if i + 1 < tokens.len() {
            proof { reveal_strlit(" "); }
            out.append(" ");
        }
        proof {
            assert(spec_render_tokens(tv) =~= out@ + spec_render_tokens(
                tv.skip(i as int + 1),
            ));
        }
        i = i + 1;
    }
    proof {
        assert(tv.skip(tv.len() as int) =~= Seq::<TokenV>::empty());
        assert(out@ =~= spec_render_tokens(tv));
    }
    out
}

} // verus!
