//! The recursive-descent parser: builds one expression tree from a token
//! stream, honoring precedence and left-associativity, or reports the
//! first parse error.

use vstd::prelude::*;

verus! {

use crate::ast::expressions::{BinaryExpr, Expression, ExprV, UnaryExpr};
use crate::ast::helpers::{TokenStream, match_concrete_token, match_token, peek};
broadcast use crate::ast::helpers::lemma_stream_bounds;
use crate::tokenizer::parser::cap_at;
use crate::tokenizer::tokens::{Operator, Token, TokenKind, TokenV};

/// An additive operator token.
pub open spec fn is_add_op(t: TokenV) -> bool {
    t == TokenV::Operator(Operator::Plus) || t == TokenV::Operator(Operator::Minus)
}

/// A multiplicative operator token.
pub open spec fn is_mul_op(t: TokenV) -> bool {
    t == TokenV::Operator(Operator::Star) || t == TokenV::Operator(Operator::Slash)
}

/// What parsing one literal at `i` yields: the expression and how many
/// tokens it consumed, or the message of the parse error.
pub open spec fn spec_literal(ts: Seq<TokenV>, i: int) -> Result<(ExprV, nat), Seq<char>> {
    if 0 <= i < ts.len() && ts[i] is Number {
        Ok((ExprV::Literal(ts[i]), 1nat))
    } else {
        Err("unexpected expression"@)
    }
}

/// What parsing one unary production at `i` yields: a minus applied to a
/// literal, or a bare literal; any other operator is a unary syntax error
/// and an exhausted stream is an incomplete expression.
pub open spec fn spec_unary(ts: Seq<TokenV>, i: int) -> Result<(ExprV, nat), Seq<char>> {
    if !(0 <= i < ts.len()) {
        Err("syntax error by uncomplete expression"@)
    } else {
        match ts[i] {
            TokenV::Operator(op) => {
                if op == Operator::Minus {
                    match spec_literal(ts, i + 1) {
                        Err(m) => Err(m),
                        Ok((lit, n)) => Ok(
                            (ExprV::Unary(ts[i], Box::new(lit)), (n + 1) as nat),
                        ),
                    }
                } else {
                    Err("syntax error in <unary> expression"@)
                }
            },
            TokenV::Number(_) => spec_literal(ts, i),
        }
    }
}

/// Folds `(("*" | "/") Unary)*` onto an accumulated left operand.
pub open spec fn spec_factor_rest(left: ExprV, ts: Seq<TokenV>, j: int) -> Result<
    (ExprV, nat),
    Seq<char>,
>
    decreases ts.len() - j,
{
    if 0 <= j < ts.len() && is_mul_op(ts[j]) {
        match spec_unary(ts, j + 1) {
            Err(m) => Err(m),
            Ok((right, n)) => {
                let next = cap_at(ts.len() as int, j + 1 + n);
                match spec_factor_rest(
                    ExprV::Binary(Box::new(left), ts[j], Box::new(right)),
                    ts,
                    next,
                ) {
                    Err(m) => Err(m),
                    Ok((e, rest)) => Ok((e, (1 + n + rest) as nat)),
                }
            },
        }
    } else {
        Ok((left, 0nat))
    }
}

/// What parsing one factor production at `i` yields:
/// `Factor -> Unary (("*" | "/") Unary)*`, folded left-associatively.
pub open spec fn spec_factor(ts: Seq<TokenV>, i: int) -> Result<(ExprV, nat), Seq<char>> {
    match spec_unary(ts, i) {
        Err(m) => Err(m),
        Ok((left, n)) => {
            match spec_factor_rest(left, ts, cap_at(ts.len() as int, i + n)) {
                Err(m) => Err(m),
                Ok((e, rest)) => Ok((e, (n + rest) as nat)),
            }
        },
    }
}

/// Folds `(("+" | "-") Factor)*` onto an accumulated left operand.
pub open spec fn spec_term_rest(left: ExprV, ts: Seq<TokenV>, j: int) -> Result<
    (ExprV, nat),
    Seq<char>,
>
    decreases ts.len() - j,
{
    if 0 <= j < ts.len() && is_add_op(ts[j]) {
        match spec_factor(ts, j + 1) {
            Err(m) => Err(m),
            Ok((right, n)) => {
                let next = cap_at(ts.len() as int, j + 1 + n);
                match spec_term_rest(
                    ExprV::Binary(Box::new(left), ts[j], Box::new(right)),
                    ts,
                    next,
                ) {
                    Err(m) => Err(m),
                    Ok((e, rest)) => Ok((e, (1 + n + rest) as nat)),
                }
            },
        }
    } else {
        Ok((left, 0nat))
    }
}

/// What parsing one term production at `i` yields:
/// `Term -> Factor (("+" | "-") Factor)*`, folded left-associatively.
pub open spec fn spec_term(ts: Seq<TokenV>, i: int) -> Result<(ExprV, nat), Seq<char>> {
    match spec_factor(ts, i) {
        Err(m) => Err(m),
        Ok((left, n)) => {
            match spec_term_rest(left, ts, cap_at(ts.len() as int, i + n)) {
                Err(m) => Err(m),
                Ok((e, rest)) => Ok((e, (n + rest) as nat)),
            }
        },
    }
}

/// What parsing a whole program yields: one term; trailing tokens after a
/// complete term are ignored.
pub open spec fn spec_program(ts: Seq<TokenV>, i: int) -> Result<(ExprV, nat), Seq<char>> {
    spec_term(ts, i)
}

pub proof fn lemma_unary_bound(ts: Seq<TokenV>, i: int)
    ensures
        spec_unary(ts, i) matches Ok((e, n)) ==> 1 <= n && i + n <= ts.len(),
{
}

pub proof fn lemma_factor_rest_bound(left: ExprV, ts: Seq<TokenV>, j: int)
    requires
        0 <= j <= ts.len(),
    ensures
        spec_factor_rest(left, ts, j) matches Ok((e, n)) ==> j + n <= ts.len(),
    decreases ts.len() - j,
{
    if 0 <= j < ts.len() && is_mul_op(ts[j]) {
        lemma_unary_bound(ts, j + 1);
        match spec_unary(ts, j + 1) {
            Ok((right, n)) => {
                let next = cap_at(ts.len() as int, j + 1 + n);
                lemma_factor_rest_bound(
                    ExprV::Binary(Box::new(left), ts[j], Box::new(right)),
                    ts,
                    next,
                );
            },
            Err(_) => {},
        }
    }
}

pub proof fn lemma_factor_bound(ts: Seq<TokenV>, i: int)
    requires
        0 <= i <= ts.len(),
    ensures
        spec_factor(ts, i) matches Ok((e, n)) ==> 1 <= n && i + n <= ts.len(),
{
    lemma_unary_bound(ts, i);
    match spec_unary(ts, i) {
        Ok((left, n)) => {
            lemma_factor_rest_bound(left, ts, cap_at(ts.len() as int, i + n));
        },
        Err(_) => {},
    }
}

/// Every token of the sequence is well formed.
pub open spec fn wf_tokens(ts: Seq<TokenV>) -> bool {
    forall|k: int| 0 <= k < ts.len() ==> crate::tokenizer::tokens::wf_token(#[trigger] ts[k])
}

pub proof fn lemma_unary_wf(ts: Seq<TokenV>, i: int)
    requires
        wf_tokens(ts),
    ensures
        spec_unary(ts, i) matches Ok((e, n)) ==> crate::ast::expressions::wf_expr(e),
{
    if 0 <= i < ts.len() {
        match ts[i] {
            TokenV::Operator(op) => {
                if op == Operator::Minus && 0 <= i + 1 < ts.len() && ts[i + 1] is Number {
                    assert(crate::ast::expressions::wf_expr(ExprV::Literal(ts[i + 1])));
                }
            },
            TokenV::Number(_) => {
                assert(crate::ast::expressions::wf_expr(ExprV::Literal(ts[i])));
            },
        }
    }
}

pub proof fn lemma_unary_no_additive(ts: Seq<TokenV>, i: int)
    ensures
        spec_unary(ts, i) matches Ok((e, n)) ==> !has_additive(e),
{
    if 0 <= i < ts.len() {
        match ts[i] {
            TokenV::Operator(op) => {
                if op == Operator::Minus && 0 <= i + 1 < ts.len() && ts[i + 1] is Number {
                    assert(!has_additive(ExprV::Literal(ts[i + 1])));
                }
            },
            TokenV::Number(_) => {
                assert(!has_additive(ExprV::Literal(ts[i])));
            },
        }
    }
}

pub proof fn lemma_factor_rest_wf(left: ExprV, ts: Seq<TokenV>, j: int)
    requires
        wf_tokens(ts),
        crate::ast::expressions::wf_expr(left),
    ensures
        spec_factor_rest(left, ts, j) matches Ok((e, n))
            ==> crate::ast::expressions::wf_expr(e),
    decreases ts.len() - j,
{
    if 0 <= j < ts.len() && is_mul_op(ts[j]) {
        lemma_unary_wf(ts, j + 1);
        match spec_unary(ts, j + 1) {
            Ok((right, n)) => {
                let next = cap_at(ts.len() as int, j + 1 + n);
                lemma_factor_rest_wf(
                    ExprV::Binary(Box::new(left), ts[j], Box::new(right)),
                    ts,
                    next,
                );
            },
            Err(_) => {},
        }
    }
}

pub proof fn lemma_factor_wf(ts: Seq<TokenV>, i: int)
    requires
        wf_tokens(ts),
    ensures
        spec_factor(ts, i) matches Ok((e, n)) ==> crate::ast::expressions::wf_expr(e),
{
    lemma_unary_wf(ts, i);
    match spec_unary(ts, i) {
        Ok((left, n)) => {
            lemma_factor_rest_wf(left, ts, cap_at(ts.len() as int, i + n));
        },
        Err(_) => {},
    }
}

pub proof fn lemma_term_rest_wf(left: ExprV, ts: Seq<TokenV>, j: int)
    requires
        wf_tokens(ts),
        crate::ast::expressions::wf_expr(left),
    ensures
        spec_term_rest(left, ts, j) matches Ok((e, n)) ==> crate::ast::expressions::wf_expr(e),
    decreases ts.len() - j,
{
    if 0 <= j < ts.len() && is_add_op(ts[j]) {
        lemma_factor_wf(ts, j + 1);
        match spec_factor(ts, j + 1) {
            Ok((right, n)) => {
                let next = cap_at(ts.len() as int, j + 1 + n);
                lemma_term_rest_wf(
                    ExprV::Binary(Box::new(left), ts[j], Box::new(right)),
                    ts,
                    next,
                );
            },
            Err(_) => {},
        }
    }
}

/// A tree the parser builds from well-formed tokens is well formed: its
/// literals hold numbers, its unary nodes hold the minus operator, and its
/// binary nodes hold operator tokens.
pub proof fn lemma_program_wf(ts: Seq<TokenV>, i: int)
    requires
        wf_tokens(ts),
    ensures
        spec_program(ts, i) matches Ok((e, n)) ==> crate::ast::expressions::wf_expr(e),
{
    lemma_factor_wf(ts, i);
    match spec_factor(ts, i) {
        Ok((left, n)) => {
            lemma_term_rest_wf(left, ts, cap_at(ts.len() as int, i + n));
        },
        Err(_) => {},
    }
}

/// Whether any node of the tree is an additive `Binary` node.
pub open spec fn has_additive(e: ExprV) -> bool
    decreases e,
{
    match e {
        ExprV::Binary(l, op, r) => is_add_op(op) || has_additive(*l) || has_additive(*r),
        ExprV::Unary(_, inner) => has_additive(*inner),
        ExprV::Literal(_) => false,
    }
}

/// Precedence is respected in the tree: no additive `Binary` node stands
/// anywhere below a multiplicative `Binary` node.
pub open spec fn prec_ok(e: ExprV) -> bool
    decreases e,
{
    match e {
        ExprV::Binary(l, op, r) => {
            &&& (is_mul_op(op) ==> !has_additive(*l) && !has_additive(*r))
            &&& prec_ok(*l)
            &&& prec_ok(*r)
        },
        ExprV::Unary(_, inner) => prec_ok(*inner),
        ExprV::Literal(_) => true,
    }
}

pub proof fn lemma_no_additive_prec_ok(e: ExprV)
    requires
        !has_additive(e),
    ensures
        prec_ok(e),
    decreases e,
{
    match e {
        ExprV::Binary(l, op, r) => {
            lemma_no_additive_prec_ok(*l);
            lemma_no_additive_prec_ok(*r);
        },
        ExprV::Unary(op, inner) => {
            lemma_no_additive_prec_ok(*inner);
        },
        ExprV::Literal(_) => {},
    }
}

pub proof fn lemma_factor_rest_no_additive(left: ExprV, ts: Seq<TokenV>, j: int)
    requires
        !has_additive(left),
    ensures
        spec_factor_rest(left, ts, j) matches Ok((e, n)) ==> !has_additive(e),
    decreases ts.len() - j,
{
    if 0 <= j < ts.len() && is_mul_op(ts[j]) {
        lemma_unary_no_additive(ts, j + 1);
        match spec_unary(ts, j + 1) {
            Ok((right, n)) => {
                let next = cap_at(ts.len() as int, j + 1 + n);
                assert(!has_additive(ExprV::Binary(Box::new(left), ts[j], Box::new(right))));
                lemma_factor_rest_no_additive(
                    ExprV::Binary(Box::new(left), ts[j], Box::new(right)),
                    ts,
                    next,
                );
            },
            Err(_) => {},
        }
    }
}

pub proof fn lemma_factor_no_additive(ts: Seq<TokenV>, i: int)
    ensures
        spec_factor(ts, i) matches Ok((e, n)) ==> !has_additive(e),
{
    lemma_unary_no_additive(ts, i);
    match spec_unary(ts, i) {
        Ok((left, n)) => {
            lemma_factor_rest_no_additive(left, ts, cap_at(ts.len() as int, i + n));
        },
        Err(_) => {},
    }
}

pub proof fn lemma_term_rest_prec_ok(left: ExprV, ts: Seq<TokenV>, j: int)
    requires
        prec_ok(left),
    ensures
        spec_term_rest(left, ts, j) matches Ok((e, n)) ==> prec_ok(e),
    decreases ts.len() - j,
{
    if 0 <= j < ts.len() && is_add_op(ts[j]) {
        lemma_factor_no_additive(ts, j + 1);
        match spec_factor(ts, j + 1) {
            Ok((right, n)) => {
                lemma_no_additive_prec_ok(right);
                let next = cap_at(ts.len() as int, j + 1 + n);
                lemma_term_rest_prec_ok(
                    ExprV::Binary(Box::new(left), ts[j], Box::new(right)),
                    ts,
                    next,
                );
            },
            Err(_) => {},
        }
    }
}

/// A tree the parser builds respects precedence: no `Binary` node whose
/// operator is `+` or `-` appears as a descendant of a `Binary` node whose
/// operator is `*` or `/`.
pub proof fn lemma_program_prec_ok(ts: Seq<TokenV>, i: int)
    ensures
        spec_program(ts, i) matches Ok((e, n)) ==> prec_ok(e),
{
    lemma_factor_no_additive(ts, i);
    match spec_factor(ts, i) {
        Ok((left, n)) => {
            lemma_no_additive_prec_ok(left);
            lemma_term_rest_prec_ok(left, ts, cap_at(ts.len() as int, i + n));
        },
        Err(_) => {},
    }
}

/// Left-associativity: for numbers `a`, `b`, `c` and two operators at the
/// same precedence level, the parsed tree's left subtree spans the first
/// two operands.
pub proof fn lemma_left_associativity(
    a: Seq<char>,
    b: Seq<char>,
    c: Seq<char>,
    op1: Operator,
    op2: Operator,
)
    requires
        (is_add_op(TokenV::Operator(op1)) && is_add_op(TokenV::Operator(op2))) || (is_mul_op(
            TokenV::Operator(op1),
        ) && is_mul_op(TokenV::Operator(op2))),
    ensures
        ({
            let ts = seq![
                TokenV::Number(a),
                TokenV::Operator(op1),
                TokenV::Number(b),
                TokenV::Operator(op2),
                TokenV::Number(c),
            ];
            spec_program(ts, 0) == Ok::<(ExprV, nat), Seq<char>>(
                (
                    ExprV::Binary(
                        Box::new(
                            ExprV::Binary(
                                Box::new(ExprV::Literal(TokenV::Number(a))),
                                TokenV::Operator(op1),
                                Box::new(ExprV::Literal(TokenV::Number(b))),
                            ),
                        ),
                        TokenV::Operator(op2),
                        Box::new(ExprV::Literal(TokenV::Number(c))),
                    ),
                    5nat,
                ),
            )
        }),
{
    let ts = seq![
        TokenV::Number(a),
        TokenV::Operator(op1),
        TokenV::Number(b),
        TokenV::Operator(op2),
        TokenV::Number(c),
    ];
    let lit_a = ExprV::Literal(TokenV::Number(a));
    let lit_b = ExprV::Literal(TokenV::Number(b));
    let lit_c = ExprV::Literal(TokenV::Number(c));
    assert(ts.len() == 5);
    assert(spec_unary(ts, 0) == Ok::<(ExprV, nat), Seq<char>>((lit_a, 1nat)));
    assert(spec_unary(ts, 2) == Ok::<(ExprV, nat), Seq<char>>((lit_b, 1nat)));
    assert(spec_unary(ts, 4) == Ok::<(ExprV, nat), Seq<char>>((lit_c, 1nat)));
    if is_mul_op(TokenV::Operator(op1)) {
        let left = ExprV::Binary(Box::new(lit_a), TokenV::Operator(op1), Box::new(lit_b));
        let whole = ExprV::Binary(Box::new(left), TokenV::Operator(op2), Box::new(lit_c));
        assert(spec_factor_rest(whole, ts, 5) == Ok::<(ExprV, nat), Seq<char>>((whole, 0nat)));
        assert(spec_factor_rest(left, ts, 3) == Ok::<(ExprV, nat), Seq<char>>((whole, 2nat)));
        assert(spec_factor_rest(lit_a, ts, 1) == Ok::<(ExprV, nat), Seq<char>>((whole, 4nat)));
        assert(spec_factor(ts, 0) == Ok::<(ExprV, nat), Seq<char>>((whole, 5nat)));
        assert(spec_term_rest(whole, ts, 5) == Ok::<(ExprV, nat), Seq<char>>((whole, 0nat)));
    } else {
        let left = ExprV::Binary(Box::new(lit_a), TokenV::Operator(op1), Box::new(lit_b));
        let whole = ExprV::Binary(Box::new(left), TokenV::Operator(op2), Box::new(lit_c));
        assert(spec_factor_rest(lit_a, ts, 1) == Ok::<(ExprV, nat), Seq<char>>((lit_a, 0nat)));
        assert(spec_factor(ts, 0) == Ok::<(ExprV, nat), Seq<char>>((lit_a, 1nat)));
        assert(spec_factor_rest(lit_b, ts, 3) == Ok::<(ExprV, nat), Seq<char>>((lit_b, 0nat)));
        assert(spec_factor(ts, 2) == Ok::<(ExprV, nat), Seq<char>>((lit_b, 1nat)));
        assert(spec_factor_rest(lit_c, ts, 5) == Ok::<(ExprV, nat), Seq<char>>((lit_c, 0nat)));
        assert(spec_factor(ts, 4) == Ok::<(ExprV, nat), Seq<char>>((lit_c, 1nat)));
        assert(spec_term_rest(whole, ts, 5) == Ok::<(ExprV, nat), Seq<char>>((whole, 0nat)));
        assert(spec_term_rest(left, ts, 3) == Ok::<(ExprV, nat), Seq<char>>((whole, 2nat)));
        assert(spec_term_rest(lit_a, ts, 1) == Ok::<(ExprV, nat), Seq<char>>((whole, 4nat)));
    }
}

/// A parse failure: a static message under the `AST PARSE` category.
#[derive(Clone, Copy, Debug)]
pub struct ASTParseError {
    message: &'static str,
}

impl View for ASTParseError {
    type V = Seq<char>;

    closed spec fn view(&self) -> Seq<char> {
        self.message@
    }
}

impl ASTParseError {
    fn new(message: &'static str) -> (e: Self)
        ensures
            e@ == message@,
    {
        Self { message }
    }

    /// The message body of the error.
    pub fn message(&self) -> (m: &'static str)
        ensures
            m@ == self@,
    {
        self.message
    }

    /// The full diagnostic line for the error channel.
    pub fn diagnostic(&self) -> (s: String)
        ensures
            s@ == "[AST PARSE ERROR]: "@ + self@,
    {
        let mut s = String::from_str("[AST PARSE ERROR]: ");
        s.append(self.message);
        s
    }
}

/// Stores the state of the token stream and exposes the methods that
/// perform the tree building.
#[derive(Debug)]
pub struct Parser {
    pub tokens: TokenStream,
}

impl Parser {
    /// The models of all tokens under the cursor.
    pub open spec fn toks(self) -> Seq<TokenV> {
        self.tokens.toks()
    }

    /// The position of the next token to consume.
    pub open spec fn pos(self) -> int {
        self.tokens.pos()
    }

    /// The parser's internal consistency.
    pub open spec fn wf(self) -> bool {
        self.tokens.wf()
    }

    pub fn new(tokens: TokenStream) -> (p: Self)
        ensures
            p.wf() == tokens.wf(),
            p.toks() == tokens.toks(),
            p.pos() == tokens.pos(),
    {
        Self { tokens }
    }
}

impl Parser {
    /// Builds the root program expression.
    ///
    /// Production rule: `Program -> Term`
    pub fn program(&mut self) -> (r: Result<Expression, ASTParseError>)
        requires
            old(self).wf(),
        ensures
            final(self).wf(),
            final(self).toks() == old(self).toks(),
            ({
                let ts = old(self).toks();
                let p = old(self).pos();
                match spec_program(ts, p) {
                    Ok((e, n)) => r matches Ok(expr) && expr@ == e && final(self).pos() == p
                        + n,
                    Err(m) => r matches Err(err) && err@ == m && p <= final(self).pos()
                        <= ts.len(),
                }
            }),
    {
        self.term()
    }

    /// Builds a term.
    ///
    /// Production rule: `Term -> Factor (("+" | "-") Factor)*`
    pub fn term(&mut self) -> (r: Result<Expression, ASTParseError>)
        requires
            old(self).wf(),
        ensures
            final(self).wf(),
            final(self).toks() == old(self).toks(),
            ({
                let ts = old(self).toks();
                let p = old(self).pos();
                match spec_term(ts, p) {
                    Ok((e, n)) => r matches Ok(expr) && expr@ == e && final(self).pos() == p
                        + n,
                    Err(m) => r matches Err(err) && err@ == m && p <= final(self).pos()
                        <= ts.len(),
                }
            }),
    {
        let ghost ts = old(self).toks();
        let ghost p0 = old(self).pos();
        let left = match self.factor() {
            Ok(e) => e,
            Err(err) => {
                return Err(err);
            },
        };
        let ghost n1 = spec_factor(ts, p0)->Ok_0.1;
        proof {
            lemma_factor_bound(ts, p0);
            assert(cap_at(ts.len() as int, p0 + n1) == p0 + n1);
        }
        let mut expr = left;
        loop
            invariant
                self.wf(),
                self.toks() == ts,
                ts == old(self).toks(),
                p0 == old(self).pos(),
                p0 <= self.pos() <= ts.len(),
                spec_term(ts, p0) == (match spec_term_rest(expr@, ts, self.pos()) {
                    Ok((e, rest)) => Ok::<(ExprV, nat), Seq<char>>(
                        (e, ((self.pos() - p0) + rest) as nat),
                    ),
                    Err(m) => Err::<(ExprV, nat), Seq<char>>(m),
                }),
            ensures
                self.wf(),
                self.toks() == ts,
                p0 <= self.pos() <= ts.len(),
                spec_term(ts, p0) == Ok::<(ExprV, nat), Seq<char>>(
                    (expr@, (self.pos() - p0) as nat),
                ),
            decreases ts.len() - self.pos(),
        {
            let ghost pb = self.pos();
            let operators = [
                Token::Operator(Operator::Plus),
                Token::Operator(Operator::Minus),
            ];
            let operator = match match_concrete_token(operators.as_slice(), &mut self.tokens) {
                Some(op) => op,
                None => {
                    proof {
                        assert(!(pb < ts.len() && is_add_op(ts[pb]))) by {
                            assert(operators@[0]@ == TokenV::Operator(Operator::Plus));
                            assert(operators@[1]@ == TokenV::Operator(Operator::Minus));
                        }
                    }
                    break;
                },
            };
            proof {
                assert(pb < ts.len() && is_add_op(ts[pb])) by {
                    assert(operators@[0]@ == TokenV::Operator(Operator::Plus));
                    assert(operators@[1]@ == TokenV::Operator(Operator::Minus));
                }
            }
            let right = match self.factor() {
                Ok(e) => e,
                Err(err) => {
                    return Err(err);
                },
            };
            let ghost nf = spec_factor(ts, pb + 1)->Ok_0.1;
            proof {
                lemma_factor_bound(ts, pb + 1);
                assert(cap_at(ts.len() as int, pb + 1 + nf) == pb + 1 + nf);
            }
            expr = Expression::Binary(BinaryExpr::new(expr, operator, right));
        }
        Ok(expr)
    }

    /// Builds a factor.
    ///
    /// Production rule: `Factor -> Unary (("*" | "/") Unary)*`
    pub fn factor(&mut self) -> (r: Result<Expression, ASTParseError>)
        requires
            old(self).wf(),
        ensures
            final(self).wf(),
            final(self).toks() == old(self).toks(),
            ({
                let ts = old(self).toks();
                let p = old(self).pos();
                match spec_factor(ts, p) {
                    Ok((e, n)) => r matches Ok(expr) && expr@ == e && final(self).pos() == p
                        + n,
                    Err(m) => r matches Err(err) && err@ == m && p <= final(self).pos()
                        <= ts.len(),
                }
            }),
    {
        let ghost ts = old(self).toks();
        let ghost p0 = old(self).pos();
        let left = match self.unary() {
            Ok(e) => e,
            Err(err) => {
                return Err(err);
            },
        };
        let ghost n1 = spec_unary(ts, p0)->Ok_0.1;
        proof {
            lemma_unary_bound(ts, p0);
            assert(cap_at(ts.len() as int, p0 + n1) == p0 + n1);
        }
        let mut expr = left;
        loop
            invariant
                self.wf(),
                self.toks() == ts,
                ts == old(self).toks(),
                p0 == old(self).pos(),
                p0 <= self.pos() <= ts.len(),
                spec_factor(ts, p0) == (match spec_factor_rest(expr@, ts, self.pos()) {
                    Ok((e, rest)) => Ok::<(ExprV, nat), Seq<char>>(
                        (e, ((self.pos() - p0) + rest) as nat),
                    ),
                    Err(m) => Err::<(ExprV, nat), Seq<char>>(m),
                }),
            ensures
                self.wf(),
                self.toks() == ts,
                p0 <= self.pos() <= ts.len(),
                spec_factor(ts, p0) == Ok::<(ExprV, nat), Seq<char>>(
                    (expr@, (self.pos() - p0) as nat),
                ),
            decreases ts.len() - self.pos(),
        {
            let ghost pb = self.pos();
            let operators = [
                Token::Operator(Operator::Star),
                Token::Operator(Operator::Slash),
            ];
            let operator = match match_concrete_token(operators.as_slice(), &mut self.tokens) {
                Some(op) => op,
                None => {
                    proof {
                        assert(!(pb < ts.len() && is_mul_op(ts[pb]))) by {
                            assert(operators@[0]@ == TokenV::Operator(Operator::Star));
                            assert(operators@[1]@ == TokenV::Operator(Operator::Slash));
                        }
                    }
                    break;
                },
            };
            proof {
                assert(pb < ts.len() && is_mul_op(ts[pb])) by {
                    assert(operators@[0]@ == TokenV::Operator(Operator::Star));
                    assert(operators@[1]@ == TokenV::Operator(Operator::Slash));
                }
            }
            let right = match self.unary() {
                Ok(e) => e,
                Err(err) => {
                    return Err(err);
                },
            };
            let ghost nu = spec_unary(ts, pb + 1)->Ok_0.1;
            proof {
                lemma_unary_bound(ts, pb + 1);
                assert(cap_at(ts.len() as int, pb + 1 + nu) == pb + 1 + nu);
            }
            expr = Expression::Binary(BinaryExpr::new(expr, operator, right));
        }
        Ok(expr)
    }

    /// Builds a unary.
    ///
    /// Production rule: `Unary -> "-" Literal | Literal`
    pub fn unary(&mut self) -> (r: Result<Expression, ASTParseError>)
        requires
            old(self).wf(),
        ensures
            final(self).wf(),
            final(self).toks() == old(self).toks(),
            ({
                let ts = old(self).toks();
                let p = old(self).pos();
                match spec_unary(ts, p) {
                    Ok((e, n)) => r matches Ok(expr) && expr@ == e && final(self).pos() == p
                        + n,
                    Err(m) => r matches Err(err) && err@ == m && p <= final(self).pos()
                        <= ts.len(),
                }
            }),
    {
        match peek(&self.tokens) {
            Some(token) => {
                let is_minus = match &token {
                    Token::Operator(op) => *op == Operator::Minus,
                    Token::Number(_) => false,
                };
                match &token {
                    Token::Operator(_) => {
                        if is_minus {
                            self.tokens.next();
                            let literal = match self.literal() {
                                Ok(e) => e,
                                Err(err) => {
                                    return Err(err);
                                },
                            };
                            Ok(Expression::Unary(UnaryExpr::new(token, literal)))
                        } else {
                            Err(ASTParseError::new("syntax error in <unary> expression"))
                        }
                    },
                    Token::Number(_) => self.literal(),
                }
            },
            None => Err(ASTParseError::new("syntax error by uncomplete expression")),
        }
    }

    /// Builds a literal.
    ///
    /// `Literal` is a terminal symbol: it consumes one number token.
    pub fn literal(&mut self) -> (r: Result<Expression, ASTParseError>)
        requires
            old(self).wf(),
        ensures
            final(self).wf(),
            final(self).toks() == old(self).toks(),
            ({
                let ts = old(self).toks();
                let p = old(self).pos();
                match spec_literal(ts, p) {
                    Ok((e, n)) => r matches Ok(expr) && expr@ == e && final(self).pos() == p
                        + n,
                    Err(m) => r matches Err(err) && err@ == m && final(self).pos() == p,
                }
            }),
    {
        let kinds = [TokenKind::Number];
        if let Some(number) = match_token(kinds.as_slice(), &mut self.tokens) {
            proof {
                assert(kinds@.len() == 1 && kinds@[0] == TokenKind::Number);
            }
            return Ok(Expression::Literal(number));
        }
        proof {
            assert(kinds@.len() == 1 && kinds@[0] == TokenKind::Number);
        }
        Err(ASTParseError::new("unexpected expression"))
    }
}

} // verus!
