//! The set of expressions used to build the nodes of the expression tree,
//! and their canonical, fully parenthesized rendering.

use vstd::prelude::*;

verus! {

use crate::tokenizer::tokens::{Operator, Token, TokenV};
use crate::tokenizer::tokens::{spec_render_token, wf_token};

/// The mathematical model of an expression tree.
pub enum ExprV {
    Binary(Box<ExprV>, TokenV, Box<ExprV>),
    Unary(TokenV, Box<ExprV>),
    Literal(TokenV),
}

/// The structural invariants of a tree node: a literal holds a number
/// token, a unary node holds the minus operator, and a binary node holds
/// an operator token.
pub open spec fn wf_expr(e: ExprV) -> bool
    decreases e,
{
    match e {
        ExprV::Binary(l, op, r) => op is Operator && wf_expr(*l) && wf_expr(*r),
        ExprV::Unary(op, inner) => op == TokenV::Operator(Operator::Minus) && wf_expr(*inner),
        ExprV::Literal(t) => t is Number && wf_token(t),
    }
}

/// The canonical rendering of a tree: literals render as their token, a
/// unary node as `(-<inner>)`, and a binary node as `(<l> <op> <r>)`.
pub open spec fn spec_render(e: ExprV) -> Seq<char>
    decreases e,
{
    match e {
        ExprV::Binary(l, op, r) => seq!['('] + spec_render(*l) + seq![' ']
            + spec_render_token(op) + seq![' '] + spec_render(*r) + seq![')'],
        ExprV::Unary(op, inner) => seq!['('] + spec_render_token(op) + spec_render(*inner)
            + seq![')'],
        ExprV::Literal(t) => spec_render_token(t),
    }
}

use crate::tokenizer::tokens::{count_char, is_normal_num, lemma_count_concat};
use crate::tokenizer::tokens::lemma_count_singleton;
use crate::tokenizer::tokens::{lemma_count_absent, lemma_dot_from_bounds, lemma_dot_from_spec};
use crate::tokenizer::tokens::dot_from;

/// The rendering of a well-formed token contains no parenthesis.
pub proof fn lemma_render_token_no_parens(t: TokenV, c: char)
    requires
        wf_token(t),
        c == '(' || c == ')',
    ensures
        count_char(spec_render_token(t), c) == 0,
{
    match t {
        TokenV::Number(text) => {
            let d = dot_from(text, 0);
            lemma_dot_from_bounds(text, 0);
            lemma_dot_from_spec(text, 0);
            assert(forall|i: int| 0 <= i < text.len() ==> #[trigger] text[i] != c) by {
                assert(is_normal_num(text));
            }
            lemma_count_absent(text, c);
        },
        TokenV::Operator(op) => {
            lemma_count_absent(spec_render_token(t), c);
        },
    }
}

/// The canonical rendering of a well-formed tree contains exactly as many
/// opening parentheses as closing ones.
pub proof fn lemma_render_balanced(e: ExprV)
    requires
        wf_expr(e),
    ensures
        count_char(spec_render(e), '(') == count_char(spec_render(e), ')'),
    decreases e,
{
    lemma_render_counts(e, '(');
    lemma_render_counts(e, ')');
}

/// Each paren kind occurs in a rendering once per `Binary` or `Unary` node.
proof fn lemma_render_counts(e: ExprV, c: char)
    requires
        wf_expr(e),
        c == '(' || c == ')',
    ensures
        count_char(spec_render(e), c) == node_count(e),
    decreases e,
{
    match e {
        ExprV::Binary(l, op, r) => {
            lemma_render_counts(*l, c);
            lemma_render_counts(*r, c);
            lemma_render_token_no_parens(op, c);
            let p1 = seq!['('];
            let p2 = p1 + spec_render(*l);
            let p3 = p2 + seq![' '];
            let p4 = p3 + spec_render_token(op);
            let p5 = p4 + seq![' '];
            let p6 = p5 + spec_render(*r);
            lemma_count_concat(p1, spec_render(*l), c);
            lemma_count_concat(p2, seq![' '], c);
            lemma_count_concat(p3, spec_render_token(op), c);
            lemma_count_concat(p4, seq![' '], c);
            lemma_count_concat(p5, spec_render(*r), c);
            lemma_count_concat(p6, seq![')'], c);
            lemma_count_singleton(' ', c);
            lemma_count_singleton('(', c);
            lemma_count_singleton(')', c);
        },
        ExprV::Unary(op, inner) => {
            lemma_render_counts(*inner, c);
            lemma_render_token_no_parens(op, c);
            let p1 = seq!['('];
            let p2 = p1 + spec_render_token(op);
            let p3 = p2 + spec_render(*inner);
            lemma_count_concat(p1, spec_render_token(op), c);
            lemma_count_concat(p2, spec_render(*inner), c);
            lemma_count_concat(p3, seq![')'], c);
            lemma_count_singleton('(', c);
            lemma_count_singleton(')', c);
        },
        ExprV::Literal(t) => {
            lemma_render_token_no_parens(t, c);
        },
    }
}

/// How many `Binary` and `Unary` nodes a tree holds.
pub open spec fn node_count(e: ExprV) -> nat
    decreases e,
{
    match e {
        ExprV::Binary(l, _, r) => 1 + node_count(*l) + node_count(*r),
        ExprV::Unary(_, inner) => 1 + node_count(*inner),
        ExprV::Literal(_) => 0,
    }
}

/// Represents the set of expressions used to build the nodes of the tree.
#[derive(Debug)]
pub enum Expression {
    Binary(BinaryExpr),
    Unary(UnaryExpr),
    Literal(Token),
}

/// A binary node: a left operand, an operator token, and a right operand.
#[derive(Debug)]
pub struct BinaryExpr {
    pub left: Box<Expression>,
    pub operator: Token,
    pub right: Box<Expression>,
}

/// A unary node: an operator token applied in front of an expression.
#[derive(Debug)]
pub struct UnaryExpr {
    pub operator: Token,
    pub expr: Box<Expression>,
}

/// A handle around a bare literal token.
pub struct LiteralExpr(pub Token);

impl Expression {
    /// The model of this tree.
    pub open spec fn to_view(self) -> ExprV
        decreases self,
    {
        match self {
            Expression::Binary(b) => ExprV::Binary(
                Box::new(b.left.to_view()),
                b.operator@,
                Box::new(b.right.to_view()),
            ),
            Expression::Unary(u) => ExprV::Unary(u.operator@, Box::new(u.expr.to_view())),
            Expression::Literal(t) => ExprV::Literal(t@),
        }
    }
}

impl View for Expression {
    type V = ExprV;

    open spec fn view(&self) -> ExprV {
        self.to_view()
    }
}

impl BinaryExpr {
    pub fn new(left: Expression, operator: Token, right: Expression) -> (b: Self)
        ensures
            b@ == ExprV::Binary(Box::new(left@), operator@, Box::new(right@)),
    {
        Self { left: Box::new(left), right: Box::new(right), operator }
    }

    /// The left operand.
    pub fn left(&self) -> (e: &Expression)
        ensures
            e@ == self@->Binary_0,
    {
        &self.left
    }

    /// The operator token.
    pub fn operator(&self) -> (t: &Token)
        ensures
            t@ == self@->Binary_1,
    {
        &self.operator
    }

    /// The right operand.
    pub fn right(&self) -> (e: &Expression)
        ensures
            e@ == self@->Binary_2,
    {
        &self.right
    }
}

impl View for BinaryExpr {
    type V = ExprV;

    open spec fn view(&self) -> ExprV {
        Expression::Binary(*self).to_view()
    }
}

impl UnaryExpr {
    pub fn new(operator: Token, expr: Expression) -> (u: Self)
        ensures
            u@ == ExprV::Unary(operator@, Box::new(expr@)),
    {
        Self { operator, expr: Box::new(expr) }
    }

    /// The operator token.
    pub fn operator(&self) -> (t: &Token)
        ensures
            t@ == self@->Unary_0,
    {
        &self.operator
    }

    /// The operand.
    pub fn expr(&self) -> (e: &Expression)
        ensures
            e@ == self@->Unary_1,
    {
        &self.expr
    }
}

impl View for UnaryExpr {
    type V = ExprV;

    open spec fn view(&self) -> ExprV {
        Expression::Unary(*self).to_view()
    }
}

impl Expression {
    /// Structural equality of two trees.
    pub fn equals(&self, other: &Expression) -> (b: bool)
        ensures
            b == (self@ == other@),
        decreases self,
    {
        match (self, other) {
            (Expression::Literal(a), Expression::Literal(b)) => a == b,
            (Expression::Unary(a), Expression::Unary(b)) => {
                a.operator == b.operator && a.expr.equals(&b.expr)
            },
            (Expression::Binary(a), Expression::Binary(b)) => {
                a.operator == b.operator && a.left.equals(&b.left) && a.right.equals(&b.right)
            },
            _ => false,
        }
    }

    /// Renders the tree in its canonical, fully parenthesized form.
    pub fn render(&self) -> (s: String)
        ensures
            s@ == spec_render(self@),
        decreases self,
    {
        match self {
            Expression::Binary(b) => {
                proof {
                    reveal_strlit("(");
                    reveal_strlit(" ");
                    reveal_strlit(")");
                }
                let mut s = String::from_str("(");
                let left = b.left.render();
                s.append(left.as_str());
                s.append(" ");
                let op = b.operator.render();
                s.append(op.as_str());
                s.append(" ");
                let right = b.right.render();
                s.append(right.as_str());
                s.append(")");
                proof {
                    assert(s@ =~= spec_render(self@));
                }
                s
            },
            Expression::Unary(u) => {
                proof {
                    reveal_strlit("(");
                    reveal_strlit(")");
                }
                let mut s = String::from_str("(");
                let op = u.operator.render();
                s.append(op.as_str());
                let inner = u.expr.render();
                s.append(inner.as_str());
                s.append(")");
                proof {
                    assert(s@ =~= spec_render(self@));
                }
                s
            },
            Expression::Literal(t) => t.render(),
        }
    }
}

impl PartialEq for Expression {
    fn eq(&self, other: &Expression) -> (b: bool) {
        self.equals(other)
    }
}

impl vstd::std_specs::cmp::PartialEqSpecImpl for Expression {
    open spec fn obeys_eq_spec() -> bool {
        true
    }

    open spec fn eq_spec(&self, other: &Expression) -> bool {
        self@ == other@
    }
}

} // verus!
