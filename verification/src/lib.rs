//! An infix arithmetic expression front end: a lexer that turns one line of
//! input into tokens, a recursive-descent parser that builds an expression
//! tree honoring precedence and left-associativity, and a pretty-printer
//! that renders the tree in a fully parenthesized form.

pub mod ast;
pub mod tokenizer;

use vstd::prelude::*;

verus! {

/// A character is one of the ten ASCII digits.
pub open spec fn is_digit(c: char) -> bool {
    48 <= c as u32 <= 57
}

/// Decides digit-ness of a single character.
pub fn is_digit_char(c: char) -> (b: bool)
    ensures
        b == is_digit(c),
{
    let u: u32 = c as u32;
    48 <= u && u <= 57
}

} // verus!
