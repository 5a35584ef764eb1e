//! The syntactic analysis stage: the expression tree model, the token
//! cursor helpers, and the recursive-descent parser.

pub mod expressions;
pub mod helpers;
pub mod parser;
