//! The lexical analysis stage: the token model, the character-level
//! sub-parsers, and the tokenizer that drives them over one line of input.

pub mod helpers;
pub mod parser;
pub mod tokens;
