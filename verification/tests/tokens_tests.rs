use calc::ast::expressions::Expression;
use calc::tokenizer::parser::TokenizerError;
use calc::tokenizer::tokens::{Number, Operator, Token};

fn num(text: &str) -> Token {
    Token::Number(Number::from_literal(text).unwrap())
}

#[test]
fn test_tokenizer_error_carries_its_message() {
    let err = TokenizerError::new("unexpected token");
    assert_eq!(err.message(), "unexpected token");
    assert_eq!(err.diagnostic(), "[TOKENIZER ERROR]: unexpected token");
}

#[test]
fn test_operator_tokens_render_as_their_symbols() {
    let cases = [
        (Operator::Plus, "+"),
        (Operator::Minus, "-"),
        (Operator::Star, "*"),
        (Operator::Slash, "/"),
    ];
    for (operator, symbol) in cases {
        assert_eq!(Token::Operator(operator).render(), symbol);
    }
}

#[test]
fn test_number_tokens_render_as_their_canonical_text() {
    assert_eq!(num("4.33").render(), "4.33");
    assert_eq!(num("007.250").render(), "7.25");
}

#[test]
fn test_token_equality_compares_payloads() {
    assert_eq!(num("10"), num("10.0"));
    assert_ne!(num("10"), num("10.1"));
    assert_ne!(num("10"), Token::Operator(Operator::Plus));
    assert_eq!(
        Token::Operator(Operator::Plus),
        Token::Operator(Operator::Plus)
    );
}

#[test]
fn test_expression_equality_is_structural() {
    let one = Expression::Literal(num("1"));
    let one_again = Expression::Literal(num("1"));
    let two = Expression::Literal(num("2"));
    assert_eq!(one, one_again);
    assert_ne!(one, two);
}
