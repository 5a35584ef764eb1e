use calc::ast::helpers::{match_concrete_token, match_token, peek, TokenStream};
use calc::tokenizer::tokens::{Number, Operator, Token, TokenKind};

fn num(text: &str) -> Token {
    Token::Number(Number::from_literal(text).unwrap())
}

#[test]
fn helpers_test_peek() {
    // Arrange
    let tokens_source: Vec<Token> = vec![num("10")];
    let stream = TokenStream::new(tokens_source.clone());

    // Act
    let peeked = peek(&stream).unwrap();

    // Assert
    assert_eq!(
        peeked,
        tokens_source.clone()[0],
        "should take a look at the current element of the iterator"
    );

    assert_eq!(
        stream.remaining(),
        tokens_source.len(),
        "should not consume token from the iterator after peek"
    );
}

#[test]
fn test_match_token_success() {
    // Arrange
    let matching_token = num("10");
    let mut tokens_source = TokenStream::new(vec![matching_token.clone()]);

    // Act
    //
    // Notice we are matching by the token's shape only: `match_token` does
    // not care about the internal value of the token.
    let matched = match_token(&[TokenKind::Number], &mut tokens_source);

    // Assert
    assert!(
        matched.is_some(),
        "should match token and return a fullfilled option"
    );

    assert_eq!(
        matched.unwrap().kind(),
        matching_token.kind(),
        "token variants should match without consider their internal values"
    );

    assert_eq!(
        tokens_source.remaining(),
        0,
        "matching token should consume iterator element"
    )
}

#[test]
fn test_match_token_fails() {
    // Arrange
    let number_token = num("10");
    let mut tokens_source = TokenStream::new(vec![number_token]);

    // Act
    //
    // Notice in this case we are trying to match a number against the
    // operator shape: since the token's variants are not the same, it
    // shouldn't match.
    let matched = match_token(&[TokenKind::Operator], &mut tokens_source);

    // Assert
    assert!(
        matched.is_none(),
        "should return none if token variants does not match"
    );

    assert_eq!(
        tokens_source.remaining(),
        1,
        "non matching tokens shouldn't consume current iterator element"
    )
}

#[test]
fn test_match_concrete_token_compares_payloads() {
    let plus = Token::Operator(Operator::Plus);
    let minus = Token::Operator(Operator::Minus);

    let mut stream = TokenStream::new(vec![minus.clone()]);
    let missed = match_concrete_token(&[plus.clone()], &mut stream);
    assert!(missed.is_none());
    assert_eq!(stream.remaining(), 1);

    let hit = match_concrete_token(&[plus, minus.clone()], &mut stream);
    assert_eq!(hit, Some(minus));
    assert_eq!(stream.remaining(), 0);
}
