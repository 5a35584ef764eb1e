use calc::tokenizer::parser::Tokenizer;
use calc::tokenizer::tokens::{render_tokens, Number, Operator, Token};

const SOURCE: &str = "3 + 4.33 / 5";

fn num(text: &str) -> Token {
    Token::Number(Number::from_literal(text).unwrap())
}

#[test]
fn test_new_tokenizer() {
    // Act
    let tokenizer = Tokenizer::new(SOURCE);

    // Assert
    assert!(
        tokenizer.tokens.is_empty(),
        "tokenizer should be instantiated with an empty array of tokens"
    );

    assert_eq!(
        tokenizer.remaining(),
        SOURCE.chars().count(),
        "tokenizer should be instantiated with an stream of characters based on the source"
    )
}

#[test]
fn test_is_end() {
    // Arrange
    let tokenizer = Tokenizer::new(SOURCE);
    let empty_tokenizer = Tokenizer::new("");

    // Act & Assert
    assert!(
        !tokenizer.is_end(),
        "should return false if tokenizer characters were not consumed fully yet "
    );

    assert!(
        empty_tokenizer.is_end(),
        "should return true if tokenizer characters were consumed all"
    )
}

#[test]
fn test_tokenize_success() {
    // Arrange
    let mut tokenizer = Tokenizer::new(SOURCE);

    // `expected_tokens` vector is based on the `SOURCE` input: any change on
    // one of them should be reflected in the other.
    let expected_tokens = vec![
        num("3"),
        Token::Operator(Operator::Plus),
        num("4.33"),
        Token::Operator(Operator::Slash),
        num("5"),
    ];

    // Act
    tokenizer.tokenize().unwrap();

    // Assert
    assert_eq!(
        tokenizer.tokens, expected_tokens,
        "should take source characters stream and convert it into a stream of tokens"
    );

    assert_eq!(
        tokenizer.remaining(),
        0,
        "once all characters are converted into tokens, the cursor should stand at the end"
    )
}

#[test]
fn test_tokenize_fails() {
    // Arrange
    const INVALID_SOURCE: &str = "invalid source";
    let mut tokenizer = Tokenizer::new(INVALID_SOURCE);

    // Act & Assert
    assert!(
        tokenizer.tokenize().is_err(),
        "should return error if given source cannot be parsed"
    )
}

#[test]
fn test_tokenize_empty_input_gives_no_tokens() {
    let mut tokenizer = Tokenizer::new("");
    tokenizer.tokenize().unwrap();
    assert!(tokenizer.tokens.is_empty());
}

#[test]
fn test_tokenize_ignores_interior_and_trailing_whitespace() {
    let mut spaced = Tokenizer::new("  1  +  2  \n");
    spaced.tokenize().unwrap();
    let mut tight = Tokenizer::new("1+2");
    tight.tokenize().unwrap();
    assert_eq!(spaced.tokens, tight.tokens);
    assert_eq!(
        spaced.tokens,
        vec![num("1"), Token::Operator(Operator::Plus), num("2")]
    );
}

#[test]
fn test_tokenize_unexpected_token_diagnostic() {
    let mut tokenizer = Tokenizer::new("1 & 2");
    let err = tokenizer.tokenize().unwrap_err();
    assert_eq!(err.message(), "unexpected token");
    assert_eq!(err.diagnostic(), "[TOKENIZER ERROR]: unexpected token");
}

#[test]
fn test_tokenize_two_dots_diagnostic() {
    let mut tokenizer = Tokenizer::new("1.2.3");
    let err = tokenizer.tokenize().unwrap_err();
    assert_eq!(err.message(), "cannot parse number");
    assert_eq!(err.diagnostic(), "[TOKENIZER ERROR]: cannot parse number");
}

#[test]
fn test_tokenize_rejects_tab_whitespace() {
    let mut tokenizer = Tokenizer::new("1\t2");
    let err = tokenizer.tokenize().unwrap_err();
    assert_eq!(err.message(), "unexpected token");
}

#[test]
fn test_render_tokens_round_trip() {
    let mut tokenizer = Tokenizer::new("3 + 4.50  * 007");
    tokenizer.tokenize().unwrap();
    let rendered = render_tokens(&tokenizer.tokens);
    assert_eq!(rendered, "3 + 4.5 * 7");

    let mut again = Tokenizer::new(&rendered);
    again.tokenize().unwrap();
    assert_eq!(again.tokens, tokenizer.tokens);
}
