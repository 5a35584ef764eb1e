use calc::tokenizer::helpers::{parse_number, parse_operator, peek, CharCursor};
use calc::tokenizer::tokens::{Number, Operator, Token};

fn num(text: &str) -> Token {
    Token::Number(Number::from_literal(text).unwrap())
}

#[test]
fn test_peek() {
    // Arrange
    const SOURCE: &str = "4*3-2+1";

    for (i, c) in SOURCE.chars().enumerate() {
        // Act
        let peeked = peek(&CharCursor::new(&SOURCE[i..])).unwrap();

        // Assert
        assert_eq!(
            peeked, c,
            "should look at the current element of the iterator and return it without consume it"
        )
    }
}

#[test]
fn test_parse_operator_success() {
    // Arrange
    let mut operator_chars = CharCursor::new("+-*/  \n");

    // `expected_operator_tokens` slice is based on the cursor's input: any
    // change on one of them should be reflected in the other.
    let expected_operator_tokens = &[
        Some(Token::Operator(Operator::Plus)),
        Some(Token::Operator(Operator::Minus)),
        Some(Token::Operator(Operator::Star)),
        Some(Token::Operator(Operator::Slash)),
        None, // whitespace
        None, // end of lines
    ];

    for token in expected_operator_tokens {
        // Act
        let parsed = parse_operator(&mut operator_chars).unwrap();

        // Assert
        assert_eq!(
            *token, parsed,
            "should take current character and parse it as operator token"
        )
    }
}

#[test]
fn test_parse_operator_fail() {
    // Arrange
    let mut non_operator_chars = CharCursor::new("1<>(invalid");

    // Act
    let result = parse_operator(&mut non_operator_chars);

    // Assert
    assert!(
        result.is_err(),
        "should return error if given character cannot be parsed as operator token"
    );
}

#[test]
fn test_parse_number_success() {
    // Arrange
    let numbers_chars = vec!["10.25", "5", "0"];

    // `expected_numbers_tokens` slice is based on the `numbers_chars` input:
    // any change on one of them should be reflected in the other.
    let expected_numbers_tokens = &[
        Some(num("10.25")),
        Some(num("5")),
        Some(num("0")),
    ];

    for (i, number_chars) in numbers_chars.into_iter().enumerate() {
        // Act
        let mut cursor = CharCursor::new(number_chars);
        let parsed = parse_number(&mut cursor);

        // Assert
        assert_eq!(
            expected_numbers_tokens[i],
            parsed.unwrap(),
            "should take given stream of characters and parse it as number token"
        )
    }
}

#[test]
fn test_parse_number_fail() {
    // Arrange
    let invalid_numbers_chars = vec!["not a number", "3.20.49.9"];

    for number_chars in invalid_numbers_chars {
        // Act
        let mut cursor = CharCursor::new(number_chars);
        let result = parse_number(&mut cursor);

        // Assert
        assert!(
            result.is_err(),
            "should return error if given characters stream cannot be parsed as a valid number"
        )
    }
}

#[test]
fn test_parse_number_keeps_canonical_text() {
    let cases = [
        ("3.", "3"),
        ("3.50", "3.5"),
        ("007", "7"),
        ("0.50", "0.5"),
        ("000", "0"),
        ("10.25", "10.25"),
    ];
    for (input, expected) in cases {
        let mut cursor = CharCursor::new(input);
        let parsed = parse_number(&mut cursor).unwrap().unwrap();
        match parsed {
            Token::Number(n) => assert_eq!(n.text(), expected),
            Token::Operator(_) => panic!("number input must give a number token"),
        }
    }
}

#[test]
fn test_from_literal_rejects_malformed_text() {
    assert!(Number::from_literal("").is_none());
    assert!(Number::from_literal("1.2.3").is_none());
    assert!(Number::from_literal(".5").is_none());
    assert!(Number::from_literal("abc").is_none());
    assert!(Number::from_literal("1a").is_none());
}
