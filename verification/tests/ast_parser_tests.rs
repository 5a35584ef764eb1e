use calc::ast::expressions::{BinaryExpr, Expression, UnaryExpr};
use calc::ast::helpers::TokenStream;
use calc::ast::parser::Parser;
use calc::tokenizer::tokens::{Number, Operator, Token};

fn num(text: &str) -> Token {
    Token::Number(Number::from_literal(text).unwrap())
}

fn parser_over(tokens: Vec<Token>) -> Parser {
    Parser::new(TokenStream::new(tokens))
}

#[test]
fn test_literal_success() {
    // Arrange
    let literal_token = num("10");
    let mut parser = parser_over(vec![literal_token.clone()]);
    let expected_expr = Expression::Literal(literal_token);

    // Act
    let literal_expr = parser.literal();

    // Assert
    assert_eq!(
        literal_expr.unwrap(),
        expected_expr,
        "should build literal expression for given token"
    );

    assert_eq!(
        parser.tokens.remaining(),
        0,
        "should consume token from tokens source once expression was built"
    )
}

#[test]
fn test_literal_fails() {
    // Arrange
    let non_literal_token = Token::Operator(Operator::Star);
    let mut parser = parser_over(vec![non_literal_token]);

    // Act
    let result = parser.literal();

    // Assert
    assert!(
        result.is_err(),
        "should return error if cannot parse literal expression"
    )
}

#[test]
fn test_unary_with_operator_success() {
    // Arrange
    let operator_token = Token::Operator(Operator::Minus);
    let literal_token = num("25.5");

    let mut parser = parser_over(vec![operator_token.clone(), literal_token.clone()]);

    let expected_expr = Expression::Unary(UnaryExpr::new(
        operator_token,
        Expression::Literal(literal_token),
    ));

    // Act
    let unary_expr = parser.unary();

    // Assert
    assert_eq!(
        expected_expr,
        unary_expr.unwrap(),
        "should build unary expression for a valid stream of tokens"
    );
}

#[test]
fn test_unary_for_literal_success() {
    // Arrange
    let literal_token = num("29.9");
    let mut parser = parser_over(vec![literal_token.clone()]);
    let expected_expr = Expression::Literal(literal_token);

    // Act
    let literal_from_unary = parser.unary();

    // Assert
    assert_eq!(
        expected_expr,
        literal_from_unary.unwrap(),
        "should build a literal expression for given tokens stream if operator does not exist"
    )
}

#[test]
fn test_unary_fails_by_invalid_operator() {
    // Arrange
    let non_unary_operator = Token::Operator(Operator::Star);
    let literal_token = num("99.9");
    let mut parser = parser_over(vec![non_unary_operator, literal_token]);

    // Act
    let result = parser.unary();

    // Assert
    assert!(
        result.is_err(),
        "should return error if cannot parse unary expression by invalid operator"
    )
}

#[test]
fn test_factor_success() {
    // Arrange
    let left_literal = num("10");
    let right_literal = num("20");
    let factor_operators = [
        Token::Operator(Operator::Star),
        Token::Operator(Operator::Slash),
    ];

    for operator in factor_operators {
        let mut parser = parser_over(vec![
            left_literal.clone(),
            operator.clone(),
            right_literal.clone(),
        ]);
        let expected_expr = Expression::Binary(BinaryExpr::new(
            Expression::Literal(left_literal.clone()),
            operator,
            Expression::Literal(right_literal.clone()),
        ));

        // Act
        let factor_expr = parser.factor();

        // Assert
        assert_eq!(
            factor_expr.unwrap(),
            expected_expr,
            "should build a binary expression from factor production rule"
        )
    }
}

#[test]
fn test_expression_success() {
    // Arrange
    let left_literal = num("10");
    let right_literal = num("20");
    let factor_operators = [
        Token::Operator(Operator::Plus),
        Token::Operator(Operator::Minus),
    ];

    for operator in factor_operators {
        let mut parser = parser_over(vec![
            left_literal.clone(),
            operator.clone(),
            right_literal.clone(),
        ]);
        let expected_expr = Expression::Binary(BinaryExpr::new(
            Expression::Literal(left_literal.clone()),
            operator,
            Expression::Literal(right_literal.clone()),
        ));

        // Act
        let factor_expr = parser.term();

        // Assert
        assert_eq!(
            factor_expr.unwrap(),
            expected_expr,
            "should build a binary expression from factor production rule"
        )
    }
}

#[test]
fn test_program_on_empty_stream_is_uncomplete() {
    let mut parser = parser_over(vec![]);
    let err = parser.program().unwrap_err();
    assert_eq!(err.message(), "syntax error by uncomplete expression");
    assert_eq!(
        err.diagnostic(),
        "[AST PARSE ERROR]: syntax error by uncomplete expression"
    );
}

#[test]
fn test_unary_error_message() {
    let mut parser = parser_over(vec![Token::Operator(Operator::Plus), num("3")]);
    let err = parser.program().unwrap_err();
    assert_eq!(err.message(), "syntax error in <unary> expression");
}

#[test]
fn test_literal_error_message() {
    let mut parser = parser_over(vec![Token::Operator(Operator::Star)]);
    let err = parser.literal().unwrap_err();
    assert_eq!(err.message(), "unexpected expression");
}

#[test]
fn test_double_minus_is_rejected() {
    // After the leading minus, `literal` refuses the second minus.
    let mut parser = parser_over(vec![
        Token::Operator(Operator::Minus),
        Token::Operator(Operator::Minus),
        num("3"),
    ]);
    let err = parser.program().unwrap_err();
    assert_eq!(err.message(), "unexpected expression");
}

#[test]
fn test_trailing_tokens_are_ignored() {
    // `1 + 2 3` parses as the tree for `1 + 2`; the stray literal remains.
    let mut parser = parser_over(vec![
        num("1"),
        Token::Operator(Operator::Plus),
        num("2"),
        num("3"),
    ]);
    let expr = parser.program().unwrap();
    assert_eq!(expr.render(), "(1 + 2)");
    assert_eq!(parser.tokens.remaining(), 1);
}
