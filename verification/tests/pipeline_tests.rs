use calc::ast::expressions::Expression;
use calc::ast::helpers::TokenStream;
use calc::ast::parser::Parser;
use calc::tokenizer::parser::Tokenizer;
use calc::tokenizer::tokens::{Number, Token};

fn parse(input: &str) -> Result<Expression, String> {
    let mut tokenizer = Tokenizer::new(input);
    if let Err(err) = tokenizer.tokenize() {
        return Err(err.diagnostic());
    }
    let mut parser = Parser::new(TokenStream::new(tokenizer.tokens));
    match parser.program() {
        Ok(expr) => Ok(expr),
        Err(err) => Err(err.diagnostic()),
    }
}

fn rendering_of(input: &str) -> String {
    parse(input).unwrap().render()
}

#[test]
fn test_single_number_parses_to_literal() {
    let expr = parse("42").unwrap();
    let expected = Expression::Literal(Token::Number(Number::from_literal("42").unwrap()));
    assert_eq!(expr, expected);
    assert_eq!(expr.render(), "42");
}

#[test]
fn test_precedence_rendering() {
    assert_eq!(rendering_of("3 + 4 * 5"), "(3 + (4 * 5))");
}

#[test]
fn test_left_associativity_rendering() {
    assert_eq!(rendering_of("10 - 2 - 3"), "((10 - 2) - 3)");
}

#[test]
fn test_unary_minus_rendering() {
    assert_eq!(rendering_of("-7 * 2"), "((-7) * 2)");
}

#[test]
fn test_fractional_rendering() {
    assert_eq!(rendering_of("4.5 / 2"), "(4.5 / 2)");
}

#[test]
fn test_mixed_precedence_rendering() {
    assert_eq!(rendering_of("1 + 2 * 3 - 4 / 2"), "((1 + (2 * 3)) - (4 / 2))");
}

#[test]
fn test_division_by_zero_still_parses() {
    assert_eq!(rendering_of("1 / 0"), "(1 / 0)");
}

#[test]
fn test_whitespace_is_ignored_around_tokens() {
    assert_eq!(rendering_of(" 1 +  2 \n"), "(1 + 2)");
    assert_eq!(rendering_of("1+2"), "(1 + 2)");
}

#[test]
fn test_double_plus_error_line() {
    assert_eq!(
        parse("1 + + 2").unwrap_err(),
        "[AST PARSE ERROR]: syntax error in <unary> expression"
    );
}

#[test]
fn test_dangling_operator_error_line() {
    assert_eq!(
        parse("1 + ").unwrap_err(),
        "[AST PARSE ERROR]: syntax error by uncomplete expression"
    );
}

#[test]
fn test_stray_character_error_line() {
    assert_eq!(
        parse("1 & 2").unwrap_err(),
        "[TOKENIZER ERROR]: unexpected token"
    );
}

#[test]
fn test_two_dots_error_line() {
    assert_eq!(
        parse("1.2.3").unwrap_err(),
        "[TOKENIZER ERROR]: cannot parse number"
    );
}

#[test]
fn test_rendering_balances_parentheses() {
    for input in ["3 + 4 * 5", "-7 * 2", "1 + 2 * 3 - 4 / 2", "42"] {
        let rendered = rendering_of(input);
        let opens = rendered.chars().filter(|c| *c == '(').count();
        let closes = rendered.chars().filter(|c| *c == ')').count();
        assert_eq!(opens, closes, "parentheses must balance in {rendered}");
    }
}

#[test]
fn test_unary_only_allows_minus_before_literal() {
    assert!(parse("- -3").is_err());
    assert!(parse("-3").is_ok());
    assert_eq!(rendering_of("-3"), "(-3)");
}
