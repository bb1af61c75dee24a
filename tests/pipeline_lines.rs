use calculator::error::CalcError;
use calculator::pipeline::evaluate;
use calculator::token::Token;

#[test]
fn digit_lines_evaluate_to_their_value() {
    assert_eq!(evaluate("0"), Ok(0));
    assert_eq!(evaluate("42"), Ok(42));
    assert_eq!(evaluate("9223372036854775807"), Ok(i64::MAX));
}

#[test]
fn subtraction_is_left_associative() {
    assert_eq!(evaluate("8 - 3 - 2"), Ok(3));
}

#[test]
fn precedence_and_parentheses() {
    assert_eq!(evaluate("2 + 3 * 4"), Ok(14));
    assert_eq!(evaluate("(2 + 3) * 4"), Ok(20));
}

#[test]
fn unary_minus_after_subtraction() {
    assert_eq!(evaluate("1 - -5"), Ok(6));
}

#[test]
fn division_truncates_and_rejects_zero() {
    assert_eq!(evaluate("7 / 2"), Ok(3));
    assert_eq!(evaluate("5 / 0"), Err(CalcError::DivisionByZero));
}

#[test]
fn unbalanced_parenthesis_is_rejected() {
    assert_eq!(
        evaluate("(1 + 2"),
        Err(CalcError::UnexpectedToken(Token::RParen, Token::Eof))
    );
}

#[test]
fn invalid_character_is_rejected() {
    assert_eq!(evaluate("1 & 2"), Err(CalcError::InvalidInput('&')));
}

#[test]
fn whitespace_does_not_matter() {
    assert_eq!(evaluate("5   *   (1+ 1)*5"), Ok(50));
    assert_eq!(evaluate("5*(1+1)*5"), Ok(50));
}

#[test]
fn same_line_twice_gives_same_result() {
    for line in ["5 * (1 + 1) * 5", "5 / 0", "(1 + 2", "1 & 2"] {
        assert_eq!(evaluate(line), evaluate(line));
    }
    assert_eq!(evaluate("8 - 3 - 2"), Ok(3));
    assert_eq!(evaluate("8 - 3 - 2"), Ok(3));
}

#[test]
fn smallest_value_is_reachable() {
    assert_eq!(evaluate("-9223372036854775807 - 1"), Ok(i64::MIN));
    assert_eq!(evaluate("-(9223372036854775807 + 1)"), Err(CalcError::Overflow));
}

#[test]
fn token_text_shows_each_token() {
    assert_eq!(Token::Integer(-120).text(), "-120");
    assert_eq!(Token::Integer(0).text(), "0");
    assert_eq!(Token::Integer(i64::MIN).text(), "-9223372036854775808");
    assert_eq!(Token::Integer(i64::MAX).text(), "9223372036854775807");
    assert_eq!(Token::Plus.text(), "+");
    assert_eq!(Token::Minus.text(), "-");
    assert_eq!(Token::Asterisk.text(), "*");
    assert_eq!(Token::Slash.text(), "/");
    assert_eq!(Token::LParen.text(), "(");
    assert_eq!(Token::RParen.text(), ")");
    assert_eq!(Token::Illegal.text(), "Illegal");
    assert_eq!(Token::Eof.text(), "EOF");
}

#[test]
fn error_messages() {
    assert_eq!(
        CalcError::DivisionByZero.message(),
        "DivisionByZero: This operation will panic at runtime"
    );
    assert_eq!(
        CalcError::UnexpectedToken(Token::RParen, Token::Eof).message(),
        "UnexpectedToken: Expected ), but got EOF"
    );
    assert_eq!(CalcError::InvalidInput('&').message(), "Invalid input: &");
    assert_eq!(
        CalcError::IllegalToken(Token::Integer(12)).message(),
        "Illegal Token: 12"
    );
    assert_eq!(
        CalcError::Overflow.message(),
        "Overflow: the value does not fit in an i64"
    );
}
