use calculator::lexer::{Lexer, LexerError};
use calculator::token::Token;

#[test]
fn lexer_test_add() {
    let input = "1 + 1";
    let mut l = Lexer::new(input);
    assert_eq!(l.next_token().unwrap(), Token::Integer(1));
    assert_eq!(l.next_token().unwrap(), Token::Plus);
    assert_eq!(l.next_token().unwrap(), Token::Integer(1));
}

#[test]
fn lexer_test_minus() {
    let input = "1 - 1";
    let mut l = Lexer::new(input);
    assert_eq!(l.next_token().unwrap(), Token::Integer(1));
    assert_eq!(l.next_token().unwrap(), Token::Minus);
    assert_eq!(l.next_token().unwrap(), Token::Integer(1));
}

#[test]
fn test_asterisk() {
    let input = "1 * 1";
    let mut l = Lexer::new(input);
    assert_eq!(l.next_token().unwrap(), Token::Integer(1));
    assert_eq!(l.next_token().unwrap(), Token::Asterisk);
    assert_eq!(l.next_token().unwrap(), Token::Integer(1));
}

#[test]
fn test_slash() {
    let input = "1 / 1";
    let mut l = Lexer::new(input);
    assert_eq!(l.next_token().unwrap(), Token::Integer(1));
    assert_eq!(l.next_token().unwrap(), Token::Slash);
    assert_eq!(l.next_token().unwrap(), Token::Integer(1));
}

#[test]
fn lexer_test_paren() {
    let input = "5 * (1 + 1) * 5";
    let mut l = Lexer::new(input);
    assert_eq!(l.next_token().unwrap(), Token::Integer(5));
    assert_eq!(l.next_token().unwrap(), Token::Asterisk);
    assert_eq!(l.next_token().unwrap(), Token::LParen);
    assert_eq!(l.next_token().unwrap(), Token::Integer(1));
    assert_eq!(l.next_token().unwrap(), Token::Plus);
    assert_eq!(l.next_token().unwrap(), Token::Integer(1));
    assert_eq!(l.next_token().unwrap(), Token::RParen);
    assert_eq!(l.next_token().unwrap(), Token::Asterisk);
    assert_eq!(l.next_token().unwrap(), Token::Integer(5));
}

#[test]
fn lexer_test_multiple_number() {
    let input = "10  + 10";
    let mut l = Lexer::new(input);
    assert_eq!(l.next_token().unwrap(), Token::Integer(10));
    assert_eq!(l.next_token().unwrap(), Token::Plus);
    assert_eq!(l.next_token().unwrap(), Token::Integer(10));
}

#[test]
fn eof_repeats_at_end_of_input() {
    let mut l = Lexer::new("7");
    assert_eq!(l.next_token(), Ok(Token::Integer(7)));
    assert_eq!(l.next_token(), Ok(Token::Eof));
    assert_eq!(l.next_token(), Ok(Token::Eof));
    assert_eq!(l.next_token(), Ok(Token::Eof));
}

#[test]
fn empty_and_blank_input_is_eof() {
    assert_eq!(Lexer::new("").next_token(), Ok(Token::Eof));
    assert_eq!(Lexer::new(" \t \n").next_token(), Ok(Token::Eof));
}

#[test]
fn invalid_character_is_rejected_and_not_consumed() {
    let mut l = Lexer::new("1 & 2");
    assert_eq!(l.next_token(), Ok(Token::Integer(1)));
    assert_eq!(l.next_token(), Err(LexerError::InvalidInput('&')));
    assert_eq!(l.next_token(), Err(LexerError::InvalidInput('&')));
}

#[test]
fn unicode_whitespace_is_skipped() {
    let mut l = Lexer::new("\u{3000}4\u{a0}/\u{2003}2");
    assert_eq!(l.next_token(), Ok(Token::Integer(4)));
    assert_eq!(l.next_token(), Ok(Token::Slash));
    assert_eq!(l.next_token(), Ok(Token::Integer(2)));
    assert_eq!(l.next_token(), Ok(Token::Eof));
}

#[test]
fn largest_literal_is_read() {
    let mut l = Lexer::new("9223372036854775807");
    assert_eq!(l.next_token(), Ok(Token::Integer(i64::MAX)));
    assert_eq!(l.next_token(), Ok(Token::Eof));
}

#[test]
fn literal_past_i64_max_overflows() {
    let mut l = Lexer::new("9223372036854775808 + 1");
    assert_eq!(l.next_token(), Err(LexerError::Overflow));
    assert_eq!(l.next_token(), Err(LexerError::Overflow));
}

#[test]
fn leading_zeros_are_read() {
    let mut l = Lexer::new("007");
    assert_eq!(l.next_token(), Ok(Token::Integer(7)));
}

#[test]
fn nul_character_is_invalid_input() {
    let mut l = Lexer::new("1\u{0}");
    assert_eq!(l.next_token(), Ok(Token::Integer(1)));
    assert_eq!(l.next_token(), Err(LexerError::InvalidInput('\u{0}')));
}
