use calculator::ast::{Ast, Operator, UnaryOperator};
use calculator::error::CalcError;
use calculator::interpreter::Interpreter;
use calculator::lexer::Lexer;
use calculator::parser::Parser;

fn lit(n: i64) -> Box<Ast> {
    Box::new(Ast::Integer(n))
}

#[test]
fn interpreter_test_add() {
    let input = "1 + 1";
    let l = Lexer::new(input);
    let mut p = Parser::new(l);
    let ast = p.parse_expr().unwrap();
    let mut i = Interpreter::new();
    assert_eq!(i.eval(ast).unwrap(), 2);
}

#[test]
fn test_sub() {
    let input = "1 - 1";
    let l = Lexer::new(input);
    let mut p = Parser::new(l);
    let ast = p.parse_expr().unwrap();
    let mut i = Interpreter::new();
    assert_eq!(i.eval(ast).unwrap(), 0);
}

#[test]
fn interpreter_test_mul() {
    let input = "1 * 2";
    let l = Lexer::new(input);
    let mut p = Parser::new(l);
    let ast = p.parse_expr().unwrap();
    let mut i = Interpreter::new();
    assert_eq!(i.eval(ast).unwrap(), 2);
}

#[test]
fn interpreter_test_div() {
    let input = "5 / 5";
    let l = Lexer::new(input);
    let mut p = Parser::new(l);
    let ast = p.parse_expr().unwrap();
    let mut i = Interpreter::new();
    assert_eq!(i.eval(ast).unwrap(), 1);
}

#[test]
fn interpreter_test_paren() {
    let input = "5 * (1 + 1) * 5";
    let l = Lexer::new(input);
    let mut p = Parser::new(l);
    let ast = p.parse_expr().unwrap();
    let mut i = Interpreter::new();
    assert_eq!(i.eval(ast).unwrap(), 50);
}

#[test]
fn interpreter_test_minus() {
    let input = "1 - 5";
    let l = Lexer::new(input);
    let mut p = Parser::new(l);
    let ast = p.parse_expr().unwrap();
    let mut i = Interpreter::new();
    assert_eq!(i.eval(ast).unwrap(), -4);
}

#[test]
fn interpreter_test_unary() {
    let input = "1 - -5";
    let l = Lexer::new(input);
    let mut p = Parser::new(l);
    let ast = p.parse_expr().unwrap();
    let mut i = Interpreter::new();
    assert_eq!(i.eval(ast).unwrap(), 6);
}

#[test]
fn division_truncates_toward_zero() {
    let mut i = Interpreter::new();
    let cases = [(7, 2, 3), (-7, 2, -3), (7, -2, -3), (-7, -2, 3), (1, 3, 0)];
    for (x, y, q) in cases {
        let ast = Ast::BinOp {
            op: Operator::Slash,
            l: lit(x),
            r: lit(y),
        };
        assert_eq!(i.eval(ast), Ok(q));
    }
}

#[test]
fn division_by_zero_is_an_error() {
    let mut i = Interpreter::new();
    let ast = Ast::BinOp {
        op: Operator::Slash,
        l: lit(5),
        r: lit(0),
    };
    assert_eq!(i.eval(ast), Err(CalcError::DivisionByZero));
}

#[test]
fn overflow_is_reported() {
    let mut i = Interpreter::new();
    let sum = Ast::BinOp {
        op: Operator::Plus,
        l: lit(i64::MAX),
        r: lit(1),
    };
    assert_eq!(i.eval(sum), Err(CalcError::Overflow));
    let diff = Ast::BinOp {
        op: Operator::Minus,
        l: lit(i64::MIN),
        r: lit(1),
    };
    assert_eq!(i.eval(diff), Err(CalcError::Overflow));
    let product = Ast::BinOp {
        op: Operator::Asterisk,
        l: lit(i64::MAX),
        r: lit(2),
    };
    assert_eq!(i.eval(product), Err(CalcError::Overflow));
    let quotient = Ast::BinOp {
        op: Operator::Slash,
        l: lit(i64::MIN),
        r: lit(-1),
    };
    assert_eq!(i.eval(quotient), Err(CalcError::Overflow));
    let negation = Ast::Unary {
        op: UnaryOperator::Minus,
        r: lit(i64::MIN),
    };
    assert_eq!(i.eval(negation), Err(CalcError::Overflow));
}

#[test]
fn left_error_comes_before_right_error() {
    let mut i = Interpreter::new();
    let ast = Ast::BinOp {
        op: Operator::Plus,
        l: Box::new(Ast::BinOp {
            op: Operator::Slash,
            l: lit(1),
            r: lit(0),
        }),
        r: Box::new(Ast::BinOp {
            op: Operator::Plus,
            l: lit(i64::MAX),
            r: lit(1),
        }),
    };
    assert_eq!(i.eval(ast), Err(CalcError::DivisionByZero));
}
