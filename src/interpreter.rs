use vstd::prelude::*;
use crate::ast::{Ast, Operator, UnaryOperator};
use crate::error::CalcError;

verus! {

/// `x / y` rounded toward zero, for `y != 0`.
pub open spec fn trunc_div(x: int, y: int) -> int {
    let q = abs(x) / abs(y);
    if (x < 0) == (y < 0) {
        q
    } else {
        -q
    }
}

pub open spec fn abs(x: int) -> int {
    if x < 0 {
        -x
    } else {
        x
    }
}

/// `v` as an `i64`, or `Overflow` where it does not fit.
pub open spec fn in_range(v: int) -> Result<i64, CalcError> {
    if i64::MIN <= v <= i64::MAX {
        Ok(v as i64)
    } else {
        Err(CalcError::Overflow)
    }
}

/// The value of `l op r`.
pub open spec fn apply(op: Operator, l: i64, r: i64) -> Result<i64, CalcError> {
    match op {
        Operator::Plus => in_range(l + r),
        Operator::Minus => in_range(l - r),
        Operator::Asterisk => in_range(l * r),
        Operator::Slash => if r == 0 {
            Err(CalcError::DivisionByZero)
        } else {
            in_range(trunc_div(l as int, r as int))
        },
    }
}

/// The value of an expression: operands are evaluated left before right, and
/// the first failure is the result. Negation is subtraction from zero.
pub open spec fn value(e: Ast) -> Result<i64, CalcError>
    decreases e,
{
    match e {
        Ast::Integer(n) => Ok(n),
        Ast::Unary { op, r } => match value(*r) {
            Err(err) => Err(err),
            Ok(v) => match op {
                UnaryOperator::Plus => Ok(v),
                UnaryOperator::Minus => in_range(0 - v),
            },
        },
        Ast::BinOp { op, l, r } => match value(*l) {
            Err(err) => Err(err),
            Ok(x) => match value(*r) {
                Err(err) => Err(err),
                Ok(y) => apply(op, x, y),
            },
        },
    }
}

/// Evaluates expressions. It keeps no state between calls.
#[derive(Debug, Default)]
pub struct Interpreter;

impl Interpreter {
    pub fn new() -> (i: Interpreter) {
        Interpreter
    }

    pub fn eval(&mut self, expr: Ast) -> (r: Result<i64, CalcError>)
        ensures
            r == value(expr),
            *final(self) == *old(self),
        decreases expr,
    {
        match expr {
            Ast::Integer(n) => Ok(n),
            Ast::Unary { op, r } => {
                let v = self.eval(*r)?;
                match op {
                    UnaryOperator::Minus => match 0i64.checked_sub(v) {
                        Some(n) => Ok(n),
                        None => Err(CalcError::Overflow),
                    },
                    UnaryOperator::Plus => Ok(v),
                }
            },
            Ast::BinOp { op, l, r } => {
                let x = self.eval(*l)?;
                let y = self.eval(*r)?;
                self.eval_binop(x, y, op)
            },
        }
    }

    fn eval_binop(&mut self, l: i64, r: i64, op: Operator) -> (res: Result<i64, CalcError>)
        ensures
            res == apply(op, l, r),
            *final(self) == *old(self),
    {
        let v = match op {
            Operator::Plus => l.checked_add(r),
            Operator::Minus => l.checked_sub(r),
            Operator::Asterisk => l.checked_mul(r),
            Operator::Slash => {
                if r == 0 {
                    return Err(CalcError::DivisionByZero);
                }
                l.checked_div(r)
            },
        };
        match v {
            Some(n) => Ok(n),
            None => Err(CalcError::Overflow),
        }
    }
}

} // verus!
