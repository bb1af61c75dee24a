use vstd::prelude::*;

verus! {

// The grammar, from lowest to highest precedence:
//   expr    = mul ("+" mul | "-" mul)*
//   mul     = unary ("*" unary | "/" unary)*
//   unary   = ("+" | "-")? primary
//   primary = integer | "(" expr ")"

/// A parsed expression. Every primary operand stands under a `Unary` node,
/// with `UnaryOperator::Plus` where no sign was written.
#[derive(Debug, PartialEq)]
#[allow(inconsistent_fields)]
pub enum Ast {
    BinOp { op: Operator, l: Box<Ast>, r: Box<Ast> },
    Unary { op: UnaryOperator, r: Box<Ast> },
    Integer(i64),
}

#[derive(Debug, Clone, Copy, PartialEq, Eq, Structural)]
pub enum Operator {
    Plus,
    Minus,
    Asterisk,
    Slash,
}

#[derive(Debug, Clone, Copy, PartialEq, Eq, Structural)]
pub enum UnaryOperator {
    Plus,
    Minus,
}

} // verus!
