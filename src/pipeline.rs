use vstd::prelude::*;
use crate::ast::{Ast, UnaryOperator};
use crate::error::CalcError;
use crate::interpreter::{Interpreter, value};
use crate::lexer::{
    Lexer,
    digits_end,
    digits_value,
    is_digit,
    is_white,
    lemma_digits_value_nonneg,
    lex_token,
    skip_white,
};
use crate::parser::{Parser, parse_sum};

verus! {

/// The tree that the parser builds from the start of a line.
pub open spec fn parse_line(s: Seq<char>) -> Result<Ast, CalcError> {
    match parse_sum(s, 0) {
        Ok((t, _)) => Ok(t),
        Err(e) => Err(e),
    }
}

/// The outcome of lexing, parsing and evaluating a line.
pub open spec fn line_value(s: Seq<char>) -> Result<i64, CalcError> {
    match parse_line(s) {
        Ok(t) => value(t),
        Err(e) => Err(e),
    }
}

/// Lexes, parses and evaluates one line. The outcome depends on the text
/// alone: running it again on the same line gives the same result. Text
/// after the expression is left unparsed; only the parser's lookahead reads
/// into it, so a failure to read the tokens there is still reported.
pub fn evaluate(input: &str) -> (r: Result<i64, CalcError>)
    ensures
        r == line_value(input@),
{
    let lexer = Lexer::new(input);
    let mut parser = Parser::new(lexer);
    let ast = parser.parse_expr()?;
    let mut interpreter = Interpreter::new();
    interpreter.eval(ast)
}

/// A line that is a run of decimal digits, whose value fits in an `i64`,
/// evaluates to that value.
pub proof fn law_digits_evaluate_to_their_value(s: Seq<char>)
    requires
        s.len() > 0,
        forall|i: int| 0 <= i < s.len() ==> is_digit(#[trigger] s[i]),
        digits_value(s, 0, s.len() as int) <= i64::MAX,
    ensures
        line_value(s) == Ok::<i64, CalcError>(digits_value(s, 0, s.len() as int) as i64),
{
    reveal(lex_token);
    lemma_all_digits_end(s, 0);
    lemma_digits_value_nonneg(s, 0, s.len() as int);
    assert(!is_white(s[0]));
    assert(skip_white(s, 0) == 0);
    assert(skip_white(s, s.len()) == s.len());
    let v = digits_value(s, 0, s.len() as int) as i64;
    assert(lex_token(s, 0).0 == Ok::<crate::token::Token, crate::lexer::LexerError>(
        crate::token::Token::Integer(v),
    ));
    let u = Ast::Unary { op: UnaryOperator::Plus, r: Box::new(Ast::Integer(v)) };
    assert(parse_sum(s, 0) == Ok::<(Ast, nat), CalcError>((u, s.len())));
    assert(value(Ast::Integer(v)) == Ok::<i64, CalcError>(v));
}

proof fn lemma_all_digits_end(s: Seq<char>, i: nat)
    requires
        i <= s.len(),
        forall|j: int| i <= j < s.len() ==> is_digit(#[trigger] s[j]),
    ensures
        digits_end(s, i) == s.len(),
    decreases s.len() - i,
{
    if i < s.len() {
        lemma_all_digits_end(s, i + 1);
    }
}

} // verus!
