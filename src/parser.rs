use vstd::prelude::*;
use crate::ast::{Ast, Operator, UnaryOperator};
use crate::error::CalcError;
use crate::lexer::{Lexer, LexerError, lex_token, lemma_lex_token};
use crate::token::Token;

verus! {

/// A lexer failure as the parser reports it.
pub open spec fn lexer_failure(e: LexerError) -> CalcError {
    match e {
        LexerError::InvalidInput(c) => CalcError::InvalidInput(c),
        LexerError::Overflow => CalcError::Overflow,
    }
}

/// The token that starts at position `a` of `s` (after any whitespace).
pub open spec fn token_at(s: Seq<char>, a: nat) -> Result<Token, CalcError> {
    match lex_token(s, a).0 {
        Ok(t) => Ok(t),
        Err(e) => Err(lexer_failure(e)),
    }
}

/// Where the token that starts at `a` ends.
pub open spec fn token_end(s: Seq<char>, a: nat) -> nat {
    lex_token(s, a).1
}

/// Moving the parser past the token at `a`. The next token becomes the
/// current one and the token after it is read as the lookahead; the move
/// fails with the first of these reads that fails. On success, the position
/// of the new current token.
pub open spec fn advance(s: Seq<char>, a: nat) -> Result<nat, CalcError> {
    let b = token_end(s, a);
    match token_at(s, a) {
        Err(e) => Err(e),
        Ok(_) => match token_at(s, b) {
            Err(e) => Err(e),
            Ok(_) => match token_at(s, token_end(s, b)) {
                Err(e) => Err(e),
                Ok(_) => Ok(b),
            },
        },
    }
}

/// The characters of `s` from `a` on.
pub open spec fn remaining(s: Seq<char>, a: nat) -> nat {
    if a < s.len() {
        (s.len() - a) as nat
    } else {
        0
    }
}

/// A parse from position `a`: the tree, and how many characters it consumed.
pub type Parsed = Result<(Ast, nat), CalcError>;

/// `expr := mul (("+" | "-") mul)*`, folded to the left, from position `a`.
pub open spec fn parse_sum(s: Seq<char>, a: nat) -> Parsed
    decreases remaining(s, a), 5nat,
{
    match parse_product(s, a) {
        Err(e) => Err(e),
        Ok((l, d)) => match sum_tail(s, a + d, l) {
            Err(e) => Err(e),
            Ok((t, d2)) => Ok((t, d + d2)),
        },
    }
}

pub open spec fn additive(t: Result<Token, CalcError>) -> Option<Operator> {
    match t {
        Ok(Token::Plus) => Some(Operator::Plus),
        Ok(Token::Minus) => Some(Operator::Minus),
        _ => None,
    }
}

pub open spec fn multiplicative(t: Result<Token, CalcError>) -> Option<Operator> {
    match t {
        Ok(Token::Asterisk) => Some(Operator::Asterisk),
        Ok(Token::Slash) => Some(Operator::Slash),
        _ => None,
    }
}

/// The rest of a sum whose terms so far fold to `left`: while the current
/// token is `+` or `-`, one more term. Stops, consuming nothing, at any other
/// token.
pub open spec fn sum_tail(s: Seq<char>, a: nat, left: Ast) -> Parsed
    decreases remaining(s, a), 4nat,
{
    match additive(token_at(s, a)) {
        None => Ok((left, 0)),
        Some(op) => match advance(s, a) {
            Err(e) => Err(e),
            Ok(b) => {
                proof {
                    lemma_lex_token(s, a);
                }
                match parse_product(s, b) {
                    Err(e) => Err(e),
                    Ok((r, d)) => match sum_tail(
                        s,
                        b + d,
                        Ast::BinOp { op, l: Box::new(left), r: Box::new(r) },
                    ) {
                        Err(e) => Err(e),
                        Ok((t, d2)) => Ok((t, (b - a + d + d2) as nat)),
                    },
                }
            },
        },
    }
}

/// `mul := unary (("*" | "/") unary)*`, folded to the left.
pub open spec fn parse_product(s: Seq<char>, a: nat) -> Parsed
    decreases remaining(s, a), 3nat,
{
    match parse_unary(s, a) {
        Err(e) => Err(e),
        Ok((l, d)) => match product_tail(s, a + d, l) {
            Err(e) => Err(e),
            Ok((t, d2)) => Ok((t, d + d2)),
        },
    }
}

/// The rest of a product whose factors so far fold to `left`.
pub open spec fn product_tail(s: Seq<char>, a: nat, left: Ast) -> Parsed
    decreases remaining(s, a), 2nat,
{
    match multiplicative(token_at(s, a)) {
        None => Ok((left, 0)),
        Some(op) => match advance(s, a) {
            Err(e) => Err(e),
            Ok(b) => {
                proof {
                    lemma_lex_token(s, a);
                }
                match parse_unary(s, b) {
                    Err(e) => Err(e),
                    Ok((r, d)) => match product_tail(
                        s,
                        b + d,
                        Ast::BinOp { op, l: Box::new(left), r: Box::new(r) },
                    ) {
                        Err(e) => Err(e),
                        Ok((t, d2)) => Ok((t, (b - a + d + d2) as nat)),
                    },
                }
            },
        },
    }
}

/// `unary := ("+" | "-")? primary`; the primary is always wrapped in a
/// `Unary` node, with `Plus` where no sign was written.
pub open spec fn parse_unary(s: Seq<char>, a: nat) -> Parsed
    decreases remaining(s, a), 1nat,
{
    let op = if token_at(s, a) == Ok::<Token, CalcError>(Token::Minus) {
        UnaryOperator::Minus
    } else {
        UnaryOperator::Plus
    };
    if additive(token_at(s, a)) is Some {
        match advance(s, a) {
            Err(e) => Err(e),
            Ok(b) => {
                proof {
                    lemma_lex_token(s, a);
                }
                match parse_primary(s, b) {
                    Err(e) => Err(e),
                    Ok((r, d)) => Ok((Ast::Unary { op, r: Box::new(r) }, (b - a + d) as nat)),
                }
            },
        }
    } else {
        match parse_primary(s, a) {
            Err(e) => Err(e),
            Ok((r, d)) => Ok((Ast::Unary { op, r: Box::new(r) }, d)),
        }
    }
}

/// `primary := integer | "(" expr ")"`.
pub open spec fn parse_primary(s: Seq<char>, a: nat) -> Parsed
    decreases remaining(s, a), 0nat,
{
    match token_at(s, a) {
        Err(e) => Err(e),
        Ok(Token::Integer(n)) => match advance(s, a) {
            Err(e) => Err(e),
            Ok(b) => Ok((Ast::Integer(n), (b - a) as nat)),
        },
        Ok(Token::LParen) => match advance(s, a) {
            Err(e) => Err(e),
            Ok(b) => {
                proof {
                    lemma_lex_token(s, a);
                }
                match parse_sum(s, b) {
                    Err(e) => Err(e),
                    Ok((inner, d)) => match token_at(s, b + d) {
                        Err(e) => Err(e),
                        Ok(Token::RParen) => match advance(s, b + d) {
                            Err(e) => Err(e),
                            Ok(c) => Ok((inner, (c - a) as nat)),
                        },
                        Ok(t) => Err(CalcError::UnexpectedToken(Token::RParen, t)),
                    },
                }
            },
        },
        Ok(t) => Err(CalcError::IllegalToken(t)),
    }
}

/// The reader is stuck at a failure: reading there fails with `e` and does
/// not move.
pub open spec fn stuck_at(s: Seq<char>, p: nat, e: CalcError) -> bool {
    token_at(s, p) == Err::<Token, CalcError>(e) && token_end(s, p) == p
}

/// Builds expression trees from the tokens of a lexer, with one token of
/// lookahead.
pub struct Parser {
    lexer: Lexer,
    cur_token: Token,
    peek_token: Token,
    /// Where the current token starts in the text.
    at: Ghost<nat>,
}

impl Parser {
    /// The text being parsed.
    pub closed spec fn text(&self) -> Seq<char> {
        self.lexer.text()
    }

    /// The position in the text where the current token starts.
    pub closed spec fn at(&self) -> nat {
        self.at@
    }

    /// The token slots hold what the text has at `at` and after it; a slot
    /// whose read failed holds `Illegal`, with the lexer stuck at the failure.
    pub closed spec fn wf(&self) -> bool {
        let s = self.lexer.text();
        let a = self.at@;
        &&& self.lexer.wf()
        &&& a <= s.len()
        &&& match token_at(s, a) {
            Err(e) => {
                &&& self.cur_token == Token::Illegal
                &&& self.peek_token == Token::Illegal
                &&& stuck_at(s, self.lexer.pos(), e)
            },
            Ok(t) => {
                let b = token_end(s, a);
                &&& self.cur_token == t
                &&& match token_at(s, b) {
                    Err(e) => {
                        &&& self.peek_token == Token::Illegal
                        &&& stuck_at(s, self.lexer.pos(), e)
                    },
                    Ok(u) => {
                        &&& self.peek_token == u
                        &&& self.lexer.pos() == token_end(s, b)
                    },
                }
            },
        }
    }

    /// Takes the lexer and reads the current token and the lookahead from it.
    pub fn new(lexer: Lexer) -> (p: Parser)
        requires
            lexer.wf(),
        ensures
            p.wf(),
            p.text() == lexer.text(),
            p.at() == lexer.pos(),
    {
        let ghost s = lexer.text();
        let ghost a = lexer.pos();
        let mut p = Parser {
            lexer,
            cur_token: Token::Illegal,
            peek_token: Token::Illegal,
            at: Ghost(a),
        };
        proof {
            lemma_lex_token(s, a);
        }
        if let Ok(t) = p.lexer.next_token() {
            p.cur_token = t;
            proof {
                lemma_lex_token(s, token_end(s, a));
            }
            if let Ok(u) = p.lexer.next_token() {
                p.peek_token = u;
            }
        }
        p
    }

    /// The failure that the lexer is stuck at.
    fn lexer_failure(&mut self) -> (e: CalcError)
        requires
            old(self).lexer.wf(),
            token_at(old(self).lexer.text(), old(self).lexer.pos()) is Err,
            token_end(old(self).lexer.text(), old(self).lexer.pos()) == old(self).lexer.pos(),
        ensures
            token_at(old(self).lexer.text(), old(self).lexer.pos()) == Err::<Token, CalcError>(e),
            final(self).lexer.wf(),
            final(self).lexer.text() == old(self).lexer.text(),
            final(self).lexer.pos() == old(self).lexer.pos(),
            final(self).cur_token == old(self).cur_token,
            final(self).peek_token == old(self).peek_token,
            final(self).at == old(self).at,
    {
        match self.lexer.next_token() {
            Err(LexerError::InvalidInput(c)) => CalcError::InvalidInput(c),
            Err(LexerError::Overflow) => CalcError::Overflow,
            // Not taken: a lexer stuck at a failure fails again.
            Ok(t) => CalcError::IllegalToken(t),
        }
    }

    /// Parses one expression, `mul (("+" | "-") mul)*`, from the current token.
    /// It stops, without consuming it, at the first token that cannot
    /// continue the expression.
    pub fn parse_expr(&mut self) -> (r: Result<Ast, CalcError>)
        requires
            old(self).wf(),
        ensures
            final(self).wf(),
            final(self).text() == old(self).text(),
            match parse_sum(old(self).text(), old(self).at()) {
                Ok((t, d)) => r == Ok::<Ast, CalcError>(t) && final(self).at() == old(self).at() + d,
                Err(e) => r == Err::<Ast, CalcError>(e),
            },
        decreases remaining(old(self).text(), old(self).at()), 5nat,
    {
        let ghost s = self.text();
        let ghost a = self.at();
        let mut left = self.parse_mul()?;
        loop
            invariant
                self.wf(),
                self.text() == s,
                s == old(self).text(),
                a == old(self).at(),
                a <= self.at(),
                parse_sum(s, a) == match sum_tail(s, self.at(), left) {
                    Err(e) => Err(e),
                    Ok((t, d2)) => Ok((t, (self.at() - a + d2) as nat)),
                },
            ensures
                self.wf(),
                self.text() == s,
                a <= self.at(),
                parse_sum(s, a) == Ok::<(Ast, nat), CalcError>((left, (self.at() - a) as nat)),
            decreases remaining(s, self.at()),
        {
            let ghost p = self.at();
            proof {
                lemma_lex_token(s, p);
            }
            let op = match self.cur_token {
                Token::Plus => Operator::Plus,
                Token::Minus => Operator::Minus,
                _ => break,
            };
            self.next_token()?;
            let right = self.parse_mul()?;
            left = Ast::BinOp { op, l: Box::new(left), r: Box::new(right) };
        }
        Ok(left)
    }

    fn parse_mul(&mut self) -> (r: Result<Ast, CalcError>)
        requires
            old(self).wf(),
        ensures
            final(self).wf(),
            final(self).text() == old(self).text(),
            match parse_product(old(self).text(), old(self).at()) {
                Ok((t, d)) => r == Ok::<Ast, CalcError>(t) && final(self).at() == old(self).at() + d,
                Err(e) => r == Err::<Ast, CalcError>(e),
            },
        decreases remaining(old(self).text(), old(self).at()), 3nat,
    {
        let ghost s = self.text();
        let ghost a = self.at();
        let mut left = self.parse_unary()?;
        loop
            invariant
                self.wf(),
                self.text() == s,
                s == old(self).text(),
                a == old(self).at(),
                a <= self.at(),
                parse_product(s, a) == match product_tail(s, self.at(), left) {
                    Err(e) => Err(e),
                    Ok((t, d2)) => Ok((t, (self.at() - a + d2) as nat)),
                },
            ensures
                self.wf(),
                self.text() == s,
                a <= self.at(),
                parse_product(s, a) == Ok::<(Ast, nat), CalcError>((left, (self.at() - a) as nat)),
            decreases remaining(s, self.at()),
        {
            let ghost p = self.at();
            proof {
                lemma_lex_token(s, p);
            }
            let op = match self.cur_token {
                Token::Asterisk => Operator::Asterisk,
                Token::Slash => Operator::Slash,
                _ => break,
            };
            self.next_token()?;
            let right = self.parse_unary()?;
            left = Ast::BinOp { op, l: Box::new(left), r: Box::new(right) };
        }
        Ok(left)
    }

    fn parse_unary(&mut self) -> (r: Result<Ast, CalcError>)
        requires
            old(self).wf(),
        ensures
            final(self).wf(),
            final(self).text() == old(self).text(),
            match parse_unary(old(self).text(), old(self).at()) {
                Ok((t, d)) => r == Ok::<Ast, CalcError>(t) && final(self).at() == old(self).at() + d,
                Err(e) => r == Err::<Ast, CalcError>(e),
            },
        decreases remaining(old(self).text(), old(self).at()), 1nat,
    {
        let ghost s = self.text();
        let ghost a = self.at();
        proof {
            lemma_lex_token(s, a);
        }
        let op = match self.cur_token {
            Token::Minus => {
                self.next_token()?;
                UnaryOperator::Minus
            },
            Token::Plus => {
                self.next_token()?;
                UnaryOperator::Plus
            },
            _ => UnaryOperator::Plus,
        };
        let r = self.parse_primary()?;
        Ok(Ast::Unary { op, r: Box::new(r) })
    }

    fn parse_primary(&mut self) -> (r: Result<Ast, CalcError>)
        requires
            old(self).wf(),
        ensures
            final(self).wf(),
            final(self).text() == old(self).text(),
            match parse_primary(old(self).text(), old(self).at()) {
                Ok((t, d)) => r == Ok::<Ast, CalcError>(t) && final(self).at() == old(self).at() + d,
                Err(e) => r == Err::<Ast, CalcError>(e),
            },
        decreases remaining(old(self).text(), old(self).at()), 0nat,
    {
        let ghost s = self.text();
        let ghost a = self.at();
        proof {
            lemma_lex_token(s, a);
        }
        match self.cur_token {
            Token::Integer(n) => {
                self.next_token()?;
                Ok(Ast::Integer(n))
            },
            Token::LParen => {
                self.next_token()?;
                let expr = self.parse_expr()?;
                let ghost c = self.at();
                proof {
                    lemma_lex_token(s, c);
                }
                match self.cur_token {
                    Token::RParen => {
                        self.next_token()?;
                        Ok(expr)
                    },
                    Token::Illegal => Err(self.lexer_failure()),
                    unexpected => Err(CalcError::UnexpectedToken(Token::RParen, unexpected)),
                }
            },
            Token::Illegal => Err(self.lexer_failure()),
            tok => Err(CalcError::IllegalToken(tok)),
        }
    }

    /// Moves past the current token: the lookahead becomes current and the
    /// next token is read as the lookahead. Returns the new current token.
    pub fn next_token(&mut self) -> (r: Result<Token, CalcError>)
        requires
            old(self).wf(),
        ensures
            final(self).wf(),
            final(self).text() == old(self).text(),
            match advance(old(self).text(), old(self).at()) {
                Ok(b) => final(self).at() == b && r == token_at(old(self).text(), b),
                Err(e) => r == Err::<Token, CalcError>(e),
            },
    {
        let ghost s = self.text();
        let ghost a = self.at();
        proof {
            lemma_lex_token(s, a);
            lemma_lex_token(s, token_end(s, a));
            lemma_lex_token(s, token_end(s, token_end(s, a)));
        }
        if let Token::Illegal = self.cur_token {
            return Err(self.lexer_failure());
        }
        self.cur_token = self.peek_token;
        self.at = Ghost(token_end(s, a));
        if let Token::Illegal = self.cur_token {
            return Err(self.lexer_failure());
        }
        match self.lexer.next_token() {
            Ok(t) => {
                self.peek_token = t;
                Ok(self.cur_token)
            },
            Err(e) => {
                self.peek_token = Token::Illegal;
                Err(
                    match e {
                        LexerError::InvalidInput(c) => CalcError::InvalidInput(c),
                        LexerError::Overflow => CalcError::Overflow,
                    },
                )
            },
        }
    }
}

} // verus!
