use vstd::prelude::*;
use vstd::string::StringExecFns;

verus! {

/// A lexical unit of an arithmetic expression.
#[derive(Debug, Clone, Copy, PartialEq, Eq, Hash, Structural)]
pub enum Token {
    Integer(i64),
    Plus,
    Minus,
    Asterisk,
    Slash,
    LParen,
    RParen,
    /// Placeholder held by a parser slot that no token has been read into.
    Illegal,
    /// End of input; once reached, every later read yields it again.
    Eof,
}

pub open spec fn digit_char(d: nat) -> char {
    ('0' as int + d) as char
}

/// `n` written in decimal, without leading zeros.
pub open spec fn decimal(n: nat) -> Seq<char>
    decreases n,
{
    if n < 10 {
        seq![digit_char(n)]
    } else {
        decimal(n / 10).push(digit_char(n % 10))
    }
}

/// `n` written in decimal, with a leading `-` when negative.
pub open spec fn int_text(n: int) -> Seq<char> {
    if n < 0 {
        seq!['-'] + decimal((-n) as nat)
    } else {
        decimal(n as nat)
    }
}

/// How a token is shown to a user.
pub open spec fn token_text(t: Token) -> Seq<char> {
    match t {
        Token::Integer(n) => int_text(n as int),
        Token::Plus => seq!['+'],
        Token::Minus => seq!['-'],
        Token::Asterisk => seq!['*'],
        Token::Slash => seq!['/'],
        Token::LParen => seq!['('],
        Token::RParen => seq![')'],
        Token::Illegal => "Illegal"@,
        Token::Eof => "EOF"@,
    }
}

impl Token {
    /// The token as it is shown to a user.
    pub fn text(&self) -> (r: String)
        ensures
            r@ == token_text(*self),
    {
        proof {
            reveal_strlit("+");
            reveal_strlit("-");
            reveal_strlit("*");
            reveal_strlit("/");
            reveal_strlit("(");
            reveal_strlit(")");
        }
        let r = match *self {
            Token::Integer(n) => {
                let mut out = String::new();
                append_int(&mut out, n);
                assert(out@ =~= token_text(*self));
                out
            },
            Token::Plus => symbol_text("+"),
            Token::Minus => symbol_text("-"),
            Token::Asterisk => symbol_text("*"),
            Token::Slash => symbol_text("/"),
            Token::LParen => symbol_text("("),
            Token::RParen => symbol_text(")"),
            Token::Illegal => String::from_str("Illegal"),
            Token::Eof => String::from_str("EOF"),
        };
        assert(r@ =~= token_text(*self));
        r
    }
}

fn symbol_text(s: &str) -> (r: String)
    ensures
        r@ == s@,
{
    String::from_str(s)
}

/// Appends `n` in decimal to `out`.
fn append_int(out: &mut String, n: i64)
    ensures
        final(out)@ == old(out)@ + int_text(n as int),
{
    if n < 0 {
        out.append("-");
        proof {
            reveal_strlit("-");
        }
        let m: u64 = if n == i64::MIN {
            9223372036854775808u64
        } else {
            (-n) as u64
        };
        append_decimal(out, m);
        assert(final(out)@ =~= old(out)@ + int_text(n as int));
    } else {
        append_decimal(out, n as u64);
    }
}

fn append_decimal(out: &mut String, m: u64)
    ensures
        final(out)@ == old(out)@ + decimal(m as nat),
    decreases m,
{
    if m >= 10 {
        append_decimal(out, m / 10);
    }
    out.append(digit_str(m % 10));
    assert(final(out)@ =~= old(out)@ + decimal(m as nat));
}

fn digit_str(d: u64) -> (r: &'static str)
    requires
        d < 10,
    ensures
        r@ == seq![digit_char(d as nat)],
{
    proof {
        reveal_strlit("0");
        reveal_strlit("1");
        reveal_strlit("2");
        reveal_strlit("3");
        reveal_strlit("4");
        reveal_strlit("5");
        reveal_strlit("6");
        reveal_strlit("7");
        reveal_strlit("8");
        reveal_strlit("9");
    }
    let r = match d {
        0 => "0",
        1 => "1",
        2 => "2",
        3 => "3",
        4 => "4",
        5 => "5",
        6 => "6",
        7 => "7",
        8 => "8",
        _ => "9",
    };
    assert(r@ =~= seq![digit_char(d as nat)]);
    r
}

} // verus!
