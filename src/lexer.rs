use vstd::prelude::*;
use crate::token::Token;

verus! {

/// The characters that Unicode gives the White_Space property, which is what
/// `char::is_whitespace` tests.
pub open spec fn is_white(c: char) -> bool {
    ||| '\t' <= c <= '\r'
    ||| c == ' '
    ||| c == '\u{85}'
    ||| c == '\u{a0}'
    ||| c == '\u{1680}'
    ||| '\u{2000}' <= c <= '\u{200a}'
    ||| c == '\u{2028}'
    ||| c == '\u{2029}'
    ||| c == '\u{202f}'
    ||| c == '\u{205f}'
    ||| c == '\u{3000}'
}

pub open spec fn is_digit(c: char) -> bool {
    '0' <= c <= '9'
}

pub open spec fn digit_value(c: char) -> int {
    c as int - '0' as int
}

/// The first position at or after `i` that does not hold whitespace.
pub open spec fn skip_white(s: Seq<char>, i: nat) -> nat
    decreases s.len() - i,
{
    if i < s.len() && is_white(s[i as int]) {
        skip_white(s, i + 1)
    } else {
        i
    }
}

/// The end of the run of decimal digits that starts at `i`.
pub open spec fn digits_end(s: Seq<char>, i: nat) -> nat
    decreases s.len() - i,
{
    if i < s.len() && is_digit(s[i as int]) {
        digits_end(s, i + 1)
    } else {
        i
    }
}

/// The number that the digits `s[i..j]` write in decimal.
pub open spec fn digits_value(s: Seq<char>, i: int, j: int) -> int
    decreases j - i,
{
    if j <= i {
        0
    } else {
        10 * digits_value(s, i, j - 1) + digit_value(s[j - 1])
    }
}

/// The token that a character stands for on its own, if any.
pub open spec fn symbol_token(c: char) -> Option<Token> {
    if c == '+' {
        Some(Token::Plus)
    } else if c == '-' {
        Some(Token::Minus)
    } else if c == '*' {
        Some(Token::Asterisk)
    } else if c == '/' {
        Some(Token::Slash)
    } else if c == '(' {
        Some(Token::LParen)
    } else if c == ')' {
        Some(Token::RParen)
    } else {
        None
    }
}

/// One step of the lexer on `s` from position `i`: what it returns, and the
/// position it leaves. Whitespace is skipped first. On failure the position
/// stays at the offending character.
#[verifier::opaque]
pub open spec fn lex_token(s: Seq<char>, i: nat) -> (Result<Token, LexerError>, nat) {
    let k = skip_white(s, i);
    if k >= s.len() {
        (Ok(Token::Eof), k)
    } else {
        let c = s[k as int];
        match symbol_token(c) {
            Some(t) => (Ok(t), k + 1),
            None => if is_digit(c) {
                let e = digits_end(s, k);
                let v = digits_value(s, k as int, e as int);
                if v <= i64::MAX {
                    (Ok(Token::Integer(v as i64)), e)
                } else {
                    (Err(LexerError::Overflow), k)
                }
            } else {
                (Err(LexerError::InvalidInput(c)), k)
            },
        }
    }
}

/// Why the lexer could not produce a token.
#[derive(Debug, Clone, Copy, PartialEq, Eq, Structural)]
pub enum LexerError {
    /// A character that starts no token.
    InvalidInput(char),
    /// A run of digits whose value exceeds `i64::MAX`.
    Overflow,
}

/// Turns one line of text into tokens, on demand. The end of the text acts
/// as the end sentinel: every read there yields `Token::Eof`. A NUL character
/// inside the text is no sentinel; like any character that starts no token,
/// it is rejected.
pub struct Lexer {
    input: Vec<char>,
    pos: usize,
}

impl Lexer {
    /// The characters of the line.
    pub closed spec fn text(&self) -> Seq<char> {
        self.input@
    }

    /// The read cursor: the index of the current character.
    pub closed spec fn pos(&self) -> nat {
        self.pos as nat
    }

    pub open spec fn wf(&self) -> bool {
        self.pos() <= self.text().len()
    }

    pub fn new(input: &str) -> (l: Lexer)
        ensures
            l.wf(),
            l.text() == input@,
            l.pos() == 0,
    {
        broadcast use vstd::string::group_string_axioms;
        let mut chars: Vec<char> = Vec::new();
        for c in it: input.chars()
            invariant
                chars@ == it.seq().take(it.index() as int),
                it.seq() == input@,
        {
            chars.push(c);
        }
        Lexer { input: chars, pos: 0 }
    }

    /// The current character, or `None` at the end of the text.
    fn current(&self) -> (c: Option<char>)
        requires
            self.wf(),
        ensures
            self.pos() < self.text().len() ==> c == Some(self.text()[self.pos() as int]),
            self.pos() >= self.text().len() ==> c is None,
    {
        if self.pos < self.input.len() {
            Some(self.input[self.pos])
        } else {
            None
        }
    }

    /// Moves the cursor one character forward, unless at the end, and
    /// returns the character that was current.
    fn read_char(&mut self) -> (c: Option<char>)
        requires
            old(self).wf(),
        ensures
            final(self).wf(),
            final(self).text() == old(self).text(),
            old(self).pos() < old(self).text().len() ==> c == Some(
                old(self).text()[old(self).pos() as int],
            ) && final(self).pos() == old(self).pos() + 1,
            old(self).pos() >= old(self).text().len() ==> c is None && final(self).pos()
                == old(self).pos(),
    {
        let c = self.current();
        if self.pos < self.input.len() {
            self.pos = self.pos + 1;
        }
        c
    }

    fn skip_whitespace(&mut self)
        requires
            old(self).wf(),
        ensures
            final(self).wf(),
            final(self).text() == old(self).text(),
            final(self).pos() == skip_white(old(self).text(), old(self).pos()),
    {
        loop
            invariant
                self.wf(),
                self.text() == old(self).text(),
                skip_white(self.text(), self.pos()) == skip_white(old(self).text(), old(self).pos()),
            ensures
                skip_white(self.text(), self.pos()) == self.pos(),
            decreases self.text().len() - self.pos(),
        {
            match self.current() {
                Some(c) => {
                    if is_white_char(c) {
                        self.read_char();
                    } else {
                        break;
                    }
                },
                None => break,
            }
        }
    }

    /// Reads the run of digits at the cursor as an `i64`. On overflow the
    /// cursor does not move.
    fn parse_number(&mut self) -> (r: Result<Token, LexerError>)
        requires
            old(self).wf(),
            old(self).pos() < old(self).text().len(),
            is_digit(old(self).text()[old(self).pos() as int]),
        ensures
            final(self).wf(),
            final(self).text() == old(self).text(),
            ({
                let s = old(self).text();
                let k = old(self).pos();
                let e = digits_end(s, k);
                let v = digits_value(s, k as int, e as int);
                if v <= i64::MAX {
                    r == Ok::<Token, LexerError>(Token::Integer(v as i64)) && final(self).pos() == e
                } else {
                    r == Err::<Token, LexerError>(LexerError::Overflow) && final(self).pos() == k
                }
            }),
    {
        let ghost s = self.text();
        let start = self.pos;
        let mut value: i64 = 0;
        loop
            invariant
                self.wf(),
                self.text() == s,
                s == old(self).text(),
                start == old(self).pos(),
                start <= self.pos,
                digits_end(s, start as nat) == digits_end(s, self.pos()),
                value == digits_value(s, start as int, self.pos as int),
                0 <= value,
                forall|j: int| start <= j < self.pos ==> is_digit(#[trigger] s[j]),
            ensures
                digits_end(s, self.pos()) == self.pos(),
            decreases s.len() - self.pos(),
        {
            match self.current() {
                Some(c) => {
                    if is_digit_char(c) {
                        assert(digits_value(s, start as int, self.pos as int + 1) == 10 * value
                            + digit_value(c));
                        let d = (c as u32 - '0' as u32) as i64;
                        let next = match value.checked_mul(10) {
                            Some(m) => m.checked_add(d),
                            None => None,
                        };
                        match next {
                            Some(n) => {
                                value = n;
                                self.read_char();
                            },
                            None => {
                                proof {
                                    lemma_digits_end(s, start as nat);
                                    lemma_digits_end(s, self.pos());
                                    lemma_digits_value_grows(
                                        s,
                                        start as int,
                                        self.pos as int + 1,
                                        digits_end(s, start as nat) as int,
                                    );
                                }
                                self.pos = start;
                                return Err(LexerError::Overflow);
                            },
                        }
                    } else {
                        break;
                    }
                },
                None => break,
            }
        }
        Ok(Token::Integer(value))
    }

    /// Reads the next token. Whitespace before it is skipped; on failure the
    /// cursor stays at the offending character, so that a later call fails
    /// in the same way.
    pub fn next_token(&mut self) -> (r: Result<Token, LexerError>)
        requires
            old(self).wf(),
        ensures
            final(self).wf(),
            final(self).text() == old(self).text(),
            (r, final(self).pos()) == lex_token(old(self).text(), old(self).pos()),
    {
        proof {
            reveal(lex_token);
        }
        self.skip_whitespace();
        let c = match self.current() {
            Some(c) => c,
            None => return Ok(Token::Eof),
        };
        let token = match c {
            '+' => Token::Plus,
            '-' => Token::Minus,
            '*' => Token::Asterisk,
            '/' => Token::Slash,
            '(' => Token::LParen,
            ')' => Token::RParen,
            _ => {
                if is_digit_char(c) {
                    return self.parse_number();
                } else {
                    return Err(LexerError::InvalidInput(c));
                }
            },
        };
        self.read_char();
        Ok(token)
    }
}

fn is_white_char(c: char) -> (r: bool)
    ensures
        r == is_white(c),
{
    ('\t' <= c && c <= '\r') || c == ' ' || c == '\u{85}' || c == '\u{a0}' || c == '\u{1680}'
        || ('\u{2000}' <= c && c <= '\u{200a}') || c == '\u{2028}' || c == '\u{2029}'
        || c == '\u{202f}' || c == '\u{205f}' || c == '\u{3000}'
}

fn is_digit_char(c: char) -> (r: bool)
    ensures
        r == is_digit(c),
{
    '0' <= c && c <= '9'
}

pub proof fn lemma_digits_end(s: Seq<char>, i: nat)
    ensures
        i <= digits_end(s, i),
        i <= s.len() ==> digits_end(s, i) <= s.len(),
        forall|m: int| i <= m < digits_end(s, i) ==> is_digit(#[trigger] s[m]),
        digits_end(s, i) < s.len() ==> !is_digit(s[digits_end(s, i) as int]),
    decreases s.len() - i,
{
    if i < s.len() && is_digit(s[i as int]) {
        lemma_digits_end(s, i + 1);
    }
}

pub proof fn lemma_skip_white(s: Seq<char>, i: nat)
    ensures
        i <= skip_white(s, i),
        i <= s.len() ==> skip_white(s, i) <= s.len(),
        forall|m: int| i <= m < skip_white(s, i) ==> is_white(#[trigger] s[m]),
        skip_white(s, i) < s.len() ==> !is_white(s[skip_white(s, i) as int]),
    decreases s.len() - i,
{
    if i < s.len() && is_white(s[i as int]) {
        lemma_skip_white(s, i + 1);
    }
}

/// Where a lexer step ends, and that the lexer never yields `Illegal`. A
/// token other than `Eof` starts inside the text and ends after its start;
/// a failure ends where it happened, so that reading there again fails alike.
pub proof fn lemma_lex_token(s: Seq<char>, i: nat)
    ensures
        i <= lex_token(s, i).1,
        i <= s.len() ==> lex_token(s, i).1 <= s.len(),
        lex_token(s, i).0 != Ok::<Token, LexerError>(Token::Illegal),
        lex_token(s, i).0 is Ok && lex_token(s, i).0 != Ok::<Token, LexerError>(Token::Eof) ==> i
            < s.len() && i < lex_token(s, i).1 <= s.len(),
        lex_token(s, i).0 is Err ==> lex_token(s, lex_token(s, i).1) == lex_token(s, i),
{
    reveal(lex_token);
    lemma_skip_white(s, i);
    let k = skip_white(s, i);
    lemma_skip_white(s, k);
    lemma_digits_end(s, k);
    if k < s.len() {
        assert(skip_white(s, k) == k);
    }
}

/// A longer run of digits writes a number at least as large.
pub proof fn lemma_digits_value_grows(s: Seq<char>, i: int, j: int, k: int)
    requires
        i <= j <= k,
        forall|m: int| i <= m < k ==> is_digit(#[trigger] s[m]),
    ensures
        digits_value(s, i, j) <= digits_value(s, i, k),
    decreases k - j,
{
    if j < k {
        lemma_digits_value_grows(s, i, j, k - 1);
        lemma_digits_value_nonneg(s, i, k - 1);
    }
}

pub proof fn lemma_digits_value_nonneg(s: Seq<char>, i: int, j: int)
    requires
        forall|m: int| i <= m < j ==> is_digit(#[trigger] s[m]),
    ensures
        digits_value(s, i, j) >= 0,
    decreases j - i,
{
    if i < j {
        lemma_digits_value_nonneg(s, i, j - 1);
    }
}

} // verus!
