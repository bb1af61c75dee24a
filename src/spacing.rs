//! Whitespace between tokens does not matter: a line with one more
//! whitespace character, anywhere but inside a number, is read as the same
//! tokens, parsed into the same tree and evaluated to the same outcome.
use vstd::prelude::*;
use crate::ast::Ast;
use crate::error::CalcError;
use crate::token::Token;
use crate::parser::{
    Parsed,
    additive,
    advance,
    multiplicative,
    parse_primary,
    parse_product,
    parse_sum,
    parse_unary,
    product_tail,
    remaining,
    sum_tail,
    token_at,
    token_end,
};
use crate::pipeline::{line_value, parse_line};
use crate::lexer::{
    digits_end,
    digits_value,
    is_digit,
    is_white,
    lemma_digits_end,
    lemma_lex_token,
    lex_token,
    skip_white,
};

verus! {

/// `t` is `s` with `w` inserted at position `p`.
pub open spec fn inserted(s: Seq<char>, t: Seq<char>, p: nat, w: char) -> bool {
    &&& p <= s.len()
    &&& t.len() == s.len() + 1
    &&& t[p as int] == w
    &&& forall|m: int| 0 <= m < p ==> #[trigger] t[m] == s[m]
    &&& forall|m: int| p <= m < s.len() ==> t[m + 1] == #[trigger] s[m]
}

/// Position `p` of `s` does not fall between two digits of one number.
pub open spec fn outside_number(s: Seq<char>, p: nat) -> bool {
    !(0 < p < s.len() && is_digit(s[p - 1]) && is_digit(s[p as int]))
}

/// Position `i` of `s` and position `j` of `s` with a character inserted at
/// `p` stand at the same place: before `p` nothing moves, after `p` all moves
/// by one, and at `p` the inserted character may lie before or after.
pub open spec fn same_place(p: nat, i: nat, j: nat) -> bool {
    ||| i < p && j == i
    ||| i > p && j == i + 1
    ||| i == p && (j == p || j == p + 1)
}

/// Where position `k` of `s` went once a character was inserted at `p`.
pub open spec fn shift(p: nat, k: nat) -> nat {
    if k < p {
        k
    } else {
        k + 1
    }
}

proof fn lemma_skip(s: Seq<char>, t: Seq<char>, p: nat, w: char, i: nat, j: nat)
    requires
        inserted(s, t, p, w),
        is_white(w),
        same_place(p, i, j),
    ensures
        skip_white(t, j) == shift(p, skip_white(s, i)),
    decreases t.len() - j,
{
    if i < s.len() && is_white(s[i as int]) {
        if i < p {
            assert(t[i as int] == s[i as int]);
            lemma_skip(s, t, p, w, i + 1, j + 1);
        } else if j == p {
            lemma_skip(s, t, p, w, i, j + 1);
        } else {
            assert(t[i + 1int] == s[i as int]);
            lemma_skip(s, t, p, w, i + 1, j + 1);
        }
    } else {
        if i < p {
            assert(t[i as int] == s[i as int]);
        } else if j == p {
            lemma_skip(s, t, p, w, i, j + 1);
        } else if i < s.len() {
            assert(t[i + 1int] == s[i as int]);
        }
    }
}

proof fn lemma_digits_end_after(s: Seq<char>, t: Seq<char>, p: nat, w: char, m: nat)
    requires
        inserted(s, t, p, w),
        p <= m,
    ensures
        digits_end(t, m + 1) == digits_end(s, m) + 1,
    decreases s.len() - m,
{
    if m < s.len() {
        assert(t[m + 1int] == s[m as int]);
        if is_digit(s[m as int]) {
            lemma_digits_end_after(s, t, p, w, m + 1);
        }
    }
}

proof fn lemma_digits_end_before(s: Seq<char>, t: Seq<char>, p: nat, w: char, m: nat)
    requires
        inserted(s, t, p, w),
        is_white(w),
        m <= p,
        digits_end(s, m) <= p,
    ensures
        digits_end(t, m) == digits_end(s, m),
    decreases p - m,
{
    lemma_digits_end(s, m);
    assert(!is_digit(w));
    if m < p {
        assert(t[m as int] == s[m as int]);
        if is_digit(s[m as int]) {
            lemma_digits_end_before(s, t, p, w, m + 1);
        }
    }
}

proof fn lemma_number_stops_at_gap(s: Seq<char>, p: nat, k: nat)
    requires
        p <= s.len(),
        outside_number(s, p),
        k < p,
    ensures
        digits_end(s, k) <= p,
    decreases p - k,
{
    if is_digit(s[k as int]) {
        if k + 1 < p {
            lemma_number_stops_at_gap(s, p, k + 1);
        } else {
            assert(digits_end(s, p) == p);
        }
    }
}

proof fn lemma_digits_value_moved(s: Seq<char>, t: Seq<char>, o: nat, i: int, j: int)
    requires
        forall|m: int| i <= m < j ==> t[m + o] == #[trigger] s[m],
    ensures
        digits_value(t, i + o, j + o) == digits_value(s, i, j),
    decreases j - i,
{
    if i < j {
        assert(t[j - 1 + o] == s[j - 1]);
        lemma_digits_value_moved(s, t, o, i, j - 1);
    }
}

/// At the same place of the two texts the lexer reads the same token (or
/// fails alike), and ends at the same place.
pub proof fn lemma_same_token(s: Seq<char>, t: Seq<char>, p: nat, w: char, i: nat, j: nat)
    requires
        inserted(s, t, p, w),
        is_white(w),
        outside_number(s, p),
        same_place(p, i, j),
    ensures
        lex_token(t, j).0 == lex_token(s, i).0,
        same_place(p, lex_token(s, i).1, lex_token(t, j).1),
{
    reveal(lex_token);
    lemma_skip(s, t, p, w, i, j);
    let k = skip_white(s, i);
    lemma_digits_end(s, k);
    if k < s.len() {
        let c = s[k as int];
        if k < p {
            assert(t[k as int] == c);
            if is_digit(c) {
                lemma_number_stops_at_gap(s, p, k);
                lemma_digits_end_before(s, t, p, w, k);
                lemma_digits_value_moved(s, t, 0, k as int, digits_end(s, k) as int);
            }
        } else {
            assert(t[k + 1int] == c);
            if is_digit(c) {
                lemma_digits_end_after(s, t, p, w, k);
                lemma_digits_value_moved(s, t, 1, k as int, digits_end(s, k) as int);
            }
        }
    }
}

/// `t` is `s` with the whitespace character `w` inserted at `p`, outside any
/// number.
#[verifier::opaque]
pub open spec fn spaced(s: Seq<char>, t: Seq<char>, p: nat, w: char) -> bool {
    &&& inserted(s, t, p, w)
    &&& is_white(w)
    &&& outside_number(s, p)
}

proof fn lemma_same_advance(s: Seq<char>, t: Seq<char>, p: nat, w: char, a: nat, a2: nat)
    requires
        spaced(s, t, p, w),
        same_place(p, a, a2),
    ensures
        token_at(t, a2) == token_at(s, a),
        same_place(p, token_end(s, a), token_end(t, a2)),
        match advance(s, a) {
            Err(e) => advance(t, a2) == Err::<nat, CalcError>(e),
            Ok(b) => advance(t, a2) is Ok && same_place(p, b, advance(t, a2)->Ok_0),
        },
{
    reveal(spaced);
    lemma_same_token(s, t, p, w, a, a2);
    let b = token_end(s, a);
    let b2 = token_end(t, a2);
    lemma_same_token(s, t, p, w, b, b2);
    lemma_same_token(s, t, p, w, token_end(s, b), token_end(t, b2));
}

/// Two parses from the same place of the two texts: both fail alike, or
/// both build the same tree and end at the same place.
pub open spec fn same_parse(p: nat, a: nat, r: Parsed, a2: nat, r2: Parsed) -> bool {
    match r {
        Err(e) => r2 == Err::<(Ast, nat), CalcError>(e),
        Ok((x, d)) => match r2 {
            Ok((x2, d2)) => x2 == x && same_place(p, a + d, a2 + d2),
            Err(_) => false,
        },
    }
}

proof fn lemma_same_sum(s: Seq<char>, t: Seq<char>, p: nat, w: char, a: nat, a2: nat)
    requires
        spaced(s, t, p, w),
        same_place(p, a, a2),
    ensures
        same_parse(p, a, parse_sum(s, a), a2, parse_sum(t, a2)),
    decreases remaining(s, a), 6nat,
{
    lemma_same_product(s, t, p, w, a, a2);
    if let Ok((l, d)) = parse_product(s, a) {
        let d2 = parse_product(t, a2)->Ok_0.1;
        lemma_same_sum_tail(s, t, p, w, a + d, a2 + d2, l);
    }
}

proof fn lemma_same_sum_tail(
    s: Seq<char>,
    t: Seq<char>,
    p: nat,
    w: char,
    a: nat,
    a2: nat,
    left: Ast,
)
    requires
        spaced(s, t, p, w),
        same_place(p, a, a2),
    ensures
        same_parse(p, a, sum_tail(s, a, left), a2, sum_tail(t, a2, left)),
    decreases remaining(s, a), 5nat,
{
    lemma_same_advance(s, t, p, w, a, a2);
    if let Some(op) = additive(token_at(s, a)) {
        if let Ok(b) = advance(s, a) {
            let b2 = advance(t, a2)->Ok_0;
            lemma_lex_token(s, a);
            lemma_lex_token(t, a2);
            lemma_same_product(s, t, p, w, b, b2);
            if let Ok((r, d)) = parse_product(s, b) {
                let d2 = parse_product(t, b2)->Ok_0.1;
                let next = Ast::BinOp { op, l: Box::new(left), r: Box::new(r) };
                lemma_same_sum_tail(s, t, p, w, b + d, b2 + d2, next);
            }
        }
    }
}

proof fn lemma_same_product(s: Seq<char>, t: Seq<char>, p: nat, w: char, a: nat, a2: nat)
    requires
        spaced(s, t, p, w),
        same_place(p, a, a2),
    ensures
        same_parse(p, a, parse_product(s, a), a2, parse_product(t, a2)),
    decreases remaining(s, a), 4nat,
{
    lemma_same_unary(s, t, p, w, a, a2);
    if let Ok((l, d)) = parse_unary(s, a) {
        let d2 = parse_unary(t, a2)->Ok_0.1;
        lemma_same_product_tail(s, t, p, w, a + d, a2 + d2, l);
    }
}

proof fn lemma_same_product_tail(
    s: Seq<char>,
    t: Seq<char>,
    p: nat,
    w: char,
    a: nat,
    a2: nat,
    left: Ast,
)
    requires
        spaced(s, t, p, w),
        same_place(p, a, a2),
    ensures
        same_parse(p, a, product_tail(s, a, left), a2, product_tail(t, a2, left)),
    decreases remaining(s, a), 3nat,
{
    lemma_same_advance(s, t, p, w, a, a2);
    if let Some(op) = multiplicative(token_at(s, a)) {
        if let Ok(b) = advance(s, a) {
            let b2 = advance(t, a2)->Ok_0;
            lemma_lex_token(s, a);
            lemma_lex_token(t, a2);
            lemma_same_unary(s, t, p, w, b, b2);
            if let Ok((r, d)) = parse_unary(s, b) {
                let d2 = parse_unary(t, b2)->Ok_0.1;
                let next = Ast::BinOp { op, l: Box::new(left), r: Box::new(r) };
                lemma_same_product_tail(s, t, p, w, b + d, b2 + d2, next);
            }
        }
    }
}

proof fn lemma_same_unary(s: Seq<char>, t: Seq<char>, p: nat, w: char, a: nat, a2: nat)
    requires
        spaced(s, t, p, w),
        same_place(p, a, a2),
    ensures
        same_parse(p, a, parse_unary(s, a), a2, parse_unary(t, a2)),
    decreases remaining(s, a), 2nat,
{
    lemma_same_advance(s, t, p, w, a, a2);
    if additive(token_at(s, a)) is Some {
        if let Ok(b) = advance(s, a) {
            let b2 = advance(t, a2)->Ok_0;
            lemma_lex_token(s, a);
            lemma_lex_token(t, a2);
            lemma_same_primary(s, t, p, w, b, b2);
        }
    } else {
        lemma_same_primary(s, t, p, w, a, a2);
    }
}

proof fn lemma_same_primary(s: Seq<char>, t: Seq<char>, p: nat, w: char, a: nat, a2: nat)
    requires
        spaced(s, t, p, w),
        same_place(p, a, a2),
    ensures
        same_parse(p, a, parse_primary(s, a), a2, parse_primary(t, a2)),
    decreases remaining(s, a), 1nat,
{
    lemma_same_advance(s, t, p, w, a, a2);
    match token_at(s, a) {
        Ok(Token::Integer(_)) => {
            if let Ok(b) = advance(s, a) {
                lemma_lex_token(s, a);
                lemma_lex_token(t, a2);
            }
        },
        Ok(Token::LParen) => {
            if let Ok(b) = advance(s, a) {
                lemma_lex_token(s, a);
                lemma_lex_token(t, a2);
                lemma_same_parenthesised(s, t, p, w, a, a2, b, advance(t, a2)->Ok_0);
            }
        },
        _ => {},
    }
}

proof fn lemma_same_parenthesised(
    s: Seq<char>,
    t: Seq<char>,
    p: nat,
    w: char,
    a: nat,
    a2: nat,
    b: nat,
    b2: nat,
)
    requires
        spaced(s, t, p, w),
        same_place(p, a, a2),
        same_place(p, b, b2),
        a < b,
        a2 < b2,
        remaining(s, b) < remaining(s, a),
        token_at(s, a) == Ok::<Token, CalcError>(Token::LParen),
        token_at(t, a2) == Ok::<Token, CalcError>(Token::LParen),
        advance(s, a) == Ok::<nat, CalcError>(b),
        advance(t, a2) == Ok::<nat, CalcError>(b2),
    ensures
        same_parse(p, a, parse_primary(s, a), a2, parse_primary(t, a2)),
    decreases remaining(s, a), 0nat,
{
    lemma_same_sum(s, t, p, w, b, b2);
    if let Ok((inner, d)) = parse_sum(s, b) {
        let d2 = parse_sum(t, b2)->Ok_0.1;
        lemma_same_advance(s, t, p, w, b + d, b2 + d2);
        lemma_lex_token(s, b + d);
        lemma_lex_token(t, b2 + d2);
    }
}

/// Whitespace is insignificant: inserting a whitespace character into a
/// line, anywhere but between two digits of one number, changes neither the
/// tree it parses into, nor the error, nor its value.
pub proof fn law_whitespace_insignificant(s: Seq<char>, p: nat, w: char)
    requires
        p <= s.len(),
        is_white(w),
        outside_number(s, p),
    ensures
        parse_line(s.insert(p as int, w)) == parse_line(s),
        line_value(s.insert(p as int, w)) == line_value(s),
{
    let t = s.insert(p as int, w);
    s.insert_ensures(p as int, w);
    assert forall|m: int| p <= m < s.len() implies t[m + 1] == #[trigger] s[m] by {}
    assert(inserted(s, t, p, w));
    reveal(spaced);
    lemma_same_sum(s, t, p, w, 0, 0);
}

} // verus!
