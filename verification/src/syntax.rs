//! The parse tree of calculator expressions, and an operator-precedence
//! parser for the infix notation that the calculator accepts.
//!
//! The grammar, over ASCII bytes: integer literals in decimal or with a
//! `0x`/`0o`/`0b` radix prefix, parentheses, unary negation, and the
//! infix operators `+ -` (left, weakest), `*` (left), `^` (right,
//! strongest); whitespace may surround every atom.  The parser is
//! precedence-climbing: each operator has a left and a right binding
//! power, an operator is taken up only while its left power reaches the
//! surrounding minimum, and the right-hand side is parsed at the
//! operator's right power.  [`parse_spec`] states the whole algorithm
//! over a byte sequence, and [`parse`] is proved to return exactly that.

use vstd::prelude::*;

verus! {

/// An arithmetic expression over machine-integer literals, with unary
/// negation, the four infix operators, and exponentiation.
#[derive(Debug)]
pub enum Expr {
    Literal(i64),
    Neg(Box<Expr>),
    Add(Box<Expr>, Box<Expr>),
    Sub(Box<Expr>, Box<Expr>),
    Mul(Box<Expr>, Box<Expr>),
    Pow(Box<Expr>, Box<Expr>),
}

/// Why parsing can fail.
#[derive(Debug, Clone, Copy, PartialEq, Eq, Structural)]
pub enum ParseError {
    /// The input does not match the grammar.
    Invalid,
    /// A literal's value does not fit in a machine integer.
    LiteralOverflow,
}

/// ASCII whitespace.
pub open spec fn is_space(c: u8) -> bool {
    c == 0x20 || (0x09 <= c <= 0x0D)
}

/// The value of an ASCII digit (`0-9`, `a-f`, `A-F`); anything else maps
/// to a sentinel no radix reaches.
pub open spec fn digit_value(c: u8) -> nat {
    if 0x30 <= c <= 0x39 {
        (c - 0x30) as nat
    } else if 0x61 <= c <= 0x66 {
        (c - 0x61 + 10) as nat
    } else if 0x41 <= c <= 0x46 {
        (c - 0x41 + 10) as nat
    } else {
        99
    }
}

/// Whether `c` is a digit of the given radix.
pub open spec fn is_digit(c: u8, r: u64) -> bool {
    digit_value(c) < r
}

/// The first position at or after `i` that does not hold whitespace.
pub open spec fn skip_spaces(s: Seq<u8>, i: nat) -> nat
    decreases s.len() - i,
{
    if i < s.len() && is_space(s[i as int]) {
        skip_spaces(s, i + 1)
    } else {
        i
    }
}

/// The first position at or after `i` that does not hold a digit of the
/// radix `r`.
pub open spec fn digits_end(s: Seq<u8>, i: nat, r: u64) -> nat
    decreases s.len() - i,
{
    if i < s.len() && is_digit(s[i as int], r) {
        digits_end(s, i + 1, r)
    } else {
        i
    }
}

/// The number the digits `s[i..j)` denote in radix `r`, most significant
/// digit first.
pub open spec fn digits_value(s: Seq<u8>, i: nat, j: nat, r: u64) -> nat
    decreases j - i,
{
    if j <= i {
        0
    } else {
        digits_value(s, i, (j - 1) as nat, r) * (r as nat) + digit_value(s[j - 1])
    }
}

/// Whether `s[i..]` starts with `0` followed by the radix letter `c`.
pub open spec fn has_radix_prefix(s: Seq<u8>, i: nat, c: u8) -> bool {
    i + 1 < s.len() && s[i as int] == 0x30 && s[(i + 1) as int] == c
}

/// Reads the digit run starting at `i` in radix `r`: its value and its
/// end, or an overflow error when the value does not fit in an `i64`.
pub open spec fn radix_number(s: Seq<u8>, i: nat, r: u64) -> Result<(nat, nat), ParseError> {
    let j = digits_end(s, i, r);
    let v = digits_value(s, i, j, r);
    if v > 0x7FFF_FFFF_FFFF_FFFF {
        Err(ParseError::LiteralOverflow)
    } else {
        Ok((v, j))
    }
}

/// Reads a literal at `i`: a `0x`/`0o`/`0b` radix prefix that is followed
/// by at least one digit of its radix, or else a decimal digit run (so a
/// bare `0` before a stray letter still reads as zero).
pub open spec fn scan_number(s: Seq<u8>, i: nat) -> Result<(nat, nat), ParseError> {
    if has_radix_prefix(s, i, 0x78) && i + 2 < s.len() && is_digit(s[(i + 2) as int], 16) {
        radix_number(s, i + 2, 16)
    } else if has_radix_prefix(s, i, 0x6F) && i + 2 < s.len() && is_digit(s[(i + 2) as int], 8) {
        radix_number(s, i + 2, 8)
    } else if has_radix_prefix(s, i, 0x62) && i + 2 < s.len() && is_digit(s[(i + 2) as int], 2) {
        radix_number(s, i + 2, 2)
    } else if i < s.len() && is_digit(s[i as int], 10) {
        radix_number(s, i, 10)
    } else {
        Err(ParseError::Invalid)
    }
}

/// Whether `c` is an infix operator.
pub open spec fn is_infix_op(c: u8) -> bool {
    c == 0x2B || c == 0x2D || c == 0x2A || c == 0x5E
}

/// The left binding power of an infix operator: how strongly it holds on
/// to what stands to its left.
pub open spec fn left_power(c: u8) -> u32 {
    if c == 0x2B || c == 0x2D {
        2
    } else if c == 0x2A {
        4
    } else {
        7
    }
}

/// The right binding power of an infix operator: the minimum power its
/// right-hand side is parsed at.  `^` binds weaker to the right than to
/// the left, making it right-associative; the others the other way round.
pub open spec fn right_power(c: u8) -> u32 {
    if c == 0x2B || c == 0x2D {
        3
    } else if c == 0x2A {
        5
    } else {
        6
    }
}

/// The tree node an infix operator builds.
pub open spec fn mk_infix(c: u8, lhs: Expr, rhs: Expr) -> Expr {
    if c == 0x2B {
        Expr::Add(Box::new(lhs), Box::new(rhs))
    } else if c == 0x2D {
        Expr::Sub(Box::new(lhs), Box::new(rhs))
    } else if c == 0x2A {
        Expr::Mul(Box::new(lhs), Box::new(rhs))
    } else {
        Expr::Pow(Box::new(lhs), Box::new(rhs))
    }
}

/// Parses an atom at `i`: leading whitespace, then a parenthesized
/// expression or a literal, then trailing whitespace.
pub open spec fn parse_primary_spec(s: Seq<u8>, i: nat) -> Result<(Expr, nat), ParseError>
    decreases s.len() - i, 0nat,
{
    if i < s.len() && is_space(s[i as int]) {
        parse_primary_spec(s, i + 1)
    } else if i < s.len() && s[i as int] == 0x28 {
        match parse_expr_spec(s, i + 1, 0) {
            Ok((e, j)) => if j < s.len() && s[j as int] == 0x29 {
                Ok((e, skip_spaces(s, j + 1)))
            } else {
                Err(ParseError::Invalid)
            },
            Err(pe) => Err(pe),
        }
    } else {
        match scan_number(s, i) {
            Ok((v, j)) => Ok((Expr::Literal(v as i64), skip_spaces(s, j))),
            Err(pe) => Err(pe),
        }
    }
}

/// Parses a negation at exactly `i` (no whitespace may stand between `-`
/// and the start of the expression position), or else an atom.
pub open spec fn parse_prefix_spec(s: Seq<u8>, i: nat) -> Result<(Expr, nat), ParseError>
    decreases s.len() - i, 1nat,
{
    if i < s.len() && s[i as int] == 0x2D {
        match parse_expr_spec(s, i + 1, 4) {
            Ok((e, j)) => Ok((Expr::Neg(Box::new(e)), j)),
            Err(pe) => Err(pe),
        }
    } else {
        parse_primary_spec(s, i)
    }
}

/// Takes up infix operators after a parsed left-hand side for as long as
/// their left power reaches `min`; an operator whose right-hand side does
/// not parse is left unconsumed.
pub open spec fn parse_infix_spec(s: Seq<u8>, i: nat, lhs: Expr, min: u32) -> Result<
    (Expr, nat),
    ParseError,
>
    decreases s.len() - i, 3nat,
{
    if i < s.len() && is_infix_op(s[i as int]) && left_power(s[i as int]) >= min {
        let c = s[i as int];
        match parse_expr_spec(s, i + 1, right_power(c)) {
            Ok((rhs, j)) => if i < j <= s.len() {
                parse_infix_spec(s, j, mk_infix(c, lhs, rhs), min)
            } else {
                Err(ParseError::Invalid)
            },
            Err(_) => Ok((lhs, i)),
        }
    } else {
        Ok((lhs, i))
    }
}

/// Parses an expression at `i` whose operators all bind at least as
/// strongly as `min`.
pub open spec fn parse_expr_spec(s: Seq<u8>, i: nat, min: u32) -> Result<(Expr, nat), ParseError>
    decreases s.len() - i, 2nat,
{
    match parse_prefix_spec(s, i) {
        Ok((lhs, j)) => if i < j <= s.len() {
            parse_infix_spec(s, j, lhs, min)
        } else {
            Err(ParseError::Invalid)
        },
        Err(pe) => Err(pe),
    }
}

/// Parses a whole input: one expression, with nothing left over.
pub open spec fn parse_spec(s: Seq<u8>) -> Result<Expr, ParseError> {
    match parse_expr_spec(s, 0, 0) {
        Ok((e, j)) => if j == s.len() {
            Ok(e)
        } else {
            Err(ParseError::Invalid)
        },
        Err(pe) => Err(pe),
    }
}

/// Appending digits never shrinks a digit run's value.
proof fn lemma_digits_value_grows(s: Seq<u8>, i: nat, k: nat, j: nat, r: u64)
    requires
        i <= k <= j,
        r >= 1,
    ensures
        digits_value(s, i, j, r) >= digits_value(s, i, k, r),
    decreases j - k,
{
    if j > k {
        lemma_digits_value_grows(s, i, k, (j - 1) as nat, r);
        let v = digits_value(s, i, (j - 1) as nat, r);
        assert(v * (r as nat) >= v) by (nonlinear_arith)
            requires
                r >= 1,
                v >= 0,
        ;
    }
}

/// The digit value of a byte, as the scanner reads it.
fn digit_val_of(c: u8) -> (r: u64)
    ensures
        r as nat == digit_value(c),
{
    if 0x30 <= c && c <= 0x39 {
        (c - 0x30) as u64
    } else if 0x61 <= c && c <= 0x66 {
        (c - 0x61 + 10) as u64
    } else if 0x41 <= c && c <= 0x46 {
        (c - 0x41 + 10) as u64
    } else {
        99
    }
}

/// Advances over whitespace.
fn skip_spaces_at(s: &[u8], i: usize) -> (r: usize)
    requires
        i <= s@.len(),
    ensures
        r == skip_spaces(s@, i as nat),
        i <= r <= s@.len(),
{
    let mut k = i;
    while k < s.len() && (s[k] == 0x20 || (0x09 <= s[k] && s[k] <= 0x0D))
        invariant
            i <= k <= s@.len(),
            skip_spaces(s@, i as nat) == skip_spaces(s@, k as nat),
        decreases s@.len() - k,
    {
        k = k + 1;
    }
    k
}

/// Advances over digits of the radix `r`.
fn digits_end_at(s: &[u8], i: usize, r: u64) -> (res: usize)
    requires
        i <= s@.len(),
    ensures
        res == digits_end(s@, i as nat, r),
        i <= res <= s@.len(),
{
    let mut k = i;
    while k < s.len() && digit_val_of(s[k]) < r
        invariant
            i <= k <= s@.len(),
            digits_end(s@, i as nat, r) == digits_end(s@, k as nat, r),
        decreases s@.len() - k,
    {
        k = k + 1;
    }
    k
}

/// Accumulates the value of the digits `s[i..j)` in radix `r`, or reports
/// that it does not even fit in a `u64`.
fn digits_value_at(s: &[u8], i: usize, j: usize, r: u64) -> (res: Option<u64>)
    requires
        i <= j <= s@.len(),
        2 <= r,
    ensures
        (match res {
            Some(v) => v as nat == digits_value(s@, i as nat, j as nat, r),
            None => digits_value(s@, i as nat, j as nat, r) > u64::MAX,
        }),
{
    let mut v: u64 = 0;
    let mut k = i;
    while k < j
        invariant
            i <= k <= j <= s@.len(),
            2 <= r,
            v as nat == digits_value(s@, i as nat, k as nat, r),
        decreases j - k,
    {
        let d = digit_val_of(s[k]);
        proof {
            lemma_digits_value_grows(s@, i as nat, (k + 1) as nat, j as nat, r);
        }
        let m = match v.checked_mul(r) {
            Some(m) => m,
            None => {
                proof {
                    let vk = digits_value(s@, i as nat, k as nat, r);
                    assert(vk * (r as nat) + digit_value(s@[k as int]) > u64::MAX);
                }
                return None;
            },
        };
        let nv = match m.checked_add(d) {
            Some(nv) => nv,
            None => {
                return None;
            },
        };
        v = nv;
        k = k + 1;
    }
    Some(v)
}

/// Reads a digit run in radix `r` into a machine integer.
fn radix_number_at(s: &[u8], i: usize, r: u64) -> (res: Result<(i64, usize), ParseError>)
    requires
        i <= s@.len(),
        2 <= r,
    ensures
        (match (radix_number(s@, i as nat, r), res) {
            (Ok((v, j)), Ok((ev, ej))) => ev >= 0 && ev as nat == v && ej == j && i <= ej <= s@.len(),
            (Err(e1), Err(e2)) => e1 == e2,
            _ => false,
        }),
{
    let j = digits_end_at(s, i, r);
    match digits_value_at(s, i, j, r) {
        Some(v) => if v > 0x7FFF_FFFF_FFFF_FFFF {
            Err(ParseError::LiteralOverflow)
        } else {
            Ok((v as i64, j))
        },
        None => Err(ParseError::LiteralOverflow),
    }
}

/// Reads a literal, trying the three radix prefixes and then decimal.
fn scan_number_at(s: &[u8], i: usize) -> (res: Result<(i64, usize), ParseError>)
    requires
        i <= s@.len(),
    ensures
        (match (scan_number(s@, i as nat), res) {
            (Ok((v, j)), Ok((ev, ej))) => ev >= 0 && ev as nat == v && ej == j && i <= ej <= s@.len(),
            (Err(e1), Err(e2)) => e1 == e2,
            _ => false,
        }),
{
    if i < s.len() && s[i] == 0x30 && i + 1 < s.len() && s[i + 1] == 0x78 && i + 2 < s.len()
        && digit_val_of(s[i + 2]) < 16 {
        radix_number_at(s, i + 2, 16)
    } else if i < s.len() && s[i] == 0x30 && i + 1 < s.len() && s[i + 1] == 0x6F && i + 2
        < s.len() && digit_val_of(s[i + 2]) < 8 {
        radix_number_at(s, i + 2, 8)
    } else if i < s.len() && s[i] == 0x30 && i + 1 < s.len() && s[i + 1] == 0x62 && i + 2
        < s.len() && digit_val_of(s[i + 2]) < 2 {
        radix_number_at(s, i + 2, 2)
    } else if i < s.len() && digit_val_of(s[i]) < 10 {
        radix_number_at(s, i, 10)
    } else {
        Err(ParseError::Invalid)
    }
}

/// Parses an atom, as [`parse_primary_spec`] describes.
fn parse_primary_at(s: &[u8], i: usize) -> (res: Result<(Expr, usize), ParseError>)
    requires
        i <= s@.len(),
    ensures
        (match (parse_primary_spec(s@, i as nat), res) {
            (Ok((e, j)), Ok((re, rj))) => re == e && rj == j && rj <= s@.len(),
            (Err(e1), Err(e2)) => e1 == e2,
            _ => false,
        }),
    decreases s@.len() - i, 0nat,
{
    if i < s.len() && (s[i] == 0x20 || (0x09 <= s[i] && s[i] <= 0x0D)) {
        parse_primary_at(s, i + 1)
    } else if i < s.len() && s[i] == 0x28 {
        match parse_expr_at(s, i + 1, 0) {
            Ok((e, j)) => {
                if j < s.len() && s[j] == 0x29 {
                    let k = skip_spaces_at(s, j + 1);
                    Ok((e, k))
                } else {
                    Err(ParseError::Invalid)
                }
            },
            Err(pe) => Err(pe),
        }
    } else {
        match scan_number_at(s, i) {
            Ok((v, j)) => {
                let k = skip_spaces_at(s, j);
                Ok((Expr::Literal(v), k))
            },
            Err(pe) => Err(pe),
        }
    }
}

/// Parses a negation or an atom, as [`parse_prefix_spec`] describes.
fn parse_prefix_at(s: &[u8], i: usize) -> (res: Result<(Expr, usize), ParseError>)
    requires
        i <= s@.len(),
    ensures
        (match (parse_prefix_spec(s@, i as nat), res) {
            (Ok((e, j)), Ok((re, rj))) => re == e && rj == j && rj <= s@.len(),
            (Err(e1), Err(e2)) => e1 == e2,
            _ => false,
        }),
    decreases s@.len() - i, 1nat,
{
    if i < s.len() && s[i] == 0x2D {
        match parse_expr_at(s, i + 1, 4) {
            Ok((e, j)) => Ok((Expr::Neg(Box::new(e)), j)),
            Err(pe) => Err(pe),
        }
    } else {
        parse_primary_at(s, i)
    }
}

/// Takes up infix operators, as [`parse_infix_spec`] describes.
fn parse_infix_at(s: &[u8], i: usize, lhs: Expr, min: u32) -> (res: Result<
    (Expr, usize),
    ParseError,
>)
    requires
        i <= s@.len(),
    ensures
        (match (parse_infix_spec(s@, i as nat, lhs, min), res) {
            (Ok((e, j)), Ok((re, rj))) => re == e && rj == j && rj <= s@.len(),
            (Err(e1), Err(e2)) => e1 == e2,
            _ => false,
        }),
    decreases s@.len() - i, 3nat,
{
    if i < s.len() && (s[i] == 0x2B || s[i] == 0x2D || s[i] == 0x2A || s[i] == 0x5E) {
        let c = s[i];
        let lp: u32 = if c == 0x2B || c == 0x2D {
            2
        } else if c == 0x2A {
            4
        } else {
            7
        };
        if lp >= min {
            let rp: u32 = if c == 0x2B || c == 0x2D {
                3
            } else if c == 0x2A {
                5
            } else {
                6
            };
            match parse_expr_at(s, i + 1, rp) {
                Ok((rhs, j)) => {
                    if i < j && j <= s.len() {
                        let node = if c == 0x2B {
                            Expr::Add(Box::new(lhs), Box::new(rhs))
                        } else if c == 0x2D {
                            Expr::Sub(Box::new(lhs), Box::new(rhs))
                        } else if c == 0x2A {
                            Expr::Mul(Box::new(lhs), Box::new(rhs))
                        } else {
                            Expr::Pow(Box::new(lhs), Box::new(rhs))
                        };
                        parse_infix_at(s, j, node, min)
                    } else {
                        Err(ParseError::Invalid)
                    }
                },
                Err(_) => Ok((lhs, i)),
            }
        } else {
            Ok((lhs, i))
        }
    } else {
        Ok((lhs, i))
    }
}

/// Parses an expression at a minimum binding power, as
/// [`parse_expr_spec`] describes.
fn parse_expr_at(s: &[u8], i: usize, min: u32) -> (res: Result<(Expr, usize), ParseError>)
    requires
        i <= s@.len(),
    ensures
        (match (parse_expr_spec(s@, i as nat, min), res) {
            (Ok((e, j)), Ok((re, rj))) => re == e && rj == j && rj <= s@.len(),
            (Err(e1), Err(e2)) => e1 == e2,
            _ => false,
        }),
    decreases s@.len() - i, 2nat,
{
    match parse_prefix_at(s, i) {
        Ok((lhs, j)) => {
            if i < j && j <= s.len() {
                parse_infix_at(s, j, lhs, min)
            } else {
                Err(ParseError::Invalid)
            }
        },
        Err(pe) => Err(pe),
    }
}

/// Parses a whole input into a parse tree, returning exactly what
/// [`parse_spec`] says.
pub fn parse(input: &[u8]) -> (r: Result<Expr, ParseError>)
    ensures
        r == parse_spec(input@),
{
    match parse_expr_at(input, 0, 0) {
        Ok((e, j)) => if j == input.len() {
            Ok(e)
        } else {
            Err(ParseError::Invalid)
        },
        Err(pe) => Err(pe),
    }
}

} // verus!
