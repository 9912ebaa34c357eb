//! An arbitrary-precision natural number engine for a calculator.
//!
//! The heart of the crate is [`natural::Natural`], a nonnegative integer
//! stored either inline in one machine word or as a little-endian sequence
//! of limbs, with verified addition and multiplication; [`limbs`] holds
//! the underlying theory of limb sequences and [`laws`] the algebraic
//! laws of the two operations.  Around it stand a verified parser for
//! infix expressions ([`syntax`]) and the checked evaluator [`eval`].

use vstd::prelude::*;
use vstd::arithmetic::power::pow;
use vstd::arithmetic::mul::lemma_mul_unary_negation;
use vstd::math::abs;

pub mod laws;
pub mod limbs;
pub mod natural;
pub mod syntax;

use crate::syntax::Expr;

verus! {

/// Why evaluation of an expression can fail.
#[derive(Debug, Clone, Copy, PartialEq, Eq, Structural)]
pub enum EvalError {
    /// An exponent evaluated to a negative number.
    NegativeExponent,
    /// An intermediate result does not fit in a machine integer.
    Overflow,
}

/// Whether a mathematical integer fits in an `i64`.
pub open spec fn in_i64(v: int) -> bool {
    i64::MIN <= v <= i64::MAX
}

/// Checked evaluation of an expression over mathematical integers:
/// the left operand is evaluated before the right one, a negative
/// exponent is rejected, and any intermediate value outside the machine
/// range is an overflow.
pub open spec fn eval_spec(e: Expr) -> Result<int, EvalError>
    decreases e,
{
    match e {
        Expr::Literal(n) => Ok(n as int),
        Expr::Neg(e1) => match eval_spec(*e1) {
            Ok(v) => if in_i64(-v) {
                Ok(-v)
            } else {
                Err(EvalError::Overflow)
            },
            Err(er) => Err(er),
        },
        Expr::Add(l, r) => match (eval_spec(*l), eval_spec(*r)) {
            (Err(er), _) => Err(er),
            (_, Err(er)) => Err(er),
            (Ok(u), Ok(v)) => if in_i64(u + v) {
                Ok(u + v)
            } else {
                Err(EvalError::Overflow)
            },
        },
        Expr::Sub(l, r) => match (eval_spec(*l), eval_spec(*r)) {
            (Err(er), _) => Err(er),
            (_, Err(er)) => Err(er),
            (Ok(u), Ok(v)) => if in_i64(u - v) {
                Ok(u - v)
            } else {
                Err(EvalError::Overflow)
            },
        },
        Expr::Mul(l, r) => match (eval_spec(*l), eval_spec(*r)) {
            (Err(er), _) => Err(er),
            (_, Err(er)) => Err(er),
            (Ok(u), Ok(v)) => if in_i64(u * v) {
                Ok(u * v)
            } else {
                Err(EvalError::Overflow)
            },
        },
        Expr::Pow(b, x) => match (eval_spec(*b), eval_spec(*x)) {
            (Err(er), _) => Err(er),
            (_, Err(er)) => Err(er),
            (Ok(u), Ok(v)) => if v < 0 {
                Err(EvalError::NegativeExponent)
            } else if in_i64(pow(u, v as nat)) {
                Ok(pow(u, v as nat))
            } else {
                Err(EvalError::Overflow)
            },
        },
    }
}

/// Powers of 0 beyond the zeroth are 0.
proof fn lemma_pow_zero_base(e: nat)
    requires
        e > 0,
    ensures
        pow(0, e) == 0,
    decreases e,
{
    reveal(pow);
    if e > 1 {
        lemma_pow_zero_base((e - 1) as nat);
    }
}

/// Powers of 1 are 1.
proof fn lemma_pow_one_base(e: nat)
    ensures
        pow(1, e) == 1,
    decreases e,
{
    reveal(pow);
    if e > 0 {
        lemma_pow_one_base((e - 1) as nat);
    }
}

/// Powers of -1 alternate between 1 and -1 with the exponent's parity.
proof fn lemma_pow_neg_one_base(e: nat)
    ensures
        pow(-1, e) == (if e % 2 == 0 {
            1int
        } else {
            -1int
        }),
    decreases e,
{
    reveal(pow);
    if e > 0 {
        lemma_pow_neg_one_base((e - 1) as nat);
    }
}

/// The magnitude of a product is the product of the magnitudes.
proof fn lemma_abs_mul(a: int, x: int)
    ensures
        abs(a * x) == abs(a) * abs(x),
{
    lemma_mul_unary_negation(a, x);
    lemma_mul_unary_negation(-a, x);
    if a >= 0 && x >= 0 {
        assert(a * x >= 0) by (nonlinear_arith)
            requires
                a >= 0,
                x >= 0,
        ;
    } else if a >= 0 && x < 0 {
        assert(a * x <= 0) by (nonlinear_arith)
            requires
                a >= 0,
                x < 0,
        ;
    } else if a < 0 && x >= 0 {
        assert(a * x <= 0) by (nonlinear_arith)
            requires
                a < 0,
                x >= 0,
        ;
    } else {
        assert(a * x >= 0) by (nonlinear_arith)
            requires
                a < 0,
                x < 0,
        ;
    }
}

/// With a base of magnitude at least 2, later powers have at least the
/// magnitude of earlier ones, and at least twice it one step later.
proof fn lemma_pow_abs_grows(b: int, j: nat, e: nat)
    requires
        abs(b) >= 2,
        j <= e,
    ensures
        abs(pow(b, e)) >= abs(pow(b, j)),
        e > j ==> abs(pow(b, e)) >= 2 * abs(pow(b, j)),
    decreases e,
{
    reveal(pow);
    if e > j {
        lemma_pow_abs_grows(b, j, (e - 1) as nat);
        lemma_abs_mul(b, pow(b, (e - 1) as nat));
        let t = abs(pow(b, (e - 1) as nat));
        assert(abs(b) * t >= 2 * t) by (nonlinear_arith)
            requires
                abs(b) >= 2,
                t >= 0,
        ;
    }
}

/// Once a power of a base of magnitude at least 2 has left the machine
/// range, every later power stays outside it.
proof fn lemma_pow_overflow_monotone(b: int, j: nat, e: nat)
    requires
        b <= -2 || b >= 2,
        j <= e,
        !in_i64(pow(b, j)),
    ensures
        !in_i64(pow(b, e)),
{
    lemma_pow_abs_grows(b, j, e);
}

/// Raises a machine integer to a nonnegative power by repeated
/// multiplication, reporting an overflow exactly when the mathematical
/// power does not fit.
fn pow_checked(b: i64, e: u64) -> (r: Result<i64, EvalError>)
    ensures
        (match r {
            Ok(x) => in_i64(pow(b as int, e as nat)) && x == pow(b as int, e as nat),
            Err(er) => !in_i64(pow(b as int, e as nat)) && er == EvalError::Overflow,
        }),
{
    proof {
        reveal(pow);
    }
    if b == 0 {
        if e == 0 {
            Ok(1)
        } else {
            proof {
                lemma_pow_zero_base(e as nat);
            }
            Ok(0)
        }
    } else if b == 1 {
        proof {
            lemma_pow_one_base(e as nat);
        }
        Ok(1)
    } else if b == -1 {
        proof {
            lemma_pow_neg_one_base(e as nat);
        }
        if e % 2 == 0 {
            Ok(1)
        } else {
            Ok(-1)
        }
    } else {
        let mut acc: i64 = 1;
        let mut j: u64 = 0;
        while j < e
            invariant
                j <= e,
                b <= -2 || b >= 2,
                acc as int == pow(b as int, j as nat),
            decreases e - j,
        {
            proof {
                reveal(pow);
                assert(pow(b as int, (j + 1) as nat) == b as int * pow(b as int, j as nat));
                assert(b as int * (acc as int) == (acc as int) * (b as int)) by (nonlinear_arith);
                assert(pow(b as int, (j + 1) as nat) == acc as int * (b as int));
            }
            match acc.checked_mul(b) {
                Some(next) => {
                    acc = next;
                },
                None => {
                    proof {
                        assert(!in_i64(pow(b as int, (j + 1) as nat)));
                        lemma_pow_overflow_monotone(b as int, (j + 1) as nat, e as nat);
                    }
                    return Err(EvalError::Overflow);
                },
            }
            j = j + 1;
        }
        Ok(acc)
    }
}

/// Reduces a parse tree to a single machine integer by checked
/// arithmetic, exactly as [`eval_spec`] describes.
#[verifier::rlimit(50)]
pub fn eval(expr: Expr) -> (r: Result<i64, EvalError>)
    ensures
        (match (eval_spec(expr), r) {
            (Ok(v), Ok(x)) => x == v,
            (Err(e1), Err(e2)) => e1 == e2,
            _ => false,
        }),
    decreases expr,
{
    match expr {
        Expr::Literal(n) => Ok(n),
        Expr::Neg(e1) => match eval(*e1) {
            Err(er) => Err(er),
            Ok(v) => if v == i64::MIN {
                Err(EvalError::Overflow)
            } else {
                Ok(-v)
            },
        },
        Expr::Add(l, r) => match eval(*l) {
            Err(er) => Err(er),
            Ok(u) => match eval(*r) {
                Err(er) => Err(er),
                Ok(v) => match u.checked_add(v) {
                    Some(s) => Ok(s),
                    None => Err(EvalError::Overflow),
                },
            },
        },
        Expr::Sub(l, r) => match eval(*l) {
            Err(er) => Err(er),
            Ok(u) => match eval(*r) {
                Err(er) => Err(er),
                Ok(v) => match u.checked_sub(v) {
                    Some(s) => Ok(s),
                    None => Err(EvalError::Overflow),
                },
            },
        },
        Expr::Mul(l, r) => match eval(*l) {
            Err(er) => Err(er),
            Ok(u) => match eval(*r) {
                Err(er) => Err(er),
                Ok(v) => match u.checked_mul(v) {
                    Some(s) => Ok(s),
                    None => Err(EvalError::Overflow),
                },
            },
        },
        Expr::Pow(bx, ex) => match eval(*bx) {
            Err(er) => Err(er),
            Ok(u) => match eval(*ex) {
                Err(er) => Err(er),
                Ok(v) => if v < 0 {
                    Err(EvalError::NegativeExponent)
                } else {
                    pow_checked(u, v as u64)
                },
            },
        },
    }
}

} // verus!

