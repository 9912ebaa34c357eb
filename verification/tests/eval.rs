use rkn::syntax::Expr;
use rkn::{eval, EvalError};

fn lit(n: i64) -> Box<Expr> {
    Box::new(Expr::Literal(n))
}

#[test]
fn test_eval_literal() {
    assert_eq!(eval(Expr::Literal(42)), Ok(42));
}

#[test]
fn test_eval_arithmetic() {
    assert_eq!(eval(Expr::Add(lit(2), lit(3))), Ok(5));
    assert_eq!(eval(Expr::Sub(lit(2), lit(3))), Ok(-1));
    assert_eq!(eval(Expr::Mul(lit(7), lit(6))), Ok(42));
    assert_eq!(eval(Expr::Neg(lit(9))), Ok(-9));
}

#[test]
fn test_eval_nested() {
    // 0b10 + 0o10 + 0x10 as a tree: (2 + 8) + 16.
    let e = Expr::Add(Box::new(Expr::Add(lit(2), lit(8))), lit(16));
    assert_eq!(eval(e), Ok(26));
    // 0b10 * 0o10 - 0x10 as a tree: (2 * 8) - 16.
    let e = Expr::Sub(Box::new(Expr::Mul(lit(2), lit(8))), lit(16));
    assert_eq!(eval(e), Ok(0));
}

#[test]
fn test_eval_pow() {
    assert_eq!(eval(Expr::Pow(lit(2), lit(10))), Ok(1024));
    assert_eq!(eval(Expr::Pow(lit(-2), lit(3))), Ok(-8));
    assert_eq!(eval(Expr::Pow(lit(5), lit(0))), Ok(1));
    assert_eq!(eval(Expr::Pow(lit(0), lit(0))), Ok(1));
    assert_eq!(eval(Expr::Pow(lit(1), lit(i64::MAX))), Ok(1));
    assert_eq!(eval(Expr::Pow(lit(-1), lit(i64::MAX))), Ok(-1));
    assert_eq!(eval(Expr::Pow(lit(2), lit(62))), Ok(1 << 62));
}

#[test]
fn test_eval_negative_exponent() {
    assert_eq!(
        eval(Expr::Pow(lit(2), lit(-1))),
        Err(EvalError::NegativeExponent)
    );
    // The base is evaluated first: an overflow there wins.
    let huge = Expr::Mul(lit(i64::MAX), lit(i64::MAX));
    assert_eq!(
        eval(Expr::Pow(Box::new(huge), lit(-1))),
        Err(EvalError::Overflow)
    );
}

#[test]
fn test_eval_overflow() {
    assert_eq!(
        eval(Expr::Add(lit(i64::MAX), lit(1))),
        Err(EvalError::Overflow)
    );
    assert_eq!(
        eval(Expr::Sub(lit(i64::MIN), lit(1))),
        Err(EvalError::Overflow)
    );
    assert_eq!(
        eval(Expr::Mul(lit(i64::MAX), lit(2))),
        Err(EvalError::Overflow)
    );
    assert_eq!(eval(Expr::Neg(lit(i64::MIN))), Err(EvalError::Overflow));
    assert_eq!(
        eval(Expr::Pow(lit(2), lit(63))),
        Err(EvalError::Overflow)
    );
    assert_eq!(
        eval(Expr::Pow(lit(10), lit(1000))),
        Err(EvalError::Overflow)
    );
    assert_eq!(eval(Expr::Pow(lit(-2), lit(63))), Ok(i64::MIN));
}
