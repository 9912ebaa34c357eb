use rkn::eval;
use rkn::syntax::{parse, Expr, ParseError};

fn parse_and_eval(input: &str) -> i64 {
    let expr = parse(input.as_bytes()).unwrap();
    eval(expr).unwrap()
}

#[test]
fn test_parse_binary() {
    assert_eq!(parse_and_eval("0b1010"), 10);
    assert_eq!(parse_and_eval("0b1111"), 15);
}

#[test]
fn test_parse_octal() {
    assert_eq!(parse_and_eval("0o12"), 10);
    assert_eq!(parse_and_eval("0o77"), 63);
}

#[test]
fn test_parse_hexadecimal() {
    assert_eq!(parse_and_eval("0x10"), 16);
    assert_eq!(parse_and_eval("0xff"), 255);
    assert_eq!(parse_and_eval("0xCAFE"), 51966);
}

#[test]
fn test_parse_expressions() {
    assert_eq!(parse_and_eval("0b10 + 0o10 + 0x10"), 2 + 8 + 16);
    assert_eq!(parse_and_eval("0b10 * 0o10 - 0x10"), 2 * 8 - 16);
}

#[test]
fn test_invalid_literals() {
    assert!(parse(b"0b2").is_err());
    assert!(parse(b"0o8").is_err());
    assert!(parse(b"0xg").is_err());
    assert!(parse(b"0b").is_err());
    assert!(parse(b"0o").is_err());
    assert!(parse(b"0x").is_err());
}

#[test]
fn test_parse_precedence() {
    assert_eq!(parse_and_eval("2+3*4"), 14);
    assert_eq!(parse_and_eval("2*3+4"), 10);
    assert_eq!(parse_and_eval("(2+3)*4"), 20);
    assert_eq!(parse_and_eval("8-3-2"), 3);
    assert_eq!(parse_and_eval("2^3^2"), 512);
    assert_eq!(parse_and_eval("-2^2"), -4);
    assert_eq!(parse_and_eval("2--3"), 5);
}

#[test]
fn test_parse_whitespace() {
    assert_eq!(parse_and_eval("  1 + 2  "), 3);
    assert_eq!(parse_and_eval("( 1 + 2 ) * 3"), 9);
    assert_eq!(parse_and_eval("2 ^ 3"), 8);
    assert_eq!(parse_and_eval("-5"), -5);
    // Negation is read at the expression position itself: whitespace
    // between nothing and `-` leaves no expression to parse.
    assert!(parse(b" -5").is_err());
}

#[test]
fn test_parse_garbage() {
    assert!(parse(b"").is_err());
    assert!(parse(b"1 +").is_err());
    assert!(parse(b"(1").is_err());
    assert!(parse(b"a").is_err());
}

#[test]
fn test_parse_literal_overflow() {
    assert_eq!(parse_and_eval("9223372036854775807"), i64::MAX);
    assert!(matches!(
        parse(b"9223372036854775808"),
        Err(ParseError::LiteralOverflow)
    ));
    assert!(matches!(
        parse(b"0x8000000000000000"),
        Err(ParseError::LiteralOverflow)
    ));
    assert!(matches!(
        parse(b"99999999999999999999999999999999"),
        Err(ParseError::LiteralOverflow)
    ));
}

#[test]
fn test_parse_tree_shape() {
    // 1+2*3 parses as Add(1, Mul(2, 3)).
    match parse(b"1+2*3").unwrap() {
        Expr::Add(l, r) => {
            assert!(matches!(*l, Expr::Literal(1)));
            assert!(matches!(*r, Expr::Mul(_, _)));
        },
        other => panic!("unexpected tree: {other:?}"),
    }
}
