use calcrs::ast::{BinOp, Expr, Value};
use calcrs::eval::uses_previous;
use calcrs::parser::{parse, ParseError, ParseErrorKind};

#[test]
fn parse_errors() {
    assert_eq!(
        parse("((22)".as_bytes()).unwrap_err(),
        ParseError { kind: ParseErrorKind::UnclosedParen, position: 0 }
    );
    assert_eq!(parse("".as_bytes()).unwrap_err().kind, ParseErrorKind::ExpectedOperand);
    assert_eq!(parse("1 +".as_bytes()).unwrap_err().kind, ParseErrorKind::ExpectedOperand);
    assert_eq!(
        parse("1 2".as_bytes()).unwrap_err(),
        ParseError { kind: ParseErrorKind::TrailingInput, position: 2 }
    );
    assert_eq!(parse("foo".as_bytes()).unwrap_err().kind, ParseErrorKind::ExpectedOperand);
    assert_eq!(parse("2E".as_bytes()).unwrap_err().kind, ParseErrorKind::TrailingInput);
    assert_eq!(parse("int 2".as_bytes()).unwrap_err().kind, ParseErrorKind::ExpectedOperand);
    assert!(parse(".".as_bytes()).is_err());
}

#[test]
fn literal_shapes() {
    match parse("0x1F".as_bytes()).unwrap() {
        Expr::Value { val: Value::Int(t) } => assert_eq!(t, b"0x1F".to_vec()),
        other => panic!("unexpected tree {:?}", other),
    }
    match parse(" -.2E3 ".as_bytes()).unwrap() {
        Expr::Value { val: Value::Float(t) } => assert_eq!(t, b"-.2E3".to_vec()),
        other => panic!("unexpected tree {:?}", other),
    }
    match parse("2.".as_bytes()).unwrap() {
        Expr::Value { val: Value::Float(t) } => assert_eq!(t, b"2.".to_vec()),
        other => panic!("unexpected tree {:?}", other),
    }
}

#[test]
fn precedence_and_associativity() {
    match parse("1 - 2 - 3".as_bytes()).unwrap() {
        Expr::BinOp { left, op: BinOp::Sub, right } => {
            assert!(matches!(*left, Expr::BinOp { op: BinOp::Sub, .. }));
            assert!(matches!(*right, Expr::Value { val: Value::Int(_) }));
        }
        other => panic!("unexpected tree {:?}", other),
    }
    match parse("2 ** 3 ** 2".as_bytes()).unwrap() {
        Expr::BinOp { left, op: BinOp::Exp, right } => {
            assert!(matches!(*left, Expr::Value { val: Value::Int(_) }));
            assert!(matches!(*right, Expr::BinOp { op: BinOp::Exp, .. }));
        }
        other => panic!("unexpected tree {:?}", other),
    }
}

#[test]
fn previous_token_detection() {
    assert!(uses_previous(&parse("1 + float(ans)".as_bytes()).unwrap()));
    assert!(!uses_previous(&parse("1 + float(2)".as_bytes()).unwrap()));
}
