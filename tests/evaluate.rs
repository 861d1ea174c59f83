use calcrs::ast::{EvalError, Evaluated};
use calcrs::eval::{eval, FloatOp, FloatTask};
use calcrs::parser::parse;
use calcrs::record::decode_record;

fn float_unit(t: FloatTask) -> u64 {
    match t {
        FloatTask::Parse(text) => std::str::from_utf8(&text)
            .unwrap()
            .parse::<f64>()
            .unwrap()
            .to_bits(),
        FloatTask::FromInt(i) => (i as f64).to_bits(),
        FloatTask::Binary(op, a, b) => {
            let (a, b) = (f64::from_bits(a), f64::from_bits(b));
            let x = match op {
                FloatOp::Add => a + b,
                FloatOp::Sub => a - b,
                FloatOp::Mul => a * b,
                FloatOp::Div => a / b,
                FloatOp::Pow => a.powf(b),
            };
            x.to_bits()
        }
        FloatTask::PowInt(a, n) => f64::from_bits(a).powi(n).to_bits(),
    }
}

fn truncate(b: u64) -> i128 {
    f64::from_bits(b) as i128
}

fn run_with(src: &str, prev: Result<Evaluated, EvalError>) -> Result<Evaluated, EvalError> {
    let e = parse(src.as_bytes()).unwrap();
    eval(&e, &prev, &float_unit, &truncate)
}

fn run(src: &str) -> Result<Evaluated, EvalError> {
    run_with(src, Err(EvalError::UnableToReadPreviousValue))
}

fn int_of(src: &str) -> i128 {
    match run(src).unwrap() {
        Evaluated::Int(i) => i,
        Evaluated::Float(b) => panic!("Expected int, found float {}", f64::from_bits(b)),
    }
}

fn float_of(src: &str) -> f64 {
    match run(src).unwrap() {
        Evaluated::Float(b) => f64::from_bits(b),
        Evaluated::Int(i) => panic!("Expected float, found int {}", i),
    }
}

#[test]
fn int_term() {
    assert_eq!(run("22").unwrap(), Evaluated::Int(22));
    assert_eq!(run("-22").unwrap(), Evaluated::Int(-22));
    assert_eq!(run("(22)").unwrap(), Evaluated::Int(22));
    assert_eq!(run("(-22)").unwrap(), Evaluated::Int(-22));
    assert_eq!(run("((((22))))").unwrap(), Evaluated::Int(22));
    assert_eq!(run("int(22.0)").unwrap(), Evaluated::Int(22.0 as i128));
    assert_eq!(run("int(22)").unwrap(), Evaluated::Int(22));
    assert_eq!(run("int(22.0 / 1.0)").unwrap(), Evaluated::Int((22.0 / 1.0) as i128));
    assert_eq!(run("int((((22))))").unwrap(), Evaluated::Int(22));
    assert!(parse("((22)".as_bytes()).is_err());
}

#[test]
fn int_expr() {
    assert_eq!(
        run("22 / 11 * 3 - (4 + -1) * (1 << 1) / (2 >> 1)").unwrap(),
        Evaluated::Int(22 / 11 * 3 - (4 + -1) * (1 << 1) / (2 >> 1))
    );
}

#[test]
fn float_sci_not() {
    assert!(float_of("2.0E2") - 200.0 < 1E-10);
    assert!(float_of("-2.0E2") - -200.0 < 1E-10);
    assert!(float_of("-2.0E-2") - -0.02 < 1E-10);
    assert!(float_of("-0.2E3") - -20.0 < 1E-10);
    assert!(float_of("-.2E3") - -200.0 < 1E-10);
    assert!(float_of(".2E3") - 200.0 < 1E-10);
    assert!(float_of("2E2") - 200.0 < 1E-10);
}

#[test]
fn float_expr() {
    assert!(float_of("2.0 ** 3") - 8.0 < 1E-10);
    assert!(float_of("2.0 ** 3.0") - 8.0 < 1E-10);
    assert!(float_of("1E1 ** 10") - 10E10 < 1E-10);
    assert!(float_of("22.0 / 11.0 * -3.0 * 1.5 + (4.0 + -1.0) ** float(1 << 1)") - 0.0 < 1E-10);
}

#[test]
fn sci_not_exact_values() {
    assert_eq!(float_of("2.0E2"), 200.0);
    assert_eq!(float_of("-2.0E-2"), -0.02);
    assert_eq!(float_of("-.2E3"), -200.0);
    assert_eq!(float_of("2e2"), 200.0);
    assert_eq!(float_of("2.5"), 2.5);
    assert_eq!(float_of("1E1 ** 10"), 1.0e10);
    assert!(float_of("22.0 / 11.0 * -3.0 * 1.5 + (4.0 + -1.0) ** float(1 << 1)").abs() < 1E-10);
}

#[test]
fn int_expr_value_is_zero() {
    assert_eq!(int_of("22 / 11 * 3 - (4 + -1) * (1 << 1) / (2 >> 1)"), 0);
}

#[test]
fn decimal_literals() {
    assert_eq!(int_of("0"), 0);
    assert_eq!(int_of("170141183460469231731687303715884105727"), i128::MAX);
    assert_eq!(int_of("-170141183460469231731687303715884105728"), i128::MIN);
    assert_eq!(run("170141183460469231731687303715884105728"), Err(EvalError::Arithmetic));
}

#[test]
fn hex_literals() {
    assert_eq!(int_of("0x1F"), 31);
    assert_eq!(int_of("0xff"), 255);
    assert_eq!(int_of("0x10 + 1"), 17);
    assert_eq!(int_of("-0x10"), -16);
}

#[test]
fn casts() {
    assert_eq!(float_of("float(3)"), 3.0);
    assert_eq!(int_of("int(2.9)"), 2);
    assert_eq!(int_of("int(-2.9)"), -2);
    assert_eq!(int_of("int(float(7))"), 7);
    assert_eq!(float_of("float(2.5)"), 2.5);
}

#[test]
fn shift_on_float_fails() {
    assert_eq!(run("1.0 << 1"), Err(EvalError::ShiftFloat));
    assert_eq!(run("1 << 1.0"), Err(EvalError::ShiftFloat));
    assert_eq!(run("8.0 >> 1"), Err(EvalError::ShiftFloat));
    assert_eq!(run("8 >> float(1)"), Err(EvalError::ShiftFloat));
    assert_eq!(int_of("8 >> int(1.0)"), 4);
}

#[test]
fn shifts() {
    assert_eq!(int_of("1 << 4"), 16);
    assert_eq!(int_of("-7 >> 1"), -4);
    assert_eq!(int_of("-1 << 127"), i128::MIN);
    assert_eq!(run("1 << 127"), Err(EvalError::Arithmetic));
    assert_eq!(run("1 << 128"), Err(EvalError::Arithmetic));
    assert_eq!(run("1 >> -1"), Err(EvalError::Arithmetic));
}

#[test]
fn mixed_arithmetic_is_float() {
    assert_eq!(float_of("1 + 0.5"), 1.5);
    assert_eq!(float_of("0.5 + 1"), 1.5);
    assert_eq!(float_of("3 - 0.5"), 2.5);
    assert_eq!(float_of("2 * 0.5"), 1.0);
    assert_eq!(float_of("1 / 2.0"), 0.5);
    assert_eq!(float_of("2 ** 0.5"), 2.0f64.powf(0.5));
    assert_eq!(float_of("2.0 ** -1"), 0.5);
}

#[test]
fn integer_operators() {
    assert_eq!(int_of("7 / 2"), 3);
    assert_eq!(int_of("-7 / 2"), -3);
    assert_eq!(int_of("2 ** 10"), 1024);
    assert_eq!(int_of("2 ** 3 ** 2"), 512);
    assert_eq!(int_of("10 - 4 - 3"), 3);
    assert_eq!(int_of("2 + 3 * 4"), 14);
    assert_eq!(int_of("-(2 + 3)"), -5);
    assert_eq!(int_of("1 << 2 * 3"), 12);
    assert_eq!(int_of("(-1) ** 3"), -1);
    assert_eq!(int_of("-2 ** 2"), 4);
}

#[test]
fn arithmetic_failures() {
    assert_eq!(run("1 / 0"), Err(EvalError::Arithmetic));
    assert_eq!(run("2 ** -1"), Err(EvalError::Arithmetic));
    assert_eq!(run("2 ** 127"), Err(EvalError::Arithmetic));
    assert_eq!(run("170141183460469231731687303715884105727 + 1"), Err(EvalError::Arithmetic));
    assert_eq!(run("-170141183460469231731687303715884105728 / -1"), Err(EvalError::Arithmetic));
}

#[test]
fn parenthesis_balance() {
    assert!(parse("((22)".as_bytes()).is_err());
    assert_eq!(run("((((22))))").unwrap(), Evaluated::Int(22));
}

#[test]
fn recall_previous_result() {
    let prev = match decode_record("i,22".as_bytes()).unwrap() {
        calcrs::record::Record::Int(v) => Ok(Evaluated::Int(v)),
        calcrs::record::Record::Float(_) => panic!("expected an integer record"),
    };
    assert_eq!(run_with("float(ans)", prev).unwrap(), Evaluated::Float(22.0f64.to_bits()));
    assert_eq!(run_with("ans", prev).unwrap(), Evaluated::Int(22));
    assert_eq!(run_with("ans * 2", prev).unwrap(), Evaluated::Int(44));
    assert_eq!(run("ans"), Err(EvalError::UnableToReadPreviousValue));
    let fprev = Ok(Evaluated::Float(1.5f64.to_bits()));
    assert_eq!(run_with("ans", fprev).unwrap(), Evaluated::Float(1.5f64.to_bits()));
    assert_eq!(run_with("1 + 2", Err(EvalError::CorruptPreviousValue)).unwrap(), Evaluated::Int(3));
}

#[test]
fn operands_after_casts() {
    assert_eq!(int_of("int(2.5) + 1"), 3);
    assert_eq!(float_of("float(2.5)"), 2.5);
    assert_eq!(run("int(2.5) << 1.0"), Err(EvalError::ShiftFloat));
}

#[test]
fn errors_pass_through_unchanged() {
    let corrupt = Err(EvalError::CorruptPreviousValue);
    assert_eq!(run_with("ans << 1.0", corrupt), Err(EvalError::CorruptPreviousValue));
    assert_eq!(run_with("float(ans) + 1", corrupt), Err(EvalError::CorruptPreviousValue));
    assert_eq!(run_with("(1 / 0) + ans", corrupt), Err(EvalError::Arithmetic));
    assert_eq!(run_with("1.5 + ans", corrupt), Err(EvalError::CorruptPreviousValue));
}

#[test]
fn exponent_beyond_u32_fails() {
    assert_eq!(run("1 ** 4294967296"), Err(EvalError::Arithmetic));
    assert_eq!(run("0 ** 4294967296"), Err(EvalError::Arithmetic));
    assert_eq!(run("-1 ** 4294967296"), Err(EvalError::Arithmetic));
    assert_eq!(int_of("1 ** 4294967295"), 1);
    assert_eq!(int_of("-1 ** 4294967295"), -1);
}
