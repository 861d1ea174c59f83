use calcrs::ast::EvalError;
use calcrs::record::{decode_record, encode_float, encode_int, Record};

#[test]
fn encode_values() {
    assert_eq!(encode_int(22), b"i,22".to_vec());
    assert_eq!(encode_int(-305), b"i,-305".to_vec());
    assert_eq!(encode_int(0), b"i,0".to_vec());
    assert_eq!(encode_float(b"2.5"), b"f,2.5".to_vec());
}

#[test]
fn round_trip() {
    for v in [0i128, 7, -7, 22, i128::MAX, i128::MIN, 1000000007] {
        assert_eq!(decode_record(&encode_int(v)).unwrap(), Record::Int(v));
    }
    let text = format!("{}", -0.125f64);
    let back = decode_record(&encode_float(text.as_bytes())).unwrap();
    match back {
        Record::Float(t) => assert_eq!(std::str::from_utf8(&t).unwrap().parse::<f64>().unwrap(), -0.125),
        Record::Int(_) => panic!("expected a float record"),
    }
}

#[test]
fn decode_records() {
    assert_eq!(decode_record(b"i,22").unwrap(), Record::Int(22));
    assert_eq!(decode_record(b"i,+5").unwrap(), Record::Int(5));
    assert_eq!(decode_record(b"f,1e3").unwrap(), Record::Float(b"1e3".to_vec()));
}

#[test]
fn corrupt_records() {
    assert_eq!(decode_record(b"i22"), Err(EvalError::CorruptPreviousValue));
    assert_eq!(decode_record(b""), Err(EvalError::CorruptPreviousValue));
    assert_eq!(decode_record(b"x,22"), Err(EvalError::CorruptPreviousValue));
    assert_eq!(decode_record(b"i,2x"), Err(EvalError::CorruptPreviousValue));
    assert_eq!(decode_record(b"i,"), Err(EvalError::CorruptPreviousValue));
    assert_eq!(decode_record(b"i,-5,junk"), Err(EvalError::CorruptPreviousValue));
    assert_eq!(decode_record(b"i,22,5"), Err(EvalError::CorruptPreviousValue));
    assert_eq!(decode_record(b"i,22\n"), Err(EvalError::CorruptPreviousValue));
    assert_eq!(decode_record(b"ii,2"), Err(EvalError::CorruptPreviousValue));
    assert_eq!(
        decode_record(b"i,170141183460469231731687303715884105728"),
        Err(EvalError::CorruptPreviousValue)
    );
}
