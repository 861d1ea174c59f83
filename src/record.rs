//! The one-line record of the previous result: a tag (`i` or `f`), a comma,
//! and the value's text.
use vstd::prelude::*;
use vstd::arithmetic::div_mod::lemma_fundamental_div_mod;
use crate::ast::EvalError;
use crate::literal::{
    all_digits, copy_range, digit_of, digits_value, in_range, parse_signed_decimal, run_value,
    signed_decimal_value,
};

verus! {

/// ASCII `,`, `i`, `f` and `-`.
pub const COMMA: u8 = 44;

pub const TAG_INT: u8 = 105;

pub const TAG_FLOAT: u8 = 102;

pub const MINUS: u8 = 45;

/// A decoded record. A float keeps its text, which the float unit reads.
#[derive(Debug, PartialEq, Eq)]
pub enum Record {
    Int(i128),
    Float(Vec<u8>),
}

pub ghost enum RecordView {
    Int(i128),
    Float(Seq<u8>),
}

impl View for Record {
    type V = RecordView;

    open spec fn view(&self) -> RecordView {
        match self {
            Record::Int(i) => RecordView::Int(*i),
            Record::Float(t) => RecordView::Float(t@),
        }
    }
}

/// Where the field that starts at `from` ends: at the next comma, or at the
/// end of `s`.
pub open spec fn field_end(s: Seq<u8>, from: int) -> int
    decreases s.len() - from,
{
    if from >= s.len() {
        s.len() as int
    } else if s[from] == COMMA {
        from
    } else {
        field_end(s, from + 1)
    }
}

/// What a record's text decodes to. The tag is the text before the first
/// comma and the value all the text after it.
pub open spec fn decoded(s: Seq<u8>) -> Result<RecordView, EvalError> {
    let i = field_end(s, 0);
    let tag = s.subrange(0, i);
    let value = s.subrange(i + 1, s.len() as int);
    if i >= s.len() {
        Err(EvalError::CorruptPreviousValue)
    } else if tag == seq![TAG_INT] {
        match in_range(signed_decimal_value(value)) {
            Some(v) => Ok(RecordView::Int(v)),
            None => Err(EvalError::CorruptPreviousValue),
        }
    } else if tag == seq![TAG_FLOAT] {
        Ok(RecordView::Float(value))
    } else {
        Err(EvalError::CorruptPreviousValue)
    }
}

/// The decimal digits of `n`, most significant first, without leading zeros.
pub open spec fn decimal_text(n: nat) -> Seq<u8>
    decreases n,
{
    if n < 10 {
        seq![(48 + n) as u8]
    } else {
        decimal_text(n / 10).push((48 + n % 10) as u8)
    }
}

/// `v` in decimal, with a minus sign where it is negative.
pub open spec fn signed_decimal_text(v: int) -> Seq<u8> {
    if v < 0 {
        seq![MINUS] + decimal_text((-v) as nat)
    } else {
        decimal_text(v as nat)
    }
}

pub open spec fn int_record(v: int) -> Seq<u8> {
    seq![TAG_INT, COMMA] + signed_decimal_text(v)
}

pub open spec fn float_record(t: Seq<u8>) -> Seq<u8> {
    seq![TAG_FLOAT, COMMA] + t
}

proof fn lemma_decimal_text(n: nat)
    ensures
        decimal_text(n).len() > 0,
        all_digits(decimal_text(n), 10),
        digits_value(decimal_text(n), 10) == n,
    decreases n,
{
    if n >= 10 {
        lemma_decimal_text(n / 10);
        let p = decimal_text(n / 10);
        let t = decimal_text(n);
        assert(t.drop_last() =~= p);
        lemma_fundamental_div_mod(n as int, 10);
        assert(digit_of(t.last(), 10) == Some((n % 10) as nat));
        assert(digits_value(t, 10) == digits_value(p, 10) * 10 + n % 10);
        assert forall|i: int| 0 <= i < t.len() implies (#[trigger] digit_of(t[i], 10)) is Some by {
            if i < p.len() {
                assert(t[i] == p[i]);
            }
        }
    } else {
        let t = decimal_text(n);
        assert(t.drop_last() =~= Seq::<u8>::empty());
        assert(digit_of(t.last(), 10) == Some(n));
        assert(digits_value(t, 10) == digits_value(t.drop_last(), 10) * 10 + n);
        assert(digits_value(Seq::<u8>::empty(), 10) == 0);
    }
}

/// A decoded integer record gives back the integer that was encoded.
pub proof fn lemma_int_round_trip(v: i128)
    ensures
        decoded(int_record(v as int)) == Ok::<RecordView, EvalError>(RecordView::Int(v)),
{
    let s = int_record(v as int);
    let d = signed_decimal_text(v as int);
    let m = if v < 0 { (-v) as nat } else { v as nat };
    lemma_decimal_text(m);
    assert(s[0] == TAG_INT);
    assert(s[1] == COMMA);
    assert(field_end(s, 1) == 1);
    assert(field_end(s, 0) == 1);
    assert(s.subrange(0, 1) =~= seq![TAG_INT]);
    assert(s.subrange(2, s.len() as int) =~= d);
    let t = decimal_text(m);
    assert(digit_of(t[0], 10) is Some);
    if v < 0 {
        assert(d.subrange(1, d.len() as int) =~= t);
        assert(d[0] == MINUS);
        assert(run_value(t, 10, true) == Some(-(m as int)));
    } else {
        assert(d =~= t);
        assert(d[0] != MINUS && d[0] != 43u8);
        assert(run_value(t, 10, false) == Some(m as int));
    }
    assert(signed_decimal_value(d) == Some(v as int));
}

/// A decoded float record gives back the text that was encoded.
pub proof fn lemma_float_round_trip(t: Seq<u8>)
    ensures
        decoded(float_record(t)) == Ok::<RecordView, EvalError>(RecordView::Float(t)),
{
    let s = float_record(t);
    assert(s[0] == TAG_FLOAT);
    assert(field_end(s, 1) == 1);
    assert(field_end(s, 0) == 1);
    assert(s.subrange(0, 1) =~= seq![TAG_FLOAT]);
    assert(seq![TAG_FLOAT] != seq![TAG_INT]) by {
        assert(seq![TAG_FLOAT][0] != seq![TAG_INT][0]);
    }
    assert(s.subrange(2, s.len() as int) =~= t);
}

fn find_field_end(s: &[u8], from: usize) -> (r: usize)
    requires
        from <= s@.len(),
    ensures
        r == field_end(s@, from as int),
        from <= r <= s@.len(),
{
    let mut i: usize = from;
    while i < s.len() && s[i] != COMMA
        invariant
            from <= i <= s@.len(),
            field_end(s@, i as int) == field_end(s@, from as int),
        decreases s@.len() - i,
    {
        i = i + 1;
    }
    i
}

/// Decodes the text of a record.
pub fn decode_record(s: &[u8]) -> (res: Result<Record, EvalError>)
    ensures
        match res {
            Ok(r) => decoded(s@) == Ok::<RecordView, EvalError>(r@),
            Err(x) => decoded(s@) == Err::<RecordView, EvalError>(x),
        },
{
    let i = find_field_end(s, 0);
    if i >= s.len() {
        return Err(EvalError::CorruptPreviousValue);
    }
    let value = copy_range(s, i + 1, s.len());
    proof {
        let tag = s@.subrange(0, i as int);
        if i == 1 {
            assert(tag[0] == s@[0]);
            if s@[0] == TAG_INT {
                assert(tag =~= seq![TAG_INT]);
            } else {
                assert(tag != seq![TAG_INT]) by {
                    assert(seq![TAG_INT][0] == TAG_INT);
                }
            }
            if s@[0] == TAG_FLOAT {
                assert(tag =~= seq![TAG_FLOAT]);
            } else {
                assert(tag != seq![TAG_FLOAT]) by {
                    assert(seq![TAG_FLOAT][0] == TAG_FLOAT);
                }
            }
        } else {
            assert(tag.len() != seq![TAG_INT].len());
            assert(tag.len() != seq![TAG_FLOAT].len());
        }
        assert(seq![TAG_FLOAT] != seq![TAG_INT]) by {
            assert(seq![TAG_FLOAT][0] != seq![TAG_INT][0]);
        }
    }
    if i == 1 && s[0] == TAG_INT {
        match parse_signed_decimal(value.as_slice()) {
            Some(v) => Ok(Record::Int(v)),
            None => Err(EvalError::CorruptPreviousValue),
        }
    } else if i == 1 && s[0] == TAG_FLOAT {
        Ok(Record::Float(value))
    } else {
        Err(EvalError::CorruptPreviousValue)
    }
}

fn push_decimal(n: u128, out: &mut Vec<u8>)
    ensures
        final(out)@ == old(out)@ + decimal_text(n as nat),
    decreases n,
{
    if n >= 10 {
        push_decimal(n / 10, out);
    }
    out.push(48u8 + (n % 10) as u8);
    assert(final(out)@ =~= old(out)@ + decimal_text(n as nat));
}

/// The record of an integer result: `i,` and its decimal text.
pub fn encode_int(v: i128) -> (r: Vec<u8>)
    ensures
        r@ == int_record(v as int),
{
    let mut r: Vec<u8> = Vec::new();
    r.push(TAG_INT);
    r.push(COMMA);
    if v < 0 {
        r.push(MINUS);
        let m: u128 = ((-(v + 1)) as u128) + 1;
        push_decimal(m, &mut r);
    } else {
        push_decimal(v as u128, &mut r);
    }
    assert(r@ =~= int_record(v as int));
    r
}

/// The record of a float result: `f,` and the float's text.
pub fn encode_float(text: &[u8]) -> (r: Vec<u8>)
    ensures
        r@ == float_record(text@),
{
    let mut r: Vec<u8> = Vec::new();
    r.push(TAG_FLOAT);
    r.push(COMMA);
    let mut i: usize = 0;
    while i < text.len()
        invariant
            0 <= i <= text@.len(),
            r@ == seq![TAG_FLOAT, COMMA] + text@.subrange(0, i as int),
        decreases text@.len() - i,
    {
        r.push(text[i]);
        i = i + 1;
        assert(r@ =~= seq![TAG_FLOAT, COMMA] + text@.subrange(0, i as int));
    }
    assert(text@.subrange(0, i as int) =~= text@);
    r
}

} // verus!
