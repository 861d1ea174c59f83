//! The evaluator: a post-order walk of the tree. Integer work is done and
//! checked here; every floating-point step is handed, as a `FloatTask`, to
//! the caller's float unit, and float values come back as bit patterns.
use vstd::prelude::*;
use crate::arith::{int_op, int_op_result};
use crate::ast::{is_shift, BinOp, EvalError, Evaluated, Expr, Value};
use crate::literal::{copy_range, in_range, int_literal_value, parse_int_literal};
use crate::record::{decoded, int_record, lemma_int_round_trip, RecordView};

verus! {

#[derive(Debug, Clone, Copy, PartialEq, Eq, Structural)]
pub enum FloatOp {
    Add,
    Sub,
    Mul,
    Div,
    /// Power with a float exponent.
    Pow,
}

/// One step of floating-point work, answered with the bits of a double.
#[derive(Debug)]
pub enum FloatTask {
    /// Read a float literal's text.
    Parse(Vec<u8>),
    /// Convert an integer to the nearest double.
    FromInt(i128),
    /// Apply an operator to two doubles.
    Binary(FloatOp, u64, u64),
    /// Raise a double to an integer power.
    PowInt(u64, i32),
}

/// The float operator that an arithmetic operator becomes.
pub open spec fn float_op_of(op: BinOp) -> FloatOp {
    match op {
        BinOp::Add => FloatOp::Add,
        BinOp::Sub => FloatOp::Sub,
        BinOp::Mul => FloatOp::Mul,
        BinOp::Div => FloatOp::Div,
        _ => FloatOp::Pow,
    }
}

/// `a` is what `v` is as a double: its own bits, or what the float unit
/// gave for the integer.
pub open spec fn coerced<F: Fn(FloatTask) -> u64>(f: F, v: Evaluated, a: u64) -> bool {
    match v {
        Evaluated::Float(b) => a == b,
        Evaluated::Int(i) => f.ensures((FloatTask::FromInt(i),), a),
    }
}

/// `x` is a float result of `op` on `l` and `r`, at least one of them a
/// float: a float base with an integer exponent takes the integer-power
/// form, every other pair is coerced to doubles first.
pub open spec fn float_result<F: Fn(FloatTask) -> u64>(
    f: F,
    op: BinOp,
    l: Evaluated,
    r: Evaluated,
    x: u64,
) -> bool {
    match (l, r) {
        (Evaluated::Float(lb), Evaluated::Int(ri)) if op == BinOp::Exp => f.ensures(
            (FloatTask::PowInt(lb, ri as i32),),
            x,
        ),
        _ => exists|a: u64, b: u64|
            coerced(f, l, a) && coerced(f, r, b) && f.ensures(
                (FloatTask::Binary(float_op_of(op), a, b),),
                x,
            ),
    }
}

/// `res` is what `apply` gives for `op` on `l` and `r`.
pub open spec fn applied<F: Fn(FloatTask) -> u64>(
    f: F,
    op: BinOp,
    l: Evaluated,
    r: Evaluated,
    res: Result<Evaluated, EvalError>,
) -> bool {
    match (l, r) {
        (Evaluated::Int(li), Evaluated::Int(ri)) => res == lift(
            int_op_result(op, li as int, ri as int),
        ),
        _ => if is_shift(op) {
            res == Err::<Evaluated, EvalError>(EvalError::ShiftFloat)
        } else {
            res matches Ok(Evaluated::Float(x)) && float_result(f, op, l, r, x)
        },
    }
}

/// `res` follows from the operands' outcomes `lr` and `rr`: the left error
/// first, then the right one, else the operator applied.
pub open spec fn combined<F: Fn(FloatTask) -> u64>(
    f: F,
    op: BinOp,
    lr: Result<Evaluated, EvalError>,
    rr: Result<Evaluated, EvalError>,
    res: Result<Evaluated, EvalError>,
) -> bool {
    match lr {
        Err(x) => res == Err::<Evaluated, EvalError>(x),
        Ok(l) => match rr {
            Err(x) => res == Err::<Evaluated, EvalError>(x),
            Ok(r) => applied(f, op, l, r, res),
        },
    }
}

/// `res` is `int(..)` of the outcome `r`: an integer is kept, a float goes
/// through `truncate`.
pub open spec fn int_cast<G: Fn(u64) -> i128>(
    g: G,
    r: Result<Evaluated, EvalError>,
    res: Result<Evaluated, EvalError>,
) -> bool {
    match r {
        Err(x) => res == Err::<Evaluated, EvalError>(x),
        Ok(Evaluated::Int(i)) => res == Ok::<Evaluated, EvalError>(Evaluated::Int(i)),
        Ok(Evaluated::Float(b)) => res matches Ok(Evaluated::Int(k)) && g.ensures((b,), k),
    }
}

/// `res` is `float(..)` of the outcome `r`: a float is kept, an integer goes
/// to the float unit.
pub open spec fn float_cast<F: Fn(FloatTask) -> u64>(
    f: F,
    r: Result<Evaluated, EvalError>,
    res: Result<Evaluated, EvalError>,
) -> bool {
    match r {
        Err(x) => res == Err::<Evaluated, EvalError>(x),
        Ok(Evaluated::Float(b)) => res == Ok::<Evaluated, EvalError>(Evaluated::Float(b)),
        Ok(Evaluated::Int(n)) => res matches Ok(Evaluated::Float(x)) && f.ensures(
            (FloatTask::FromInt(n),),
            x,
        ),
    }
}

/// `res` is a float literal's outcome: what the float unit gave for its text.
pub open spec fn float_literal<F: Fn(FloatTask) -> u64>(
    f: F,
    t: Seq<u8>,
    res: Result<Evaluated, EvalError>,
) -> bool {
    &&& res is Ok
    &&& res->Ok_0 is Float
    &&& exists|c: Vec<u8>|
        #![trigger c@]
        c@ == t && f.ensures((FloatTask::Parse(c),), res->Ok_0->Float_0)
}

proof fn lemma_float_literal<F: Fn(FloatTask) -> u64>(f: F, c: Vec<u8>, t: Seq<u8>, x: u64)
    requires
        c@ == t,
        f.ensures((FloatTask::Parse(c),), x),
    ensures
        float_literal(f, t, Ok(Evaluated::Float(x))),
{
}

/// `res` is an outcome of evaluating `e` bottom-up, children left to right,
/// with `f` as the float unit and `g` as the truncation.
pub open spec fn evaluates<F: Fn(FloatTask) -> u64, G: Fn(u64) -> i128>(
    e: Expr,
    prev: Result<Evaluated, EvalError>,
    f: F,
    g: G,
    res: Result<Evaluated, EvalError>,
) -> bool
    decreases e,
{
    match e {
        Expr::BinOp { left, op, right } => exists|
            lr: Result<Evaluated, EvalError>,
            rr: Result<Evaluated, EvalError>,
        |
            #[trigger] combined(f, op, lr, rr, res) && evaluates(*left, prev, f, g, lr) && (lr is Ok
                ==> evaluates(*right, prev, f, g, rr)),
        Expr::IntCast { expr } => exists|r: Result<Evaluated, EvalError>|
            #[trigger] int_cast(g, r, res) && evaluates(*expr, prev, f, g, r),
        Expr::FloatCast { expr } => exists|r: Result<Evaluated, EvalError>|
            #[trigger] float_cast(f, r, res) && evaluates(*expr, prev, f, g, r),
        Expr::Value { val } => match val {
            Value::Int(t) => res == lift(literal_result(t@)),
            Value::Float(t) => float_literal(f, t@, res),
            Value::PreviousResult => res == prev,
        },
    }
}

/// A succeeding outcome is a float exactly when the tree is float-typed,
/// whatever the float unit and the truncation answer.
pub proof fn lemma_outcome_kind<F: Fn(FloatTask) -> u64, G: Fn(u64) -> i128>(
    e: Expr,
    prev: Result<Evaluated, EvalError>,
    f: F,
    g: G,
    res: Result<Evaluated, EvalError>,
)
    requires
        evaluates(e, prev, f, g, res),
        res is Ok,
    ensures
        (res->Ok_0 is Float) == float_typed(e, prev),
    decreases e,
{
    match e {
        Expr::BinOp { left, op, right } => {
            let (lr, rr) = choose|lr: Result<Evaluated, EvalError>, rr: Result<Evaluated, EvalError>|
                #[trigger] combined(f, op, lr, rr, res) && evaluates(*left, prev, f, g, lr) && (lr is Ok
                    ==> evaluates(*right, prev, f, g, rr));
            lemma_outcome_kind(*left, prev, f, g, lr);
            lemma_outcome_kind(*right, prev, f, g, rr);
        },
        _ => {},
    }
}

/// A shift with a float-typed operand never succeeds: it fails with
/// `ShiftFloat`, or with the error of an operand that failed first.
pub proof fn lemma_shift_on_float<F: Fn(FloatTask) -> u64, G: Fn(u64) -> i128>(
    left: Expr,
    op: BinOp,
    right: Expr,
    prev: Result<Evaluated, EvalError>,
    f: F,
    g: G,
    res: Result<Evaluated, EvalError>,
)
    requires
        is_shift(op),
        float_typed(left, prev) || float_typed(right, prev),
        evaluates(Expr::BinOp { left: Box::new(left), op, right: Box::new(right) }, prev, f, g, res),
    ensures
        res is Err,
        res != Err::<Evaluated, EvalError>(EvalError::ShiftFloat) ==> evaluates(left, prev, f, g, res)
            || evaluates(right, prev, f, g, res),
{
    let (lr, rr) = choose|lr: Result<Evaluated, EvalError>, rr: Result<Evaluated, EvalError>|
        #[trigger] combined(f, op, lr, rr, res) && evaluates(left, prev, f, g, lr) && (lr is Ok
            ==> evaluates(right, prev, f, g, rr));
    if lr is Ok && rr is Ok {
        lemma_outcome_kind(left, prev, f, g, lr);
        lemma_outcome_kind(right, prev, f, g, rr);
    }
}

/// Arithmetic with a float-typed operand yields a float made by the float
/// unit from the operands' values, or the error of an operand that failed.
pub proof fn lemma_mixed_arithmetic<F: Fn(FloatTask) -> u64, G: Fn(u64) -> i128>(
    left: Expr,
    op: BinOp,
    right: Expr,
    prev: Result<Evaluated, EvalError>,
    f: F,
    g: G,
    res: Result<Evaluated, EvalError>,
)
    requires
        !is_shift(op),
        float_typed(left, prev) || float_typed(right, prev),
        evaluates(Expr::BinOp { left: Box::new(left), op, right: Box::new(right) }, prev, f, g, res),
    ensures
        res matches Ok(v) ==> (v is Float && exists|lv: Evaluated, rv: Evaluated|
            #![trigger float_result(f, op, lv, rv, v->Float_0)]
            evaluates(left, prev, f, g, Ok(lv)) && evaluates(right, prev, f, g, Ok(rv))
                && float_result(f, op, lv, rv, v->Float_0)),
        res is Err ==> evaluates(left, prev, f, g, res) || evaluates(right, prev, f, g, res),
{
    let (lr, rr) = choose|lr: Result<Evaluated, EvalError>, rr: Result<Evaluated, EvalError>|
        #[trigger] combined(f, op, lr, rr, res) && evaluates(left, prev, f, g, lr) && (lr is Ok
            ==> evaluates(right, prev, f, g, rr));
    if lr is Ok && rr is Ok {
        lemma_outcome_kind(left, prev, f, g, lr);
        lemma_outcome_kind(right, prev, f, g, rr);
        let lv = lr->Ok_0;
        let rv = rr->Ok_0;
        assert(!(lv is Int && rv is Int));
        assert(res is Ok);
        assert(float_result(f, op, lv, rv, res->Ok_0->Float_0));
    }
}

/// `float(..)` of an operand that succeeds is a float: the operand itself
/// where it is a float, the float unit's conversion where it is an integer.
/// An operand's error passes through.
pub proof fn lemma_float_cast<F: Fn(FloatTask) -> u64, G: Fn(u64) -> i128>(
    expr: Expr,
    prev: Result<Evaluated, EvalError>,
    f: F,
    g: G,
    res: Result<Evaluated, EvalError>,
)
    requires
        evaluates(Expr::FloatCast { expr: Box::new(expr) }, prev, f, g, res),
    ensures
        exists|r: Result<Evaluated, EvalError>|
            #[trigger] float_cast(f, r, res) && evaluates(expr, prev, f, g, r),
        res is Ok ==> res->Ok_0 is Float,
{
}

/// `int(..)` of an operand that succeeds is an integer: the operand itself
/// where it is an integer, its truncation where it is a float. An operand's
/// error passes through.
pub proof fn lemma_int_cast<F: Fn(FloatTask) -> u64, G: Fn(u64) -> i128>(
    expr: Expr,
    prev: Result<Evaluated, EvalError>,
    f: F,
    g: G,
    res: Result<Evaluated, EvalError>,
)
    requires
        evaluates(Expr::IntCast { expr: Box::new(expr) }, prev, f, g, res),
    ensures
        exists|r: Result<Evaluated, EvalError>|
            #[trigger] int_cast(g, r, res) && evaluates(expr, prev, f, g, r),
        res is Ok ==> res->Ok_0 is Int,
{
}

pub open spec fn lift(r: Result<i128, EvalError>) -> Result<Evaluated, EvalError> {
    match r {
        Ok(i) => Ok(Evaluated::Int(i)),
        Err(x) => Err(x),
    }
}

/// `v` as a double.
pub fn to_float<F: Fn(FloatTask) -> u64>(v: Evaluated, float_unit: &F) -> (r: u64)
    requires
        forall|t: FloatTask| float_unit.requires((t,)),
    ensures
        coerced(*float_unit, v, r),
{
    match v {
        Evaluated::Float(b) => b,
        Evaluated::Int(i) => float_unit(FloatTask::FromInt(i)),
    }
}

/// `v` as an integer: a float goes through `truncate`.
pub fn to_int<G: Fn(u64) -> i128>(v: Evaluated, truncate: &G) -> (r: i128)
    requires
        forall|b: u64| truncate.requires((b,)),
    ensures
        match v {
            Evaluated::Int(i) => r == i,
            Evaluated::Float(b) => truncate.ensures((b,), r),
        },
{
    match v {
        Evaluated::Int(i) => i,
        Evaluated::Float(b) => truncate(b),
    }
}

/// Applies a binary operator to two evaluated operands. Two integers give
/// the checked integer result; a shift with a float on either side fails;
/// any other operator with a float on either side gives a float.
pub fn apply<F: Fn(FloatTask) -> u64>(op: BinOp, l: Evaluated, r: Evaluated, float_unit: &F) -> (res:
    Result<Evaluated, EvalError>)
    requires
        forall|t: FloatTask| float_unit.requires((t,)),
    ensures
        applied(*float_unit, op, l, r, res),
{
    match (l, r) {
        (Evaluated::Int(li), Evaluated::Int(ri)) => match int_op(op, li, ri) {
            Ok(v) => Ok(Evaluated::Int(v)),
            Err(x) => Err(x),
        },
        _ => {
            if op == BinOp::ShiftLeft || op == BinOp::ShiftRight {
                return Err(EvalError::ShiftFloat);
            }
            if op == BinOp::Exp {
                if let (Evaluated::Float(lb), Evaluated::Int(ri)) = (l, r) {
                    return Ok(Evaluated::Float(float_unit(FloatTask::PowInt(lb, ri as i32))));
                }
            }
            let a = to_float(l, float_unit);
            let b = to_float(r, float_unit);
            let fop = match op {
                BinOp::Add => FloatOp::Add,
                BinOp::Sub => FloatOp::Sub,
                BinOp::Mul => FloatOp::Mul,
                BinOp::Div => FloatOp::Div,
                _ => FloatOp::Pow,
            };
            let x = float_unit(FloatTask::Binary(fop, a, b));
            Ok(Evaluated::Float(x))
        },
    }
}

/// The result is a float: fixed by the tree alone, but for the previous
/// result, whose tag decides.
pub open spec fn float_typed(e: Expr, prev: Result<Evaluated, EvalError>) -> bool
    decreases e,
{
    match e {
        Expr::BinOp { left, op, right } => !is_shift(op) && (float_typed(*left, prev) || float_typed(
            *right,
            prev,
        )),
        Expr::IntCast { .. } => false,
        Expr::FloatCast { .. } => true,
        Expr::Value { val } => match val {
            Value::Float(_) => true,
            Value::Int(_) => false,
            Value::PreviousResult => prev matches Ok(Evaluated::Float(_)),
        },
    }
}

/// No float enters the evaluation: no float literal, no float cast, and no
/// float previous result.
pub open spec fn int_only(e: Expr, prev: Result<Evaluated, EvalError>) -> bool
    decreases e,
{
    match e {
        Expr::BinOp { left, op, right } => int_only(*left, prev) && int_only(*right, prev),
        Expr::IntCast { expr } => int_only(*expr, prev),
        Expr::FloatCast { .. } => false,
        Expr::Value { val } => match val {
            Value::Float(_) => false,
            Value::Int(_) => true,
            Value::PreviousResult => !(prev matches Ok(Evaluated::Float(_))),
        },
    }
}

/// The value of an integer literal's text, or `Arithmetic` where it has none
/// in `i128`.
pub open spec fn literal_result(t: Seq<u8>) -> Result<i128, EvalError> {
    match in_range(int_literal_value(t)) {
        Some(v) => Ok(v),
        None => Err(EvalError::Arithmetic),
    }
}

/// The result of a tree in which no float enters, operands from left to
/// right, the first error winning.
pub open spec fn int_eval(e: Expr, prev: Result<Evaluated, EvalError>) -> Result<i128, EvalError>
    decreases e,
{
    match e {
        Expr::BinOp { left, op, right } => match int_eval(*left, prev) {
            Err(x) => Err(x),
            Ok(l) => match int_eval(*right, prev) {
                Err(x) => Err(x),
                Ok(r) => int_op_result(op, l as int, r as int),
            },
        },
        Expr::IntCast { expr } => int_eval(*expr, prev),
        Expr::FloatCast { .. } => Err(EvalError::Arithmetic),
        Expr::Value { val } => match val {
            Value::Int(t) => literal_result(t@),
            Value::Float(_) => Err(EvalError::Arithmetic),
            Value::PreviousResult => match prev {
                Ok(Evaluated::Int(i)) => Ok(i),
                Ok(Evaluated::Float(_)) => Err(EvalError::Arithmetic),
                Err(x) => Err(x),
            },
        },
    }
}

/// The tree is the previous-result token alone.
pub open spec fn is_previous(e: Expr) -> bool {
    match e {
        Expr::Value { val: Value::PreviousResult } => true,
        _ => false,
    }
}

/// The tree holds the previous-result token somewhere.
pub open spec fn refers_to_previous(e: Expr) -> bool
    decreases e,
{
    match e {
        Expr::BinOp { left, op, right } => refers_to_previous(*left) || refers_to_previous(*right),
        Expr::IntCast { expr } => refers_to_previous(*expr),
        Expr::FloatCast { expr } => refers_to_previous(*expr),
        Expr::Value { val } => val is PreviousResult,
    }
}

/// Recalling an integer: the record written for `v` decodes to `v`, and the
/// previous-result token alone then evaluates to `v`.
pub proof fn lemma_recall_int(v: i128)
    ensures
        decoded(int_record(v as int)) == Ok::<RecordView, EvalError>(RecordView::Int(v)),
        int_only(Expr::Value { val: Value::PreviousResult }, Ok(Evaluated::Int(v))),
        int_eval(Expr::Value { val: Value::PreviousResult }, Ok(Evaluated::Int(v))) == Ok::<
            i128,
            EvalError,
        >(v),
{
    lemma_int_round_trip(v);
}

/// Whether evaluating `e` needs the previous result.
pub fn uses_previous(e: &Expr) -> (r: bool)
    ensures
        r == refers_to_previous(*e),
    decreases e,
{
    match e {
        Expr::BinOp { left, op, right } => uses_previous(left) || uses_previous(right),
        Expr::IntCast { expr } => uses_previous(expr),
        Expr::FloatCast { expr } => uses_previous(expr),
        Expr::Value { val } => match val {
            Value::PreviousResult => true,
            _ => false,
        },
    }
}

/// Evaluates a tree. `prev` is the previous result, read only where the
/// tree refers to it; `float_unit` does the floating-point work and
/// `truncate` turns a double into an integer.
pub fn eval<F: Fn(FloatTask) -> u64, G: Fn(u64) -> i128>(
    e: &Expr,
    prev: &Result<Evaluated, EvalError>,
    float_unit: &F,
    truncate: &G,
) -> (res: Result<Evaluated, EvalError>)
    requires
        forall|t: FloatTask| float_unit.requires((t,)),
        forall|b: u64| truncate.requires((b,)),
    ensures
        res matches Ok(v) ==> ((v is Float) <==> float_typed(*e, *prev)),
        evaluates(*e, *prev, *float_unit, *truncate, res),
        int_only(*e, *prev) ==> res == lift(int_eval(*e, *prev)),
        is_previous(*e) ==> res == *prev,
    decreases e,
{
    match e {
        Expr::BinOp { left, op, right } => {
            let lr = eval(left, prev, float_unit, truncate);
            let l = match lr {
                Ok(v) => v,
                Err(x) => {
                    assert(combined(*float_unit, *op, lr, lr, Err::<Evaluated, EvalError>(x)));
                    assert(evaluates(*e, *prev, *float_unit, *truncate, Err(x)));
                    return Err(x);
                },
            };
            let rr = eval(right, prev, float_unit, truncate);
            let r = match rr {
                Ok(v) => v,
                Err(x) => {
                    assert(combined(*float_unit, *op, lr, rr, Err::<Evaluated, EvalError>(x)));
                    assert(evaluates(*e, *prev, *float_unit, *truncate, Err(x)));
                    return Err(x);
                },
            };
            let res = apply(*op, l, r, float_unit);
            assert(combined(*float_unit, *op, lr, rr, res));
            assert(evaluates(*e, *prev, *float_unit, *truncate, res));
            res
        },
        Expr::IntCast { expr } => {
            let r = eval(expr, prev, float_unit, truncate);
            let res = match r {
                Ok(v) => Ok(Evaluated::Int(to_int(v, truncate))),
                Err(x) => Err(x),
            };
            assert(int_cast(*truncate, r, res));
            assert(evaluates(*e, *prev, *float_unit, *truncate, res));
            res
        },
        Expr::FloatCast { expr } => {
            let r = eval(expr, prev, float_unit, truncate);
            let res = match r {
                Ok(v) => Ok(Evaluated::Float(to_float(v, float_unit))),
                Err(x) => Err(x),
            };
            assert(float_cast(*float_unit, r, res));
            assert(evaluates(*e, *prev, *float_unit, *truncate, res));
            res
        },
        Expr::Value { val } => match val {
            Value::Int(t) => match parse_int_literal(t.as_slice()) {
                Some(i) => Ok(Evaluated::Int(i)),
                None => Err(EvalError::Arithmetic),
            },
            Value::Float(t) => {
                let c = copy_range(t.as_slice(), 0, t.len());
                assert(c@ =~= t@);
                let ghost cg = c;
                let x = float_unit(FloatTask::Parse(c));
                proof {
                    lemma_float_literal(*float_unit, cg, t@, x);
                }
                Ok(Evaluated::Float(x))
            },
            Value::PreviousResult => *prev,
        },
    }
}

} // verus!
