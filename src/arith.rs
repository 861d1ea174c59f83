//! Integer semantics of the binary operators, checked against `i128`.
use vstd::prelude::*;
use vstd::arithmetic::div_mod::{lemma_fundamental_div_mod, lemma_fundamental_div_mod_converse};
use crate::ast::{BinOp, EvalError};
use crate::literal::fits_i128;

verus! {

pub open spec fn pow_int(b: int, e: nat) -> int
    decreases e,
{
    if e == 0 {
        1
    } else {
        b * pow_int(b, (e - 1) as nat)
    }
}

pub open spec fn abs(x: int) -> int {
    if x < 0 {
        -x
    } else {
        x
    }
}

/// Division rounding toward zero.
pub open spec fn trunc_div(x: int, d: int) -> int {
    let q = abs(x) / abs(d);
    if (x < 0) != (d < 0) {
        -q
    } else {
        q
    }
}

/// The mathematical result of an operator on two integers, or `None` where
/// it has none: a zero divisor, an exponent outside the range of `u32`, a
/// shift amount outside `0..128`. A right shift rounds toward negative infinity.
pub open spec fn int_op_value(op: BinOp, l: int, r: int) -> Option<int> {
    match op {
        BinOp::Add => Some(l + r),
        BinOp::Sub => Some(l - r),
        BinOp::Mul => Some(l * r),
        BinOp::Div => if r == 0 {
            None
        } else {
            Some(trunc_div(l, r))
        },
        BinOp::Exp => if r < 0 || r > u32::MAX {
            None
        } else {
            Some(pow_int(l, r as nat))
        },
        BinOp::ShiftLeft => if 0 <= r < 128 {
            Some(l * pow_int(2, r as nat))
        } else {
            None
        },
        BinOp::ShiftRight => if 0 <= r < 128 {
            Some(l / pow_int(2, r as nat))
        } else {
            None
        },
    }
}

/// What `int_op` returns: the result where it exists and fits in an `i128`.
pub open spec fn int_op_result(op: BinOp, l: int, r: int) -> Result<i128, EvalError> {
    match int_op_value(op, l, r) {
        Some(v) => if fits_i128(v) {
            Ok(v as i128)
        } else {
            Err(EvalError::Arithmetic)
        },
        None => Err(EvalError::Arithmetic),
    }
}

proof fn lemma_pow_grows(b: int, m: nat, n: nat)
    requires
        abs(b) >= 2,
        m < n,
    ensures
        abs(pow_int(b, n)) >= 2 * abs(pow_int(b, m)),
    decreases n - m,
{
    let p = pow_int(b, (n - 1) as nat);
    assert(abs(b * p) == abs(b) * abs(p)) by (nonlinear_arith);
    assert(abs(b) * abs(p) >= 2 * abs(p)) by (nonlinear_arith)
        requires
            abs(b) >= 2,
    ;
    if m + 1 < n {
        lemma_pow_grows(b, m, (n - 1) as nat);
        assert(abs(p) >= 0);
    }
}

proof fn lemma_pow_unit(b: int, n: nat)
    requires
        -1 <= b <= 1,
    ensures
        pow_int(b, n) == (if b == 0 {
            if n == 0 {
                1int
            } else {
                0
            }
        } else if b == 1 || n % 2 == 0 {
            1
        } else {
            -1
        }),
    decreases n,
{
    if n > 0 {
        lemma_pow_unit(b, (n - 1) as nat);
        assert((n % 2 == 0) == ((n - 1) as nat % 2 == 1));
        if b == -1 {
            assert(pow_int(b, n) == -pow_int(b, (n - 1) as nat));
        }
    }
}

/// `l` raised to a non-negative power `r`, where the result fits.
fn checked_pow(l: i128, r: i128) -> (res: Option<i128>)
    requires
        r >= 0,
    ensures
        res == (if fits_i128(pow_int(l as int, r as nat)) {
            Some(pow_int(l as int, r as nat) as i128)
        } else {
            None
        }),
{
    if -1 <= l && l <= 1 {
        proof {
            lemma_pow_unit(l as int, r as nat);
        }
        if l == 0 {
            return if r == 0 {
                Some(1)
            } else {
                Some(0)
            };
        } else if l == 1 || r % 2 == 0 {
            return Some(1);
        } else {
            return Some(-1);
        }
    }
    let mut acc: i128 = 1;
    let mut i: i128 = 0;
    while i < r
        invariant
            0 <= i <= r,
            abs(l as int) >= 2,
            acc == pow_int(l as int, i as nat),
        decreases r - i,
    {
        match acc.checked_mul(l) {
            Some(m) => {
                acc = m;
                i = i + 1;
            },
            None => {
                proof {
                    let y = pow_int(l as int, (i + 1) as nat);
                    assert(y == l * acc);
                    if (i + 1) < r {
                        lemma_pow_grows(l as int, (i + 1) as nat, r as nat);
                    }
                }
                return None;
            },
        }
    }
    Some(acc)
}

/// `l * 2^r`, where it fits.
fn checked_shl(l: i128, r: i128) -> (res: Option<i128>)
    requires
        0 <= r < 128,
    ensures
        res == (if fits_i128(l * pow_int(2, r as nat)) {
            Some((l * pow_int(2, r as nat)) as i128)
        } else {
            None
        }),
{
    let mut acc: i128 = l;
    let mut i: i128 = 0;
    while i < r
        invariant
            0 <= i <= r,
            acc == l * pow_int(2, i as nat),
        decreases r - i,
    {
        proof {
            assert(l * pow_int(2, (i + 1) as nat) == (l * pow_int(2, i as nat)) * 2) by (nonlinear_arith)
                requires
                    pow_int(2, (i + 1) as nat) == 2 * pow_int(2, i as nat),
            ;
        }
        match acc.checked_mul(2) {
            Some(m) => {
                acc = m;
                i = i + 1;
            },
            None => {
                proof {
                    if (i + 1) < r {
                        let a = pow_int(2, (i + 1) as nat);
                        let b = pow_int(2, r as nat);
                        lemma_pow_grows(2, (i + 1) as nat, r as nat);
                        assert(abs(l * b) >= 2 * abs(l * a)) by (nonlinear_arith)
                            requires
                                abs(b) >= 2 * abs(a),
                        ;
                    }
                }
                return None;
            },
        }
    }
    Some(acc)
}

/// `l / 2^r`, rounded toward negative infinity.
fn floor_shr(l: i128, r: i128) -> (res: i128)
    requires
        0 <= r < 128,
    ensures
        res == (l as int) / pow_int(2, r as nat),
{
    let mut acc: i128 = l;
    let mut i: i128 = 0;
    while i < r
        invariant
            0 <= i <= r,
            pow_int(2, i as nat) > 0,
            acc == (l as int) / pow_int(2, i as nat),
        decreases r - i,
    {
        let half = match acc.checked_div_euclid(2) {
            Some(h) => h,
            None => acc,
        };
        proof {
            let c = pow_int(2, i as nat);
            let q1 = (l as int) / c;
            let r1 = (l as int) % c;
            let q2 = q1 / 2;
            let r2 = q1 % 2;
            lemma_fundamental_div_mod(l as int, c);
            lemma_fundamental_div_mod(q1, 2);
            assert(l == q2 * (2 * c) + (r2 * c + r1)) by (nonlinear_arith)
                requires
                    l == c * q1 + r1,
                    q1 == 2 * q2 + r2,
            ;
            assert(0 <= r2 * c + r1 < 2 * c) by (nonlinear_arith)
                requires
                    0 <= r1 < c,
                    0 <= r2 < 2,
            ;
            lemma_fundamental_div_mod_converse(l as int, 2 * c, q2, r2 * c + r1);
            assert(pow_int(2, (i + 1) as nat) == 2 * c);
        }
        acc = half;
        i = i + 1;
    }
    acc
}

/// Applies `op` to two integers. Every failure of native fixed-width
/// arithmetic is reported as `EvalError::Arithmetic`.
pub fn int_op(op: BinOp, l: i128, r: i128) -> (res: Result<i128, EvalError>)
    ensures
        res == int_op_result(op, l as int, r as int),
{
    let v = match op {
        BinOp::Add => l.checked_add(r),
        BinOp::Sub => l.checked_sub(r),
        BinOp::Mul => l.checked_mul(r),
        BinOp::Div => l.checked_div(r),
        BinOp::Exp => if r < 0 || r > u32::MAX as i128 {
            None
        } else {
            checked_pow(l, r)
        },
        BinOp::ShiftLeft => if 0 <= r && r < 128 {
            checked_shl(l, r)
        } else {
            None
        },
        BinOp::ShiftRight => if 0 <= r && r < 128 {
            Some(floor_shr(l, r))
        } else {
            None
        },
    };
    match v {
        Some(x) => Ok(x),
        None => Err(EvalError::Arithmetic),
    }
}

} // verus!
