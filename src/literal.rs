//! Integer literal text: runs of digits in base 10 or 16, with an optional
//! sign. ASCII codes used here: `0` 48, `9` 57, `a` 97, `f` 102, `A` 65,
//! `F` 70, `x` 120, `+` 43, `-` 45.
use vstd::prelude::*;

verus! {

/// The value of byte `c` as a digit of the given radix, if it is one.
pub open spec fn digit_of(c: u8, radix: nat) -> Option<nat> {
    let d: int = if 48u8 <= c <= 57u8 {
        c - 48u8
    } else if 97u8 <= c <= 102u8 {
        c - 97u8 + 10
    } else if 65u8 <= c <= 70u8 {
        c - 65u8 + 10
    } else {
        radix as int
    };
    if d < radix {
        Some(d as nat)
    } else {
        None
    }
}

pub open spec fn all_digits(t: Seq<u8>, radix: nat) -> bool {
    forall|i: int| 0 <= i < t.len() ==> (#[trigger] digit_of(t[i], radix)) is Some
}

/// The number that a run of digits denotes, most significant first.
pub open spec fn digits_value(t: Seq<u8>, radix: nat) -> nat
    decreases t.len(),
{
    if t.len() == 0 {
        0
    } else {
        digits_value(t.drop_last(), radix) * radix + digit_of(t.last(), radix).unwrap_or(0)
    }
}

/// A non-empty run of digits, with its value, negated when `negative`.
pub open spec fn run_value(t: Seq<u8>, radix: nat, negative: bool) -> Option<int> {
    if t.len() > 0 && all_digits(t, radix) {
        Some(if negative { -digits_value(t, radix) } else { digits_value(t, radix) as int })
    } else {
        None
    }
}

pub open spec fn fits_i128(v: int) -> bool {
    i128::MIN <= v <= i128::MAX
}

/// The value of an integer literal of the grammar: `0x` and hex digits, or
/// decimal digits with an optional leading minus sign.
pub open spec fn int_literal_value(t: Seq<u8>) -> Option<int> {
    if t.len() >= 2 && t[0] == 48u8 && t[1] == 120u8 {
        run_value(t.subrange(2, t.len() as int), 16, false)
    } else if t.len() >= 1 && t[0] == 45u8 {
        run_value(t.subrange(1, t.len() as int), 10, true)
    } else {
        run_value(t, 10, false)
    }
}

/// The value of an `i128` written in decimal with an optional `+` or `-`.
pub open spec fn signed_decimal_value(t: Seq<u8>) -> Option<int> {
    if t.len() >= 1 && t[0] == 45u8 {
        run_value(t.subrange(1, t.len() as int), 10, true)
    } else if t.len() >= 1 && t[0] == 43u8 {
        run_value(t.subrange(1, t.len() as int), 10, false)
    } else {
        run_value(t, 10, false)
    }
}

/// Keeps a value only where it fits in an `i128`.
pub open spec fn in_range(v: Option<int>) -> Option<i128> {
    match v {
        Some(x) => if fits_i128(x) {
            Some(x as i128)
        } else {
            None
        },
        None => None,
    }
}

proof fn lemma_prefix_monotone(t: Seq<u8>, radix: nat, j: int, k: int)
    requires
        0 <= j <= k <= t.len(),
        radix >= 1,
    ensures
        digits_value(t.subrange(0, j), radix) <= digits_value(t.subrange(0, k), radix),
    decreases k - j,
{
    if j < k {
        lemma_prefix_monotone(t, radix, j, k - 1);
        let p = t.subrange(0, k);
        assert(p.drop_last() =~= t.subrange(0, k - 1));
        let a = digits_value(t.subrange(0, k - 1), radix);
        assert(a * radix >= a) by (nonlinear_arith)
            requires
                radix >= 1,
                a >= 0,
        ;
    }
}

fn digit_exec(c: u8, radix: u8) -> (r: Option<u8>)
    requires
        radix == 10 || radix == 16,
    ensures
        r matches Some(d) ==> digit_of(c, radix as nat) == Some(d as nat),
        r is None ==> digit_of(c, radix as nat) is None,
{
    let d: u8 = if 48u8 <= c && c <= 57u8 {
        c - 48u8
    } else if 97u8 <= c && c <= 102u8 {
        c - 97u8 + 10
    } else if 65u8 <= c && c <= 70u8 {
        c - 65u8 + 10
    } else {
        radix
    };
    if d < radix {
        Some(d)
    } else {
        None
    }
}

/// Reads the digits `t[start..]` in the given radix, negated when
/// `negative`, and keeps the result where it fits in an `i128`.
pub fn parse_run(t: &[u8], start: usize, radix: u8, negative: bool) -> (r: Option<i128>)
    requires
        start <= t@.len(),
        radix == 10 || radix == 16,
    ensures
        r == in_range(run_value(t@.subrange(start as int, t@.len() as int), radix as nat, negative)),
{
    let ghost run = t@.subrange(start as int, t@.len() as int);
    let ghost rd = radix as nat;
    if start == t.len() {
        return None;
    }
    let mut acc: i128 = 0;
    let mut i: usize = start;
    while i < t.len()
        invariant
            start <= i <= t@.len(),
            run == t@.subrange(start as int, t@.len() as int),
            rd == radix as nat,
            radix == 10 || radix == 16,
            all_digits(run.subrange(0, i - start), rd),
            acc == (if negative {
                -digits_value(run.subrange(0, i - start), rd)
            } else {
                digits_value(run.subrange(0, i - start), rd) as int
            }),
        decreases t@.len() - i,
    {
        let ghost k = i - start;
        assert(run.subrange(0, k + 1).drop_last() =~= run.subrange(0, k));
        assert(run[k] == t@[i as int]);
        match digit_exec(t[i], radix) {
            None => {
                assert(!all_digits(run, rd)) by {
                    assert(digit_of(run[k], rd) is None);
                }
                return None;
            },
            Some(d) => {
                let step = acc.checked_mul(radix as i128);
                let next = match step {
                    Some(m) => if negative {
                        m.checked_sub(d as i128)
                    } else {
                        m.checked_add(d as i128)
                    },
                    None => None,
                };
                match next {
                    Some(n) => {
                        acc = n;
                        i = i + 1;
                        assert(all_digits(run.subrange(0, i - start), rd)) by {
                            assert forall|j: int| 0 <= j < i - start implies (#[trigger] digit_of(
                                run.subrange(0, i - start)[j],
                                rd,
                            )) is Some by {
                                if j < k {
                                    assert(run.subrange(0, i - start)[j] == run.subrange(0, k)[j]);
                                }
                            }
                        }
                    },
                    None => {
                        proof {
                            let v = digits_value(run.subrange(0, k + 1), rd);
                            assert(v == digits_value(run.subrange(0, k), rd) * rd + d);
                            lemma_prefix_monotone(run, rd, k + 1, run.len() as int);
                            assert(run.subrange(0, run.len() as int) =~= run);
                            if all_digits(run, rd) {
                                assert(!fits_i128(if negative { -v } else { v as int }));
                            }
                        }
                        return None;
                    },
                }
            },
        }
    }
    assert(run.subrange(0, i - start) =~= run);
    Some(acc)
}

/// The value of an integer literal, where it fits in an `i128`.
pub fn parse_int_literal(t: &[u8]) -> (r: Option<i128>)
    ensures
        r == in_range(int_literal_value(t@)),
{
    if t.len() >= 2 && t[0] == 48u8 && t[1] == 120u8 {
        parse_run(t, 2, 16, false)
    } else if t.len() >= 1 && t[0] == 45u8 {
        parse_run(t, 1, 10, true)
    } else {
        assert(t@.subrange(0, t@.len() as int) =~= t@);
        parse_run(t, 0, 10, false)
    }
}

/// An `i128` written in decimal with an optional sign, where it fits.
pub fn parse_signed_decimal(t: &[u8]) -> (r: Option<i128>)
    ensures
        r == in_range(signed_decimal_value(t@)),
{
    if t.len() >= 1 && t[0] == 45u8 {
        parse_run(t, 1, 10, true)
    } else if t.len() >= 1 && t[0] == 43u8 {
        parse_run(t, 1, 10, false)
    } else {
        assert(t@.subrange(0, t@.len() as int) =~= t@);
        parse_run(t, 0, 10, false)
    }
}

/// A copy of `s[from..to]`.
pub fn copy_range(s: &[u8], from: usize, to: usize) -> (r: Vec<u8>)
    requires
        from <= to <= s@.len(),
    ensures
        r@ == s@.subrange(from as int, to as int),
{
    let mut r: Vec<u8> = Vec::new();
    let mut i: usize = from;
    while i < to
        invariant
            from <= i <= to <= s@.len(),
            r@ == s@.subrange(from as int, i as int),
        decreases to - i,
    {
        r.push(s[i]);
        i = i + 1;
        assert(r@ =~= s@.subrange(from as int, i as int));
    }
    r
}

} // verus!
