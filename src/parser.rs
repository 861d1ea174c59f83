//! The grammar, lowest precedence first:
//!
//! ```text
//! sum     := product (('+' | '-') product)*
//! product := shift (('*' | '/') shift)*
//! shift   := power (('<<' | '>>') power)*
//! power   := unary ('**' power)?
//! unary   := '-' unary | atom
//! atom    := number | 'ans' | 'int' '(' sum ')' | 'float' '(' sum ')' | '(' sum ')'
//! ```
//!
//! Binary operators are left-associative but for `**`. A minus sign before a
//! decimal or float literal becomes part of the literal; before anything
//! else it multiplies by `-1`. Blanks may stand between any two tokens.
use vstd::prelude::*;
use crate::ast::{is_shift, BinOp, Expr, Value};
use crate::literal::{all_digits, copy_range, digit_of, digits_value, in_range, int_literal_value};

verus! {

/// ASCII codes of the punctuation the grammar uses.
pub const PLUS: u8 = 43;

pub const MINUS: u8 = 45;

pub const STAR: u8 = 42;

pub const SLASH: u8 = 47;

pub const LT: u8 = 60;

pub const GT: u8 = 62;

pub const LPAREN: u8 = 40;

pub const RPAREN: u8 = 41;

pub const DOT: u8 = 46;

#[derive(Debug, Clone, Copy, PartialEq, Eq, Structural)]
pub enum ParseErrorKind {
    /// A token where an operand was expected, or the input ended there.
    ExpectedOperand,
    /// A parenthesis that is opened and never closed.
    UnclosedParen,
    /// Input left over after a whole expression.
    TrailingInput,
}

/// Why and where (a byte offset into the input) parsing stopped.
#[derive(Debug, Clone, Copy, PartialEq, Eq, Structural)]
pub struct ParseError {
    pub kind: ParseErrorKind,
    pub position: usize,
}

pub open spec fn is_blank(c: u8) -> bool {
    c == 32 || c == 9 || c == 10 || c == 13
}

pub open spec fn is_dec(c: u8) -> bool {
    48 <= c <= 57
}

pub open spec fn is_letter(c: u8) -> bool {
    (97 <= c <= 122) || (65 <= c <= 90)
}

/// The end of the run of decimal digits that starts at `i`.
pub open spec fn dec_run_end(s: Seq<u8>, i: int) -> int
    decreases s.len() - i,
{
    if 0 <= i < s.len() && is_dec(s[i]) {
        dec_run_end(s, i + 1)
    } else {
        i
    }
}

/// The end of the run of hex digits that starts at `i`.
pub open spec fn hex_run_end(s: Seq<u8>, i: int) -> int
    decreases s.len() - i,
{
    if 0 <= i < s.len() && digit_of(s[i], 16) is Some {
        hex_run_end(s, i + 1)
    } else {
        i
    }
}

/// `0x` and a hex digit start at `i`.
pub open spec fn starts_hex(s: Seq<u8>, i: int) -> bool {
    0 <= i && i + 2 < s.len() && s[i] == 48 && s[i + 1] == 120 && digit_of(s[i + 2], 16) is Some
}

/// The number token at `i`: where it ends, and whether it is a float (it
/// has a fraction dot or an exponent). Decimal digits with an optional
/// `.` and fraction (at least one digit in all), then an optional exponent:
/// `e` or `E`, an optional sign, and digits.
pub open spec fn number_token(s: Seq<u8>, i: int) -> Option<(int, bool)> {
    if starts_hex(s, i) {
        Some((hex_run_end(s, i + 2), false))
    } else {
        let a = dec_run_end(s, i);
        let dot = a < s.len() && s[a] == DOT;
        let b = if dot {
            dec_run_end(s, a + 1)
        } else {
            a
        };
        let digits = (a - i) + if dot {
            b - a - 1
        } else {
            0
        };
        if digits == 0 {
            None
        } else {
            let e = b < s.len() && (s[b] == 101 || s[b] == 69);
            let c = if e && b + 1 < s.len() && (s[b + 1] == PLUS || s[b + 1] == MINUS) {
                b + 2
            } else {
                b + 1
            };
            let d = dec_run_end(s, c);
            if e && d > c {
                Some((d, true))
            } else {
                Some((b, dot))
            }
        }
    }
}

/// `s[i..j]` is all blanks.
pub open spec fn blanks(s: Seq<u8>, i: int, j: int) -> bool {
    0 <= i <= j <= s.len() && forall|k: int| i <= k < j ==> is_blank(#[trigger] s[k])
}

/// `e` is a literal leaf with text `text`, a float one when `f`.
pub open spec fn leaf_of(e: Expr, text: Seq<u8>, f: bool) -> bool {
    match e {
        Expr::Value { val: Value::Int(t) } => !f && t@ == text,
        Expr::Value { val: Value::Float(t) } => f && t@ == text,
        _ => false,
    }
}

/// The words of the grammar: `ans`, `int`, `float`.
pub open spec fn word_ans() -> Seq<u8> {
    seq![97u8, 110u8, 115u8]
}

pub open spec fn word_int() -> Seq<u8> {
    seq![105u8, 110u8, 116u8]
}

pub open spec fn word_float() -> Seq<u8> {
    seq![102u8, 108u8, 111u8, 97u8, 116u8]
}

/// `s[k..j]` is the whole run of letters that starts at `k`, and spells `w`.
pub open spec fn word_at(s: Seq<u8>, k: int, j: int, w: Seq<u8>) -> bool {
    0 <= k <= j <= s.len() && s.subrange(k, j) == w && (j == s.len() || !is_letter(s[j]))
}

/// `s[o..j]` is a sum and its closing `)`.
pub open spec fn derives_group(s: Seq<u8>, o: int, j: int, e: Expr) -> bool
    decreases j - o, 6nat,
{
    0 <= o < j <= s.len() && s[j - 1] == RPAREN && exists|k: int|
        o < k <= j - 1 && derives_sum(s, o, k, e) && #[trigger] blanks(s, k, j - 1)
}

/// `s[i..j]` is an atom that denotes `e`.
pub open spec fn derives_atom(s: Seq<u8>, i: int, j: int, e: Expr) -> bool
    decreases j - i, 0nat,
{
    0 <= i <= j <= s.len() && exists|k: int|
        #[trigger] blanks(s, i, k) && k < j && {
            ||| (number_token(s, k) matches Some((end, f)) && end == j && leaf_of(
                e,
                s.subrange(k, j),
                f,
            ))
            ||| (word_at(s, k, j, word_ans()) && e == Expr::Value { val: Value::PreviousResult })
            ||| (s[k] == LPAREN && derives_group(s, k + 1, j, e))
            ||| exists|w: int, m: int|
                k < w <= m && m < j && #[trigger] blanks(s, w, m) && s[m] == LPAREN && match e {
                    Expr::IntCast { expr } => word_at(s, k, w, word_int()) && derives_group(
                        s,
                        m + 1,
                        j,
                        *expr,
                    ),
                    Expr::FloatCast { expr } => word_at(s, k, w, word_float()) && derives_group(
                        s,
                        m + 1,
                        j,
                        *expr,
                    ),
                    _ => false,
                }
        }
}

/// After blanks from `i`, a decimal or float number token starts.
pub open spec fn literal_after(s: Seq<u8>, i: int) -> bool {
    exists|m: int| #[trigger] blanks(s, i, m) && !starts_hex(s, m) && number_token(s, m) is Some
}

/// `s[i..j]` is an atom with any number of minus signs before it. A minus
/// sign before a decimal or float number is part of that literal; before
/// anything else it multiplies by `-1`.
pub open spec fn derives_unary(s: Seq<u8>, i: int, j: int, e: Expr) -> bool
    decreases j - i, 1nat,
{
    0 <= i <= j <= s.len() && {
        ||| derives_atom(s, i, j, e)
        ||| exists|k: int|
            #[trigger] blanks(s, i, k) && k < j && s[k] == MINUS && {
                ||| exists|m: int|
                    #[trigger] blanks(s, k + 1, m) && !starts_hex(s, m) && (number_token(
                        s,
                        m,
                    ) matches Some((end, f)) && end == j && leaf_of(
                        e,
                        seq![MINUS] + s.subrange(m, j),
                        f,
                    ))
                ||| !literal_after(s, k + 1) && match e {
                    Expr::BinOp { left, op, right } => op == BinOp::Mul && leaf_of(
                        *left,
                        seq![MINUS, 49u8],
                        false,
                    ) && derives_unary(s, k + 1, j, *right),
                    _ => false,
                }
            }
    }
}

/// `s[i..j]` is a chain of powers, grouped to the right.
pub open spec fn derives_power(s: Seq<u8>, i: int, j: int, e: Expr) -> bool
    decreases j - i, 2nat,
{
    0 <= i <= j <= s.len() && {
        ||| derives_unary(s, i, j, e)
        ||| match e {
            Expr::BinOp { left, op, right } => op == BinOp::Exp && exists|k: int, m: int|
                i < k <= m && m + 2 <= j && #[trigger] blanks(s, k, m) && s[m] == STAR && s[m + 1]
                    == STAR && derives_unary(s, i, k, *left) && derives_power(s, m + 2, j, *right),
            _ => false,
        }
    }
}

/// `s[i..j]` is a chain of shifts, grouped to the left.
pub open spec fn derives_shift(s: Seq<u8>, i: int, j: int, e: Expr) -> bool
    decreases j - i, 3nat,
{
    0 <= i <= j <= s.len() && {
        ||| derives_power(s, i, j, e)
        ||| match e {
            Expr::BinOp { left, op, right } => is_shift(op) && exists|k: int, m: int|
                i < k <= m && m + 2 <= j && #[trigger] blanks(s, k, m) && s[m] == s[m + 1] && s[m]
                    == (if op == BinOp::ShiftLeft {
                    LT
                } else {
                    GT
                }) && derives_shift(s, i, k, *left) && derives_power(s, m + 2, j, *right),
            _ => false,
        }
    }
}

/// `s[i..j]` is a chain of products and quotients, grouped to the left.
pub open spec fn derives_product(s: Seq<u8>, i: int, j: int, e: Expr) -> bool
    decreases j - i, 4nat,
{
    0 <= i <= j <= s.len() && {
        ||| derives_shift(s, i, j, e)
        ||| match e {
            Expr::BinOp { left, op, right } => exists|k: int, m: int|
                i < k <= m && m + 1 <= j && #[trigger] blanks(s, k, m) && (if op == BinOp::Mul {
                    s[m] == STAR && !(m + 1 < s.len() && s[m + 1] == STAR)
                } else {
                    op == BinOp::Div && s[m] == SLASH
                }) && derives_product(s, i, k, *left) && derives_shift(s, m + 1, j, *right),
            _ => false,
        }
    }
}

/// `s[i..j]` is a chain of sums and differences, grouped to the left.
pub open spec fn derives_sum(s: Seq<u8>, i: int, j: int, e: Expr) -> bool
    decreases j - i, 5nat,
{
    0 <= i <= j <= s.len() && {
        ||| derives_product(s, i, j, e)
        ||| match e {
            Expr::BinOp { left, op, right } => exists|k: int, m: int|
                i < k <= m && m + 1 <= j && #[trigger] blanks(s, k, m) && (if op == BinOp::Add {
                    s[m] == PLUS
                } else {
                    op == BinOp::Sub && s[m] == MINUS
                }) && derives_sum(s, i, k, *left) && derives_product(s, m + 1, j, *right),
            _ => false,
        }
    }
}

/// The input from `i` on is one number token and nothing else.
pub open spec fn lone_number(s: Seq<u8>, i: int) -> bool {
    number_token(s, i) matches Some((e, _)) && e == s.len()
}

/// `e` is the literal leaf of the number token at `i`, with its text.
pub open spec fn number_leaf(e: Expr, s: Seq<u8>, i: int) -> bool {
    match number_token(s, i) {
        Some((end, f)) => match e {
            Expr::Value { val: Value::Int(t) } => !f && t@ == s.subrange(i, end),
            Expr::Value { val: Value::Float(t) } => f && t@ == s.subrange(i, end),
            _ => false,
        },
        None => false,
    }
}

proof fn lemma_number_start(s: Seq<u8>, i: int)
    requires
        number_token(s, i) is Some,
        0 <= i,
    ensures
        i < s.len(),
        is_dec(s[i]) || s[i] == DOT,
{
    if !starts_hex(s, i) {
        let a = dec_run_end(s, i);
        if a > i {
            assert(i < s.len() && is_dec(s[i]));
        }
    }
}

proof fn lemma_dec_run_to_end(s: Seq<u8>, i: int)
    requires
        0 <= i <= s.len(),
        forall|k: int| i <= k < s.len() ==> is_dec(#[trigger] s[k]),
    ensures
        dec_run_end(s, i) == s.len(),
    decreases s.len() - i,
{
    if i < s.len() {
        lemma_dec_run_to_end(s, i + 1);
    }
}

proof fn lemma_hex_run_to_end(s: Seq<u8>, i: int)
    requires
        0 <= i <= s.len(),
        forall|k: int| i <= k < s.len() ==> (#[trigger] digit_of(s[k], 16)) is Some,
    ensures
        hex_run_end(s, i) == s.len(),
    decreases s.len() - i,
{
    if i < s.len() {
        lemma_hex_run_to_end(s, i + 1);
    }
}

/// A run of decimal digits is one integer token, and as a literal it has
/// the value of its digits.
pub proof fn lemma_decimal_literal(t: Seq<u8>)
    requires
        t.len() > 0,
        all_digits(t, 10),
        digits_value(t, 10) <= i128::MAX,
    ensures
        number_token(t, 0) == Some((t.len() as int, false)),
        in_range(int_literal_value(t)) == Some(digits_value(t, 10) as i128),
{
    assert forall|k: int| 0 <= k < t.len() implies is_dec(#[trigger] t[k]) by {
        assert(digit_of(t[k], 10) is Some);
    }
    lemma_dec_run_to_end(t, 0);
    if t.len() >= 2 {
        assert(is_dec(t[1]));
    }
    assert(is_dec(t[0]));
    assert(t.subrange(0, t.len() as int) =~= t);
}

/// `0x` and a run of hex digits is one integer token, and as a literal it
/// has the value of its digits in base 16.
pub proof fn lemma_hex_literal(h: Seq<u8>)
    requires
        h.len() > 0,
        all_digits(h, 16),
        digits_value(h, 16) <= i128::MAX,
    ensures
        number_token(seq![48u8, 120u8] + h, 0) == Some(((h.len() + 2) as int, false)),
        in_range(int_literal_value(seq![48u8, 120u8] + h)) == Some(digits_value(h, 16) as i128),
{
    let t = seq![48u8, 120u8] + h;
    assert(t[2] == h[0]);
    assert forall|k: int| 2 <= k < t.len() implies (#[trigger] digit_of(t[k], 16)) is Some by {
        assert(t[k] == h[k - 2]);
    }
    lemma_hex_run_to_end(t, 2);
    assert(t.subrange(2, t.len() as int) =~= h);
}

fn skip_blanks(s: &[u8], i: usize) -> (r: usize)
    requires
        i <= s@.len(),
    ensures
        i <= r <= s@.len(),
        r < s@.len() ==> !is_blank(s@[r as int]),
        i < s@.len() && !is_blank(s@[i as int]) ==> r == i,
        blanks(s@, i as int, r as int),
{
    let mut k: usize = i;
    while k < s.len() && (s[k] == 32 || s[k] == 9 || s[k] == 10 || s[k] == 13)
        invariant
            i <= k <= s@.len(),
            k > i ==> is_blank(s@[i as int]),
            blanks(s@, i as int, k as int),
        decreases s@.len() - k,
    {
        k = k + 1;
    }
    k
}

fn dec_end(s: &[u8], i: usize) -> (r: usize)
    requires
        i <= s@.len(),
    ensures
        r == dec_run_end(s@, i as int),
        i <= r <= s@.len(),
{
    let mut k: usize = i;
    while k < s.len() && 48 <= s[k] && s[k] <= 57
        invariant
            i <= k <= s@.len(),
            dec_run_end(s@, k as int) == dec_run_end(s@, i as int),
        decreases s@.len() - k,
    {
        k = k + 1;
    }
    k
}

fn is_hex_digit(c: u8) -> (r: bool)
    ensures
        r == (digit_of(c, 16) is Some),
{
    (48 <= c && c <= 57) || (97 <= c && c <= 102) || (65 <= c && c <= 70)
}

fn hex_end(s: &[u8], i: usize) -> (r: usize)
    requires
        i <= s@.len(),
    ensures
        r == hex_run_end(s@, i as int),
        i <= r <= s@.len(),
{
    let mut k: usize = i;
    while k < s.len() && is_hex_digit(s[k])
        invariant
            i <= k <= s@.len(),
            hex_run_end(s@, k as int) == hex_run_end(s@, i as int),
        decreases s@.len() - k,
    {
        k = k + 1;
    }
    k
}

/// Scans the number token at `i`.
pub fn scan_number(s: &[u8], i: usize) -> (r: Option<(usize, bool)>)
    requires
        i <= s@.len(),
    ensures
        match r {
            Some((e, f)) => number_token(s@, i as int) == Some((e as int, f)) && i < e <= s@.len(),
            None => number_token(s@, i as int) is None,
        },
{
    if s.len() - i > 2 && s[i] == 48 && s[i + 1] == 120 && is_hex_digit(s[i + 2]) {
        let e = hex_end(s, i + 2);
        return Some((e, false));
    }
    let a = dec_end(s, i);
    let dot = a < s.len() && s[a] == DOT;
    let b = if dot {
        dec_end(s, a + 1)
    } else {
        a
    };
    let digits: usize = (a - i) + if dot {
        b - a - 1
    } else {
        0
    };
    if digits == 0 {
        return None;
    }
    let e = b < s.len() && (s[b] == 101 || s[b] == 69);
    if e {
        let c = if b + 1 < s.len() && (s[b + 1] == PLUS || s[b + 1] == MINUS) {
            b + 2
        } else {
            b + 1
        };
        let d = dec_end(s, c);
        if d > c {
            return Some((d, true));
        }
    }
    Some((b, dot))
}

fn starts_hex_exec(s: &[u8], i: usize) -> (r: bool)
    requires
        i <= s@.len(),
    ensures
        r == starts_hex(s@, i as int),
{
    s.len() - i > 2 && s[i] == 48 && s[i + 1] == 120 && is_hex_digit(s[i + 2])
}

fn letters_end(s: &[u8], i: usize) -> (r: usize)
    requires
        i <= s@.len(),
    ensures
        i <= r <= s@.len(),
        i < s@.len() && is_letter(s@[i as int]) ==> i < r,
        r == s@.len() || !is_letter(s@[r as int]),
{
    let mut k: usize = i;
    while k < s.len() && ((97 <= s[k] && s[k] <= 122) || (65 <= s[k] && s[k] <= 90))
        invariant
            i <= k <= s@.len(),
            k == i ==> (i < s@.len() && is_letter(s@[i as int]) ==> k < s@.len() && is_letter(s@[k as int])),
        decreases s@.len() - k,
    {
        k = k + 1;
    }
    k
}

/// `s[from..to]` spells the ASCII word `w`.
fn spells(s: &[u8], from: usize, to: usize, w: &[u8]) -> (r: bool)
    requires
        from <= to <= s@.len(),
    ensures
        r == (s@.subrange(from as int, to as int) == w@),
{
    if to - from != w.len() {
        assert(s@.subrange(from as int, to as int).len() != w@.len());
        return false;
    }
    let mut k: usize = 0;
    while k < w.len()
        invariant
            to - from == w@.len(),
            from <= to <= s@.len(),
            0 <= k <= w@.len(),
            forall|j: int| 0 <= j < k ==> s@[from + j] == w@[j],
        decreases w@.len() - k,
    {
        if s[from + k] != w[k] {
            assert(s@.subrange(from as int, to as int)[k as int] != w@[k as int]);
            return false;
        }
        k = k + 1;
    }
    assert(s@.subrange(from as int, to as int) =~= w@);
    true
}

fn minus_text(s: &[u8], from: usize, to: usize) -> (r: Vec<u8>)
    requires
        from <= to <= s@.len(),
    ensures
        r@ == seq![MINUS] + s@.subrange(from as int, to as int),
{
    let mut r: Vec<u8> = Vec::new();
    r.push(MINUS);
    let mut i: usize = from;
    while i < to
        invariant
            from <= i <= to <= s@.len(),
            r@ == seq![MINUS] + s@.subrange(from as int, i as int),
        decreases to - i,
    {
        r.push(s[i]);
        i = i + 1;
        assert(r@ =~= seq![MINUS] + s@.subrange(from as int, i as int));
    }
    r
}

fn bin(left: Expr, op: BinOp, right: Expr) -> (e: Expr)
    ensures
        e == (Expr::BinOp { left: Box::new(left), op, right: Box::new(right) }),
{
    Expr::BinOp { left: Box::new(left), op, right: Box::new(right) }
}

/// A group whose `(` stands just before `open`: a sum and its `)`.
fn parse_group(s: &[u8], open: usize) -> (r: Result<(Expr, usize), ParseError>)
    requires
        1 <= open <= s@.len(),
    ensures
        r matches Ok((e, j)) ==> derives_group(s@, open as int, j as int, e),
        r matches Err(x) ==> x.position <= s@.len(),
        r matches Ok((_, j)) ==> open < j <= s@.len(),
    decreases s@.len() - open, 6nat,
{
    let (e, j) = match parse_sum(s, open) {
        Ok(p) => p,
        Err(x) => return Err(x),
    };
    let m = skip_blanks(s, j);
    if m < s.len() && s[m] == RPAREN {
        assert(derives_sum(s@, open as int, j as int, e) && blanks(s@, j as int, m as int));
        assert(blanks(s@, j as int, (m + 1) - 1));
        Ok((e, m + 1))
    } else {
        Err(ParseError { kind: ParseErrorKind::UnclosedParen, position: open - 1 })
    }
}

fn parse_atom(s: &[u8], i: usize) -> (r: Result<(Expr, usize), ParseError>)
    requires
        i <= s@.len(),
    ensures
        r matches Ok((e, j)) ==> derives_atom(s@, i as int, j as int, e),
        r matches Err(x) ==> x.position <= s@.len(),
        r matches Ok((_, j)) ==> i < j <= s@.len(),
        lone_number(s@, i as int) ==> (r matches Ok((e, j)) && j == s@.len() && number_leaf(
            e,
            s@,
            i as int,
        )),
    decreases s@.len() - i, 0nat,
{
    proof {
        if lone_number(s@, i as int) {
            lemma_number_start(s@, i as int);
        }
    }
    let k = skip_blanks(s, i);
    if k >= s.len() {
        return Err(ParseError { kind: ParseErrorKind::ExpectedOperand, position: k });
    }
    if s[k] == LPAREN {
        let r = parse_group(s, k + 1);
        assert(blanks(s@, i as int, k as int));
        return r;
    }
    if (97 <= s[k] && s[k] <= 122) || (65 <= s[k] && s[k] <= 90) {
        let w = letters_end(s, k);
        let ans: [u8; 3] = [97u8, 110, 115];
        let int_word: [u8; 3] = [105u8, 110, 116];
        let float_word: [u8; 5] = [102u8, 108, 111, 97, 116];
        assert(ans@ =~= word_ans());
        assert(int_word@ =~= word_int());
        assert(float_word@ =~= word_float());
        if spells(s, k, w, &ans) {
            assert(blanks(s@, i as int, k as int));
            return Ok((Expr::Value { val: Value::PreviousResult }, w));
        }
        let to_int = spells(s, k, w, &int_word);
        let to_float = spells(s, k, w, &float_word);
        if to_int || to_float {
            let m = skip_blanks(s, w);
            if m < s.len() && s[m] == LPAREN {
                let (e, j) = match parse_group(s, m + 1) {
                    Ok(p) => p,
                    Err(x) => return Err(x),
                };
                let cast = if to_int {
                    Expr::IntCast { expr: Box::new(e) }
                } else {
                    Expr::FloatCast { expr: Box::new(e) }
                };
                assert(blanks(s@, i as int, k as int));
                assert(blanks(s@, w as int, m as int));
                return Ok((cast, j));
            }
            return Err(ParseError { kind: ParseErrorKind::ExpectedOperand, position: m });
        }
        return Err(ParseError { kind: ParseErrorKind::ExpectedOperand, position: k });
    }
    match scan_number(s, k) {
        Some((end, is_float)) => {
            let text = copy_range(s, k, end);
            let val = if is_float {
                Value::Float(text)
            } else {
                Value::Int(text)
            };
            assert(blanks(s@, i as int, k as int));
            Ok((Expr::Value { val }, end))
        },
        None => Err(ParseError { kind: ParseErrorKind::ExpectedOperand, position: k }),
    }
}

fn parse_unary(s: &[u8], i: usize) -> (r: Result<(Expr, usize), ParseError>)
    requires
        i <= s@.len(),
    ensures
        r matches Ok((e, j)) ==> derives_unary(s@, i as int, j as int, e),
        r matches Err(x) ==> x.position <= s@.len(),
        r matches Ok((_, j)) ==> i < j <= s@.len(),
        lone_number(s@, i as int) ==> (r matches Ok((e, j)) && j == s@.len() && number_leaf(
            e,
            s@,
            i as int,
        )),
    decreases s@.len() - i, 1nat,
{
    proof {
        if lone_number(s@, i as int) {
            lemma_number_start(s@, i as int);
        }
    }
    let k = skip_blanks(s, i);
    if k < s.len() && s[k] == MINUS {
        let m = skip_blanks(s, k + 1);
        if !starts_hex_exec(s, m) {
            if let Some((end, is_float)) = scan_number(s, m) {
                let text = minus_text(s, m, end);
                let val = if is_float {
                    Value::Float(text)
                } else {
                    Value::Int(text)
                };
                assert(blanks(s@, i as int, k as int));
                assert(blanks(s@, (k + 1) as int, m as int));
                return Ok((Expr::Value { val }, end));
            }
        }
        let (inner, n) = match parse_unary(s, k + 1) {
            Ok(p) => p,
            Err(x) => return Err(x),
        };
        proof {
            if literal_after(s@, (k + 1) as int) {
                let m2 = choose|m2: int|
                    #[trigger] blanks(s@, (k + 1) as int, m2) && !starts_hex(s@, m2) && number_token(
                        s@,
                        m2,
                    ) is Some;
                lemma_number_start(s@, m2);
                if m2 < m {
                    assert(is_blank(s@[m2]));
                } else if m2 > m {
                    assert(is_blank(s@[m as int]));
                }
            }
        }
        let mut one: Vec<u8> = Vec::new();
        one.push(MINUS);
        one.push(49u8);
        assert(one@ =~= seq![MINUS, 49u8]);
        let minus_one = Expr::Value { val: Value::Int(one) };
        assert(blanks(s@, i as int, k as int));
        Ok((bin(minus_one, BinOp::Mul, inner), n))
    } else {
        parse_atom(s, i)
    }
}

fn parse_power(s: &[u8], i: usize) -> (r: Result<(Expr, usize), ParseError>)
    requires
        i <= s@.len(),
    ensures
        r matches Ok((e, j)) ==> derives_power(s@, i as int, j as int, e),
        r matches Err(x) ==> x.position <= s@.len(),
        r matches Ok((_, j)) ==> i < j <= s@.len(),
        lone_number(s@, i as int) ==> (r matches Ok((e, j)) && j == s@.len() && number_leaf(
            e,
            s@,
            i as int,
        )),
    decreases s@.len() - i, 2nat,
{
    let (base, j) = match parse_unary(s, i) {
        Ok(p) => p,
        Err(x) => return Err(x),
    };
    let k = skip_blanks(s, j);
    if s.len() - k >= 2 && s[k] == STAR && s[k + 1] == STAR {
        match parse_power(s, k + 2) {
            Ok((exp, n)) => {
                assert(blanks(s@, j as int, k as int));
                Ok((bin(base, BinOp::Exp, exp), n))
            },
            Err(x) => Err(x),
        }
    } else {
        Ok((base, j))
    }
}

fn parse_shift(s: &[u8], i: usize) -> (r: Result<(Expr, usize), ParseError>)
    requires
        i <= s@.len(),
    ensures
        r matches Ok((e, j)) ==> derives_shift(s@, i as int, j as int, e),
        r matches Err(x) ==> x.position <= s@.len(),
        r matches Ok((_, j)) ==> i < j <= s@.len(),
        lone_number(s@, i as int) ==> (r matches Ok((e, j)) && j == s@.len() && number_leaf(
            e,
            s@,
            i as int,
        )),
    decreases s@.len() - i, 3nat,
{
    let (mut e, mut j) = match parse_power(s, i) {
        Ok(p) => p,
        Err(x) => return Err(x),
    };
    loop
        invariant
            i < j <= s@.len(),
            derives_shift(s@, i as int, j as int, e),
            lone_number(s@, i as int) ==> (j == s@.len() && number_leaf(e, s@, i as int)),
        decreases s@.len() - j,
    {
        let k = skip_blanks(s, j);
        if s.len() - k >= 2 && ((s[k] == LT && s[k + 1] == LT) || (s[k] == GT && s[k + 1] == GT)) {
            let op = if s[k] == LT {
                BinOp::ShiftLeft
            } else {
                BinOp::ShiftRight
            };
            match parse_power(s, k + 2) {
                Ok((rhs, n)) => {
                    assert(blanks(s@, j as int, k as int));
                    e = bin(e, op, rhs);
                    j = n;
                },
                Err(x) => return Err(x),
            }
        } else {
            return Ok((e, j));
        }
    }
}

fn parse_product(s: &[u8], i: usize) -> (r: Result<(Expr, usize), ParseError>)
    requires
        i <= s@.len(),
    ensures
        r matches Ok((e, j)) ==> derives_product(s@, i as int, j as int, e),
        r matches Err(x) ==> x.position <= s@.len(),
        r matches Ok((_, j)) ==> i < j <= s@.len(),
        lone_number(s@, i as int) ==> (r matches Ok((e, j)) && j == s@.len() && number_leaf(
            e,
            s@,
            i as int,
        )),
    decreases s@.len() - i, 4nat,
{
    let (mut e, mut j) = match parse_shift(s, i) {
        Ok(p) => p,
        Err(x) => return Err(x),
    };
    loop
        invariant
            i < j <= s@.len(),
            derives_product(s@, i as int, j as int, e),
            lone_number(s@, i as int) ==> (j == s@.len() && number_leaf(e, s@, i as int)),
        decreases s@.len() - j,
    {
        let k = skip_blanks(s, j);
        let mul = k < s.len() && s[k] == STAR && !(s.len() - k >= 2 && s[k + 1] == STAR);
        if mul || (k < s.len() && s[k] == SLASH) {
            let op = if mul {
                BinOp::Mul
            } else {
                BinOp::Div
            };
            match parse_shift(s, k + 1) {
                Ok((rhs, n)) => {
                    assert(blanks(s@, j as int, k as int));
                    e = bin(e, op, rhs);
                    j = n;
                },
                Err(x) => return Err(x),
            }
        } else {
            return Ok((e, j));
        }
    }
}

fn parse_sum(s: &[u8], i: usize) -> (r: Result<(Expr, usize), ParseError>)
    requires
        i <= s@.len(),
    ensures
        r matches Ok((e, j)) ==> derives_sum(s@, i as int, j as int, e),
        r matches Err(x) ==> x.position <= s@.len(),
        r matches Ok((_, j)) ==> i < j <= s@.len(),
        lone_number(s@, i as int) ==> (r matches Ok((e, j)) && j == s@.len() && number_leaf(
            e,
            s@,
            i as int,
        )),
    decreases s@.len() - i, 5nat,
{
    let (mut e, mut j) = match parse_product(s, i) {
        Ok(p) => p,
        Err(x) => return Err(x),
    };
    loop
        invariant
            i < j <= s@.len(),
            derives_sum(s@, i as int, j as int, e),
            lone_number(s@, i as int) ==> (j == s@.len() && number_leaf(e, s@, i as int)),
        decreases s@.len() - j,
    {
        let k = skip_blanks(s, j);
        if k < s.len() && (s[k] == PLUS || s[k] == MINUS) {
            let op = if s[k] == PLUS {
                BinOp::Add
            } else {
                BinOp::Sub
            };
            match parse_product(s, k + 1) {
                Ok((rhs, n)) => {
                    assert(blanks(s@, j as int, k as int));
                    e = bin(e, op, rhs);
                    j = n;
                },
                Err(x) => return Err(x),
            }
        } else {
            return Ok((e, j));
        }
    }
}

/// `s` is an expression, blanks around it allowed, that denotes `e`.
pub open spec fn derives(s: Seq<u8>, e: Expr) -> bool {
    exists|j: int| #[trigger] derives_sum(s, 0, j, e) && blanks(s, j, s.len() as int)
}

/// Parses a whole expression: what comes back is a derivation of the input
/// by the grammar. Input that is one number token and nothing else gives
/// that literal's leaf.
pub fn parse(s: &[u8]) -> (r: Result<Expr, ParseError>)
    ensures
        r matches Ok(e) ==> derives(s@, e),
        lone_number(s@, 0) ==> (r matches Ok(e) && number_leaf(e, s@, 0)),
        r matches Err(x) ==> x.position <= s@.len(),
{
    let (e, j) = match parse_sum(s, 0) {
        Ok(p) => p,
        Err(x) => return Err(x),
    };
    let k = skip_blanks(s, j);
    if k < s.len() {
        Err(ParseError { kind: ParseErrorKind::TrailingInput, position: k })
    } else {
        assert(derives_sum(s@, 0, j as int, e) && blanks(s@, j as int, s@.len() as int));
        Ok(e)
    }
}

} // verus!
