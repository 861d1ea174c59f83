//! The expression tree and the values it evaluates to.
use vstd::prelude::*;

verus! {

/// A leaf of the tree: literal text as the parser found it, or the
/// previous result.
#[derive(Debug)]
pub enum Value {
    PreviousResult,
    Float(Vec<u8>),
    Int(Vec<u8>),
}

#[derive(Debug, Clone, Copy, PartialEq, Eq, Structural)]
pub enum BinOp {
    Add,
    Sub,
    Mul,
    Div,
    ShiftLeft,
    ShiftRight,
    Exp,
}

#[derive(Debug)]
pub enum Expr {
    BinOp { left: Box<Expr>, op: BinOp, right: Box<Expr> },
    IntCast { expr: Box<Expr> },
    FloatCast { expr: Box<Expr> },
    Value { val: Value },
}

/// A computed value. A float is held as its IEEE-754 double bit pattern.
#[derive(Debug, Clone, Copy, PartialEq, Eq, Structural)]
pub enum Evaluated {
    Int(i128),
    Float(u64),
}

#[derive(Debug, Clone, Copy, PartialEq, Eq, Structural)]
pub enum EvalError {
    /// A shift with a float operand on either side.
    ShiftFloat,
    /// The previous result could not be read.
    UnableToReadPreviousValue,
    /// The previous result was read but does not decode.
    CorruptPreviousValue,
    /// Integer overflow, division by zero, an integer exponent outside `u32`, a
    /// shift amount outside `0..128`, or an integer literal outside `i128`.
    Arithmetic,
}

pub open spec fn is_shift(op: BinOp) -> bool {
    op == BinOp::ShiftLeft || op == BinOp::ShiftRight
}

} // verus!
