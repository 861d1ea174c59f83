//! A small arithmetic evaluator: a parser for integer and floating-point
//! expressions, an evaluator with explicit casts and per-operator coercion,
//! and the one-line encoding of the previous result.
//!
//! Text is handled as bytes, compared by their ASCII codes.
pub mod arith;
pub mod ast;
pub mod eval;
pub mod literal;
pub mod parser;
pub mod record;
