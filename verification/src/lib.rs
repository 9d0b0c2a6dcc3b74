//! Evaluation of arithmetic expressions written in infix notation.
//!
//! An expression is turned into tokens, the tokens are reordered by operator
//! precedence, and the reordered sequence is reduced to a single number.
//! The arithmetic on the numbers themselves is supplied by the caller.

pub mod error;
pub mod expression;
pub mod parser;
pub mod resolver;
pub mod sequencer;
pub mod text;
pub mod token;
pub mod tokenizer;

pub use error::{EvaluationError, ReductionError, SyntaxError};
pub use parser::Parser;
pub use token::{BType, PExpr, POp};
