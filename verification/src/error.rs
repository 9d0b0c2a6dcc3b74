//! The faults on which an evaluation can end, and their wording.

use vstd::prelude::*;
use vstd::string::StringExecFns;
use crate::text::push_char;

verus! {

/// Why an expression could not be turned into tokens.
#[derive(Clone, Copy, Debug, PartialEq, Eq, Structural)]
pub enum SyntaxError {
    /// A decimal point with no digit before it, or a second one in a number.
    LoneDecimalPoint,
    /// A character that belongs to no token.
    UnrecognizedChar(char),
    /// A number directly after a number.
    TwoNumbers,
    /// An operator directly after an operator.
    TwoOperators,
    /// A number or a closing bracket directly after a closing bracket.
    MissingOperator,
    /// Opening and closing brackets differ in number.
    BracketMismatch,
}

/// Why a reordered token sequence could not be reduced to one number.
#[derive(Clone, Copy, Debug, PartialEq, Eq, Structural)]
pub enum ReductionError {
    /// An operator is not preceded by two numbers, or what remains is no number.
    ExpectedNumber,
    /// The end of the sequence was reached with more than one token left.
    CouldNotResolve,
}

/// Why an evaluation did not yield a number.
#[derive(Clone, Copy, Debug, PartialEq, Eq, Structural)]
pub enum EvaluationError {
    Syntax(SyntaxError),
    Reduction(ReductionError),
}

impl SyntaxError {
    /// The cause in words.
    pub open spec fn text(self) -> Seq<char> {
        match self {
            SyntaxError::LoneDecimalPoint => "lone decimal point"@,
            SyntaxError::UnrecognizedChar(c) => "Char '"@.push(c) + "' not recognized"@,
            SyntaxError::TwoNumbers => "two numbers without operator in between"@,
            SyntaxError::TwoOperators => "operator followed by another operator"@,
            SyntaxError::MissingOperator => "missing operator after closing bracket"@,
            SyntaxError::BracketMismatch => "bracket count mismatch"@,
        }
    }

    /// Renders the cause for display.
    pub fn message(&self) -> (m: String)
        ensures
            m@ == self.text(),
    {
        match self {
            SyntaxError::LoneDecimalPoint => "lone decimal point".to_owned(),
            SyntaxError::UnrecognizedChar(c) => {
                let mut m = "Char '".to_owned();
                push_char(&mut m, *c);
                m.append("' not recognized");
                m
            },
            SyntaxError::TwoNumbers => "two numbers without operator in between".to_owned(),
            SyntaxError::TwoOperators => "operator followed by another operator".to_owned(),
            SyntaxError::MissingOperator => "missing operator after closing bracket".to_owned(),
            SyntaxError::BracketMismatch => "bracket count mismatch".to_owned(),
        }
    }
}

impl ReductionError {
    /// The cause in words.
    pub open spec fn text(self) -> Seq<char> {
        match self {
            ReductionError::ExpectedNumber => "expected number"@,
            ReductionError::CouldNotResolve => "could not resolve"@,
        }
    }

    /// Renders the cause for display.
    pub fn message(&self) -> (m: String)
        ensures
            m@ == self.text(),
    {
        match self {
            ReductionError::ExpectedNumber => "expected number".to_owned(),
            ReductionError::CouldNotResolve => "could not resolve".to_owned(),
        }
    }
}

impl EvaluationError {
    /// The cause in words: that of the stage which failed.
    pub open spec fn text(self) -> Seq<char> {
        match self {
            EvaluationError::Syntax(e) => e.text(),
            EvaluationError::Reduction(e) => e.text(),
        }
    }

    /// Renders the cause for display.
    pub fn message(&self) -> (m: String)
        ensures
            m@ == self.text(),
    {
        match self {
            EvaluationError::Syntax(e) => e.message(),
            EvaluationError::Reduction(e) => e.message(),
        }
    }
}

} // verus!
