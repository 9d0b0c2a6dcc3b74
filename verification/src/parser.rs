//! The evaluation session and its two operations.

use vstd::prelude::*;
use crate::error::EvaluationError;
use crate::resolver::{computes, fault_of, inert, outcome, reduced, total, Arithmetic};
use crate::sequencer::sequenced;
use crate::token::POp;
use crate::tokenizer::tokenized;

verus! {

/// One evaluation session: it holds the expression until it is asked for
/// the result.
pub struct Parser {
    input: String,
}

impl View for Parser {
    type V = Seq<char>;

    /// The characters of the expression.
    closed spec fn view(&self) -> Seq<char> {
        self.input@
    }
}

/// What the evaluation of an expression yields under an arithmetic: the
/// expression is read into tokens, the tokens are reordered, and the
/// reordered sequence is reduced.
pub open spec fn evaluated(text: Seq<char>, f: Arithmetic) -> Result<Seq<char>, EvaluationError> {
    match tokenized(text) {
        Err(e) => Err(EvaluationError::Syntax(e)),
        Ok(tokens) => match reduced(f, sequenced(tokens)) {
            Err(e) => Err(EvaluationError::Reduction(e)),
            Ok(number) => Ok(number),
        },
    }
}

/// The fault on which the evaluation of an expression ends, if it ends on
/// one. It does not depend on the arithmetic.
pub open spec fn evaluation_fault(text: Seq<char>) -> Option<EvaluationError> {
    fault_of(evaluated(text, inert()))
}

/// The number of an outcome, if it is one.
pub open spec fn number_of<E>(outcome: Result<Seq<char>, E>) -> Option<Seq<char>> {
    match outcome {
        Ok(number) => Some(number),
        Err(_) => None,
    }
}

/// A text, if there is one, taken as characters.
pub open spec fn characters(text: Option<String>) -> Option<Seq<char>> {
    match text {
        Some(text) => Some(text@),
        None => None,
    }
}

impl Parser {
    /// Stores the expression; nothing is read from it yet.
    pub fn new(input_string: &String) -> (parser: Parser)
        ensures
            parser@ == input_string@,
    {
        Parser { input: input_string.clone() }
    }

    /// The stored expression.
    pub(crate) fn text(&self) -> (text: &String)
        ensures
            text@ == self@,
    {
        &self.input
    }

    /// Evaluates the expression and returns the text of the number it
    /// comes to, or the fault that ended the evaluation.
    ///
    /// `arith` does the arithmetic on the numbers: it is handed an operator
    /// and the decimal texts of the left and the right operand, in this
    /// order, and returns the decimal text of the result.
    pub fn evaluate<F: Fn(POp, &str, &str) -> String>(&mut self, arith: F) -> (r: Result<
        String,
        EvaluationError,
    >)
        requires
            total(arith),
        ensures
            *final(self) == *old(self),
            fault_of(r) == evaluation_fault(old(self)@),
            forall|f: Arithmetic| #[trigger]
                computes(arith, f) ==> outcome(r) == evaluated(old(self)@, f),
    {
        let list = match self.parse() {
            Ok(list) => list,
            Err(e) => {
                return Err(EvaluationError::Syntax(e));
            },
        };
        let output_queue = Self::shunting(list);
        match Self::resolve(output_queue, &arith) {
            Ok(number) => Ok(number),
            Err(e) => Err(EvaluationError::Reduction(e)),
        }
    }

    /// Evaluates the expression and returns the text of the number it
    /// comes to, or nothing where the evaluation ends on a fault.
    ///
    /// `arith` does the arithmetic on the numbers, as in [`Parser::evaluate`].
    pub fn result<F: Fn(POp, &str, &str) -> String>(&mut self, arith: F) -> (r: Option<String>)
        requires
            total(arith),
        ensures
            *final(self) == *old(self),
            r is Some <==> evaluation_fault(old(self)@) is None,
            forall|f: Arithmetic| #[trigger]
                computes(arith, f) ==> characters(r) == number_of(evaluated(old(self)@, f)),
    {
        match self.evaluate(arith) {
            Ok(number) => Some(number),
            Err(_) => None,
        }
    }
}

} // verus!
