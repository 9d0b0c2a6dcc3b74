//! The tokens of an expression: numbers, operators and brackets.

use vstd::prelude::*;

verus! {

/// A binary arithmetic operator.
#[derive(Clone, Copy, Debug, PartialEq, Eq, Structural)]
pub enum POp {
    Add,
    Sub,
    Mul,
    Div,
}

impl POp {
    /// The precedence rank: addition and subtraction bind less tightly than
    /// multiplication and division.
    pub open spec fn rank(self) -> int {
        match self {
            POp::Add | POp::Sub => 1,
            POp::Mul | POp::Div => 2,
        }
    }

    /// Returns the precedence rank of the operator.
    pub fn order(&self) -> (r: i8)
        ensures
            r == self.rank(),
    {
        match self {
            POp::Add => 1,
            POp::Sub => 1,
            POp::Mul => 2,
            POp::Div => 2,
        }
    }
}

/// The side of a bracket.
#[derive(Clone, Copy, Debug, PartialEq, Eq, Structural)]
pub enum BType {
    Left,
    Right,
}

/// A token as the stages of the evaluation hold it.
#[derive(Debug, PartialEq, Eq)]
pub enum PExpr {
    /// An operator.
    Op(POp),
    /// A number, held as its decimal text.
    Cons(String),
    /// A bracket.
    Bracket(BType),
}

/// The mathematical value of a token: a number carries its decimal text.
pub enum Token {
    Number(Seq<char>),
    Operator(POp),
    Bracket(BType),
}

impl View for PExpr {
    type V = Token;

    open spec fn view(&self) -> Token {
        match self {
            PExpr::Op(op) => Token::Operator(*op),
            PExpr::Cons(text) => Token::Number(text@),
            PExpr::Bracket(side) => Token::Bracket(*side),
        }
    }
}

/// The tokens that a sequence of held tokens stands for.
pub open spec fn views(held: Seq<PExpr>) -> Seq<Token> {
    held.map_values(|t: PExpr| t@)
}

} // verus!
