//! The third stage: the reordered sequence reduced to one number.
//!
//! The sequence is reduced in place. The arithmetic itself is not done here:
//! the caller hands in a function for it, and every statement about a result
//! is made for each arithmetic that this function computes.

use vstd::prelude::*;
use crate::error::ReductionError;
use crate::parser::Parser;
use crate::token::{views, PExpr, POp, Token};

verus! {

/// Arithmetic on numbers in their decimal text: the operator, the left
/// operand and the right operand give the result.
pub type Arithmetic = spec_fn(POp, Seq<char>, Seq<char>) -> Seq<char>;

/// Whether the function handed in returns, on every input, what `f` says.
pub open spec fn computes<F: Fn(POp, &str, &str) -> String>(arith: F, f: Arithmetic) -> bool {
    forall|op: POp, left: &str, right: &str, out: String|
        call_ensures(arith, (op, left, right), out) ==> out@ == f(op, left@, right@)
}

/// Whether the function handed in may be called on every input.
pub open spec fn total<F: Fn(POp, &str, &str) -> String>(arith: F) -> bool {
    forall|op: POp, left: &str, right: &str| call_requires(arith, (op, left, right))
}

/// An arithmetic whose every result is the empty text: it serves where only
/// the course of a reduction matters, not its numbers.
pub open spec fn inert() -> Arithmetic {
    |op: POp, left: Seq<char>, right: Seq<char>| Seq::<char>::empty()
}

/// Whether position `at` holds an operator with a number in each of the two
/// positions before it.
pub open spec fn ready(seq: Seq<Token>, at: int) -> bool {
    &&& 2 <= at < seq.len()
    &&& seq[at] is Operator
    &&& seq[at - 2] is Number
    &&& seq[at - 1] is Number
}

/// The sequence with the operator at `at` and its two operands replaced by
/// the number `text`.
pub open spec fn spliced(seq: Seq<Token>, at: int, text: Seq<char>) -> Seq<Token> {
    seq.subrange(0, at - 2).push(Token::Number(text)) + seq.subrange(at + 1, seq.len() as int)
}

/// The sequence with the operator at `at` applied to its two operands.
pub open spec fn collapsed(f: Arithmetic, seq: Seq<Token>, at: int) -> Seq<Token> {
    spliced(seq, at, f(seq[at]->Operator_0, seq[at - 2]->Number_0, seq[at - 1]->Number_0))
}

/// What the reduction yields from a sequence and a cursor: a single token
/// is the result; the cursor passes what is no operator, and an operator is
/// applied to the two numbers before it, after which the cursor steps back
/// to where the result stands.
pub open spec fn reduce_from(f: Arithmetic, seq: Seq<Token>, cursor: int) -> Result<
    Seq<char>,
    ReductionError,
>
    decreases 2 * seq.len() - cursor,
{
    if seq.len() == 1 {
        match seq[0] {
            Token::Number(text) => Ok(text),
            _ => Err(ReductionError::ExpectedNumber),
        }
    } else if cursor < 0 || cursor >= seq.len() {
        Err(ReductionError::CouldNotResolve)
    } else if seq[cursor] is Operator {
        if ready(seq, cursor) {
            reduce_from(f, collapsed(f, seq, cursor), cursor - 2)
        } else {
            Err(ReductionError::ExpectedNumber)
        }
    } else {
        reduce_from(f, seq, cursor + 1)
    }
}

/// What the reduction of a whole sequence yields: the cursor starts at the
/// third token.
pub open spec fn reduced(f: Arithmetic, seq: Seq<Token>) -> Result<Seq<char>, ReductionError> {
    reduce_from(f, seq, 2)
}

/// The fault of an outcome, if it is one.
pub open spec fn fault_of<T, E>(outcome: Result<T, E>) -> Option<E> {
    match outcome {
        Ok(_) => None,
        Err(e) => Some(e),
    }
}

/// The fault on which the reduction of a sequence ends, if it ends on one.
/// It depends on where numbers, operators and brackets stand, not on what
/// the numbers are.
pub open spec fn reduction_fault(seq: Seq<Token>) -> Option<ReductionError> {
    fault_of(reduced(inert(), seq))
}

/// An outcome with its text taken as characters.
pub open spec fn outcome<E>(r: Result<String, E>) -> Result<Seq<char>, E> {
    match r {
        Ok(text) => Ok(text@),
        Err(e) => Err(e),
    }
}

/// Whether two sequences agree but for what their numbers are.
pub open spec fn alike(a: Seq<Token>, b: Seq<Token>) -> bool {
    &&& a.len() == b.len()
    &&& forall|i: int|
        0 <= i < a.len() ==> if a[i] is Number {
            #[trigger] b[i] is Number
        } else {
            a[i] == b[i]
        }
}

/// The course of a reduction, and so the fault it may end on, is the same
/// for sequences that differ only in their numbers, whatever the arithmetic.
pub proof fn lemma_fault_ignores_numbers(
    f: Arithmetic,
    g: Arithmetic,
    a: Seq<Token>,
    b: Seq<Token>,
    cursor: int,
)
    requires
        alike(a, b),
    ensures
        fault_of(reduce_from(f, a, cursor)) == fault_of(reduce_from(g, b, cursor)),
    decreases 2 * a.len() - cursor,
{
    if a.len() == 1 {
        assert(b[0] is Number == a[0] is Number);
    } else if cursor < 0 || cursor >= a.len() {
    } else {
        assert(b[cursor] is Number == a[cursor] is Number);
        if a[cursor] is Operator {
            assert(b[cursor] == a[cursor]);
            if ready(a, cursor) {
                assert(b[cursor - 2] is Number);
                assert(b[cursor - 1] is Number);
                let a2 = collapsed(f, a, cursor);
                let b2 = collapsed(g, b, cursor);
                assert(alike(a2, b2)) by {
                    assert forall|i: int| 0 <= i < a2.len() implies if a2[i] is Number {
                        #[trigger] b2[i] is Number
                    } else {
                        a2[i] == b2[i]
                    } by {
                        if i < cursor - 2 {
                            assert(b[i] is Number == a[i] is Number);
                        } else if i > cursor - 2 {
                            assert(b[i + 2] is Number == a[i + 2] is Number);
                        }
                    }
                }
                lemma_fault_ignores_numbers(f, g, a2, b2, cursor - 2);
            } else {
                if cursor >= 2 {
                    assert(b[cursor - 2] is Number == a[cursor - 2] is Number);
                    assert(b[cursor - 1] is Number == a[cursor - 1] is Number);
                }
            }
        } else {
            assert(!(b[cursor] is Operator));
            lemma_fault_ignores_numbers(f, g, a, b, cursor + 1);
        }
    }
}

impl Parser {
    /// Applies the operator at `i` to the two numbers before it and puts the
    /// result in the place of the three. What is no operator is left alone.
    pub(crate) fn solve_by_index<F: Fn(POp, &str, &str) -> String>(
        output_queue: &mut Vec<PExpr>,
        i: usize,
        arith: &F,
    ) -> (r: Result<(), ReductionError>)
        requires
            i < old(output_queue).len(),
            total(*arith),
        ensures
            match r {
                Ok(()) => if views(old(output_queue)@)[i as int] is Operator {
                    &&& ready(views(old(output_queue)@), i as int)
                    &&& views(final(output_queue)@) == spliced(
                        views(old(output_queue)@),
                        i as int,
                        views(final(output_queue)@)[i - 2]->Number_0,
                    )
                    &&& forall|f: Arithmetic| #[trigger]
                        computes(*arith, f) ==> views(final(output_queue)@) == collapsed(
                            f,
                            views(old(output_queue)@),
                            i as int,
                        )
                } else {
                    final(output_queue)@ == old(output_queue)@
                },
                Err(e) => {
                    &&& e == ReductionError::ExpectedNumber
                    &&& views(old(output_queue)@)[i as int] is Operator
                    &&& !ready(views(old(output_queue)@), i as int)
                    &&& final(output_queue)@ == old(output_queue)@
                },
            },
    {
        let ghost before = views(output_queue@);
        let operation = match &output_queue[i] {
            PExpr::Op(operation) => *operation,
            _ => {
                return Ok(());
            },
        };
        if i < 2 {
            return Err(ReductionError::ExpectedNumber);
        }
        let result = match &output_queue[i - 2] {
            PExpr::Cons(left) => match &output_queue[i - 1] {
                PExpr::Cons(right) => arith(operation, left.as_str(), right.as_str()),
                _ => {
                    return Err(ReductionError::ExpectedNumber);
                },
            },
            _ => {
                return Err(ReductionError::ExpectedNumber);
            },
        };
        let ghost text = result@;
        output_queue.set(i - 2, PExpr::Cons(result));
        output_queue.remove(i);
        output_queue.remove(i - 1);
        assert(views(output_queue@) =~= spliced(before, i as int, text));
        Ok(())
    }

    /// Reduces a reordered sequence to one number and returns its text.
    ///
    /// The numbers come from `arith`, which is called once for each
    /// operator that is applied.
    pub fn resolve<F: Fn(POp, &str, &str) -> String>(output_queue: Vec<PExpr>, arith: &F) -> (r:
        Result<String, ReductionError>)
        requires
            total(*arith),
        ensures
            fault_of(r) == reduction_fault(views(output_queue@)),
            forall|f: Arithmetic| #[trigger]
                computes(*arith, f) ==> outcome(r) == reduced(f, views(output_queue@)),
    {
        let ghost given = views(output_queue@);
        let mut queue = output_queue;
        let mut i: usize = 2;
        loop
            invariant
                total(*arith),
                given == views(output_queue@),
                fault_of(reduce_from(inert(), views(queue@), i as int)) == reduction_fault(given),
                forall|f: Arithmetic| #[trigger]
                    computes(*arith, f) ==> reduce_from(f, views(queue@), i as int) == reduced(
                        f,
                        given,
                    ),
            decreases 2 * queue.len() - i,
        {
            let ghost seq = views(queue@);
            if queue.len() == 1 {
                let last = Self::take_last(&mut queue);
                return match last {
                    PExpr::Cons(text) => Ok(text),
                    _ => Err(ReductionError::ExpectedNumber),
                };
            }
            if i >= queue.len() {
                return Err(ReductionError::CouldNotResolve);
            }
            assert(seq[i as int] == queue@[i as int]@);
            let at_operator = match &queue[i] {
                PExpr::Op(_) => true,
                _ => false,
            };
            if at_operator {
                match Self::solve_by_index(&mut queue, i, arith) {
                    Err(e) => {
                        return Err(e);
                    },
                    Ok(()) => {
                        proof {
                            let after = views(queue@);
                            assert(alike(collapsed(inert(), seq, i as int), after)) by {
                                let c = collapsed(inert(), seq, i as int);
                                assert forall|j: int| 0 <= j < c.len() implies if c[j] is Number {
                                    #[trigger] after[j] is Number
                                } else {
                                    c[j] == after[j]
                                } by {}
                            }
                            lemma_fault_ignores_numbers(
                                inert(),
                                inert(),
                                collapsed(inert(), seq, i as int),
                                after,
                                i - 2,
                            );
                        }
                        i = i - 2;
                    },
                }
            } else {
                i = i + 1;
            }
        }
    }

    /// Takes the only token out of a sequence of one.
    fn take_last(queue: &mut Vec<PExpr>) -> (last: PExpr)
        requires
            old(queue).len() == 1,
        ensures
            last@ == views(old(queue)@)[0],
    {
        queue.pop().unwrap()
    }
}

} // verus!
