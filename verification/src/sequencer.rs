//! The second stage: tokens reordered by precedence.
//!
//! Each operator is put after its operands; an operator waits on a stack
//! while operators that bind tighter, or as tight, follow it.

use vstd::prelude::*;
use crate::parser::Parser;
use crate::token::{views, BType, PExpr, POp, Token};

verus! {

/// The working state of the reordering: operators that wait, and what has
/// been put out.
pub struct Yard {
    /// The deferred operators and opening brackets, the top last.
    pub stack: Seq<Token>,
    /// The tokens put out so far.
    pub output: Seq<Token>,
}

/// The state before any token is placed.
pub open spec fn empty_yard() -> Yard {
    Yard { stack: Seq::empty(), output: Seq::empty() }
}

/// Whether the top of the stack is an operator that binds strictly tighter
/// than `rank`.
pub open spec fn tighter_on_top(stack: Seq<Token>, rank: int) -> bool {
    stack.len() > 0 && match stack.last() {
        Token::Operator(top) => top.rank() > rank,
        _ => false,
    }
}

/// The state with the top of the stack moved to the output.
pub open spec fn top_put_out(y: Yard) -> Yard {
    Yard { stack: y.stack.drop_last(), output: y.output.push(y.stack.last()) }
}

/// Puts out, top first, the operators on top of the stack that bind
/// strictly tighter than `rank`.
pub open spec fn tighter_put_out(y: Yard, rank: int) -> Yard
    decreases y.stack.len(),
{
    if tighter_on_top(y.stack, rank) {
        tighter_put_out(top_put_out(y), rank)
    } else {
        y
    }
}

/// Puts out the stack, top first, down to the nearest opening bracket, which
/// is dropped; with no opening bracket, the whole stack.
pub open spec fn group_closed(y: Yard) -> Yard
    decreases y.stack.len(),
{
    if y.stack.len() == 0 {
        y
    } else if y.stack.last() == Token::Bracket(BType::Left) {
        Yard { stack: y.stack.drop_last(), output: y.output }
    } else {
        group_closed(top_put_out(y))
    }
}

/// The state after one more token.
pub open spec fn place(y: Yard, t: Token) -> Yard {
    match t {
        Token::Number(_) => Yard { stack: y.stack, output: y.output.push(t) },
        Token::Operator(op) => {
            let z = tighter_put_out(y, op.rank());
            Yard { stack: z.stack.push(t), output: z.output }
        },
        Token::Bracket(BType::Left) => Yard { stack: y.stack.push(t), output: y.output },
        Token::Bracket(BType::Right) => group_closed(y),
    }
}

/// The state after placing `tokens`, one after the other, from state `y`.
pub open spec fn placed(y: Yard, tokens: Seq<Token>) -> Yard
    decreases tokens.len(),
{
    if tokens.len() == 0 {
        y
    } else {
        place(placed(y, tokens.drop_last()), tokens.last())
    }
}

/// The output once the stack has been emptied onto it, top first.
pub open spec fn drained(y: Yard) -> Seq<Token> {
    y.output + y.stack.reverse()
}

/// The tokens reordered by precedence: numbers keep their order, each
/// operator follows its operands, and brackets are gone where they pair up.
pub open spec fn sequenced(tokens: Seq<Token>) -> Seq<Token> {
    drained(placed(empty_yard(), tokens))
}

/// The texts of the numbers among the tokens, in their order.
pub open spec fn numbers_of(tokens: Seq<Token>) -> Seq<Seq<char>>
    decreases tokens.len(),
{
    if tokens.len() == 0 {
        Seq::empty()
    } else {
        let before = numbers_of(tokens.drop_last());
        match tokens.last() {
            Token::Number(text) => before.push(text),
            _ => before,
        }
    }
}

/// Whether no token is a number.
spec fn no_numbers(tokens: Seq<Token>) -> bool {
    forall|i: int| 0 <= i < tokens.len() ==> !((#[trigger] tokens[i]) is Number)
}

/// The numbers of a sequence with one more token.
proof fn lemma_numbers_with(tokens: Seq<Token>, t: Token)
    ensures
        numbers_of(tokens.push(t)) == match t {
            Token::Number(text) => numbers_of(tokens).push(text),
            _ => numbers_of(tokens),
        },
{
    assert(tokens.push(t).drop_last() =~= tokens);
}

/// The numbers of two runs are the numbers of the first and then those of the second.
proof fn lemma_numbers_concat(a: Seq<Token>, b: Seq<Token>)
    ensures
        numbers_of(a + b) == numbers_of(a) + numbers_of(b),
    decreases b.len(),
{
    if b.len() == 0 {
        assert(a + b =~= a);
        assert(numbers_of(a) + numbers_of(b) =~= numbers_of(a));
    } else {
        assert((a + b).drop_last() =~= a + b.drop_last());
        assert((a + b).last() == b.last());
        lemma_numbers_concat(a, b.drop_last());
        let front = numbers_of(a);
        let back = numbers_of(b.drop_last());
        match b.last() {
            Token::Number(text) => {
                assert(front + back.push(text) =~= (front + back).push(text));
            },
            _ => {},
        }
    }
}

/// Where no token is a number, there are no numbers.
proof fn lemma_no_numbers(tokens: Seq<Token>)
    requires
        no_numbers(tokens),
    ensures
        numbers_of(tokens) == Seq::<Seq<char>>::empty(),
    decreases tokens.len(),
{
    if tokens.len() > 0 {
        assert(!(tokens[tokens.len() - 1] is Number));
        lemma_no_numbers(tokens.drop_last());
    }
}

/// Putting tighter operators out moves no number.
proof fn lemma_tighter_put_out_keeps_numbers(y: Yard, rank: int)
    requires
        no_numbers(y.stack),
    ensures
        no_numbers(tighter_put_out(y, rank).stack),
        numbers_of(tighter_put_out(y, rank).output) == numbers_of(y.output),
    decreases y.stack.len(),
{
    if tighter_on_top(y.stack, rank) {
        lemma_numbers_with(y.output, y.stack.last());
        lemma_tighter_put_out_keeps_numbers(top_put_out(y), rank);
    }
}

/// Closing a group moves no number.
proof fn lemma_group_closed_keeps_numbers(y: Yard)
    requires
        no_numbers(y.stack),
    ensures
        no_numbers(group_closed(y).stack),
        numbers_of(group_closed(y).output) == numbers_of(y.output),
    decreases y.stack.len(),
{
    if y.stack.len() > 0 && y.stack.last() != Token::Bracket(BType::Left) {
        assert(!(y.stack[y.stack.len() - 1] is Number));
        lemma_numbers_with(y.output, y.stack.last());
        lemma_group_closed_keeps_numbers(top_put_out(y));
    }
}

/// Placing tokens adds their numbers to the output in order, and none to the stack.
proof fn lemma_placed_keeps_numbers(y: Yard, tokens: Seq<Token>)
    requires
        no_numbers(y.stack),
    ensures
        no_numbers(placed(y, tokens).stack),
        numbers_of(placed(y, tokens).output) == numbers_of(y.output) + numbers_of(tokens),
    decreases tokens.len(),
{
    if tokens.len() == 0 {
        assert(numbers_of(y.output) + numbers_of(tokens) =~= numbers_of(y.output));
    } else {
        lemma_placed_keeps_numbers(y, tokens.drop_last());
        let before = placed(y, tokens.drop_last());
        let t = tokens.last();
        let front = numbers_of(y.output);
        let back = numbers_of(tokens.drop_last());
        match t {
            Token::Number(text) => {
                lemma_numbers_with(before.output, t);
                assert(front + back.push(text) =~= (front + back).push(text));
            },
            Token::Operator(op) => {
                lemma_tighter_put_out_keeps_numbers(before, op.rank());
            },
            Token::Bracket(BType::Left) => {},
            Token::Bracket(BType::Right) => {
                lemma_group_closed_keeps_numbers(before);
            },
        }
    }
}

/// Reordering moves operators only: the numbers come out in the order in
/// which they went in.
pub proof fn lemma_sequenced_keeps_numbers(tokens: Seq<Token>)
    ensures
        numbers_of(sequenced(tokens)) == numbers_of(tokens),
{
    lemma_placed_keeps_numbers(empty_yard(), tokens);
    let y = placed(empty_yard(), tokens);
    lemma_numbers_concat(y.output, y.stack.reverse());
    assert(no_numbers(y.stack.reverse()));
    lemma_no_numbers(y.stack.reverse());
    assert(numbers_of(empty_yard().output) + numbers_of(tokens) =~= numbers_of(tokens));
    assert(numbers_of(y.output) + numbers_of(y.stack.reverse()) =~= numbers_of(y.output));
}

impl Parser {
    /// Takes the top off a stack.
    fn take_top(stack: &mut Vec<PExpr>) -> (top: PExpr)
        requires
            old(stack).len() > 0,
        ensures
            views(final(stack)@) == views(old(stack)@).drop_last(),
            top@ == views(old(stack)@).last(),
            final(stack).len() == old(stack).len() - 1,
    {
        let top = stack.pop().unwrap();
        assert(views(stack@) =~= views(old(stack)@).drop_last());
        top
    }

    /// Whether the top of the stack is an operator that binds strictly
    /// tighter than `operation`.
    fn yields_to(stack: &Vec<PExpr>, operation: POp) -> (b: bool)
        ensures
            b == tighter_on_top(views(stack@), operation.rank()),
    {
        if stack.len() == 0 {
            return false;
        }
        assert(views(stack@).last() == stack@.last()@);
        match &stack[stack.len() - 1] {
            PExpr::Op(last_op) => last_op.order() > operation.order(),
            _ => false,
        }
    }

    /// Reorders the tokens by operator precedence.
    ///
    /// An operator waits on a stack until an operator that binds less
    /// tightly, a closing bracket or the end of the input puts it out.
    pub fn shunting(list: Vec<PExpr>) -> (output_queue: Vec<PExpr>)
        ensures
            views(output_queue@) == sequenced(views(list@)),
    {
        let ghost held = list@;
        let ghost tokens = views(list@);
        let mut operation_stack: Vec<PExpr> = Vec::new();
        let mut output_queue: Vec<PExpr> = Vec::new();
        assert(views(operation_stack@) =~= Seq::<Token>::empty());
        assert(views(output_queue@) =~= Seq::<Token>::empty());
        for token in it: list
            invariant
                it.seq() == held,
                tokens == views(held),
                placed(empty_yard(), tokens.take(it.index() as int)) == (Yard {
                    stack: views(operation_stack@),
                    output: views(output_queue@),
                }),
        {
            let ghost k = it.index() as int;
            let ghost before = Yard {
                stack: views(operation_stack@),
                output: views(output_queue@),
            };
            proof {
                assert(tokens.take(k + 1).drop_last() =~= tokens.take(k));
                assert(tokens.take(k + 1).last() == token@);
            }
            match token {
                PExpr::Cons(text) => {
                    Self::append(&mut output_queue, PExpr::Cons(text));
                },
                PExpr::Op(operation) => {
                    let ghost target = tighter_put_out(before, operation.rank());
                    let mut yields = Self::yields_to(&operation_stack, operation);
                    while yields
                        invariant
                            yields == tighter_on_top(views(operation_stack@), operation.rank()),
                            tighter_put_out(
                                Yard {
                                    stack: views(operation_stack@),
                                    output: views(output_queue@),
                                },
                                operation.rank(),
                            ) == target,
                        decreases operation_stack.len(),
                    {
                        let top = Self::take_top(&mut operation_stack);
                        Self::append(&mut output_queue, top);
                        yields = Self::yields_to(&operation_stack, operation);
                    }
                    Self::append(&mut operation_stack, PExpr::Op(operation));
                },
                PExpr::Bracket(BType::Left) => {
                    Self::append(&mut operation_stack, PExpr::Bracket(BType::Left));
                },
                PExpr::Bracket(BType::Right) => {
                    let ghost target = group_closed(before);
                    let mut found = false;
                    while !found && operation_stack.len() > 0
                        invariant
                            target == if found {
                                Yard {
                                    stack: views(operation_stack@),
                                    output: views(output_queue@),
                                }
                            } else {
                                group_closed(
                                    Yard {
                                        stack: views(operation_stack@),
                                        output: views(output_queue@),
                                    },
                                )
                            },
                        decreases operation_stack.len() + if found { 0int } else { 1int },
                    {
                        let top = Self::take_top(&mut operation_stack);
                        match top {
                            PExpr::Bracket(BType::Left) => {
                                found = true;
                            },
                            other => {
                                Self::append(&mut output_queue, other);
                            },
                        }
                    }
                },
            }
            assert(place(before, token@) == (Yard {
                stack: views(operation_stack@),
                output: views(output_queue@),
            }));
        }
        assert(tokens.take(tokens.len() as int) =~= tokens);
        let ghost settled = Yard { stack: views(operation_stack@), output: views(output_queue@) };
        while operation_stack.len() > 0
            invariant
                views(output_queue@) + views(operation_stack@).reverse() == drained(settled),
            decreases operation_stack.len(),
        {
            let ghost stack = views(operation_stack@);
            let ghost output = views(output_queue@);
            let top = Self::take_top(&mut operation_stack);
            Self::append(&mut output_queue, top);
            assert(output.push(stack.last()) + stack.drop_last().reverse() =~= output
                + stack.reverse());
        }
        assert(views(output_queue@) + views(operation_stack@).reverse() =~= views(
            output_queue@,
        ));
        output_queue
    }
}

} // verus!
