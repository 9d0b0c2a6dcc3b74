//! Expressions as trees, and what their evaluation comes to.
//!
//! The three stages work on flat sequences. Here an expression is a tree, and
//! the stages are shown to yield the value of that tree, with operators of
//! equal rank grouped from the right.

use vstd::prelude::*;
use crate::error::{EvaluationError, ReductionError, SyntaxError};
use crate::parser::evaluated;
use crate::resolver::{collapsed, ready, reduce_from, reduced, Arithmetic};
use crate::sequencer::{
    empty_yard, group_closed, place, placed, sequenced, tighter_on_top, tighter_put_out, Yard,
};
use crate::text::{in_literal, is_literal};
use crate::token::{BType, POp, Token};
use crate::tokenizer::{
    flushed, lemma_implicit_multiplication, lemma_literal_pending, lemma_scanned_concat,
    lemma_space_between_tokens, lemma_unary_minus, nothing_stands_before, read_char, scanned,
    start, tokenized, value_may_follow, value_stands_before, Scan,
};

verus! {

/// An arithmetic expression as a tree: a number literal, an expression in
/// brackets, or two expressions joined by an operator.
pub enum Expr {
    Literal(Seq<char>),
    Group(Box<Expr>),
    Binary(Box<Expr>, POp, Box<Expr>),
}

/// How tightly the outermost construct of an expression binds: the rank of
/// its operator, and more than any operator for a literal or a group.
pub open spec fn level(e: Expr) -> int {
    match e {
        Expr::Binary(_, op, _) => op.rank(),
        _ => 3,
    }
}

/// The tokens of an expression in the order in which they are written.
pub open spec fn tokens_of(e: Expr) -> Seq<Token>
    decreases e,
{
    match e {
        Expr::Literal(text) => seq![Token::Number(text)],
        Expr::Group(inner) => seq![Token::Bracket(BType::Left)] + tokens_of(*inner)
            + seq![Token::Bracket(BType::Right)],
        Expr::Binary(left, op, right) => tokens_of(*left) + seq![Token::Operator(op)] + tokens_of(
            *right,
        ),
    }
}

/// The tokens of an expression with each operator after its two operands,
/// and no brackets.
pub open spec fn postfix_of(e: Expr) -> Seq<Token>
    decreases e,
{
    match e {
        Expr::Literal(text) => seq![Token::Number(text)],
        Expr::Group(inner) => postfix_of(*inner),
        Expr::Binary(left, op, right) => postfix_of(*left) + postfix_of(*right)
            + seq![Token::Operator(op)],
    }
}

/// The number that an expression comes to under an arithmetic.
pub open spec fn value_of(e: Expr, f: Arithmetic) -> Seq<char>
    decreases e,
{
    match e {
        Expr::Literal(text) => text,
        Expr::Group(inner) => value_of(*inner, f),
        Expr::Binary(left, op, right) => f(op, value_of(*left, f), value_of(*right, f)),
    }
}

/// Whether the tree is the standard reading of its tokens: an operator's
/// operands bind at least as tightly as it does, and operators of equal
/// rank group from the left.
pub open spec fn standard(e: Expr) -> bool
    decreases e,
{
    match e {
        Expr::Literal(_) => true,
        Expr::Group(inner) => standard(*inner),
        Expr::Binary(left, op, right) => {
            &&& standard(*left)
            &&& standard(*right)
            &&& level(*left) >= op.rank()
            &&& level(*right) > op.rank()
        },
    }
}

/// Whether the tree reads its tokens with operators of equal rank grouped
/// from the right.
pub open spec fn right_grouped(e: Expr) -> bool
    decreases e,
{
    match e {
        Expr::Literal(_) => true,
        Expr::Group(inner) => right_grouped(*inner),
        Expr::Binary(left, op, right) => {
            &&& right_grouped(*left)
            &&& right_grouped(*right)
            &&& level(*left) > op.rank()
            &&& level(*right) >= op.rank()
        },
    }
}

/// `left op right`, with `op` handed down the right edge of `left` past the
/// operators of its own rank.
pub open spec fn joined(left: Expr, op: POp, right: Expr) -> Expr
    decreases left,
{
    match left {
        Expr::Binary(a, first, b) => if first.rank() == op.rank() {
            Expr::Binary(a, first, Box::new(joined(*b, op, right)))
        } else {
            Expr::Binary(Box::new(left), op, Box::new(right))
        },
        _ => Expr::Binary(Box::new(left), op, Box::new(right)),
    }
}

/// The tree with the same tokens in which operators of equal rank group
/// from the right: `a - b - c` becomes `a - (b - c)`, without the brackets.
pub open spec fn regrouped(e: Expr) -> Expr
    decreases e,
{
    match e {
        Expr::Literal(_) => e,
        Expr::Group(inner) => Expr::Group(Box::new(regrouped(*inner))),
        Expr::Binary(left, op, right) => joined(regrouped(*left), op, regrouped(*right)),
    }
}

/// The operators of an expression that still wait on the stack when its
/// last token has been placed: those down its right edge.
spec fn waiting_of(e: Expr) -> Seq<Token>
    decreases e,
{
    match e {
        Expr::Binary(_, op, right) => seq![Token::Operator(op)] + waiting_of(*right),
        _ => Seq::empty(),
    }
}

/// What has been put out when the last token of an expression has been
/// placed.
spec fn put_out_of(e: Expr) -> Seq<Token>
    decreases e,
{
    match e {
        Expr::Literal(text) => seq![Token::Number(text)],
        Expr::Group(inner) => postfix_of(*inner),
        Expr::Binary(left, _, right) => postfix_of(*left) + put_out_of(*right),
    }
}

/// Whether every token is an operator that binds strictly tighter than
/// `rank`.
spec fn all_tighter(tokens: Seq<Token>, rank: int) -> bool {
    forall|i: int|
        0 <= i < tokens.len() ==> (#[trigger] tokens[i]) is Operator
            && tokens[i]->Operator_0.rank() > rank
}

/// Whether every token is an operator.
spec fn all_operators(tokens: Seq<Token>) -> bool {
    forall|i: int| 0 <= i < tokens.len() ==> (#[trigger] tokens[i]) is Operator
}

/// Whether every token is a number.
spec fn all_numbers(tokens: Seq<Token>) -> bool {
    forall|i: int| 0 <= i < tokens.len() ==> (#[trigger] tokens[i]) is Number
}

/// Placing two runs of tokens one after the other is placing their
/// concatenation.
pub proof fn lemma_placed_concat(y: Yard, a: Seq<Token>, b: Seq<Token>)
    ensures
        placed(y, a + b) == placed(placed(y, a), b),
    decreases b.len(),
{
    if b.len() == 0 {
        assert(a + b =~= a);
    } else {
        assert((a + b).drop_last() =~= a + b.drop_last());
        assert((a + b).last() == b.last());
        lemma_placed_concat(y, a, b.drop_last());
    }
}

/// Placing a single token is one step.
proof fn lemma_placed_one(y: Yard, t: Token)
    ensures
        placed(y, seq![t]) == place(y, t),
{
    assert(seq![t].drop_last() =~= Seq::<Token>::empty());
    assert(placed(y, seq![t].drop_last()) == y);
}

/// Placing a run and then one more token is placing the run with that token at its end.
proof fn lemma_placed_last(y: Yard, a: Seq<Token>, t: Token)
    ensures
        placed(y, a + seq![t]) == place(placed(y, a), t),
{
    lemma_placed_concat(y, a, seq![t]);
    lemma_placed_one(placed(y, a), t);
}

/// Operators that all bind tighter than `rank`, on top of a stack whose top does not,
/// are put out top first, and the stack below them stays.
proof fn lemma_tighter_put_out(
    stack: Seq<Token>,
    waiting: Seq<Token>,
    output: Seq<Token>,
    rank: int,
)
    requires
        !tighter_on_top(stack, rank),
        all_tighter(waiting, rank),
    ensures
        tighter_put_out(Yard { stack: stack + waiting, output }, rank) == (Yard {
            stack,
            output: output + waiting.reverse(),
        }),
    decreases waiting.len(),
{
    if waiting.len() == 0 {
        assert(stack + waiting =~= stack);
        assert(output + waiting.reverse() =~= output);
    } else {
        let top = waiting.last();
        assert((stack + waiting).last() == top);
        assert((stack + waiting).drop_last() =~= stack + waiting.drop_last());
        lemma_tighter_put_out(stack, waiting.drop_last(), output.push(top), rank);
        assert(output.push(top) + waiting.drop_last().reverse() =~= output + waiting.reverse());
    }
}

/// Operators above an opening bracket are put out top first when the group closes,
/// and the bracket goes with them.
proof fn lemma_group_closed(stack: Seq<Token>, waiting: Seq<Token>, output: Seq<Token>)
    requires
        all_operators(waiting),
    ensures
        group_closed(
            Yard { stack: stack.push(Token::Bracket(BType::Left)) + waiting, output },
        ) == (Yard { stack, output: output + waiting.reverse() }),
    decreases waiting.len(),
{
    let base = stack.push(Token::Bracket(BType::Left));
    if waiting.len() == 0 {
        assert(base + waiting =~= base);
        assert(base.drop_last() =~= stack);
        assert(output + waiting.reverse() =~= output);
    } else {
        let top = waiting.last();
        assert((base + waiting).last() == top);
        assert((base + waiting).drop_last() =~= base + waiting.drop_last());
        lemma_group_closed(stack, waiting.drop_last(), output.push(top));
        assert(output.push(top) + waiting.drop_last().reverse() =~= output + waiting.reverse());
    }
}

/// What waits after an expression is operators only, none of them binding less
/// tightly than the expression itself where equal ranks group from the right.
proof fn lemma_waiting(e: Expr)
    ensures
        all_operators(waiting_of(e)),
        right_grouped(e) ==> forall|i: int|
            0 <= i < waiting_of(e).len() ==> (#[trigger] waiting_of(e)[i])->Operator_0.rank()
                >= level(e),
    decreases e,
{
    match e {
        Expr::Binary(left, op, right) => {
            lemma_waiting(*right);
            let w = waiting_of(e);
            let wr = waiting_of(*right);
            assert forall|i: int| 0 <= i < w.len() implies (#[trigger] w[i]) is Operator by {
                if i > 0 {
                    assert(w[i] == wr[i - 1]);
                }
            }
            if right_grouped(e) {
                assert forall|i: int| 0 <= i < w.len() implies (#[trigger] w[i])->Operator_0.rank()
                    >= level(e) by {
                    if i > 0 {
                        assert(w[i] == wr[i - 1]);
                    }
                }
            }
        },
        _ => {},
    }
}

/// What an expression has put out, followed by what still waits, top first, is the
/// expression with each operator after its operands.
proof fn lemma_put_out(e: Expr)
    ensures
        put_out_of(e) + waiting_of(e).reverse() == postfix_of(e),
    decreases e,
{
    match e {
        Expr::Literal(text) => {
            assert(put_out_of(e) + waiting_of(e).reverse() =~= postfix_of(e));
        },
        Expr::Group(inner) => {
            assert(put_out_of(e) + waiting_of(e).reverse() =~= postfix_of(e));
        },
        Expr::Binary(left, op, right) => {
            lemma_put_out(*right);
            let o = seq![Token::Operator(op)];
            let w = waiting_of(*right);
            assert((o + w).reverse() =~= w.reverse() + o);
            assert((postfix_of(*left) + put_out_of(*right)) + (w.reverse() + o) =~= postfix_of(
                *left,
            ) + (put_out_of(*right) + w.reverse()) + o);
        },
    }
}

/// Placing the tokens of an expression adds its waiting operators to the stack and
/// what it puts out to the output, where the top of the stack does not bind
/// tighter than the expression.
proof fn lemma_placed_tree(e: Expr, y: Yard)
    requires
        right_grouped(e),
        !tighter_on_top(y.stack, level(e)),
    ensures
        placed(y, tokens_of(e)) == (Yard {
            stack: y.stack + waiting_of(e),
            output: y.output + put_out_of(e),
        }),
    decreases e,
{
    match e {
        Expr::Literal(text) => {
            lemma_placed_one(y, Token::Number(text));
            assert(y.stack + waiting_of(e) =~= y.stack);
            assert(y.output + put_out_of(e) =~= y.output.push(Token::Number(text)));
        },
        Expr::Group(inner) => {
            let open = Token::Bracket(BType::Left);
            let close = Token::Bracket(BType::Right);
            let inside = tokens_of(*inner);
            lemma_placed_last(y, seq![open] + inside, close);
            lemma_placed_concat(y, seq![open], inside);
            lemma_placed_one(y, open);
            let y1 = Yard { stack: y.stack.push(open), output: y.output };
            assert(place(y, open) == y1);
            lemma_placed_tree(*inner, y1);
            lemma_waiting(*inner);
            lemma_group_closed(y.stack, waiting_of(*inner), y.output + put_out_of(*inner));
            lemma_put_out(*inner);
            assert(y.output + put_out_of(*inner) + waiting_of(*inner).reverse() =~= y.output + (
            put_out_of(*inner) + waiting_of(*inner).reverse()));
            assert(y.stack + waiting_of(e) =~= y.stack);
        },
        Expr::Binary(left, op, right) => {
            let t = Token::Operator(op);
            let tl = tokens_of(*left);
            let tr = tokens_of(*right);
            lemma_placed_concat(y, tl + seq![t], tr);
            lemma_placed_last(y, tl, t);
            lemma_placed_tree(*left, y);
            let y1 = Yard {
                stack: y.stack + waiting_of(*left),
                output: y.output + put_out_of(*left),
            };
            lemma_waiting(*left);
            assert(all_tighter(waiting_of(*left), op.rank()));
            lemma_tighter_put_out(y.stack, waiting_of(*left), y1.output, op.rank());
            lemma_put_out(*left);
            assert(y.output + put_out_of(*left) + waiting_of(*left).reverse() =~= y.output + (
            put_out_of(*left) + waiting_of(*left).reverse()));
            let y2 = Yard { stack: y.stack.push(t), output: y.output + postfix_of(*left) };
            assert(place(y1, t) == y2);
            lemma_placed_tree(*right, y2);
            assert(y2.stack + waiting_of(*right) =~= y.stack + waiting_of(e));
            assert(y2.output + put_out_of(*right) =~= y.output + put_out_of(e));
        },
    }
}

/// Reordered, the tokens of a tree that groups equal ranks from the right
/// are the tree's operands, each followed by its operator.
pub proof fn lemma_sequenced_tree(e: Expr)
    requires
        right_grouped(e),
    ensures
        sequenced(tokens_of(e)) == postfix_of(e),
{
    lemma_placed_tree(e, empty_yard());
    lemma_put_out(e);
    let y = placed(empty_yard(), tokens_of(e));
    assert(y.output =~= put_out_of(e));
    assert(y.stack =~= waiting_of(e));
}

/// The cursor passes over what is no operator without effect.
proof fn lemma_cursor_passes(f: Arithmetic, seq: Seq<Token>, from: int, to: int)
    requires
        0 <= from <= to <= seq.len(),
        forall|i: int| from <= i < to ==> !((#[trigger] seq[i]) is Operator),
    ensures
        reduce_from(f, seq, from) == reduce_from(f, seq, to),
    decreases to - from,
{
    if from < to && seq.len() != 1 {
        assert(!(seq[from] is Operator));
        lemma_cursor_passes(f, seq, from + 1, to);
    }
}

/// An operand between numbers that are done and tokens still to come is reduced to
/// its value, and the cursor is then no further than the value.
proof fn lemma_operand_reduced(
    f: Arithmetic,
    e: Expr,
    before: Seq<Token>,
    after: Seq<Token>,
    cursor: int,
) -> (next: int)
    requires
        all_numbers(before),
        0 <= cursor <= before.len(),
    ensures
        0 <= next <= before.len(),
        reduce_from(f, before + postfix_of(e) + after, cursor) == reduce_from(
            f,
            before.push(Token::Number(value_of(e, f))) + after,
            next,
        ),
    decreases e,
{
    match e {
        Expr::Literal(text) => {
            assert(before + postfix_of(e) + after =~= before.push(Token::Number(text)) + after);
            cursor
        },
        Expr::Group(inner) => lemma_operand_reduced(f, *inner, before, after, cursor),
        Expr::Binary(left, op, right) => {
            let pl = postfix_of(*left);
            let pr = postfix_of(*right);
            let o = seq![Token::Operator(op)];
            let vl = value_of(*left, f);
            let vr = value_of(*right, f);
            let v = f(op, vl, vr);
            let a1 = pr + o + after;
            assert(before + postfix_of(e) + after =~= before + pl + a1);
            let c1 = lemma_operand_reduced(f, *left, before, a1, cursor);
            let b2 = before.push(Token::Number(vl));
            let a2 = o + after;
            assert(b2 + a1 =~= b2 + pr + a2);
            let c2 = lemma_operand_reduced(f, *right, b2, a2, c1);
            let seq2 = b2.push(Token::Number(vr)) + a2;
            let at: int = before.len() as int + 2;
            assert(seq2[at] == Token::Operator(op));
            assert(seq2[at - 1] == Token::Number(vr));
            assert(seq2[at - 2] == Token::Number(vl));
            assert forall|i: int| c2 <= i < at implies !((#[trigger] seq2[i]) is Operator) by {
                if i < before.len() {
                    assert(seq2[i] == before[i]);
                }
            }
            lemma_cursor_passes(f, seq2, c2, at);
            assert(ready(seq2, at));
            assert(collapsed(f, seq2, at) =~= before.push(Token::Number(v)) + after);
            before.len() as int
        },
    }
}

/// With each operator after its operands, an expression starts with a number, and
/// with two where it has an operator at all.
proof fn lemma_postfix_head(e: Expr)
    ensures
        postfix_of(e).len() >= 1,
        postfix_of(e)[0] is Number,
        postfix_of(e).len() >= 2 ==> postfix_of(e).len() >= 3 && postfix_of(e)[1] is Number,
    decreases e,
{
    match e {
        Expr::Literal(_) => {},
        Expr::Group(inner) => {
            lemma_postfix_head(*inner);
        },
        Expr::Binary(left, op, right) => {
            lemma_postfix_head(*left);
            lemma_postfix_head(*right);
            let pl = postfix_of(*left);
            let pr = postfix_of(*right);
            let p = postfix_of(e);
            assert(p[0] == pl[0]);
            if pl.len() >= 2 {
                assert(p[1] == pl[1]);
            } else {
                assert(p[1] == pr[0]);
            }
        },
    }
}

/// Reduced, the operands of a tree, each followed by its operator, come to
/// the tree's value.
pub proof fn lemma_reduced_tree(e: Expr, f: Arithmetic)
    ensures
        reduced(f, postfix_of(e)) == Ok::<Seq<char>, ReductionError>(value_of(e, f)),
{
    let p = postfix_of(e);
    let none = Seq::<Token>::empty();
    let next = lemma_operand_reduced(f, e, none, none, 0);
    assert(none + p + none =~= p);
    let single = none.push(Token::Number(value_of(e, f))) + none;
    assert(single.len() == 1);
    assert(single[0] == Token::Number(value_of(e, f)));
    lemma_postfix_head(e);
    if p.len() >= 2 {
        lemma_cursor_passes(f, p, 0, 2);
    }
}

/// Joining keeps the tokens, has the rank of the joining operator, and keeps equal
/// ranks grouped from the right.
proof fn lemma_joined(left: Expr, op: POp, right: Expr)
    ensures
        tokens_of(joined(left, op, right)) == tokens_of(left) + seq![Token::Operator(op)]
            + tokens_of(right),
        level(joined(left, op, right)) == op.rank(),
        right_grouped(left) && right_grouped(right) && level(left) >= op.rank() && level(right)
            > op.rank() ==> right_grouped(joined(left, op, right)),
    decreases left,
{
    match left {
        Expr::Binary(a, first, b) => {
            if first.rank() == op.rank() {
                lemma_joined(*b, op, right);
                let t = seq![Token::Operator(op)];
                let u = seq![Token::Operator(first)];
                assert(tokens_of(*a) + u + (tokens_of(*b) + t + tokens_of(right)) =~= (tokens_of(
                    *a,
                ) + u + tokens_of(*b)) + t + tokens_of(right));
            }
        },
        _ => {},
    }
}

/// Regrouping keeps the tokens and the outermost rank, and turns the
/// standard reading into the one that groups equal ranks from the right.
pub proof fn lemma_regrouped(e: Expr)
    ensures
        tokens_of(regrouped(e)) == tokens_of(e),
        level(regrouped(e)) == level(e),
        standard(e) ==> right_grouped(regrouped(e)),
    decreases e,
{
    match e {
        Expr::Literal(_) => {},
        Expr::Group(inner) => {
            lemma_regrouped(*inner);
        },
        Expr::Binary(left, op, right) => {
            lemma_regrouped(*left);
            lemma_regrouped(*right);
            lemma_joined(regrouped(*left), op, regrouped(*right));
        },
    }
}

/// Where no two operators of equal rank stand side by side, there is
/// nothing to regroup.
pub proof fn lemma_regrouped_same(e: Expr)
    requires
        standard(e),
        right_grouped(e),
    ensures
        regrouped(e) == e,
    decreases e,
{
    match e {
        Expr::Literal(_) => {},
        Expr::Group(inner) => {
            lemma_regrouped_same(*inner);
        },
        Expr::Binary(left, op, right) => {
            lemma_regrouped_same(*left);
            lemma_regrouped_same(*right);
        },
    }
}

/// The character that writes an operator.
pub open spec fn symbol(op: POp) -> char {
    match op {
        POp::Add => '+',
        POp::Sub => '-',
        POp::Mul => '*',
        POp::Div => '/',
    }
}

/// The expression written out, without spaces.
pub open spec fn written_of(e: Expr) -> Seq<char>
    decreases e,
{
    match e {
        Expr::Literal(text) => text,
        Expr::Group(inner) => seq!['('] + written_of(*inner) + seq![')'],
        Expr::Binary(left, op, right) => written_of(*left) + seq![symbol(op)] + written_of(*right),
    }
}

/// Whether the last token of the expression is a closing bracket.
pub open spec fn closes_last(e: Expr) -> bool
    decreases e,
{
    match e {
        Expr::Literal(_) => false,
        Expr::Group(_) => true,
        Expr::Binary(_, _, right) => closes_last(*right),
    }
}

/// Whether the expression can be written for the tokenizer: its literals
/// are plain, and no group ends on a group, since a closing bracket may not
/// directly follow another.
pub open spec fn plainly_written(e: Expr) -> bool
    decreases e,
{
    match e {
        Expr::Literal(text) => is_literal(text),
        Expr::Group(inner) => plainly_written(*inner) && !closes_last(*inner),
        Expr::Binary(left, _, right) => plainly_written(*left) && plainly_written(*right),
    }
}

/// The last token of an expression is a closing bracket or a number.
proof fn lemma_tokens_last(e: Expr)
    ensures
        tokens_of(e).len() > 0,
        if closes_last(e) {
            tokens_of(e).last() == Token::Bracket(BType::Right)
        } else {
            tokens_of(e).last() is Number
        },
    decreases e,
{
    match e {
        Expr::Literal(_) => {},
        Expr::Group(inner) => {},
        Expr::Binary(left, op, right) => {
            lemma_tokens_last(*right);
            assert(tokens_of(e).last() == tokens_of(*right).last());
        },
    }
}

/// Reading a single character is one step.
proof fn lemma_scanned_one(s: Scan, c: char)
    ensures
        scanned(s, seq![c]) == read_char(s, c),
{
    assert(seq![c].drop_last() =~= Seq::<char>::empty());
    assert(scanned(s, seq![c].drop_last()) == Ok::<Scan, SyntaxError>(s));
}

/// Reading a text and then one more character is reading the text with that
/// character at its end.
proof fn lemma_scanned_last(s: Scan, a: Seq<char>, c: char)
    ensures
        scanned(s, a + seq![c]) == match scanned(s, a) {
            Err(e) => Err(e),
            Ok(m) => read_char(m, c),
        },
{
    assert((a + seq![c]).drop_last() =~= a);
    assert((a + seq![c]).last() == c);
}

/// Read where a value may stand, a written expression adds its own tokens, the last
/// of them at the latest once the pending literal is flushed, and leaves the
/// bracket count as it was.
proof fn lemma_written_scanned(e: Expr, s: Scan)
    requires
        plainly_written(e),
        s.expr.len() == 0,
        value_may_follow(s.list),
    ensures
        match scanned(s, written_of(e)) {
            Ok(m) => flushed(m).list == s.list + tokens_of(e) && m.depth == s.depth,
            Err(_) => false,
        },
    decreases e,
{
    match e {
        Expr::Literal(text) => {
            lemma_literal_pending(s, text, text.len() as int);
            assert(text.take(text.len() as int) =~= text);
            assert(s.list.push(Token::Number(text)) =~= s.list + tokens_of(e));
        },
        Expr::Group(inner) => {
            let open = Token::Bracket(BType::Left);
            let close = Token::Bracket(BType::Right);
            let wg = written_of(*inner);
            lemma_scanned_last(s, seq!['('] + wg, ')');
            lemma_scanned_concat(s, seq!['('], wg);
            lemma_scanned_one(s, '(');
            let s1 = Scan { list: s.list.push(open), expr: Seq::empty(), depth: s.depth + 1 };
            assert(read_char(s, '(') == Ok::<Scan, SyntaxError>(s1));
            lemma_written_scanned(*inner, s1);
            let m1 = scanned(s1, wg)->Ok_0;
            lemma_tokens_last(*inner);
            let f1 = flushed(m1);
            assert(f1.list.last() == tokens_of(*inner).last());
            let s2 = Scan { list: f1.list.push(close), expr: Seq::empty(), depth: s.depth };
            assert(read_char(m1, ')') == Ok::<Scan, SyntaxError>(s2));
            assert(flushed(s2).list =~= s.list + tokens_of(e));
        },
        Expr::Binary(left, op, right) => {
            let wl = written_of(*left);
            let wr = written_of(*right);
            let c = symbol(op);
            lemma_written_scanned(*left, s);
            let m1 = scanned(s, wl)->Ok_0;
            lemma_tokens_last(*left);
            let f1 = flushed(m1);
            assert(f1.list.last() == tokens_of(*left).last());
            let s2 = Scan {
                list: f1.list.push(Token::Operator(op)),
                expr: Seq::empty(),
                depth: s.depth,
            };
            assert(read_char(m1, c) == Ok::<Scan, SyntaxError>(s2));
            lemma_scanned_last(s, wl, c);
            lemma_scanned_concat(s, wl + seq![c], wr);
            lemma_written_scanned(*right, s2);
            let m2 = scanned(s2, wr)->Ok_0;
            assert(flushed(m2).list =~= s.list + tokens_of(e));
        },
    }
}

/// Written out without spaces, an expression reads as its own tokens.
pub proof fn lemma_written_tokenized(e: Expr)
    requires
        plainly_written(e),
    ensures
        tokenized(written_of(e)) == Ok::<Seq<Token>, SyntaxError>(tokens_of(e)),
{
    lemma_written_scanned(e, start());
    let m = scanned(start(), written_of(e))->Ok_0;
    assert(flushed(m).list =~= tokens_of(e));
}

/// An expression evaluates to the value of its tree with operators of equal
/// rank grouped from the right: for every tree in the standard reading,
/// and every text that has the tree's tokens, the evaluation ends on no
/// fault and yields the value of the regrouped tree.
pub proof fn lemma_evaluation_regroups(text: Seq<char>, e: Expr, f: Arithmetic)
    requires
        standard(e),
        tokenized(text) == Ok::<Seq<Token>, SyntaxError>(tokens_of(e)),
    ensures
        evaluated(text, f) == Ok::<Seq<char>, EvaluationError>(value_of(regrouped(e), f)),
{
    lemma_regrouped(e);
    lemma_sequenced_tree(regrouped(e));
    lemma_reduced_tree(regrouped(e), f);
}

/// An expression evaluates to the value that standard precedence and
/// grouping from the left give it, for every tree in the standard reading
/// whose value does not change when operators of equal rank are grouped
/// from the right instead, and every text that has the tree's tokens.
pub proof fn lemma_evaluation_standard(text: Seq<char>, e: Expr, f: Arithmetic)
    requires
        standard(e),
        tokenized(text) == Ok::<Seq<Token>, SyntaxError>(tokens_of(e)),
        value_of(regrouped(e), f) == value_of(e, f),
    ensures
        evaluated(text, f) == Ok::<Seq<char>, EvaluationError>(value_of(e, f)),
{
    lemma_evaluation_regroups(text, e, f);
}

/// Written out, an expression of literals, the four operators and brackets
/// evaluates to the value of its tree with operators of equal rank grouped
/// from the right; this is the value that standard precedence and grouping
/// from the left give it wherever the two groupings come to the same.
pub proof fn lemma_written_evaluation(e: Expr, f: Arithmetic)
    requires
        standard(e),
        plainly_written(e),
    ensures
        evaluated(written_of(e), f) == Ok::<Seq<char>, EvaluationError>(
            value_of(regrouped(e), f),
        ),
        value_of(regrouped(e), f) == value_of(e, f) ==> evaluated(written_of(e), f) == Ok::<
            Seq<char>,
            EvaluationError,
        >(value_of(e, f)),
{
    lemma_written_tokenized(e);
    lemma_evaluation_regroups(written_of(e), e, f);
}

/// Where no two operators of equal rank stand side by side, the written
/// expression evaluates to the value that standard precedence gives it,
/// whatever the arithmetic.
pub proof fn lemma_unchained_evaluation(e: Expr, f: Arithmetic)
    requires
        standard(e),
        right_grouped(e),
        plainly_written(e),
    ensures
        evaluated(written_of(e), f) == Ok::<Seq<char>, EvaluationError>(value_of(e, f)),
{
    lemma_regrouped_same(e);
    lemma_written_evaluation(e, f);
}

/// A plain number literal evaluates to itself, whatever the arithmetic: a
/// result that is such a literal, taken as a new expression, yields the
/// same number.
pub proof fn lemma_literal_evaluation(text: Seq<char>, f: Arithmetic)
    requires
        is_literal(text),
    ensures
        evaluated(text, f) == Ok::<Seq<char>, EvaluationError>(text),
{
    lemma_written_evaluation(Expr::Literal(text), f);
}

/// A space between two tokens changes no result: where the characters on
/// its two sides do not both belong to a number literal, the expression
/// with the space evaluates as the expression without it.
pub proof fn lemma_space_keeps_evaluation(text: Seq<char>, at: int, f: Arithmetic)
    requires
        0 <= at <= text.len(),
        !(0 < at < text.len() && in_literal(text[at - 1]) && in_literal(text[at])),
    ensures
        evaluated(text.insert(at, ' '), f) == evaluated(text, f),
{
    lemma_space_between_tokens(text, at);
}

/// An opening bracket directly after a value multiplies: the expression
/// evaluates as it does with `*` written before that bracket.
pub proof fn lemma_implicit_multiplication_evaluation(text: Seq<char>, at: int, f: Arithmetic)
    requires
        0 <= at < text.len(),
        text[at] == '(',
        value_stands_before(text, at),
    ensures
        evaluated(text.insert(at, '*'), f) == evaluated(text, f),
{
    lemma_implicit_multiplication(text, at);
}

/// A `-` with nothing before it, or directly after an opening bracket,
/// negates: the expression evaluates as it does with `0` written before
/// that `-`.
pub proof fn lemma_unary_minus_evaluation(text: Seq<char>, at: int, f: Arithmetic)
    requires
        0 <= at < text.len(),
        text[at] == '-',
        nothing_stands_before(text, at),
    ensures
        evaluated(text.insert(at, '0'), f) == evaluated(text, f),
{
    lemma_unary_minus(text, at);
}

/// A plain number literal with `-` before it evaluates to what the
/// arithmetic makes of zero less that literal.
pub proof fn lemma_negated_literal_evaluation(text: Seq<char>, f: Arithmetic)
    requires
        is_literal(text),
    ensures
        evaluated(seq!['-'] + text, f) == Ok::<Seq<char>, EvaluationError>(
            f(POp::Sub, seq!['0'], text),
        ),
{
    let zero = seq!['0'];
    let negated = seq!['-'] + text;
    let left = Expr::Literal(zero);
    let right = Expr::Literal(text);
    let e = Expr::Binary(Box::new(left), POp::Sub, Box::new(right));
    assert(is_literal(zero));
    assert(standard(left) && standard(right));
    assert(right_grouped(left) && right_grouped(right));
    assert(plainly_written(left) && plainly_written(right));
    assert(written_of(left) == zero && written_of(right) == text);
    assert(value_of(left, f) == zero && value_of(right, f) == text);
    lemma_unchained_evaluation(e, f);
    assert(written_of(e) =~= negated.insert(0, '0'));
    assert(negated.take(0) =~= Seq::<char>::empty());
    lemma_unary_minus(negated, 0);
}

} // verus!
