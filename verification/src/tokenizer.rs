//! The first stage: characters to tokens.
//!
//! The characters are read once, from left to right. What neighbours a token
//! may have is checked as it is appended, and two things are written in for
//! the reader: the `*` of an implicit multiplication and the `0` of a unary
//! minus.

use vstd::prelude::*;
use crate::error::SyntaxError;
use crate::parser::Parser;
use crate::text::{in_literal, is_digit, is_literal, push_char};
use crate::token::{views, BType, PExpr, POp, Token};

verus! {

/// What has been gathered after reading a prefix of an expression.
pub struct Scan {
    /// The tokens appended so far.
    pub list: Seq<Token>,
    /// The characters of the number literal that is being read.
    pub expr: Seq<char>,
    /// Opening brackets read, less closing brackets read.
    pub depth: int,
}

/// The state before any character is read.
pub open spec fn start() -> Scan {
    Scan { list: Seq::empty(), expr: Seq::empty(), depth: 0 }
}

/// The token appended last, if any.
pub open spec fn last_token(list: Seq<Token>) -> Option<Token> {
    if list.len() == 0 {
        None
    } else {
        Some(list.last())
    }
}

/// The fault, if any, of appending `next` directly after `last`: two values
/// or two operators may not meet without something between them.
pub open spec fn clash(last: Option<Token>, next: Token) -> Option<SyntaxError> {
    match (last, next) {
        (Some(Token::Number(_)), Token::Number(_)) => Some(SyntaxError::TwoNumbers),
        (Some(Token::Operator(_)), Token::Operator(_)) => Some(SyntaxError::TwoOperators),
        (Some(Token::Bracket(BType::Right)), Token::Bracket(BType::Right)) => Some(
            SyntaxError::MissingOperator,
        ),
        (Some(Token::Bracket(BType::Right)), Token::Number(_)) => Some(
            SyntaxError::MissingOperator,
        ),
        _ => None,
    }
}

/// The token list once a pending literal has been turned into a number.
pub open spec fn flush_into(list: Seq<Token>, expr: Seq<char>) -> Seq<Token> {
    if expr.len() == 0 {
        list
    } else {
        list.push(Token::Number(expr))
    }
}

/// The state once a pending literal has been turned into a number.
pub open spec fn flushed(s: Scan) -> Scan {
    Scan { list: flush_into(s.list, s.expr), expr: Seq::empty(), depth: s.depth }
}

/// The state with one more token.
pub open spec fn appended(s: Scan, t: Token) -> Scan {
    Scan { list: s.list.push(t), expr: s.expr, depth: s.depth }
}

/// The operator that `+`, `*` or `/` stands for.
pub open spec fn checked_operator(c: char) -> POp {
    if c == '+' {
        POp::Add
    } else if c == '*' {
        POp::Mul
    } else {
        POp::Div
    }
}

/// The state after one more character, or the fault that the character causes.
pub open spec fn read_char(s: Scan, c: char) -> Result<Scan, SyntaxError> {
    if is_digit(c) {
        match clash(last_token(s.list), Token::Number(s.expr)) {
            Some(e) => Err(e),
            None => Ok(Scan { list: s.list, expr: s.expr.push(c), depth: s.depth }),
        }
    } else if c == '.' {
        if s.expr.len() == 0 || s.expr.contains('.') {
            Err(SyntaxError::LoneDecimalPoint)
        } else {
            Ok(Scan { list: s.list, expr: s.expr.push(c), depth: s.depth })
        }
    } else if c == ' ' {
        Ok(flushed(s))
    } else if c == '+' || c == '*' || c == '/' {
        let f = flushed(s);
        let t = Token::Operator(checked_operator(c));
        match clash(last_token(f.list), t) {
            Some(e) => Err(e),
            None => Ok(appended(f, t)),
        }
    } else if c == '-' {
        let f = flushed(s);
        let g = match last_token(f.list) {
            None => appended(f, Token::Number(seq!['0'])),
            Some(Token::Bracket(BType::Left)) => appended(f, Token::Number(seq!['0'])),
            _ => f,
        };
        Ok(appended(g, Token::Operator(POp::Sub)))
    } else if c == '(' {
        let f = flushed(s);
        let g = match last_token(f.list) {
            Some(Token::Number(_)) => appended(f, Token::Operator(POp::Mul)),
            Some(Token::Bracket(BType::Right)) => appended(f, Token::Operator(POp::Mul)),
            _ => f,
        };
        Ok(Scan { list: g.list.push(Token::Bracket(BType::Left)), expr: g.expr, depth: g.depth + 1 })
    } else if c == ')' {
        let f = flushed(s);
        let t = Token::Bracket(BType::Right);
        match clash(last_token(f.list), t) {
            Some(e) => Err(e),
            None => Ok(Scan { list: f.list.push(t), expr: f.expr, depth: f.depth - 1 }),
        }
    } else {
        Err(SyntaxError::UnrecognizedChar(c))
    }
}

/// The state after reading `chars` from state `s`, or the first fault met.
pub open spec fn scanned(s: Scan, chars: Seq<char>) -> Result<Scan, SyntaxError>
    decreases chars.len(),
{
    if chars.len() == 0 {
        Ok(s)
    } else {
        match scanned(s, chars.drop_last()) {
            Err(e) => Err(e),
            Ok(m) => read_char(m, chars.last()),
        }
    }
}

/// The tokens of an expression, or the first fault met while reading it.
/// Brackets are only counted: the counts must agree at the end.
pub open spec fn tokenized(chars: Seq<char>) -> Result<Seq<Token>, SyntaxError> {
    match scanned(start(), chars) {
        Err(e) => Err(e),
        Ok(s) => if s.depth != 0 {
            Err(SyntaxError::BracketMismatch)
        } else {
            Ok(flushed(s).list)
        },
    }
}

/// A fault met in a prefix is the fault of the whole.
pub proof fn lemma_fault_stays(s: Scan, chars: Seq<char>, k: int)
    requires
        0 <= k <= chars.len(),
        scanned(s, chars.take(k)) is Err,
    ensures
        scanned(s, chars) == scanned(s, chars.take(k)),
    decreases chars.len() - k,
{
    if k < chars.len() {
        assert(chars.take(k + 1).drop_last() =~= chars.take(k));
        lemma_fault_stays(s, chars, k + 1);
    } else {
        assert(chars.take(k) =~= chars);
    }
}

/// Reading two texts one after the other is reading their concatenation.
pub proof fn lemma_scanned_concat(s: Scan, a: Seq<char>, b: Seq<char>)
    ensures
        scanned(s, a + b) == match scanned(s, a) {
            Err(e) => Err(e),
            Ok(m) => scanned(m, b),
        },
    decreases b.len(),
{
    if b.len() == 0 {
        assert(a + b =~= a);
    } else {
        assert((a + b).drop_last() =~= a + b.drop_last());
        assert((a + b).last() == b.last());
        lemma_scanned_concat(s, a, b.drop_last());
    }
}

/// Reading a text is reading its first character and then the rest.
pub proof fn lemma_scanned_first(s: Scan, chars: Seq<char>)
    requires
        chars.len() > 0,
    ensures
        scanned(s, chars) == match read_char(s, chars[0]) {
            Err(e) => Err(e),
            Ok(m) => scanned(m, chars.skip(1)),
        },
{
    let first = seq![chars[0]];
    assert(chars =~= first + chars.skip(1));
    lemma_scanned_concat(s, first, chars.skip(1));
    assert(first.drop_last() =~= Seq::<char>::empty());
    assert(scanned(s, first.drop_last()) == Ok::<Scan, SyntaxError>(s));
    assert(scanned(s, first) == read_char(s, chars[0]));
}

/// Whether a number or an opening bracket may directly follow the tokens
/// of `list`: not after a number, nor after a closing bracket.
pub open spec fn value_may_follow(list: Seq<Token>) -> bool {
    match last_token(list) {
        Some(Token::Number(_)) => false,
        Some(Token::Bracket(BType::Right)) => false,
        _ => true,
    }
}

/// Read where a value may stand, the first `k` characters of a plain number
/// literal are all pending, and no token has been added.
pub proof fn lemma_literal_pending(s: Scan, text: Seq<char>, k: int)
    requires
        is_literal(text),
        s.expr.len() == 0,
        value_may_follow(s.list),
        1 <= k <= text.len(),
    ensures
        scanned(s, text.take(k)) == Ok::<Scan, SyntaxError>(
            Scan { list: s.list, expr: text.take(k), depth: s.depth },
        ),
    decreases k,
{
    let c = text[k - 1];
    assert(text.take(k).drop_last() =~= text.take(k - 1));
    assert(text.take(k).last() == c);
    assert(in_literal(c));
    if k == 1 {
        assert(text.take(0) =~= Seq::<char>::empty());
        assert(s.expr.push(c) =~= text.take(1));
    } else {
        lemma_literal_pending(s, text, k - 1);
        let m = Scan { list: s.list, expr: text.take(k - 1), depth: s.depth };
        assert(m.expr.push(c) =~= text.take(k));
        if c == '.' {
            assert(!m.expr.contains('.')) by {
                if m.expr.contains('.') {
                    let i = choose|i: int| 0 <= i < m.expr.len() && m.expr[i] == '.';
                    assert(text[i] == '.' && text[k - 1] == '.');
                }
            }
        }
    }
}

/// A space between two tokens changes nothing: where the characters on its
/// two sides do not both belong to a number literal, the expression with the
/// space reads as the expression without it.
pub proof fn lemma_space_between_tokens(text: Seq<char>, at: int)
    requires
        0 <= at <= text.len(),
        !(0 < at < text.len() && in_literal(text[at - 1]) && in_literal(text[at])),
    ensures
        tokenized(text.insert(at, ' ')) == tokenized(text),
{
    let a = text.take(at);
    let b = text.skip(at);
    let space = seq![' '];
    assert(text =~= a + b);
    assert(text.insert(at, ' ') =~= (a + space) + b);
    lemma_scanned_concat(start(), a, b);
    lemma_scanned_concat(start(), a + space, b);
    lemma_scanned_concat(start(), a, space);
    match scanned(start(), a) {
        Err(e) => {},
        Ok(m) => {
            assert(space.drop_last() =~= Seq::<char>::empty());
            assert(scanned(m, space.drop_last()) == Ok::<Scan, SyntaxError>(m));
            assert(scanned(m, space) == Ok::<Scan, SyntaxError>(flushed(m)));
            assert(flushed(flushed(m)) == flushed(m));
            if m.expr.len() == 0 {
                assert(m.expr =~= Seq::<char>::empty());
                assert(flushed(m) == m);
            } else if b.len() == 0 {
            } else {
                assert(a.len() > 0 && in_literal(a.last())) by {
                    if a.len() > 0 {
                        assert(scanned(start(), a.drop_last()) is Ok);
                    }
                }
                assert(a.last() == text[at - 1]);
                assert(b[0] == text[at]);
                lemma_scanned_first(m, b);
                lemma_scanned_first(flushed(m), b);
                assert(read_char(flushed(m), b[0]) == read_char(m, b[0]));
            }
        },
    }
}

/// Whether the opening bracket at `at` multiplies: what is read before it
/// ends on a value, that is on a number or on a closing bracket.
pub open spec fn value_stands_before(text: Seq<char>, at: int) -> bool {
    match scanned(start(), text.take(at)) {
        Ok(m) => !value_may_follow(flushed(m).list),
        Err(_) => false,
    }
}

/// Whether the `-` at `at` negates: what is read before it is nothing at
/// all or ends on an opening bracket.
pub open spec fn nothing_stands_before(text: Seq<char>, at: int) -> bool {
    match scanned(start(), text.take(at)) {
        Ok(m) => match last_token(flushed(m).list) {
            None => true,
            Some(Token::Bracket(BType::Left)) => true,
            _ => false,
        },
        Err(_) => false,
    }
}

/// An opening bracket directly after a value multiplies: the expression
/// reads as it does with `*` written before that bracket.
pub proof fn lemma_implicit_multiplication(text: Seq<char>, at: int)
    requires
        0 <= at < text.len(),
        text[at] == '(',
        value_stands_before(text, at),
    ensures
        tokenized(text.insert(at, '*')) == tokenized(text),
{
    let a = text.take(at);
    let b = text.skip(at);
    let star = seq!['*'];
    assert(text =~= a + b);
    assert(text.insert(at, '*') =~= (a + star) + b);
    lemma_scanned_concat(start(), a, b);
    lemma_scanned_concat(start(), a + star, b);
    lemma_scanned_concat(start(), a, star);
    let m = scanned(start(), a)->Ok_0;
    assert(star.drop_last() =~= Seq::<char>::empty());
    assert(scanned(m, star.drop_last()) == Ok::<Scan, SyntaxError>(m));
    let with_star = appended(flushed(m), Token::Operator(POp::Mul));
    assert(scanned(m, star) == Ok::<Scan, SyntaxError>(with_star));
    assert(flushed(with_star) == with_star);
    lemma_scanned_first(m, b);
    lemma_scanned_first(with_star, b);
    assert(read_char(with_star, '(') == read_char(m, '('));
}

/// A `-` with nothing before it, or directly after an opening bracket,
/// negates: the expression reads as it does with `0` written before that
/// `-`.
pub proof fn lemma_unary_minus(text: Seq<char>, at: int)
    requires
        0 <= at < text.len(),
        text[at] == '-',
        nothing_stands_before(text, at),
    ensures
        tokenized(text.insert(at, '0')) == tokenized(text),
{
    let a = text.take(at);
    let b = text.skip(at);
    let zero = seq!['0'];
    assert(text =~= a + b);
    assert(text.insert(at, '0') =~= (a + zero) + b);
    lemma_scanned_concat(start(), a, b);
    lemma_scanned_concat(start(), a + zero, b);
    lemma_scanned_concat(start(), a, zero);
    let m = scanned(start(), a)->Ok_0;
    assert(m.expr.len() == 0);
    assert(m.expr =~= Seq::<char>::empty());
    assert(flushed(m) == m);
    assert(zero.drop_last() =~= Seq::<char>::empty());
    assert(scanned(m, zero.drop_last()) == Ok::<Scan, SyntaxError>(m));
    let with_zero = Scan { list: m.list, expr: zero, depth: m.depth };
    assert(m.expr.push('0') =~= zero);
    assert(scanned(m, zero) == Ok::<Scan, SyntaxError>(with_zero));
    lemma_scanned_first(m, b);
    lemma_scanned_first(with_zero, b);
    assert(read_char(with_zero, '-') == read_char(m, '-'));
}

/// Whether every number among the tokens is a plain literal.
pub open spec fn numbers_plain(list: Seq<Token>) -> bool {
    forall|i: int|
        0 <= i < list.len() ==> ((#[trigger] list[i]) matches Token::Number(text) ==> is_literal(
            text,
        ))
}

/// Whether the numbers gathered so far are plain literals, and the pending
/// characters, if any, are one too.
spec fn plain_so_far(s: Scan) -> bool {
    numbers_plain(s.list) && (s.expr.len() == 0 || is_literal(s.expr))
}

/// A plain literal stays one with a further digit, or with its first decimal point.
proof fn lemma_literal_grows(text: Seq<char>, c: char)
    requires
        text.len() == 0 || is_literal(text),
        if text.len() == 0 {
            is_digit(c)
        } else {
            is_digit(c) || (c == '.' && !text.contains('.'))
        },
    ensures
        is_literal(text.push(c)),
{
    let grown = text.push(c);
    assert forall|i: int| 0 <= i < grown.len() implies in_literal(#[trigger] grown[i]) by {
        if i < text.len() {
            assert(grown[i] == text[i]);
        }
    }
    assert forall|i: int, j: int| 0 <= i < j < grown.len() implies !(#[trigger] grown[i] == '.'
        && #[trigger] grown[j] == '.') by {
        if j < text.len() {
            assert(grown[i] == text[i] && grown[j] == text[j]);
        } else if grown[i] == '.' && c == '.' {
            assert(text[i] == '.');
            assert(text.contains('.'));
        }
    }
}

/// Plain numbers stay plain with one more token that is no number or a plain one.
proof fn lemma_plain_with(list: Seq<Token>, t: Token)
    requires
        numbers_plain(list),
        t matches Token::Number(text) ==> is_literal(text),
    ensures
        numbers_plain(list.push(t)),
{
    let longer = list.push(t);
    assert forall|i: int| 0 <= i < longer.len() implies ((#[trigger] longer[i]) matches Token::Number(
        text,
    ) ==> is_literal(text)) by {
        if i < list.len() {
            assert(longer[i] == list[i]);
        }
    }
}

/// One more character keeps the numbers plain.
proof fn lemma_read_keeps_plain(s: Scan, c: char)
    requires
        plain_so_far(s),
    ensures
        read_char(s, c) matches Ok(m) ==> plain_so_far(m),
{
    let f = flushed(s);
    if s.expr.len() > 0 {
        lemma_plain_with(s.list, Token::Number(s.expr));
    }
    assert(plain_so_far(f));
    let zero = seq!['0'];
    assert(is_literal(zero));
    if is_digit(c) {
        lemma_literal_grows(s.expr, c);
    } else if c == '.' {
        if !(s.expr.len() == 0 || s.expr.contains('.')) {
            lemma_literal_grows(s.expr, c);
        }
    } else if c == ' ' {
    } else if c == '+' || c == '*' || c == '/' {
        lemma_plain_with(f.list, Token::Operator(checked_operator(c)));
    } else if c == '-' {
        lemma_plain_with(f.list, Token::Number(zero));
        lemma_plain_with(f.list, Token::Operator(POp::Sub));
        lemma_plain_with(f.list.push(Token::Number(zero)), Token::Operator(POp::Sub));
    } else if c == '(' {
        lemma_plain_with(f.list, Token::Operator(POp::Mul));
        lemma_plain_with(f.list, Token::Bracket(BType::Left));
        lemma_plain_with(f.list.push(Token::Operator(POp::Mul)), Token::Bracket(BType::Left));
    } else if c == ')' {
        lemma_plain_with(f.list, Token::Bracket(BType::Right));
    }
}

/// Reading keeps the numbers plain.
proof fn lemma_scan_keeps_plain(s: Scan, chars: Seq<char>)
    requires
        plain_so_far(s),
    ensures
        scanned(s, chars) matches Ok(m) ==> plain_so_far(m),
    decreases chars.len(),
{
    if chars.len() > 0 {
        lemma_scan_keeps_plain(s, chars.drop_last());
        match scanned(s, chars.drop_last()) {
            Ok(m) => {
                lemma_read_keeps_plain(m, chars.last());
            },
            Err(_) => {},
        }
    }
}

/// Every number among the tokens of an expression is a plain literal: it
/// starts with a digit and holds digits and at most one decimal point.
pub proof fn lemma_tokenized_numbers_plain(text: Seq<char>)
    ensures
        tokenized(text) matches Ok(tokens) ==> numbers_plain(tokens),
{
    lemma_scan_keeps_plain(start(), text);
    match scanned(start(), text) {
        Ok(m) => {
            if m.expr.len() > 0 {
                lemma_plain_with(m.list, Token::Number(m.expr));
            }
        },
        Err(_) => {},
    }
}

impl Parser {
    /// Appends a token.
    pub(crate) fn append(list: &mut Vec<PExpr>, token: PExpr)
        ensures
            views(final(list)@) == views(old(list)@).push(token@),
    {
        list.push(token);
        assert(views(list@) =~= views(old(list)@).push(token@));
    }

    /// Turns a pending literal into a number token and empties the buffer.
    pub(crate) fn clear_buffer(list: &mut Vec<PExpr>, expr: &mut String)
        ensures
            views(final(list)@) == flush_into(views(old(list)@), old(expr)@),
            final(expr)@ == Seq::<char>::empty(),
    {
        if !expr.as_str().is_empty() {
            let mut text = String::new();
            core::mem::swap(expr, &mut text);
            Self::append(list, PExpr::Cons(text));
        }
    }

    /// Checks that `expr` may be appended after the last token of `list`.
    pub(crate) fn should_no_be(list: &Vec<PExpr>, expr: &PExpr) -> (r: Result<(), SyntaxError>)
        ensures
            r == match clash(last_token(views(list@)), expr@) {
                Some(e) => Err::<(), SyntaxError>(e),
                None => Ok(()),
            },
    {
        if list.len() == 0 {
            return Ok(());
        }
        let last = &list[list.len() - 1];
        assert(views(list@).last() == last@);
        match last {
            PExpr::Cons(_) => match expr {
                PExpr::Cons(_) => Err(SyntaxError::TwoNumbers),
                _ => Ok(()),
            },
            PExpr::Op(_) => match expr {
                PExpr::Op(_) => Err(SyntaxError::TwoOperators),
                _ => Ok(()),
            },
            PExpr::Bracket(BType::Right) => match expr {
                PExpr::Bracket(BType::Right) => Err(SyntaxError::MissingOperator),
                PExpr::Cons(_) => Err(SyntaxError::MissingOperator),
                _ => Ok(()),
            },
            PExpr::Bracket(BType::Left) => Ok(()),
        }
    }

    /// Reads the expression into tokens.
    ///
    /// Digits and the decimal point gather into number literals; a `-` at
    /// the start or after an opening bracket subtracts from an inserted zero;
    /// an opening bracket after a value multiplies.
    pub fn parse(&self) -> (r: Result<Vec<PExpr>, SyntaxError>)
        ensures
            match tokenized(self@) {
                Ok(tokens) => r matches Ok(list) && views(list@) == tokens,
                Err(e) => r matches Err(found) && found == e,
            },
            r matches Ok(list) ==> numbers_plain(views(list@)),
    {
        proof {
            lemma_tokenized_numbers_plain(self@);
        }
        let input = self.text();
        let total = input.as_str().unicode_len();
        let mut list: Vec<PExpr> = Vec::new();
        let mut expr = String::new();
        let mut dotted = false;
        let mut opened: usize = 0;
        let mut closed: usize = 0;
        assert(views(list@) =~= Seq::<Token>::empty());
        for token in it: input.as_str().chars()
            invariant
                input@ == self@,
                it.seq() == input@,
                total == input@.len(),
                opened <= it.index(),
                closed <= it.index(),
                it.index() <= total,
                dotted == expr@.contains('.'),
                scanned(start(), input@.take(it.index() as int)) == Ok::<Scan, SyntaxError>(
                    Scan { list: views(list@), expr: expr@, depth: opened - closed },
                ),
        {
            let ghost k = it.index() as int;
            let ghost before = Scan { list: views(list@), expr: expr@, depth: opened - closed };
            proof {
                assert(input@.take(k + 1).drop_last() =~= input@.take(k));
                assert(input@.take(k + 1).last() == token);
            }
            let step: Result<(), SyntaxError> = if token >= '0' && token <= '9' {
                match Self::should_no_be(&list, &PExpr::Cons(String::new())) {
                    Err(e) => Err(e),
                    Ok(()) => {
                        push_char(&mut expr, token);
                        assert(expr@.contains('.') == dotted) by {
                            let prior = before.expr;
                            if prior.contains('.') {
                                let j = choose|j: int| 0 <= j < prior.len() && prior[j] == '.';
                                assert(expr@[j] == '.');
                            } else if expr@.contains('.') {
                                let j = choose|j: int| 0 <= j < expr@.len() && expr@[j] == '.';
                                assert(j < prior.len());
                                assert(prior[j] == '.');
                            }
                        }
                        Ok(())
                    },
                }
            } else if token == '.' {
                if expr.as_str().is_empty() || dotted {
                    Err(SyntaxError::LoneDecimalPoint)
                } else {
                    push_char(&mut expr, token);
                    dotted = true;
                    assert(expr@[expr@.len() - 1] == '.');
                    Ok(())
                }
            } else if token == ' ' {
                Self::clear_buffer(&mut list, &mut expr);
                dotted = false;
                Ok(())
            } else if token == '+' || token == '*' || token == '/' {
                Self::clear_buffer(&mut list, &mut expr);
                dotted = false;
                let op = if token == '+' {
                    POp::Add
                } else if token == '*' {
                    POp::Mul
                } else {
                    POp::Div
                };
                match Self::should_no_be(&list, &PExpr::Op(op)) {
                    Err(e) => Err(e),
                    Ok(()) => {
                        Self::append(&mut list, PExpr::Op(op));
                        Ok(())
                    },
                }
            } else if token == '-' {
                Self::clear_buffer(&mut list, &mut expr);
                dotted = false;
                let negates = if list.len() == 0 {
                    true
                } else {
                    assert(views(list@).last() == list@.last()@);
                    match &list[list.len() - 1] {
                        PExpr::Bracket(BType::Left) => true,
                        _ => false,
                    }
                };
                if negates {
                    let zero = "0".to_owned();
                    proof {
                        reveal_strlit("0");
                        assert(zero@ =~= seq!['0']);
                    }
                    Self::append(&mut list, PExpr::Cons(zero));
                }
                Self::append(&mut list, PExpr::Op(POp::Sub));
                Ok(())
            } else if token == '(' {
                Self::clear_buffer(&mut list, &mut expr);
                dotted = false;
                let multiplies = if list.len() == 0 {
                    false
                } else {
                    assert(views(list@).last() == list@.last()@);
                    match &list[list.len() - 1] {
                        PExpr::Cons(_) => true,
                        PExpr::Bracket(BType::Right) => true,
                        _ => false,
                    }
                };
                if multiplies {
                    Self::append(&mut list, PExpr::Op(POp::Mul));
                }
                Self::append(&mut list, PExpr::Bracket(BType::Left));
                opened = opened + 1;
                Ok(())
            } else if token == ')' {
                Self::clear_buffer(&mut list, &mut expr);
                dotted = false;
                match Self::should_no_be(&list, &PExpr::Bracket(BType::Right)) {
                    Err(e) => Err(e),
                    Ok(()) => {
                        Self::append(&mut list, PExpr::Bracket(BType::Right));
                        closed = closed + 1;
                        Ok(())
                    },
                }
            } else {
                Err(SyntaxError::UnrecognizedChar(token))
            };
            match step {
                Err(e) => {
                    proof {
                        assert(read_char(before, token) == Err::<Scan, SyntaxError>(e));
                        assert(scanned(start(), input@.take(k + 1)) == Err::<Scan, SyntaxError>(e));
                        lemma_fault_stays(start(), input@, k + 1);
                    }
                    return Err(e);
                },
                Ok(()) => {
                    assert(read_char(before, token) == Ok::<Scan, SyntaxError>(
                        Scan { list: views(list@), expr: expr@, depth: opened - closed },
                    ));
                },
            }
        }
        assert(input@.take(input@.len() as int) =~= input@);
        Self::clear_buffer(&mut list, &mut expr);
        if opened != closed {
            return Err(SyntaxError::BracketMismatch);
        }
        Ok(list)
    }
}

} // verus!
