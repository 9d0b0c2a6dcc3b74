use math_eval::{BType, PExpr, POp, Parser, ReductionError, SyntaxError};

fn num(text: &str) -> PExpr {
    PExpr::Cons(text.to_string())
}

fn op(kind: POp) -> PExpr {
    PExpr::Op(kind)
}

fn open() -> PExpr {
    PExpr::Bracket(BType::Left)
}

fn close() -> PExpr {
    PExpr::Bracket(BType::Right)
}

fn tokens(text: &str) -> Result<Vec<PExpr>, SyntaxError> {
    Parser::new(&text.to_string()).parse()
}

// Writes the operation out instead of computing it, so that the result
// shows which operands each operator was given.
fn spelled(kind: POp, left: &str, right: &str) -> String {
    let sign = match kind {
        POp::Add => '+',
        POp::Sub => '-',
        POp::Mul => '*',
        POp::Div => '/',
    };
    format!("({}{}{})", left, sign, right)
}

#[test]
fn operator_ranks() {
    assert_eq!(POp::Add.order(), 1);
    assert_eq!(POp::Sub.order(), 1);
    assert_eq!(POp::Mul.order(), 2);
    assert_eq!(POp::Div.order(), 2);
}

#[test]
fn tokens_of_a_literal_keep_its_text() {
    assert_eq!(tokens("12.50"), Ok(vec![num("12.50")]));
    assert_eq!(tokens("5."), Ok(vec![num("5.")]));
    assert_eq!(tokens("007"), Ok(vec![num("007")]));
}

#[test]
fn tokens_of_the_four_operators() {
    assert_eq!(
        tokens("1+2-3*4/5"),
        Ok(vec![
            num("1"),
            op(POp::Add),
            num("2"),
            op(POp::Sub),
            num("3"),
            op(POp::Mul),
            num("4"),
            op(POp::Div),
            num("5"),
        ])
    );
}

#[test]
fn tokens_with_implicit_multiplication() {
    assert_eq!(
        tokens("2(1 + 2)/2+2"),
        Ok(vec![
            num("2"),
            op(POp::Mul),
            open(),
            num("1"),
            op(POp::Add),
            num("2"),
            close(),
            op(POp::Div),
            num("2"),
            op(POp::Add),
            num("2"),
        ])
    );
    assert_eq!(
        tokens("(1)(2)"),
        Ok(vec![open(), num("1"), close(), op(POp::Mul), open(), num("2"), close()])
    );
    assert_eq!(tokens("2(3)"), tokens("2*(3)"));
    assert_eq!(tokens("2 (3)"), tokens("2*(3)"));
}

#[test]
fn tokens_with_unary_minus() {
    assert_eq!(tokens("-1"), Ok(vec![num("0"), op(POp::Sub), num("1")]));
    assert_eq!(
        tokens("2 * (-1)"),
        Ok(vec![
            num("2"),
            op(POp::Mul),
            open(),
            num("0"),
            op(POp::Sub),
            num("1"),
            close(),
        ])
    );
    assert_eq!(tokens("-1"), tokens("0-1"));
    assert_eq!(tokens("(-3)"), tokens("(0-3)"));
    assert_eq!(
        tokens("2+-3"),
        Ok(vec![num("2"), op(POp::Add), op(POp::Sub), num("3")])
    );
}

#[test]
fn tokens_of_nothing() {
    assert_eq!(tokens(""), Ok(vec![]));
    assert_eq!(tokens("   "), Ok(vec![]));
}

#[test]
fn brackets_are_only_counted() {
    assert_eq!(tokens(")("), Ok(vec![close(), op(POp::Mul), open()]));
    assert_eq!(tokens("()"), Ok(vec![open(), close()]));
}

#[test]
fn lone_decimal_point() {
    assert_eq!(tokens(".5"), Err(SyntaxError::LoneDecimalPoint));
    assert_eq!(tokens("1..2"), Err(SyntaxError::LoneDecimalPoint));
    assert_eq!(tokens("1.2.3"), Err(SyntaxError::LoneDecimalPoint));
    assert_eq!(tokens("1+."), Err(SyntaxError::LoneDecimalPoint));
    assert_eq!(tokens("1 .5"), Err(SyntaxError::LoneDecimalPoint));
}

#[test]
fn unrecognized_characters() {
    assert_eq!(tokens("2x"), Err(SyntaxError::UnrecognizedChar('x')));
    assert_eq!(tokens("2\u{d7}3"), Err(SyntaxError::UnrecognizedChar('\u{d7}')));
    assert_eq!(tokens("1\t2"), Err(SyntaxError::UnrecognizedChar('\t')));
}

#[test]
fn adjacent_numbers() {
    assert_eq!(tokens("1 2"), Err(SyntaxError::TwoNumbers));
    assert_eq!(tokens("1 2 3"), Err(SyntaxError::TwoNumbers));
    assert_eq!(tokens("12"), Ok(vec![num("12")]));
}

#[test]
fn adjacent_operators() {
    assert_eq!(tokens("2++2"), Err(SyntaxError::TwoOperators));
    assert_eq!(tokens("2*/2"), Err(SyntaxError::TwoOperators));
    assert_eq!(tokens("2-+2"), Err(SyntaxError::TwoOperators));
    assert_eq!(tokens("2 + * 2"), Err(SyntaxError::TwoOperators));
}

#[test]
fn value_after_closing_bracket() {
    assert_eq!(tokens("(2)2"), Err(SyntaxError::MissingOperator));
    assert_eq!(tokens("(2) 2"), Err(SyntaxError::MissingOperator));
    assert_eq!(tokens("((1))"), Err(SyntaxError::MissingOperator));
    assert_eq!(tokens("(1+(2*3))"), Err(SyntaxError::MissingOperator));
}

#[test]
fn bracket_mismatch() {
    assert_eq!(tokens("(1+2"), Err(SyntaxError::BracketMismatch));
    assert_eq!(tokens("1+2)"), Err(SyntaxError::BracketMismatch));
    assert_eq!(tokens("(("), Err(SyntaxError::BracketMismatch));
}

#[test]
fn the_first_fault_is_reported() {
    assert_eq!(tokens("2++x"), Err(SyntaxError::TwoOperators));
    assert_eq!(tokens("(x"), Err(SyntaxError::UnrecognizedChar('x')));
    assert_eq!(tokens("(1 2"), Err(SyntaxError::TwoNumbers));
}

#[test]
fn tighter_operators_go_first() {
    assert_eq!(
        Parser::shunting(tokens("1+2*3").unwrap()),
        vec![num("1"), num("2"), num("3"), op(POp::Mul), op(POp::Add)]
    );
    assert_eq!(
        Parser::shunting(tokens("2*3+4").unwrap()),
        vec![num("2"), num("3"), op(POp::Mul), num("4"), op(POp::Add)]
    );
    assert_eq!(
        Parser::shunting(tokens("2*3*4+5").unwrap()),
        vec![
            num("2"),
            num("3"),
            num("4"),
            op(POp::Mul),
            op(POp::Mul),
            num("5"),
            op(POp::Add),
        ]
    );
}

#[test]
fn equal_ranks_wait_for_each_other() {
    assert_eq!(
        Parser::shunting(tokens("1-2-3").unwrap()),
        vec![num("1"), num("2"), num("3"), op(POp::Sub), op(POp::Sub)]
    );
    assert_eq!(
        Parser::shunting(tokens("8/2*3").unwrap()),
        vec![num("8"), num("2"), num("3"), op(POp::Mul), op(POp::Div)]
    );
}

#[test]
fn brackets_leave_the_sequence() {
    assert_eq!(
        Parser::shunting(tokens("(1+2)*3").unwrap()),
        vec![num("1"), num("2"), op(POp::Add), num("3"), op(POp::Mul)]
    );
    assert_eq!(
        Parser::shunting(tokens("(1 + 2*10)/(2+5)").unwrap()),
        vec![
            num("1"),
            num("2"),
            num("10"),
            op(POp::Mul),
            op(POp::Add),
            num("2"),
            num("5"),
            op(POp::Add),
            op(POp::Div),
        ]
    );
    assert_eq!(Parser::shunting(vec![open(), close()]), vec![]);
}

#[test]
fn unpaired_brackets_in_the_sequence() {
    assert_eq!(Parser::shunting(vec![num("1"), close()]), vec![num("1")]);
    assert_eq!(Parser::shunting(vec![open(), num("1")]), vec![num("1"), open()]);
    assert_eq!(
        Parser::shunting(vec![close(), op(POp::Mul), open()]),
        vec![open(), op(POp::Mul)]
    );
}

#[test]
fn reduction_applies_each_operator_to_the_two_numbers_before_it() {
    let queue = vec![num("1"), num("2"), num("3"), op(POp::Mul), op(POp::Add)];
    assert_eq!(Parser::resolve(queue, &spelled), Ok("(1+(2*3))".to_string()));
    let queue = vec![num("1"), num("2"), op(POp::Sub), num("3"), op(POp::Div)];
    assert_eq!(Parser::resolve(queue, &spelled), Ok("((1-2)/3)".to_string()));
    let queue = vec![num("1"), num("2"), num("3"), op(POp::Sub), op(POp::Sub)];
    assert_eq!(Parser::resolve(queue, &spelled), Ok("(1-(2-3))".to_string()));
}

#[test]
fn reduction_of_one_token() {
    assert_eq!(Parser::resolve(vec![num("42")], &spelled), Ok("42".to_string()));
    assert_eq!(
        Parser::resolve(vec![op(POp::Add)], &spelled),
        Err(ReductionError::ExpectedNumber)
    );
    assert_eq!(Parser::resolve(vec![open()], &spelled), Err(ReductionError::ExpectedNumber));
}

#[test]
fn reduction_that_cannot_resolve() {
    assert_eq!(Parser::resolve(vec![], &spelled), Err(ReductionError::CouldNotResolve));
    assert_eq!(
        Parser::resolve(vec![num("1"), op(POp::Sub)], &spelled),
        Err(ReductionError::CouldNotResolve)
    );
    assert_eq!(
        Parser::resolve(vec![num("1"), num("2")], &spelled),
        Err(ReductionError::CouldNotResolve)
    );
    assert_eq!(
        Parser::resolve(vec![num("1"), num("2"), num("3")], &spelled),
        Err(ReductionError::CouldNotResolve)
    );
}

#[test]
fn reduction_that_expects_a_number() {
    assert_eq!(
        Parser::resolve(vec![num("1"), op(POp::Sub), op(POp::Add)], &spelled),
        Err(ReductionError::ExpectedNumber)
    );
    assert_eq!(
        Parser::resolve(vec![num("1"), open(), op(POp::Add)], &spelled),
        Err(ReductionError::ExpectedNumber)
    );
    assert_eq!(
        Parser::resolve(vec![num("1"), num("2"), op(POp::Add), op(POp::Sub)], &spelled),
        Err(ReductionError::ExpectedNumber)
    );
}
