use math_eval::{EvaluationError, POp, Parser, ReductionError, SyntaxError};

fn float_op(kind: POp, left: &str, right: &str) -> String {
    let num_left: f32 = left.parse::<f32>().unwrap();
    let num_right: f32 = right.parse::<f32>().unwrap();
    let result: f32 = match kind {
        POp::Add => num_left + num_right,
        POp::Sub => num_left - num_right,
        POp::Mul => num_left * num_right,
        POp::Div => num_left / num_right,
    };
    result.to_string()
}

fn spelled_out(kind: POp, left: &str, right: &str) -> String {
    let sign = match kind {
        POp::Add => '+',
        POp::Sub => '-',
        POp::Mul => '*',
        POp::Div => '/',
    };
    format!("({}{}{})", left, sign, right)
}

fn eval(text: &str) -> Result<String, EvaluationError> {
    Parser::new(&text.to_string()).evaluate(float_op)
}

fn grouping(text: &str) -> Result<String, EvaluationError> {
    Parser::new(&text.to_string()).evaluate(spelled_out)
}

#[test]
fn precedence_and_brackets() {
    assert_eq!(eval("1+2*3"), Ok("7".to_string()));
    assert_eq!(eval("(1+2)*3"), Ok("9".to_string()));
    assert_eq!(eval("2*3+4*5"), Ok("26".to_string()));
    assert_eq!(eval("(1 + 2*10)/(2+5)"), Ok("3".to_string()));
    assert_eq!(eval("10-2*3"), Ok("4".to_string()));
    assert_eq!(eval("10/4"), Ok("2.5".to_string()));
    assert_eq!(eval("13/2"), Ok("6.5".to_string()));
    assert_eq!(eval("1/4"), Ok("0.25".to_string()));
    assert_eq!(eval("1.5*4"), Ok("6".to_string()));
    assert_eq!(eval("1/3"), Ok((1.0f32 / 3.0f32).to_string()));
}

#[test]
fn evaluation_follows_the_tree() {
    assert_eq!(grouping("1+2*3"), Ok("(1+(2*3))".to_string()));
    assert_eq!(grouping("1*2+3"), Ok("((1*2)+3)".to_string()));
    assert_eq!(grouping("(1+2)*3"), Ok("((1+2)*3)".to_string()));
    assert_eq!(grouping("(1 + 2*10)/(2+5)"), Ok("((1+(2*10))/(2+5))".to_string()));
    assert_eq!(grouping("1*2+3*4-5"), Ok("((1*2)+((3*4)-5))".to_string()));
}

#[test]
fn equal_ranks_group_from_the_right() {
    assert_eq!(grouping("1-2-3"), Ok("(1-(2-3))".to_string()));
    assert_eq!(grouping("1-2+3"), Ok("(1-(2+3))".to_string()));
    assert_eq!(grouping("8/2/2"), Ok("(8/(2/2))".to_string()));
    assert_eq!(grouping("2-3*4-5"), Ok("(2-((3*4)-5))".to_string()));
    assert_eq!(eval("1-2-3"), Ok("2".to_string()));
    assert_eq!(eval("8/2/2"), Ok("8".to_string()));
    assert_eq!(eval("1+2+3"), Ok("6".to_string()));
}

#[test]
fn implicit_multiplication() {
    assert_eq!(eval("2(3)"), Ok("6".to_string()));
    assert_eq!(eval("2*3"), Ok("6".to_string()));
    assert_eq!(eval("(1+2)(2)"), Ok("6".to_string()));
    assert_eq!(grouping("2(3)"), grouping("2*(3)"));
    assert_eq!(grouping("(1+2)(2)"), grouping("(1+2)*(2)"));
}

#[test]
fn unary_minus() {
    assert_eq!(eval("-1"), Ok("-1".to_string()));
    assert_eq!(eval("-(2+3*1)"), Ok("-5".to_string()));
    assert_eq!(eval("-(-3)"), Ok("3".to_string()));
    assert_eq!(grouping("-1"), Ok("(0-1)".to_string()));
    assert_eq!(grouping("-(-3)"), Ok("(0-(0-3))".to_string()));
}

#[test]
fn precedence_with_implicit_multiplication() {
    assert_eq!(eval("2(1+2)/2+2"), Ok("5".to_string()));
    assert_eq!(grouping("2(1+2)/2+2"), Ok("((2*((1+2)/2))+2)".to_string()));
}

#[test]
fn spaces_between_tokens_change_nothing() {
    for text in ["1+2*3", " 1+2*3", "1 +2*3", "1+ 2*3", "1+2 *3", "1+2* 3", "1+2*3 ", "  1  +  2  *  3  "] {
        assert_eq!(eval(text), Ok("7".to_string()));
        assert_eq!(grouping(text), Ok("(1+(2*3))".to_string()));
    }
    assert_eq!(eval("2 ++ 2"), eval("2++2"));
    assert_eq!(eval("( 2 ) 2"), eval("(2)2"));
    assert_eq!(eval(" ( 1 + 2"), eval("(1+2"));
}

#[test]
fn a_space_inside_a_literal_splits_it() {
    assert_eq!(eval("12"), Ok("12".to_string()));
    assert_eq!(eval("1 2"), Err(EvaluationError::Syntax(SyntaxError::TwoNumbers)));
}

#[test]
fn error_scenarios() {
    assert_eq!(eval("2++2"), Err(EvaluationError::Syntax(SyntaxError::TwoOperators)));
    assert_eq!(eval("2 2"), Err(EvaluationError::Syntax(SyntaxError::TwoNumbers)));
    assert_eq!(eval("(2)2"), Err(EvaluationError::Syntax(SyntaxError::MissingOperator)));
    assert_eq!(eval("2 + x"), Err(EvaluationError::Syntax(SyntaxError::UnrecognizedChar('x'))));
    assert_eq!(eval("(1+2"), Err(EvaluationError::Syntax(SyntaxError::BracketMismatch)));
    assert_eq!(eval("1."), Ok("1.".to_string()));
    assert_eq!(eval(".1"), Err(EvaluationError::Syntax(SyntaxError::LoneDecimalPoint)));
}

#[test]
fn reduction_faults() {
    assert_eq!(eval(""), Err(EvaluationError::Reduction(ReductionError::CouldNotResolve)));
    assert_eq!(eval("()"), Err(EvaluationError::Reduction(ReductionError::CouldNotResolve)));
    assert_eq!(eval("1+"), Err(EvaluationError::Reduction(ReductionError::CouldNotResolve)));
    assert_eq!(eval("+"), Err(EvaluationError::Reduction(ReductionError::ExpectedNumber)));
    assert_eq!(eval("2*-1"), Err(EvaluationError::Reduction(ReductionError::ExpectedNumber)));
    assert_eq!(eval("1+-"), Err(EvaluationError::Reduction(ReductionError::ExpectedNumber)));
}

#[test]
fn faults_do_not_depend_on_the_arithmetic() {
    for text in ["", "1+", "+", "2*-1", "2++2", "(1+2", "((1))", "1 2", "1+2*3", "-(2)"] {
        assert_eq!(eval(text).err(), grouping(text).err());
    }
}

#[test]
fn division_by_zero_is_no_fault() {
    assert_eq!(eval("1/0"), Ok("inf".to_string()));
    assert_eq!(eval("0/0"), Ok("NaN".to_string()));
    assert_eq!(eval("-1/0"), Ok("-inf".to_string()));
    assert_eq!(eval("1/0*2"), Ok("inf".to_string()));
}

#[test]
fn a_result_evaluates_to_itself() {
    for text in ["1+2", "13/2", "(1 + 2*10)/(2+5)", "7", "0.25"] {
        let first = eval(text).unwrap();
        assert_eq!(eval(&first), Ok(first.clone()));
    }
    assert_eq!(eval("3"), Ok("3".to_string()));
    assert_eq!(grouping("3"), Ok("3".to_string()));
    assert_eq!(grouping("3.50"), Ok("3.50".to_string()));
    let negative = eval("2-7").unwrap();
    assert_eq!(negative, "-5");
    assert_eq!(eval(&negative), Ok("-5".to_string()));
}

#[test]
fn result_is_the_number_or_nothing() {
    let input = String::from("2(1 + 2)/2+2");
    let mut parser = Parser::new(&input);
    assert_eq!(parser.result(float_op), Some("5".to_string()));
    assert_eq!(parser.result(float_op), Some("5".to_string()));
    assert_eq!(parser.evaluate(float_op), Ok("5".to_string()));
    let mut faulty = Parser::new(&String::from("1+"));
    assert_eq!(faulty.result(float_op), None);
    assert_eq!(
        faulty.evaluate(float_op),
        Err(EvaluationError::Reduction(ReductionError::CouldNotResolve))
    );
}

#[test]
fn messages() {
    assert_eq!(SyntaxError::LoneDecimalPoint.message(), "lone decimal point");
    assert_eq!(SyntaxError::UnrecognizedChar('x').message(), "Char 'x' not recognized");
    assert_eq!(SyntaxError::UnrecognizedChar('\'').message(), "Char ''' not recognized");
    assert_eq!(SyntaxError::TwoNumbers.message(), "two numbers without operator in between");
    assert_eq!(SyntaxError::TwoOperators.message(), "operator followed by another operator");
    assert_eq!(SyntaxError::MissingOperator.message(), "missing operator after closing bracket");
    assert_eq!(SyntaxError::BracketMismatch.message(), "bracket count mismatch");
    assert_eq!(ReductionError::ExpectedNumber.message(), "expected number");
    assert_eq!(ReductionError::CouldNotResolve.message(), "could not resolve");
    assert_eq!(
        EvaluationError::Syntax(SyntaxError::BracketMismatch).message(),
        "bracket count mismatch"
    );
    assert_eq!(
        EvaluationError::Reduction(ReductionError::CouldNotResolve).message(),
        "could not resolve"
    );
}
