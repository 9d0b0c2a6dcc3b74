use math_eval::{EvaluationError, POp, Parser, SyntaxError};

fn float_arith(op: POp, left: &str, right: &str) -> String {
    let num_left: f32 = left.parse::<f32>().unwrap();
    let num_right: f32 = right.parse::<f32>().unwrap();
    let result: f32 = match op {
        POp::Add => num_left + num_right,
        POp::Sub => num_left - num_right,
        POp::Mul => num_left * num_right,
        POp::Div => num_left / num_right,
    };
    result.to_string()
}

#[test]
fn one_number() {
    let input = String::from("1");
    let mut parser = Parser::new(&input);
    assert_eq!(Some("1".to_string()), parser.result(float_arith));
}

#[test]
fn one_negative_number() {
    let input = String::from("-1");
    let mut parser = Parser::new(&input);
    assert_eq!(Some("-1".to_string()), parser.result(float_arith));
}

#[test]
fn negate_brackets() {
    let input = String::from("-(2+3*1)");
    let mut parser = Parser::new(&input);
    assert_eq!(Some("-5".to_string()), parser.result(float_arith));
}

#[test]
fn double_negate_brackets() {
    let input = String::from("-(-3)");
    let mut parser = Parser::new(&input);
    assert_eq!(Some("3".to_string()), parser.result(float_arith));
}

#[test]
fn negative_multiplication() {
    let input = String::from("2 * (-1)");
    let mut parser = Parser::new(&input);
    assert_eq!(Some("-2".to_string()), parser.result(float_arith));
}

#[test]
fn simple_sum() {
    let input = String::from("1 + 2");
    let mut parser = Parser::new(&input);
    assert_eq!(Some("3".to_string()), parser.result(float_arith));
}

#[test]
fn multiple_with_brackets() {
    let input = String::from("2(1 + 2)");
    let mut parser = Parser::new(&input);
    assert_eq!(Some("6".to_string()), parser.result(float_arith));
}

#[test]
fn multiple_two_brackets() {
    let input = String::from("(1 + 2)(2)");
    let mut parser = Parser::new(&input);
    assert_eq!(Some("6".to_string()), parser.result(float_arith));
}

#[test]
fn checks_correct_operator_order() {
    let input = String::from("2(1 + 2)/2+2");
    let mut parser = Parser::new(&input);
    assert_eq!(Some("5".to_string()), parser.result(float_arith));
}

#[test]
fn two_operators_without_number_in_between() {
    let input = String::from("2++2");
    let mut parser = Parser::new(&input);
    assert_eq!(
        parser.evaluate(float_arith),
        Err(EvaluationError::Syntax(SyntaxError::TwoOperators))
    );
    assert_eq!(parser.result(float_arith), None);
    assert_eq!(
        SyntaxError::TwoOperators.message(),
        "operator followed by another operator"
    );
}

#[test]
fn two_numbers_without_operator_in_between() {
    let input = String::from("2 2");
    let mut parser = Parser::new(&input);
    assert_eq!(
        parser.evaluate(float_arith),
        Err(EvaluationError::Syntax(SyntaxError::TwoNumbers))
    );
    assert_eq!(parser.result(float_arith), None);
    assert_eq!(
        SyntaxError::TwoNumbers.message(),
        "two numbers without operator in between"
    );
}

#[test]
fn missing_operator_after_closing_bracket() {
    let input = String::from("(2)2");
    let mut parser = Parser::new(&input);
    assert_eq!(
        parser.evaluate(float_arith),
        Err(EvaluationError::Syntax(SyntaxError::MissingOperator))
    );
    assert_eq!(parser.result(float_arith), None);
    assert_eq!(
        SyntaxError::MissingOperator.message(),
        "missing operator after closing bracket"
    );
}

#[test]
fn char_not_recognized() {
    let input = String::from("2 + x");
    let mut parser = Parser::new(&input);
    assert_eq!(
        parser.evaluate(float_arith),
        Err(EvaluationError::Syntax(SyntaxError::UnrecognizedChar('x')))
    );
    assert_eq!(parser.result(float_arith), None);
    assert_eq!(
        SyntaxError::UnrecognizedChar('x').message(),
        "Char 'x' not recognized"
    );
}
