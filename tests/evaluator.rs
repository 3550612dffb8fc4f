use dppi::ast::ParserError;
use dppi::evaluator::Evaluator;
use dppi::object::{EvalError, Object};
use dppi::token::TokenKind;

#[test]
fn eval_integer_literal() {
    let input = "5";
    let mut evaluator = Evaluator::new(input);
    let result = &evaluator.eval_program().unwrap()[0];
    assert_eq!(result, &Object::IntegerValue(5));
}

#[test]
fn eval_block_statement() {
    let input = r#"
            a = 2

            scope {
                b = 3
                b
            }

            a
        "#;
    let mut evaluator = Evaluator::new(input);
    let result = &evaluator.eval_program().unwrap()[2];
    assert_eq!(result, &Object::IntegerValue(2));
}

#[test]
fn eval_assign_statement() {
    let input = r#"
            a = 2
            a
        "#;
    let mut evaluator = Evaluator::new(input);
    let result = &evaluator.eval_program().unwrap()[1];
    assert_eq!(result, &Object::IntegerValue(2));
}

fn run(input: &str) -> Result<Vec<Object>, EvalError> {
    Evaluator::new(input).eval_program()
}

#[test]
fn single_literals_evaluate_to_themselves() {
    for n in [0isize, 7, 42, 1000, 9_223_372_036_854_775_807] {
        let text = format!("{}", n);
        assert_eq!(run(&text).unwrap(), vec![Object::IntegerValue(n)]);
    }
}

#[test]
fn assignment_then_reference() {
    assert_eq!(
        run("a = 2\na").unwrap(),
        vec![Object::NullValue, Object::IntegerValue(2)]
    );
}

#[test]
fn block_bindings_stay_inside() {
    assert_eq!(
        run("a = 2\nscope { b = 3\nb }\na").unwrap(),
        vec![Object::NullValue, Object::IntegerValue(3), Object::IntegerValue(2)]
    );
    assert_eq!(
        run("scope { b = 3 }\nb").unwrap(),
        vec![Object::NullValue, Object::NullValue]
    );
}

#[test]
fn shadowing_leaves_outer_binding() {
    let results = run("a = 2\nscope { a = 9 }\na").unwrap();
    assert_eq!(results.last(), Some(&Object::IntegerValue(2)));
    assert_eq!(
        run("a = 2\nscope { a = 9\na }").unwrap(),
        vec![Object::NullValue, Object::IntegerValue(9)]
    );
}

#[test]
fn inner_block_reads_outer_binding() {
    assert_eq!(
        run("a = 4 scope { scope { a } }").unwrap(),
        vec![Object::NullValue, Object::IntegerValue(4)]
    );
}

#[test]
fn reassignment_overwrites() {
    assert_eq!(
        run("a = 1 a = 5 a").unwrap(),
        vec![Object::NullValue, Object::NullValue, Object::IntegerValue(5)]
    );
}

#[test]
fn unbound_identifier_is_null() {
    assert_eq!(run("missing").unwrap(), vec![Object::NullValue]);
}

#[test]
fn empty_block_and_empty_program() {
    assert_eq!(run("scope { }").unwrap(), vec![Object::NullValue]);
    assert_eq!(run("").unwrap(), vec![]);
    assert_eq!(run(" \n\t ").unwrap(), vec![]);
}

#[test]
fn missing_brace_fails_without_results() {
    match run("scope 5") {
        Err(EvalError::ParsingError(ParserError::UnexpectedToken(t))) => {
            assert_eq!(t.kind, TokenKind::Integer);
            assert_eq!(t.literal, "5");
        }
        other => panic!("unexpected result: {:?}", other),
    }
}

#[test]
fn error_after_valid_statements_gives_no_output() {
    let mut evaluator = Evaluator::new("print 1\na = 2\nscope { 3");
    match evaluator.eval_program() {
        Err(EvalError::ParsingError(ParserError::UnexpectedToken(t))) => {
            assert_eq!(t.kind, TokenKind::Eof);
        }
        other => panic!("unexpected result: {:?}", other),
    }
    assert!(evaluator.output.is_empty());
}

#[test]
fn illegal_character_is_rejected_by_parser() {
    match run("a = $") {
        Err(EvalError::ParsingError(ParserError::UnexpectedToken(t))) => {
            assert_eq!(t.kind, TokenKind::Illegal);
            assert_eq!(t.literal, "$");
        }
        other => panic!("unexpected result: {:?}", other),
    }
}

#[test]
fn assign_without_value_is_rejected() {
    match run("a = }") {
        Err(EvalError::ParsingError(ParserError::UnexpectedToken(t))) => {
            assert_eq!(t.kind, TokenKind::RightBrace);
        }
        other => panic!("unexpected result: {:?}", other),
    }
}

#[test]
fn literal_too_large_is_range_error() {
    match run("9223372036854775808") {
        Err(EvalError::ParsingError(ParserError::IntConversionError(text))) => {
            assert_eq!(text, "9223372036854775808");
        }
        other => panic!("unexpected result: {:?}", other),
    }
}

#[test]
fn fresh_evaluators_agree() {
    let text = "a = 2\nprint a\nscope { a = 3 print a a }\na";
    let mut first = Evaluator::new(text);
    let mut second = Evaluator::new(text);
    let r1 = first.eval_program().unwrap();
    let r2 = second.eval_program().unwrap();
    assert_eq!(r1, r2);
    assert_eq!(first.output, second.output);
}

#[test]
fn print_collects_lines() {
    let mut evaluator = Evaluator::new("a = 12\nprint a\nprint missing\nscope { print 0 }");
    let results = evaluator.eval_program().unwrap();
    assert_eq!(
        results,
        vec![Object::NullValue, Object::NullValue, Object::NullValue, Object::NullValue]
    );
    assert_eq!(evaluator.output, vec!["12".to_string(), "null".to_string(), "0".to_string()]);
}

#[test]
fn object_text() {
    assert_eq!(Object::IntegerValue(-45).to_string(), "-45");
    assert_eq!(Object::IntegerValue(307).to_string(), "307");
    assert_eq!(Object::NullValue.to_string(), "null");
}

#[test]
fn object_text_extremes() {
    assert_eq!(Object::IntegerValue(isize::MIN).to_string(), isize::MIN.to_string());
    assert_eq!(Object::IntegerValue(isize::MAX).to_string(), isize::MAX.to_string());
    assert_eq!(Object::IntegerValue(0).to_string(), "0");
    assert_eq!(Object::IntegerValue(-9).to_string(), "-9");
    assert_eq!(Object::IntegerValue(10).to_string(), "10");
}
