use std::rc::Rc;

use olisp::dec::Dec;
use olisp::environment::Environment;
use olisp::expression::Expression;
use olisp::expression_literal_value::{FunKind, LiteralValue};
use olisp::parser::Parser;
use olisp::scanner::Scanner;
use olisp::statement::Statement;
use olisp::token::Token;
use olisp::token::TokenType;

/// A callable that ignores its arguments and returns `2`, like the stub
/// closures the evaluation helpers below install.
fn stub_callable(name: &str, arity: usize) -> LiteralValue {
    let mut params: Vec<String> = Vec::new();
    let mut k = 0;
    while k < arity {
        params.push(format!("p{}", k));
        k += 1;
    }
    LiteralValue::Callable {
        name: name.to_string(),
        arity,
        fun: FunKind::Declared {
            params,
            body: Rc::new(vec![Statement::Return {
                value: Some(Expression::Literal {
                    value: LiteralValue::IntValue(2),
                }),
            }]),
            closure: 0,
        },
    }
}

fn evaluate_list_of_sources(sources: &Vec<&str>) -> Vec<Result<LiteralValue, String>> {
    sources
        .iter()
        .map(|source| {
            let mut environment = Environment::new();
            environment.define(String::from("clock"), stub_callable("clock", 0));
            environment.define(String::from("test"), stub_callable("test", 2));
            environment.define(String::from("testVariable"), LiteralValue::False);
            let mut scanner: Scanner = Scanner::new(source);
            let tokens = scanner.scan_tokens().unwrap();
            let mut parser = Parser::new(tokens);
            let expression = parser.expression().unwrap();
            expression.evaluate(&mut environment)
        })
        .collect::<Vec<Result<LiteralValue, String>>>()
}

fn get_inputs<'a>(test_cases: &'a Vec<(&'a str, Result<LiteralValue, String>)>) -> Vec<&'a str> {
    test_cases
        .iter()
        .map(|(input, _)| *input)
        .collect::<Vec<&str>>()
}

fn get_expected_results<'a>(
    test_cases: &'a Vec<(&'a str, Result<LiteralValue, String>)>,
) -> Vec<Result<LiteralValue, String>> {
    test_cases
        .iter()
        .map(|(_, output)| output.clone())
        .collect::<Vec<Result<LiteralValue, String>>>()
}

#[test]
fn expression_tests_pretty_print() {
    let expression: Expression = Expression::Binary {
        left: Box::new(Expression::Unary {
            operator: Token::new(TokenType::Minus, String::from("-"), None, 1),
            right: Box::new(Expression::Literal {
                value: LiteralValue::IntValue(123),
            }),
        }),
        operator: Token::new(TokenType::Star, String::from("*"), None, 1),
        right: Box::new(Expression::Grouping {
            group: Box::new(Expression::Literal {
                value: LiteralValue::FValue(Dec::new(4567, -2)),
            }),
        }),
    };

    let result = expression.to_string();
    assert_eq!(result, "(* (- 123) (group 45.67))");
}

#[test]
fn pretty_print_logical() {
    let expression: Expression = Expression::Logical {
        left: Box::new(Expression::Unary {
            operator: Token::new(TokenType::Minus, String::from("-"), None, 1),
            right: Box::new(Expression::Literal {
                value: LiteralValue::IntValue(123),
            }),
        }),
        operator: Token::new(TokenType::Or, String::from("or"), None, 1),
        right: Box::new(Expression::Grouping {
            group: Box::new(Expression::Literal {
                value: LiteralValue::FValue(Dec::new(4567, -2)),
            }),
        }),
    };

    let result = expression.to_string();
    assert_eq!(result, "(or (- 123) (group 45.67))");
}

#[test]
fn pretty_print_variable() {
    let expression: Expression = Expression::Variable {
        token: Token {
            token_type: TokenType::Identifier,
            lexeme: String::from("a"),
            literal: None,
            line: 1,
        },
    };

    let result = expression.to_string();
    assert_eq!(result, "(defvar a)");
}

#[test]
fn pretty_print_variable_with_value() {
    let expression: Expression = Expression::Variable {
        token: Token {
            token_type: TokenType::String,
            lexeme: String::from("a"),
            literal: Some(olisp::token::LiteralValue::StringValue(String::from(
                "hello",
            ))),
            line: 1,
        },
    };

    let result = expression.to_string();
    assert_eq!(result, "(defvar a hello)");
}

#[test]
fn pretty_print_assignment() {
    let expression: Expression = Expression::Assign {
        name: String::from("a"),
        value: Box::new(Expression::Literal {
            value: LiteralValue::IntValue(12),
        }),
    };

    let result = expression.to_string();
    assert_eq!(result, "(= a 12)");
}

#[test]
fn pretty_print_call() {
    let source = "call(1,2,3)";
    let mut scanner: Scanner = Scanner::new(source);
    let tokens = scanner.scan_tokens().unwrap();
    let mut parser = Parser::new(tokens);
    let expression = parser.expression().unwrap();

    let result = expression.to_string();
    assert_eq!(result, "((defvar call) [1,2,3])");
}

#[test]
fn expression_tests_test_bang_operator() {
    let test_cases: Vec<(&str, Result<LiteralValue, String>)> = vec![
        ("!0", Ok(LiteralValue::True)),
        ("!0.0", Ok(LiteralValue::True)),
        ("!\"hello\"", Ok(LiteralValue::False)),
        ("!nil", Ok(LiteralValue::True)),
        ("!!true", Ok(LiteralValue::True)),
        ("!true", Ok(LiteralValue::False)),
    ];

    let inputs = get_inputs(&test_cases);
    let expected_results = get_expected_results(&test_cases);

    let results = evaluate_list_of_sources(&inputs);

    assert_eq!(results, expected_results);
}

#[test]
fn test_minus_unary_operator() {
    let test_cases: Vec<(&str, Result<LiteralValue, String>)> = vec![
        ("-1", Ok(LiteralValue::IntValue(-1))),
        ("-1.0", Ok(LiteralValue::FValue(Dec::new(-1, 0)))),
        ("--12", Ok(LiteralValue::IntValue(12))),
        (
            "-true",
            Err(String::from("Minus not implemented for Bool")),
        ),
    ];

    let inputs = get_inputs(&test_cases);
    let expected_results = get_expected_results(&test_cases);

    let results = evaluate_list_of_sources(&inputs);

    assert_eq!(results, expected_results);
}

#[test]
fn evaluate_group() {
    let source = "( 1 + 2 )";

    let mut environment = Environment::new();
    let mut scanner: Scanner = Scanner::new(source);
    let tokens = scanner.scan_tokens().unwrap();
    let mut parser = Parser::new(tokens);
    let expression = parser.expression();

    assert!(expression.is_ok());
    let evaluation = expression.unwrap().evaluate(&mut environment);

    assert_eq!(evaluation.unwrap(), LiteralValue::IntValue(3));
}

#[test]
fn expression_tests_evaluate_complex_int_float_returns_result() {
    let mut environment = Environment::new();
    let source = "2 * 2.5 + 5 / 2";
    let mut scanner: Scanner = Scanner::new(source);
    let tokens = scanner.scan_tokens().unwrap();
    let mut parser = Parser::new(tokens);
    let expression = parser.expression();

    assert!(expression.is_ok());
    let evaluation = expression.unwrap().evaluate(&mut environment);

    assert_eq!(evaluation.unwrap(), LiteralValue::FValue(Dec::new(7, 0)));
}

#[test]
fn test_plus_operator() {
    let test_cases: Vec<(&str, Result<LiteralValue, String>)> = vec![
        ("5+5", Ok(LiteralValue::IntValue(10))),
        ("5+5.5", Ok(LiteralValue::FValue(Dec::new(105, -1)))),
        ("5.5+5", Ok(LiteralValue::FValue(Dec::new(105, -1)))),
        ("5.5+5.5", Ok(LiteralValue::FValue(Dec::new(11, 0)))),
        ("\"a\" + \"a\"", Ok(LiteralValue::StringValue(String::from("aa")))),
        ("\"a\" + 5", Ok(LiteralValue::StringValue(String::from("a5")))),
        (
            "\"a\" + 5.5",
            Ok(LiteralValue::StringValue(String::from("a5.5"))),
        ),
        (
            "5.5 + \"a\"",
            Ok(LiteralValue::StringValue(String::from("5.5a"))),
        ),
        (
            "true + false",
            Err(String::from(
                "Plus operation is not implemented for: true and false",
            )),
        ),
    ];

    let inputs = get_inputs(&test_cases);
    let expected_results = get_expected_results(&test_cases);

    let results = evaluate_list_of_sources(&inputs);

    assert_eq!(results, expected_results);
}

#[test]
fn test_minus_operator() {
    let test_cases: Vec<(&str, Result<LiteralValue, String>)> = vec![
        ("5-5", Ok(LiteralValue::IntValue(0))),
        ("5-5.5", Ok(LiteralValue::FValue(Dec::new(-5, -1)))),
        ("5.5-5", Ok(LiteralValue::FValue(Dec::new(5, -1)))),
        ("6.0-5.5", Ok(LiteralValue::FValue(Dec::new(5, -1)))),
        (
            "\"a\" - \"a\"",
            Err(String::from(
                "Minus operation is not implemented for: a and a",
            )),
        ),
    ];

    let inputs = get_inputs(&test_cases);
    let expected_results = get_expected_results(&test_cases);

    let results = evaluate_list_of_sources(&inputs);

    assert_eq!(results, expected_results);
}

#[test]
fn test_star_operator() {
    let test_cases: Vec<(&str, Result<LiteralValue, String>)> = vec![
        ("5*5", Ok(LiteralValue::IntValue(25))),
        ("5*5.5", Ok(LiteralValue::FValue(Dec::new(275, -1)))),
        ("5.5*5", Ok(LiteralValue::FValue(Dec::new(275, -1)))),
        ("6.0*5.5", Ok(LiteralValue::FValue(Dec::new(33, 0)))),
        (
            "\"a\" * \"a\"",
            Err(String::from(
                "Star operation is not implemented for: a and a",
            )),
        ),
    ];

    let inputs = get_inputs(&test_cases);
    let expected_results = get_expected_results(&test_cases);

    let results = evaluate_list_of_sources(&inputs);

    assert_eq!(results, expected_results);
}

#[test]
fn test_slash_operator() {
    let test_cases: Vec<(&str, Result<LiteralValue, String>)> = vec![
        ("5/5", Ok(LiteralValue::IntValue(1))),
        ("9/1.5", Ok(LiteralValue::FValue(Dec::new(6, 0)))),
        ("5.5/5", Ok(LiteralValue::FValue(Dec::new(11, -1)))),
        ("27.5/5.5", Ok(LiteralValue::FValue(Dec::new(5, 0)))),
        (
            "\"a\" / \"a\"",
            Err(String::from(
                "Slash operation is not implemented for: a and a",
            )),
        ),
        ("5/0", Err(String::from("Division by 0"))),
        ("5/0.0", Err(String::from("Division by 0"))),
    ];

    let inputs = get_inputs(&test_cases);
    let expected_results = get_expected_results(&test_cases);

    let results = evaluate_list_of_sources(&inputs);

    assert_eq!(results, expected_results);
}

#[test]
fn test_less_operator() {
    let test_cases: Vec<(&str, Result<LiteralValue, String>)> = vec![
        ("5<5", Ok(LiteralValue::False)),
        ("5<5.5", Ok(LiteralValue::True)),
        ("5.5<5", Ok(LiteralValue::False)),
        ("6.0<5.5", Ok(LiteralValue::False)),
        ("\"a\" < \"a\"", Ok(LiteralValue::False)),
        (
            "false < true",
            Err(String::from(
                "Less operation is not implemented for: false and true",
            )),
        ),
    ];

    let inputs = get_inputs(&test_cases);
    let expected_results = get_expected_results(&test_cases);

    let results = evaluate_list_of_sources(&inputs);

    assert_eq!(results, expected_results);
}

#[test]
fn test_less_equal_operator() {
    let test_cases: Vec<(&str, Result<LiteralValue, String>)> = vec![
        ("5<=5", Ok(LiteralValue::True)),
        ("5<=5.5", Ok(LiteralValue::True)),
        ("5.5<=5", Ok(LiteralValue::False)),
        ("6.0<=5.5", Ok(LiteralValue::False)),
        ("\"a\" <= \"a\"", Ok(LiteralValue::True)),
        (
            "false <= true",
            Err(String::from(
                "LessEqual operation is not implemented for: false and true",
            )),
        ),
    ];

    let inputs = get_inputs(&test_cases);
    let expected_results = get_expected_results(&test_cases);

    let results = evaluate_list_of_sources(&inputs);

    assert_eq!(results, expected_results);
}

#[test]
fn test_greater_operator() {
    let test_cases: Vec<(&str, Result<LiteralValue, String>)> = vec![
        ("5>5", Ok(LiteralValue::False)),
        ("5>5.5", Ok(LiteralValue::False)),
        ("5.5>5", Ok(LiteralValue::True)),
        ("6.0>5.5", Ok(LiteralValue::True)),
        ("\"a\" > \"a\"", Ok(LiteralValue::False)),
        (
            "false > true",
            Err(String::from(
                "Greater operation is not implemented for: false and true",
            )),
        ),
    ];

    let inputs = get_inputs(&test_cases);
    let expected_results = get_expected_results(&test_cases);

    let results = evaluate_list_of_sources(&inputs);

    assert_eq!(results, expected_results);
}

#[test]
fn test_greater_equal_operator() {
    let test_cases: Vec<(&str, Result<LiteralValue, String>)> = vec![
        ("5>=5", Ok(LiteralValue::True)),
        ("5>=5.5", Ok(LiteralValue::False)),
        ("5.5>=5", Ok(LiteralValue::True)),
        ("6.0>=5.5", Ok(LiteralValue::True)),
        ("\"a\" >= \"a\"", Ok(LiteralValue::True)),
        (
            "false >= true",
            Err(String::from(
                "GreaterEqual operation is not implemented for: false and true",
            )),
        ),
    ];

    let inputs = get_inputs(&test_cases);
    let expected_results = get_expected_results(&test_cases);

    let results = evaluate_list_of_sources(&inputs);

    assert_eq!(results, expected_results);
}

#[test]
fn test_equal_operator() {
    let test_cases: Vec<(&str, Result<LiteralValue, String>)> = vec![
        ("5==5", Ok(LiteralValue::True)),
        ("5!=5.5", Ok(LiteralValue::True)),
        ("\"a\" ==\"a\"", Ok(LiteralValue::True)),
    ];

    let inputs = get_inputs(&test_cases);
    let expected_results = get_expected_results(&test_cases);

    let results = evaluate_list_of_sources(&inputs);

    assert_eq!(results, expected_results);
}

#[test]
fn test_logical_operators() {
    let test_cases: Vec<(&str, Result<LiteralValue, String>)> = vec![
        ("\"hi\" or 2", Ok(LiteralValue::StringValue(String::from("hi")))),
        (
            "nil or \"yes\"",
            Ok(LiteralValue::StringValue(String::from("yes"))),
        ),
        ("5.5 and 5", Ok(LiteralValue::IntValue(5))),
        ("0 and 5", Ok(LiteralValue::IntValue(0))),
    ];

    let inputs = get_inputs(&test_cases);
    let expected_results = get_expected_results(&test_cases);

    let results = evaluate_list_of_sources(&inputs);

    assert_eq!(results, expected_results);
}

#[test]
fn test_call_operator() {
    let test_cases: Vec<(&str, Result<LiteralValue, String>)> = vec![
        ("clock()", Ok(LiteralValue::IntValue(2))),
        (
            "clock(1)",
            Err(String::from("Expected 0 arguments but got 1.")),
        ),
        ("test(2+2,5+5)", Ok(LiteralValue::IntValue(2))),
        (
            "testVariable(2+2,5+5)",
            Err(String::from("Cannot use Bool as callable")),
        ),
        (
            "nonExistingFunction(2+2,5+5)",
            Err(String::from("Undefined variable nonExistingFunction")),
        ),
    ];

    let inputs = get_inputs(&test_cases);
    let expected_results = get_expected_results(&test_cases);

    let results = evaluate_list_of_sources(&inputs);

    assert_eq!(results, expected_results);
}

#[test]
fn expr_pretty_print() {
    let expression: Expression = Expression::Binary {
        left: Box::new(Expression::Unary {
            operator: Token::new(TokenType::Minus, String::from("-"), None, 1),
            right: Box::new(Expression::Literal {
                value: LiteralValue::IntValue(123),
            }),
        }),
        operator: Token::new(TokenType::Star, String::from("*"), None, 1),
        right: Box::new(Expression::Grouping {
            group: Box::new(Expression::Literal {
                value: LiteralValue::FValue(Dec::new(4567, -2)),
            }),
        }),
    };

    let result = expression.to_string();
    assert_eq!(result, "(* (- 123) (group 45.67))");
}

#[test]
fn evaluate_bang_bang() {
    let source = "!!true";
    let mut environment = Environment::new();
    let mut scanner: Scanner = Scanner::new(source);
    let tokens = scanner.scan_tokens().unwrap();
    let mut parser = Parser::new(tokens);
    let expression = parser.expression();

    assert!(expression.is_ok());
    let evaluation = expression.unwrap().evaluate(&mut environment);

    assert!(evaluation.is_ok());

    assert_eq!(evaluation.unwrap(), LiteralValue::True);
}

#[test]
fn evaluate_bang() {
    let source = "!true";
    let mut environment = Environment::new();
    let mut scanner: Scanner = Scanner::new(source);
    let tokens = scanner.scan_tokens().unwrap();
    let mut parser = Parser::new(tokens);
    let expression = parser.expression();

    assert!(expression.is_ok());
    let evaluation = expression.unwrap().evaluate(&mut environment);

    assert!(evaluation.is_ok());

    assert_eq!(evaluation.unwrap(), LiteralValue::False);
}

#[test]
fn evaluate_minus_int() {
    let source = "-12";
    let mut environment = Environment::new();
    let mut scanner: Scanner = Scanner::new(source);
    let tokens = scanner.scan_tokens().unwrap();
    let mut parser = Parser::new(tokens);
    let expression = parser.expression();

    assert!(expression.is_ok());
    let evaluation = expression.unwrap().evaluate(&mut environment);

    assert_eq!(evaluation.unwrap(), LiteralValue::IntValue(-12));
}

#[test]
fn evaluate_minus_double() {
    let source = "-12.0";
    let mut environment = Environment::new();
    let mut scanner: Scanner = Scanner::new(source);
    let tokens = scanner.scan_tokens().unwrap();
    let mut parser = Parser::new(tokens);
    let expression = parser.expression();

    assert!(expression.is_ok());
    let evaluation = expression.unwrap().evaluate(&mut environment);

    assert_eq!(evaluation.unwrap(), LiteralValue::FValue(Dec::new(-12, 0)));
}

#[test]
fn evaluate_int_returns_sum() {
    let source = "5 + 2";
    let mut environment = Environment::new();
    let mut scanner: Scanner = Scanner::new(source);
    let tokens = scanner.scan_tokens().unwrap();
    let mut parser = Parser::new(tokens);
    let expression = parser.expression();

    assert!(expression.is_ok());
    let evaluation = expression.unwrap().evaluate(&mut environment);

    assert_eq!(evaluation.unwrap(), LiteralValue::IntValue(7));
}

#[test]
fn evaluate_string_returns_sum() {
    let source = "\"hello \" + \"world\"";
    let mut environment = Environment::new();
    let mut scanner: Scanner = Scanner::new(source);
    let tokens = scanner.scan_tokens().unwrap();
    let mut parser = Parser::new(tokens);
    let expression = parser.expression();

    assert!(expression.is_ok());
    let evaluation = expression.unwrap().evaluate(&mut environment);

    assert_eq!(
        evaluation.unwrap(),
        LiteralValue::StringValue(String::from("hello world"))
    );
}

#[test]
fn evaluate_float_and_int_returns_float_mult() {
    let source = "2 * 2.5";
    let mut environment = Environment::new();
    let mut scanner: Scanner = Scanner::new(source);
    let tokens = scanner.scan_tokens().unwrap();
    let mut parser = Parser::new(tokens);
    let expression = parser.expression();

    assert!(expression.is_ok());
    let evaluation = expression.unwrap().evaluate(&mut environment);

    assert_eq!(evaluation.unwrap(), LiteralValue::FValue(Dec::new(5, 0)));
}

#[test]
fn evaluate_string_float_returns_sum() {
    let source = "\"hello \" + 2";
    let mut environment = Environment::new();
    let mut scanner: Scanner = Scanner::new(source);
    let tokens = scanner.scan_tokens().unwrap();
    let mut parser = Parser::new(tokens);
    let expression = parser.expression();

    assert!(expression.is_ok());
    let evaluation = expression.unwrap().evaluate(&mut environment);

    assert_eq!(
        evaluation.unwrap(),
        LiteralValue::StringValue(String::from("hello 2"))
    );
}

#[test]
fn expr_evaluate_complex_int_float_returns_result() {
    let source = "2 * 2.5 + 5 / 2";
    let mut environment = Environment::new();
    let mut scanner: Scanner = Scanner::new(source);
    let tokens = scanner.scan_tokens().unwrap();
    let mut parser = Parser::new(tokens);
    let expression = parser.expression();

    assert!(expression.is_ok());
    let evaluation = expression.unwrap().evaluate(&mut environment);

    assert_eq!(evaluation.unwrap(), LiteralValue::FValue(Dec::new(7, 0)));
}

#[test]
fn evaluate_comparison_of_strings_of_same_length() {
    let source = "\"ac\" < \"ab\"";
    let mut environment = Environment::new();
    let mut scanner: Scanner = Scanner::new(source);
    let tokens = scanner.scan_tokens().unwrap();
    let mut parser = Parser::new(tokens);
    let expression = parser.expression();

    assert!(expression.is_ok());
    let evaluation = expression.unwrap().evaluate(&mut environment);

    assert_eq!(evaluation.unwrap(), LiteralValue::False);
}
