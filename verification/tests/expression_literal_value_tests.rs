use std::rc::Rc;

use olisp::dec::Dec;
use olisp::expression_literal_value::{FunKind, LiteralValue};
use olisp::token::{LiteralValue as TokenLiteral, Token, TokenType};

/// A callable that takes `arity` parameters and returns nil, standing in
/// for the stub closures the original cases carried.
fn nil_callable(name: &str, arity: usize) -> LiteralValue {
    let mut params: Vec<String> = Vec::new();
    let mut k = 0;
    while k < arity {
        params.push(format!("p{}", k));
        k += 1;
    }
    LiteralValue::Callable {
        name: name.to_string(),
        arity,
        fun: FunKind::Declared {
            params,
            body: Rc::new(Vec::new()),
            closure: 0,
        },
    }
}

#[test]
fn literal_value_to_string() {
    let literals = vec![
        LiteralValue::Nil,
        LiteralValue::False,
        LiteralValue::True,
        LiteralValue::IntValue(12),
        LiteralValue::StringValue(String::from("Hello")),
        LiteralValue::FValue(Dec::new(11, -1)),
    ];

    let responses = vec!["nil", "false", "true", "12", "Hello", "1.1"]
        .iter()
        .map(|response| String::from(*response))
        .collect::<Vec<String>>();

    let result = literals
        .iter()
        .map(|literal| literal.to_string())
        .collect::<Vec<String>>();

    assert_eq!(result, responses);
}

#[test]
fn test_debug_output() {
    let test_cases = vec![
        (LiteralValue::IntValue(42), "42"),
        (LiteralValue::FValue(Dec::new(314, -2)), "3.14"),
        (LiteralValue::StringValue("hello".to_string()), "\"hello\""),
        (LiteralValue::True, "true"),
        (LiteralValue::False, "false"),
        (LiteralValue::Nil, "nil"),
        (
            nil_callable("my_func", 2),
            "Callable { name: my_func, arity: 2 }",
        ),
    ];

    for (input, expected) in test_cases {
        assert_eq!(input.debug_string(), expected);
    }
}

#[test]
fn test_partial_eq() {
    let test_cases = vec![
        (LiteralValue::IntValue(42), LiteralValue::IntValue(42), true),
        (
            LiteralValue::FValue(Dec::new(314, -2)),
            LiteralValue::FValue(Dec::new(314, -2)),
            true,
        ),
        (
            LiteralValue::FValue(Dec::new(314, -2)),
            LiteralValue::FValue(Dec::new(314159, -5)),
            false,
        ),
        (
            LiteralValue::StringValue("hello".to_string()),
            LiteralValue::StringValue("hello".to_string()),
            true,
        ),
        (LiteralValue::True, LiteralValue::True, true),
        (LiteralValue::False, LiteralValue::False, true),
        (LiteralValue::Nil, LiteralValue::Nil, true),
        (nil_callable("my_func", 2), nil_callable("my_func", 2), true),
        (
            nil_callable("my_func", 2),
            nil_callable("other_func", 2),
            false,
        ),
    ];

    for (a, b, expected) in test_cases {
        assert_eq!(a == b, expected);
    }
}

#[test]
fn literal_value_to_type() {
    let literals = vec![
        LiteralValue::Nil,
        LiteralValue::False,
        LiteralValue::True,
        LiteralValue::IntValue(12),
        LiteralValue::StringValue(String::from("Hello")),
        LiteralValue::FValue(Dec::new(11, -1)),
        nil_callable("other_func", 2),
    ];

    let responses = vec!["Nil", "Bool", "Bool", "Int", "String", "Float", "Callable"];

    let result = literals
        .iter()
        .map(|literal| literal.to_type())
        .collect::<Vec<&str>>();

    assert_eq!(result, responses);
}

#[test]
fn test_from_token() {
    let tokens = vec![
        Token::new(TokenType::False, "".to_string(), None, 0),
        Token::new(TokenType::True, "".to_string(), None, 0),
        Token::new(TokenType::Nil, "".to_string(), None, 0),
        Token::new(
            TokenType::Number,
            "12".to_string(),
            Some(TokenLiteral::IntValue(12)),
            0,
        ),
        Token::new(
            TokenType::String,
            "hello".to_string(),
            Some(TokenLiteral::StringValue(String::from("hello"))),
            0,
        ),
    ];

    let responses: Vec<LiteralValue> = vec![
        LiteralValue::False,
        LiteralValue::True,
        LiteralValue::Nil,
        LiteralValue::IntValue(12),
        LiteralValue::StringValue(String::from("hello")),
    ];

    let evaluated_expressions = tokens
        .iter()
        .map(|token| LiteralValue::from_token(token.clone()))
        .collect::<Vec<LiteralValue>>();

    assert_eq!(evaluated_expressions, responses);
}
