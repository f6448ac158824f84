use olisp::expression::Expression;
use olisp::expression_literal_value::LiteralValue;
use olisp::parser::Parser;
use olisp::scanner::Scanner;
use olisp::statement::Statement;
use olisp::token::LiteralValue as TokenLiteral;
use olisp::token::Token;
use olisp::token::TokenType;

#[test]
fn test_addition() {
    let tokens = vec![
        Token::new(
            TokenType::Number,
            "1".to_string(),
            Some(TokenLiteral::IntValue(1)),
            0,
        ),
        Token::new(TokenType::Plus, "+".to_string(), None, 0),
        Token::new(
            TokenType::Number,
            "2".to_string(),
            Some(TokenLiteral::IntValue(2)),
            0,
        ),
        Token::new(TokenType::Semicolon, ";".to_string(), None, 0),
    ];

    let mut parser = Parser::new(tokens);

    let parsed_expression = parser.expression();

    assert!(parsed_expression.is_ok());
    assert_eq!(parsed_expression.unwrap().to_string(), "(+ 1 2)");
}

#[test]
fn test_comparison() {
    let source = "1 + 2 == 5 + 7";
    let mut scanner: Scanner = Scanner::new(source);

    let tokens = scanner.scan_tokens().unwrap();

    let mut parser = Parser::new(tokens);

    let expression = parser.expression();

    assert!(expression.is_ok());
    let string_expression = expression.unwrap().to_string();

    assert_eq!(string_expression, "(== (+ 1 2) (+ 5 7))");
}

#[test]
fn parser_tests_test_bang_operator() {
    let source = "!!2";
    let mut scanner: Scanner = Scanner::new(source);

    let tokens = scanner.scan_tokens().unwrap();

    let mut parser = Parser::new(tokens);

    let expression = parser.expression();

    assert!(expression.is_ok());
    let string_expression = expression.unwrap().to_string();

    assert_eq!(string_expression, "(! (! 2))");
}

#[test]
fn test_factor_and_term_operators() {
    let source = "12 / 2 + 3";
    let mut scanner: Scanner = Scanner::new(source);

    let tokens = scanner.scan_tokens().unwrap();

    let mut parser = Parser::new(tokens);

    let expression = parser.expression();

    assert!(expression.is_ok());

    let string_expression = expression.unwrap().to_string();

    assert_eq!(string_expression, "(+ (/ 12 2) 3)");
}

#[test]
fn test_variable_declaration_operators() {
    let source = "var some_id;";
    let mut scanner: Scanner = Scanner::new(source);

    let tokens = scanner.scan_tokens().unwrap();

    let mut parser = Parser::new(tokens);

    let expression = parser.parse();
    let response = Statement::Variable {
        token: Token {
            token_type: TokenType::Identifier,
            lexeme: String::from("some_id"),
            literal: None,
            line: 1,
        },
        initializer: Expression::Literal {
            value: LiteralValue::Nil,
        },
    };

    assert!(expression.is_ok());

    let string_expression = expression.unwrap();
    assert_eq!(string_expression.len(), 1);
    assert_eq!(string_expression[0], response);
}

#[test]
fn test_variable_assignment_operators() {
    let source = "some_id = 2;";
    let mut scanner: Scanner = Scanner::new(source);

    let tokens = scanner.scan_tokens().unwrap();

    let mut parser = Parser::new(tokens);

    let expression = parser.parse();
    let response = Statement::Expression {
        expression: Expression::Assign {
            name: String::from("some_id"),
            value: Box::new(Expression::Literal {
                value: LiteralValue::IntValue(2),
            }),
        },
    };

    assert!(expression.is_ok());

    let string_expression = expression.unwrap();
    assert_eq!(string_expression.len(), 1);
    assert_eq!(string_expression[0], response);
}

#[test]
fn test_print_operator() {
    let source = "print \"hello\";";
    let mut scanner: Scanner = Scanner::new(source);

    let tokens = scanner.scan_tokens().unwrap();

    let mut parser = Parser::new(tokens);

    let expression = parser.parse();
    let response = Statement::Print {
        expression: Expression::Literal {
            value: LiteralValue::StringValue(String::from("hello")),
        },
    };

    assert!(expression.is_ok());

    let string_expression = expression.unwrap();
    assert_eq!(string_expression.len(), 1);
    assert_eq!(string_expression[0], response);
}

#[test]
fn test_blocks() {
    let source = "{a=1;}";
    let mut scanner: Scanner = Scanner::new(source);

    let tokens = scanner.scan_tokens().unwrap();

    let mut parser = Parser::new(tokens);

    let expression = parser.parse();
    let response = Statement::Block {
        statements: vec![Statement::Expression {
            expression: Expression::Assign {
                name: String::from("a"),
                value: Box::new(Expression::Literal {
                    value: LiteralValue::IntValue(1),
                }),
            },
        }],
    };

    assert!(expression.is_ok());

    let string_expression = expression.unwrap();
    assert_eq!(string_expression.len(), 1);
    assert_eq!(string_expression[0], response);
}
