use olisp::dec::Dec;
use olisp::scanner::Scanner;
use olisp::token::LiteralValue;
use olisp::token::TokenType;

#[test]
fn handler_one_char_tokens() {
    let source = "((  ))";

    let mut scanner = Scanner::new(source);

    let _ = scanner.scan_tokens();

    assert_eq!(scanner.tokens.len(), 5); // due to Eof token
    assert_eq!(scanner.tokens[0].token_type, TokenType::LeftParen);
    assert_eq!(scanner.tokens[1].token_type, TokenType::LeftParen);
    assert_eq!(scanner.tokens[2].token_type, TokenType::RightParen);
    assert_eq!(scanner.tokens[3].token_type, TokenType::RightParen);
    assert_eq!(scanner.tokens[4].token_type, TokenType::Eof);
}

#[test]
fn handler_simple_tokens() {
    let source = "! != == >= <= < > ,";

    let mut scanner = Scanner::new(source);

    let _ = scanner.scan_tokens();

    assert_eq!(scanner.tokens.len(), 9); // due to Eof token
    assert_eq!(scanner.tokens[0].token_type, TokenType::Bang);
    assert_eq!(scanner.tokens[1].token_type, TokenType::BangEqual);
    assert_eq!(scanner.tokens[2].token_type, TokenType::EqualEqual);
    assert_eq!(scanner.tokens[3].token_type, TokenType::GreaterEqual);
    assert_eq!(scanner.tokens[4].token_type, TokenType::LessEqual);
    assert_eq!(scanner.tokens[5].token_type, TokenType::Less);
    assert_eq!(scanner.tokens[6].token_type, TokenType::Greater);
    assert_eq!(scanner.tokens[7].token_type, TokenType::Comma);
    assert_eq!(scanner.tokens[8].token_type, TokenType::Eof);
}

#[test]
fn handler_string_literal() {
    let source = "\"ABC\"";

    let mut scanner = Scanner::new(source);

    let result = scanner.scan_tokens();

    assert!(result.is_ok());
    assert_eq!(scanner.tokens.len(), 2); // due to Eof token
    assert_eq!(scanner.tokens[0].token_type, TokenType::String);
    match scanner.tokens[0].literal.as_ref().unwrap() {
        LiteralValue::StringValue(val) => assert_eq!(val, "ABC"),
        _ => panic!("Incorrect literal"),
    }

    assert_eq!(scanner.tokens[1].token_type, TokenType::Eof);
}

#[test]
fn handler_string_literal_not_closed_returns_error() {
    let source = "\"AB";

    let mut scanner = Scanner::new(source);

    let result = scanner.scan_tokens();

    assert!(result.is_err());
    assert_eq!(
        result.err(),
        Some("Unterminated string at line 1".to_string())
    );
}

#[test]
fn handler_numeral_trailing_dot_returns_int() {
    let source = "123.";

    let mut scanner = Scanner::new(source);

    let result = scanner.scan_tokens();

    assert!(result.is_ok());
    assert_eq!(scanner.tokens[0].token_type, TokenType::Number);
    match scanner.tokens[0].literal.as_ref().unwrap() {
        LiteralValue::IntValue(val) => assert_eq!(*val, 123),
        _ => panic!("Incorrect literal"),
    }
}

#[test]
fn handler_float_numeral_returns_float_token() {
    let source = "123.15";

    let mut scanner = Scanner::new(source);

    let result = scanner.scan_tokens();

    assert!(result.is_ok());
    assert_eq!(scanner.tokens.len(), 2);
    assert_eq!(scanner.tokens[0].token_type, TokenType::Number);
    match scanner.tokens[0].literal.as_ref().unwrap() {
        LiteralValue::FValue(val) => assert_eq!(*val, Dec::new(12315, -2)),
        _ => panic!("Incorrect literal"),
    }

    assert_eq!(scanner.tokens[1].token_type, TokenType::Eof);
}

#[test]
fn handler_int_numeral_returns_int_token() {
    let source = "123";

    let mut scanner = Scanner::new(source);

    let result = scanner.scan_tokens();

    assert!(result.is_ok());
    assert_eq!(scanner.tokens.len(), 2);
    assert_eq!(scanner.tokens[0].token_type, TokenType::Number);
    match scanner.tokens[0].literal.as_ref().unwrap() {
        LiteralValue::IntValue(val) => assert_eq!(*val, 123),
        _ => panic!("Incorrect literal"),
    }

    assert_eq!(scanner.tokens[1].token_type, TokenType::Eof);
}

#[test]
fn handler_multiline_comments_gets_cut_of() {
    let source = "/*some text\n\n\n*/";

    let mut scanner = Scanner::new(source);

    let result = scanner.scan_tokens();

    assert!(result.is_ok());
    assert_eq!(scanner.tokens.len(), 1);
    assert_eq!(scanner.tokens[0].token_type, TokenType::Eof);
}

#[test]
fn handler_multiline_comments_unclosed_comment_returns_error() {
    let source = "/*some text\n\n";

    let mut scanner = Scanner::new(source);

    let result = scanner.scan_tokens();

    assert!(result.is_err());
    assert_eq!(
        result.err(),
        Some("Unterminated multiline comment at line 3".to_string())
    );
    assert_eq!(scanner.tokens.len(), 1);
    assert_eq!(scanner.tokens[0].token_type, TokenType::Eof);
}

#[test]
fn handler_multiline_comments_extra_end_comment_returns_error() {
    let source = "*/";

    let mut scanner = Scanner::new(source);

    let result = scanner.scan_tokens();

    assert!(result.is_err());
    assert_eq!(
        result.err(),
        Some("Extra multiline ending comment at line 1".to_string())
    );
    assert_eq!(scanner.tokens.len(), 1);
    assert_eq!(scanner.tokens[0].token_type, TokenType::Eof);
}

#[test]
fn handler_keywords_returns_keyword_token() {
    let source = "class var";

    let mut scanner = Scanner::new(source);

    let result = scanner.scan_tokens();

    assert!(result.is_ok());
    assert_eq!(scanner.tokens.len(), 3);
    assert_eq!(scanner.tokens[0].token_type, TokenType::Class);
    assert_eq!(scanner.tokens[1].token_type, TokenType::Var);
    assert_eq!(scanner.tokens[2].token_type, TokenType::Eof);
}

#[test]
fn handler_keywords_unindentified_token_returns_identifier_token() {
    let source = "bigvar";

    let mut scanner = Scanner::new(source);

    let result = scanner.scan_tokens();

    assert!(result.is_ok());
    assert_eq!(scanner.tokens.len(), 2);
    assert_eq!(scanner.tokens[0].token_type, TokenType::Identifier);
    assert_eq!(scanner.tokens[0].lexeme, "bigvar");
    assert_eq!(scanner.tokens[1].token_type, TokenType::Eof);
}

#[test]
fn get_keywords() {
    let source = "var this_is_a_var = 12;\nwhile true { print 3 };";
    let mut scanner = Scanner::new(source);
    let result = scanner.scan_tokens();

    assert!(result.is_ok());

    assert_eq!(scanner.tokens.len(), 13);

    assert_eq!(scanner.tokens[0].token_type, TokenType::Var);
    assert_eq!(scanner.tokens[1].token_type, TokenType::Identifier);
    assert_eq!(scanner.tokens[2].token_type, TokenType::Equal);
    assert_eq!(scanner.tokens[3].token_type, TokenType::Number);
    assert_eq!(scanner.tokens[4].token_type, TokenType::Semicolon);
    assert_eq!(scanner.tokens[5].token_type, TokenType::While);
    assert_eq!(scanner.tokens[6].token_type, TokenType::True);
    assert_eq!(scanner.tokens[7].token_type, TokenType::LeftBrace);
    assert_eq!(scanner.tokens[8].token_type, TokenType::Print);
    assert_eq!(scanner.tokens[9].token_type, TokenType::Number);
    assert_eq!(scanner.tokens[10].token_type, TokenType::RightBrace);
    assert_eq!(scanner.tokens[11].token_type, TokenType::Semicolon);
    assert_eq!(scanner.tokens[12].token_type, TokenType::Eof);
}

#[test]
fn scan_tokens_unexpected_character_returns_error() {
    let source = "&";
    let mut scanner = Scanner::new(source);
    let result = scanner.scan_tokens();

    assert!(result.is_err());

    assert_eq!(
        result.err(),
        Some("Unexpected character & at line 1".to_string())
    );
}

#[test]
fn scan_tokens_double_star_returns_as_expected() {
    let source = "**";
    let mut scanner = Scanner::new(source);
    let result = scanner.scan_tokens();

    assert!(result.is_ok());

    assert_eq!(scanner.tokens.len(), 3);

    assert_eq!(scanner.tokens[0].token_type, TokenType::Star);
    assert_eq!(scanner.tokens[1].token_type, TokenType::Star);
    assert_eq!(scanner.tokens[2].token_type, TokenType::Eof);
}

#[test]
fn scan_one_line_comments_updates_line_number() {
    let source = "// comment \n // comment";
    let mut scanner = Scanner::new(source);
    let result = scanner.scan_tokens();

    assert!(result.is_ok());

    assert_eq!(scanner.tokens.len(), 1);

    assert_eq!(scanner.tokens[0].token_type, TokenType::Eof);
}

#[test]
fn scan_multi_line_string_returns_string() {
    let source = "\"hello\nworld\"";
    let mut scanner = Scanner::new(source);
    let result = scanner.scan_tokens();

    assert!(result.is_ok());

    assert_eq!(scanner.tokens.len(), 2);

    assert_eq!(scanner.tokens[0].token_type, TokenType::String);
    assert_eq!(scanner.tokens[1].token_type, TokenType::Eof);
}
