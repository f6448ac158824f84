use olisp::token::Token;
use olisp::token::TokenType;

#[test]
fn to_string_test() {
    let token = Token::new(TokenType::Plus, String::from("+"), None, 2);

    let result = token.to_string();

    assert_eq!(result, String::from("Plus \"+\" None"));
}
