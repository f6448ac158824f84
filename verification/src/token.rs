//! Tokens: the output of the scanner and the input of the parser.

use vstd::prelude::*;

verus! {

use vstd::string::StringExecFns;

use crate::dec::{Dec, dec_chars};
use crate::strutil::int_chars;

/// The kind of a token.
#[derive(Clone, Copy, Debug, PartialEq, Eq, Structural)]
pub enum TokenType {
    LeftParen,
    RightParen,
    LeftBrace,
    RightBrace,
    Comma,
    Dot,
    Minus,
    Plus,
    Semicolon,
    Slash,
    Star,
    Bang,
    BangEqual,
    Equal,
    EqualEqual,
    Greater,
    GreaterEqual,
    Less,
    LessEqual,
    Identifier,
    String,
    Number,
    And,
    Class,
    Else,
    False,
    Fun,
    For,
    If,
    Nil,
    Or,
    Print,
    Return,
    Super,
    This,
    True,
    Var,
    While,
    Eof,
}

/// The name of a token kind, as it appears in messages.
pub open spec fn kind_name_chars(t: TokenType) -> Seq<char> {
    match t {
        TokenType::LeftParen => "LeftParen"@,
        TokenType::RightParen => "RightParen"@,
        TokenType::LeftBrace => "LeftBrace"@,
        TokenType::RightBrace => "RightBrace"@,
        TokenType::Comma => "Comma"@,
        TokenType::Dot => "Dot"@,
        TokenType::Minus => "Minus"@,
        TokenType::Plus => "Plus"@,
        TokenType::Semicolon => "Semicolon"@,
        TokenType::Slash => "Slash"@,
        TokenType::Star => "Star"@,
        TokenType::Bang => "Bang"@,
        TokenType::BangEqual => "BangEqual"@,
        TokenType::Equal => "Equal"@,
        TokenType::EqualEqual => "EqualEqual"@,
        TokenType::Greater => "Greater"@,
        TokenType::GreaterEqual => "GreaterEqual"@,
        TokenType::Less => "Less"@,
        TokenType::LessEqual => "LessEqual"@,
        TokenType::Identifier => "Identifier"@,
        TokenType::String => "String"@,
        TokenType::Number => "Number"@,
        TokenType::And => "And"@,
        TokenType::Class => "Class"@,
        TokenType::Else => "Else"@,
        TokenType::False => "False"@,
        TokenType::Fun => "Fun"@,
        TokenType::For => "For"@,
        TokenType::If => "If"@,
        TokenType::Nil => "Nil"@,
        TokenType::Or => "Or"@,
        TokenType::Print => "Print"@,
        TokenType::Return => "Return"@,
        TokenType::Super => "Super"@,
        TokenType::This => "This"@,
        TokenType::True => "True"@,
        TokenType::Var => "Var"@,
        TokenType::While => "While"@,
        TokenType::Eof => "Eof"@,
    }
}

impl TokenType {
    /// The name of this token kind, as it appears in messages.
    pub fn kind_name(&self) -> (r: &'static str)
        ensures
            r@ == kind_name_chars(*self),
    {
        match self {
            TokenType::LeftParen => "LeftParen",
            TokenType::RightParen => "RightParen",
            TokenType::LeftBrace => "LeftBrace",
            TokenType::RightBrace => "RightBrace",
            TokenType::Comma => "Comma",
            TokenType::Dot => "Dot",
            TokenType::Minus => "Minus",
            TokenType::Plus => "Plus",
            TokenType::Semicolon => "Semicolon",
            TokenType::Slash => "Slash",
            TokenType::Star => "Star",
            TokenType::Bang => "Bang",
            TokenType::BangEqual => "BangEqual",
            TokenType::Equal => "Equal",
            TokenType::EqualEqual => "EqualEqual",
            TokenType::Greater => "Greater",
            TokenType::GreaterEqual => "GreaterEqual",
            TokenType::Less => "Less",
            TokenType::LessEqual => "LessEqual",
            TokenType::Identifier => "Identifier",
            TokenType::String => "String",
            TokenType::Number => "Number",
            TokenType::And => "And",
            TokenType::Class => "Class",
            TokenType::Else => "Else",
            TokenType::False => "False",
            TokenType::Fun => "Fun",
            TokenType::For => "For",
            TokenType::If => "If",
            TokenType::Nil => "Nil",
            TokenType::Or => "Or",
            TokenType::Print => "Print",
            TokenType::Return => "Return",
            TokenType::Super => "Super",
            TokenType::This => "This",
            TokenType::True => "True",
            TokenType::Var => "Var",
            TokenType::While => "While",
            TokenType::Eof => "Eof",
        }
    }
}

/// The literal payload a token can carry: a number or the interior text of
/// a string.
#[derive(Debug, Clone, PartialEq)]
pub enum LiteralValue {
    IntValue(i64),
    FValue(Dec),
    StringValue(String),
}

impl LiteralValue {
    /// Well-formedness: a numeric payload is a canonical decimal.
    pub open spec fn wf(&self) -> bool {
        match self {
            LiteralValue::FValue(d) => d.wf(),
            _ => true,
        }
    }
}

/// The display form of a token literal.
pub open spec fn lit_chars(l: LiteralValue) -> Seq<char> {
    match l {
        LiteralValue::IntValue(i) => int_chars(i as int),
        LiteralValue::FValue(d) => dec_chars(d),
        LiteralValue::StringValue(s) => s@,
    }
}

/// A token: its kind, the source text it was cut from, an optional literal
/// payload, and the line it started on.
#[derive(Debug, Clone, PartialEq)]
pub struct Token {
    pub token_type: TokenType,
    pub lexeme: String,
    pub literal: Option<LiteralValue>,
    pub line: usize,
}

/// The display form of a token: its kind, its quoted lexeme, and its
/// literal payload or `None`.
pub open spec fn token_chars(t: Token) -> Seq<char> {
    kind_name_chars(t.token_type) + seq![' ', '"'] + t.lexeme@ + seq!['"', ' '] + (match t.literal {
        Option::None => "None"@,
        Option::Some(l) => lit_chars(l),
    })
}

impl Token {
    /// Well-formedness of the literal payload.
    pub open spec fn wf(&self) -> bool {
        match self.literal {
            Option::Some(l) => l.wf(),
            Option::None => true,
        }
    }

    pub fn new(token_type: TokenType, lexeme: String, literal: Option<LiteralValue>, line: usize) -> (r:
        Token)
        ensures
            r.token_type == token_type,
            r.lexeme == lexeme,
            r.literal == literal,
            r.line == line,
    {
        Token { token_type, lexeme, literal, line }
    }

    /// A copy of this token, equal to it.
    pub fn dup(&self) -> (r: Token)
        ensures
            r == *self,
    {
        Token {
            token_type: self.token_type,
            lexeme: self.lexeme.clone(),
            literal: match &self.literal {
                Option::None => Option::None,
                Option::Some(LiteralValue::IntValue(i)) => Option::Some(
                    LiteralValue::IntValue(*i),
                ),
                Option::Some(LiteralValue::FValue(d)) => Option::Some(LiteralValue::FValue(*d)),
                Option::Some(LiteralValue::StringValue(s)) => Option::Some(
                    LiteralValue::StringValue(s.clone()),
                ),
            },
            line: self.line,
        }
    }

    /// The display form of this token.
    pub fn to_string(&self) -> (r: String)
        ensures
            r@ == token_chars(*self),
    {
        let mut s = String::new();
        let name = self.token_type.kind_name();
        s.append(name);
        proof {
            reveal_strlit(" \"");
            reveal_strlit("\" ");
        }
        s.append(" \"");
        s.append(self.lexeme.as_str());
        s.append("\" ");
        match &self.literal {
            Option::None => {
                s.append("None");
            },
            Option::Some(LiteralValue::IntValue(i)) => {
                let ds = crate::strutil::i64_to_string(*i);
                s.append(ds.as_str());
            },
            Option::Some(LiteralValue::FValue(d)) => {
                let ds = d.to_display_string();
                s.append(ds.as_str());
            },
            Option::Some(LiteralValue::StringValue(text)) => {
                s.append(text.as_str());
            },
        }
        proof {
            assert(s@ =~= token_chars(*self));
        }
        s
    }
}

/// A usable token stream: every token is well formed and every literal
/// token carries its payload.
pub open spec fn token_stream_ok(ts: Seq<Token>) -> bool {
    forall|k: int|
        0 <= k < ts.len() ==> ((#[trigger] ts[k]).wf() && ((ts[k].token_type == TokenType::Number
            || ts[k].token_type == TokenType::String)
            ==> crate::expression_literal_value::LiteralValue::token_convertible(ts[k])))
}

} // verus!
