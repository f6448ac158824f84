//! A tree-walking interpreter for OLisp, a small dynamically typed scripting
//! language in the Lox family.
//!
//! Source text is scanned into tokens, parsed into statements and
//! expressions, and executed against a chain of lexical scopes.  Numbers with
//! a fractional part are exact decimals of the library's own (see `dec`);
//! every stage of the pipeline is verified against a mathematical model.

pub mod dec;
pub mod environment;
pub mod error;
pub mod expression;
pub mod expression_literal_value;
pub mod interpreter;
pub mod parser;
pub mod scanner;
pub mod statement;
pub mod strutil;
pub mod token;
