//! A line-oriented calculator language: a lexer that turns text into
//! positioned tokens, a precedence-climbing parser that builds one
//! expression tree per line and gathers the errors of every failing line,
//! and an evaluator that runs the statements against a table of names.

pub mod ast;
pub mod lexer;
pub mod grammar;
pub mod parser;
pub mod render;
pub mod symbols;
pub mod eval;
pub mod laws;

pub use ast::{Location, NodeType, ParseNode, ParsingError};
pub use lexer::{LexError, Lexer, Token, TokenType};
pub use parser::Parser;
pub use symbols::{EvalError, SymbolTable};
pub use eval::{EvalContext, Number};
