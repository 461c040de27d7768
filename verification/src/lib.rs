//! The front end of PINP ("Pinp Is Not Python"): a small indentation-structured language.

pub mod analysis;
pub mod codegen;
pub mod lexeme;
pub mod lexer;
pub mod line_ends;
pub mod parser;
pub mod runtime;
pub mod sema;
pub mod spelling;
pub mod symbols;
pub mod text;
pub mod token_stream;
pub mod type_rules;
pub mod typing;
