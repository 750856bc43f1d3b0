//! A small expression-language parser: [`parser::parse_expr`] turns a line of
//! text into an abstract syntax tree ([`ast::Expression`]) together with the
//! unconsumed remainder of the line, or reports where and why parsing failed
//! ([`Error`]). The grammar — literals, unary negation, the four arithmetic
//! operators and parentheses — is written down as spec functions in
//! [`parser`], and the executable parser is verified against it.

pub mod ast;
pub mod errors;
pub mod parser;

pub use errors::Error;
