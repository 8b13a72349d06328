//! An untyped lambda-calculus evaluator: a byte-level lexer with source
//! positions, a stack-shunting parser for definitions and expressions, a
//! normal-order beta/eta reducer with capture-avoiding substitution and
//! Church-numeral coercion, and printers for the surface and tree forms.

pub mod expr;
pub mod lex;
pub mod parse;
pub mod eval;
pub mod print;
