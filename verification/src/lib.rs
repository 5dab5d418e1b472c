//! Infix arithmetic expressions, from text to expression tree.
//!
//! A text such as `2 + 3 * (4 - 1)` passes through three stages:
//!
//! * [`tokenizer`] turns the characters into tokens,
//! * [`lexer`] puts the tokens into postfix order, by priority and brackets,
//! * [`parser`] folds the postfix stream into the expression tree.
//!
//! [`parser::Parser::parse`] runs the three in order and stops at the first
//! [`error::Error`]. Numbers are kept as the exact decimal text that was read
//! ([`number::Number`]); [`parser::Expr::calc`] evaluates a tree in whatever
//! arithmetic the caller hands it, and [`parser::evaluate`] goes from the
//! text to the value in one call.
//!
//! Each stage is specified by a function on sequences and proved to compute
//! it. [`laws`] holds what follows from those definitions: that expressions
//! written in the customary way are read as they are meant, when brackets
//! and operands are reported as missing, and that evaluation is repeatable.

pub mod error;
pub mod laws;
pub mod lexer;
pub mod number;
pub mod parser;
pub mod text;
pub mod tokenizer;
