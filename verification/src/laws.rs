//! What holds of the stages in general, proved from their definitions.

pub mod brackets;
pub mod builder;
pub mod evaluation;
pub mod literal;
pub mod precedence;
pub mod written;
