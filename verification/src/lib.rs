//! A dollar calculator: expressions over decimal numbers written with an
//! optional `$` and thousands separators, printed back in the format of the
//! first number of the expression.
pub mod natural;
pub mod number;
pub mod value;
pub mod text;
pub mod literal;
pub mod exponent;
pub mod lexer;
pub mod rpn;
pub mod format;
pub mod calc;
pub mod repl;
pub mod laws;
pub mod grouping;
pub mod history;
pub mod operations;

pub use calc::{evaluate, evaluate_with_prices};
