//! Arithmetic expressions over `+ - * /` with one level of parentheses.
//!
//! [`Expression::new`] scans text into an [`Expression`], a left-to-right
//! sequence of terms. [`Expression::evaluation_steps`] resolves precedence
//! into a straight-line list of [`Step`]s: which operands are combined, with
//! which operator, and in which order. Running those steps over the numbers
//! of the terms, from a result of zero, gives the value of the expression.
use vstd::prelude::*;

pub mod evaluation;
pub mod expression;
pub mod laws;
pub mod term;
pub mod text;

pub use evaluation::{group_steps, plan, Step};
pub use expression::{Error, Expression, Literal, Operand, Term};
pub use term::OperationKind;
pub use text::{is_float_literal, is_white_space};

verus! {

} // verus!
