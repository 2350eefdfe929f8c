//! Infix arithmetic over `+ - * / ^`, unary negation and parentheses.
//!
//! The text of an expression is split, again and again, at the operator that
//! binds loosest, until only number literals are left. Every step of that
//! splitting is stated over the bytes of the text and proved.

pub mod error;
pub mod operator;
pub mod token;
pub mod literal;
pub mod trim;
pub mod parenthesis;
pub mod priority;
pub mod expression;
pub mod grouping;

pub use error::ParseError;
pub use expression::{BinaryOperationExpr, Expression};
pub use operator::BinaryOperator;
pub use parenthesis::{locate_parenthesis, locate_parenthesis_bytes};
pub use priority::{find_minimum_priority_token, find_minimum_priority_token_bytes};
