//! Why a text is no expression.

use vstd::prelude::*;

verus! {

/// The ways in which parsing fails.
#[derive(Debug, Clone, Copy, PartialEq, Eq)]
pub enum ParseError {
    /// The text, or a part of it where an operand should stand, is empty.
    IndexOutOfRange,
    /// A character that is none of `+ - * / ^` was taken for an operator.
    InvalidOperator,
    /// A part of the text in which no operator is left is no number literal.
    NumberFormatError,
}

} // verus!
