//! The binary operators.

use vstd::prelude::*;
use vstd::std_specs::convert::TryFromSpecImpl;
use crate::error::ParseError;

verus! {

/// What stands between two operands.
#[derive(Debug, Clone, Copy, PartialEq, Eq)]
pub enum BinaryOperator {
    Addition,
    Subtraction,
    Multiplication,
    Division,
    Exponentiation,
}

/// The operator that a character stands for.
pub open spec fn operator_of(symbol: char) -> Option<BinaryOperator> {
    if symbol == '+' {
        Some(BinaryOperator::Addition)
    } else if symbol == '-' {
        Some(BinaryOperator::Subtraction)
    } else if symbol == '*' {
        Some(BinaryOperator::Multiplication)
    } else if symbol == '/' {
        Some(BinaryOperator::Division)
    } else if symbol == '^' {
        Some(BinaryOperator::Exponentiation)
    } else {
        None
    }
}

impl TryFrom<char> for BinaryOperator {
    type Error = ParseError;

    /// Maps each of `+ - * / ^` to its operator and refuses every other
    /// character.
    fn try_from(s: char) -> (r: Result<Self, ParseError>)
        ensures
            r == (match operator_of(s) {
                Some(operator) => Ok::<BinaryOperator, ParseError>(operator),
                None => Err::<BinaryOperator, ParseError>(ParseError::InvalidOperator),
            }),
    {
        match s {
            '+' => Ok(Self::Addition),
            '-' => Ok(Self::Subtraction),
            '*' => Ok(Self::Multiplication),
            '/' => Ok(Self::Division),
            '^' => Ok(Self::Exponentiation),
            _ => Err(ParseError::InvalidOperator),
        }
    }
}

impl TryFromSpecImpl<char> for BinaryOperator {
    open spec fn obeys_try_from_spec() -> bool {
        true
    }

    open spec fn try_from_spec(v: char) -> Result<Self, ParseError> {
        match operator_of(v) {
            Some(operator) => Ok(operator),
            None => Err(ParseError::InvalidOperator),
        }
    }
}

} // verus!
