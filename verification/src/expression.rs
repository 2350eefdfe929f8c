//! Expression trees, and how a text becomes one.

use std::str::FromStr;
use vstd::prelude::*;
use vstd::slice::slice_to_vec;
use vstd::string::StringSliceAdditionalSpecFns;
use crate::error::ParseError;
use crate::literal::{
    is_number_literal, lemma_literal_bytes, number_literal, plain_literal, sign,
};
use crate::operator::{BinaryOperator, operator_of};
use crate::parenthesis::{
    lemma_no_group_without_close, locate_parenthesis_bytes, top_level_spans,
};
use crate::priority::{
    find_minimum_priority_token_bytes, lemma_minimum_priority_index, minimum_priority_index,
    token_priority,
};
use crate::token::{MINUS, OPEN_PARENTHESIS, is_operator, operator};
use crate::trim::{blank, lemma_trimmed, lemma_trimmed_of_padded, trim, trimmed};

verus! {

/// An operator with the two expressions that it joins.
#[derive(Debug, PartialEq, Eq)]
pub struct BinaryOperationExpr {
    pub operator: BinaryOperator,
    pub left: Box<Expression>,
    pub right: Box<Expression>,
}

/// An arithmetic expression as a tree. A number is kept as the text of its
/// literal.
#[derive(Debug, PartialEq, Eq)]
pub enum Expression {
    BinaryOperation(BinaryOperationExpr),
    UnaryNegation(Box<Expression>),
    Parenthesis(Box<Expression>),
    Number(Vec<u8>),
}

/// The mathematical tree that an [`Expression`] stands for.
pub enum Tree {
    BinaryOperation { operator: BinaryOperator, left: Box<Tree>, right: Box<Tree> },
    UnaryNegation(Box<Tree>),
    Parenthesis(Box<Tree>),
    Number(Seq<u8>),
}

impl Tree {
    /// The number of nodes on the longest way from the root to a leaf.
    pub open spec fn height(self) -> nat
        decreases self,
    {
        match self {
            Tree::BinaryOperation { left, right, .. } => 1 + if left.height() >= right.height() {
                left.height()
            } else {
                right.height()
            },
            Tree::UnaryNegation(operand) => 1 + operand.height(),
            Tree::Parenthesis(inner) => 1 + inner.height(),
            Tree::Number(_) => 1,
        }
    }

    /// Every leaf holds a number literal, and one without a sign: a sign is
    /// an operator of the tree above the leaf.
    pub open spec fn well_formed(self) -> bool
        decreases self,
    {
        match self {
            Tree::BinaryOperation { left, right, .. } => left.well_formed() && right.well_formed(),
            Tree::UnaryNegation(operand) => operand.well_formed(),
            Tree::Parenthesis(inner) => inner.well_formed(),
            Tree::Number(text) => plain_literal(text),
        }
    }
}

impl Expression {
    /// The tree that this expression stands for.
    pub open spec fn tree(self) -> Tree
        decreases self,
    {
        match self {
            Expression::BinaryOperation(operation) => Tree::BinaryOperation {
                operator: operation.operator,
                left: Box::new(operation.left.tree()),
                right: Box::new(operation.right.tree()),
            },
            Expression::UnaryNegation(operand) => Tree::UnaryNegation(Box::new(operand.tree())),
            Expression::Parenthesis(inner) => Tree::Parenthesis(Box::new(inner.tree())),
            Expression::Number(text) => Tree::Number(text@),
        }
    }
}

impl View for Expression {
    type V = Tree;

    open spec fn view(&self) -> Tree {
        self.tree()
    }
}

/// A text without its first byte and without its last one: what is taken
/// for the inside of a parenthesis. Nothing is asked of the two bytes.
pub open spec fn interior(text: Seq<u8>) -> Seq<u8> {
    if text.len() >= 2 {
        text.subrange(1, text.len() - 1)
    } else {
        Seq::empty()
    }
}

/// The negation of what was parsed, or the failure to parse it.
pub open spec fn negated(operand: Result<Tree, ParseError>) -> Result<Tree, ParseError> {
    match operand {
        Ok(operand) => Ok(Tree::UnaryNegation(Box::new(operand))),
        Err(error) => Err(error),
    }
}

/// The parenthesis around what was parsed, or the failure to parse it.
pub open spec fn grouped(inner: Result<Tree, ParseError>) -> Result<Tree, ParseError> {
    match inner {
        Ok(inner) => Ok(Tree::Parenthesis(Box::new(inner))),
        Err(error) => Err(error),
    }
}

/// The operation on what was parsed on the two sides. Without an operator
/// there is none; then the failure on the left comes before the one on the
/// right.
pub open spec fn joined(
    operator: Option<BinaryOperator>,
    left: Result<Tree, ParseError>,
    right: Result<Tree, ParseError>,
) -> Result<Tree, ParseError> {
    match operator {
        None => Err(ParseError::InvalidOperator),
        Some(operator) => match left {
            Err(error) => Err(error),
            Ok(left) => match right {
                Err(error) => Err(error),
                Ok(right) => Ok(
                    Tree::BinaryOperation {
                        operator,
                        left: Box::new(left),
                        right: Box::new(right),
                    },
                ),
            },
        },
    }
}

/// What a text parses to.
///
/// The text is trimmed and split at its minimum-priority token. A `-` at the
/// very start negates what follows it. Any other operator joins what stands
/// before it with what stands after it. A `(` makes a parenthesis of the
/// text between the first byte and the last. Where no token is left the text
/// must be a number literal, and where no text is left there is nothing to
/// split.
pub open spec fn parse(bytes: Seq<u8>) -> Result<Tree, ParseError>
    decreases bytes.len(),
    via parse_decreases
{
    let text = trimmed(bytes);
    let at = minimum_priority_index(text, top_level_spans(text));
    if !(0 <= at < text.len()) {
        Err(ParseError::IndexOutOfRange)
    } else if text[at] == MINUS && at == 0 {
        negated(parse(text.subrange(1, text.len() as int)))
    } else if operator(text[at]) {
        joined(
            operator_of(text[at] as char),
            parse(text.subrange(0, at)),
            parse(text.subrange(at + 1, text.len() as int)),
        )
    } else if text[at] == OPEN_PARENTHESIS {
        grouped(parse(interior(text)))
    } else if number_literal(text) {
        Ok(Tree::Number(text))
    } else {
        Err(ParseError::NumberFormatError)
    }
}

#[via_fn]
proof fn parse_decreases(bytes: Seq<u8>) {
    lemma_trimmed(bytes);
}

/// The tree of a text is no higher than the text is long, and each of its
/// leaves holds a number literal without a sign. No text fails for an invalid
/// operator: what is taken for an operator is one of the five.
pub proof fn lemma_parse_tree(bytes: Seq<u8>)
    ensures
        match parse(bytes) {
            Ok(tree) => tree.well_formed() && 1 <= tree.height() <= bytes.len(),
            Err(error) => error != ParseError::InvalidOperator,
        },
    decreases bytes.len(),
{
    let text = trimmed(bytes);
    lemma_trimmed(bytes);
    let at = minimum_priority_index(text, top_level_spans(text));
    if !(0 <= at < text.len()) {
    } else if text[at] == MINUS && at == 0 {
        lemma_parse_tree(text.subrange(1, text.len() as int));
    } else if operator(text[at]) {
        lemma_parse_tree(text.subrange(0, at));
        lemma_parse_tree(text.subrange(at + 1, text.len() as int));
    } else if text[at] == OPEN_PARENTHESIS {
        lemma_parse_tree(interior(text));
    } else if number_literal(text) {
        let spans = top_level_spans(text);
        lemma_literal_bytes(text);
        lemma_no_group_without_close(text);
        lemma_minimum_priority_index(text, spans);
        assert forall|i: int| 0 <= i < text.len() implies !sign(#[trigger] text[i]) by {
            if sign(text[i]) {
                assert(token_priority(text, spans, i) is Some);
            }
        }
    }
}

/// Whitespace around a text does not change what it parses to.
pub proof fn lemma_parse_padded(before: Seq<u8>, bytes: Seq<u8>, after: Seq<u8>)
    requires
        blank(before),
        blank(after),
    ensures
        parse(before + bytes + after) == parse(bytes),
{
    lemma_trimmed_of_padded(before, bytes, after);
}

/// A text of nothing but whitespace, and the empty one, is no expression.
pub proof fn lemma_parse_blank(bytes: Seq<u8>)
    requires
        blank(bytes),
    ensures
        parse(bytes) == Err::<Tree, ParseError>(ParseError::IndexOutOfRange),
{
    lemma_trimmed(bytes);
    lemma_minimum_priority_index(trimmed(bytes), top_level_spans(trimmed(bytes)));
}

/// A text has one tree: two texts with the same bytes parse alike.
pub proof fn lemma_parse_is_repeatable(first: &str, second: &str)
    requires
        first@ == second@,
    ensures
        parse(first.spec_bytes()) == parse(second.spec_bytes()),
{
}

/// `result` is what `bytes` parses to.
pub open spec fn is_parse_of(result: Result<Expression, ParseError>, bytes: Seq<u8>) -> bool {
    match result {
        Ok(expression) => parse(bytes) == Ok::<Tree, ParseError>(expression@),
        Err(error) => parse(bytes) == Err::<Tree, ParseError>(error),
    }
}

impl Expression {
    /// Parses the bytes of a text into its tree. It fails with
    /// `IndexOutOfRange` where the text, or a part of it in which an operand
    /// should stand, holds nothing but whitespace, and with
    /// `NumberFormatError` where a part without a token is no number literal.
    pub fn from_bytes(bytes: &[u8]) -> (result: Result<Expression, ParseError>)
        ensures
            is_parse_of(result, bytes@),
            result matches Ok(expression) ==> expression@.well_formed() && expression@.height()
                <= bytes@.len(),
            result matches Err(error) ==> error != ParseError::InvalidOperator,
        decreases bytes@.len(),
    {
        proof {
            lemma_parse_tree(bytes@);
        }
        let text = trim(bytes);
        let spans = locate_parenthesis_bytes(text);
        let at = find_minimum_priority_token_bytes(text, spans.as_slice());
        let length = text.len();
        if at >= length {
            return Err(ParseError::IndexOutOfRange);
        }
        let token = text[at];
        if token == MINUS && at == 0 {
            match Expression::from_bytes(&text[1..length]) {
                Ok(operand) => Ok(Expression::UnaryNegation(Box::new(operand))),
                Err(error) => Err(error),
            }
        } else if is_operator(token) {
            let operator = match BinaryOperator::try_from(token as char) {
                Ok(operator) => operator,
                Err(error) => { return Err(error); },
            };
            let left = match Expression::from_bytes(&text[0..at]) {
                Ok(left) => left,
                Err(error) => { return Err(error); },
            };
            let right = match Expression::from_bytes(&text[at + 1..length]) {
                Ok(right) => right,
                Err(error) => { return Err(error); },
            };
            Ok(
                Expression::BinaryOperation(
                    BinaryOperationExpr { operator, left: Box::new(left), right: Box::new(right) },
                ),
            )
        } else if token == OPEN_PARENTHESIS {
            let inside = if length >= 2 {
                &text[1..length - 1]
            } else {
                &text[0..0]
            };
            assert(inside@ == interior(text@));
            match Expression::from_bytes(inside) {
                Ok(inner) => Ok(Expression::Parenthesis(Box::new(inner))),
                Err(error) => Err(error),
            }
        } else if is_number_literal(text) {
            Ok(Expression::Number(slice_to_vec(text)))
        } else {
            Err(ParseError::NumberFormatError)
        }
    }
}

impl FromStr for Expression {
    type Err = ParseError;

    /// Parses a text into its tree, as [`Expression::from_bytes`] parses
    /// its bytes.
    fn from_str(s: &str) -> (result: Result<Self, ParseError>)
        ensures
            is_parse_of(result, s.spec_bytes()),
            result matches Ok(expression) ==> expression@.well_formed() && expression@.height()
                <= s.spec_bytes().len(),
            result matches Err(error) ==> error != ParseError::InvalidOperator,
    {
        Expression::from_bytes(s.as_bytes())
    }
}

} // verus!
