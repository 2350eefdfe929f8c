//! The bytes that carry meaning in an expression, and how they are classed.

use vstd::prelude::*;

verus! {

pub const TAB: u8 = 0x09;

pub const LINE_FEED: u8 = 0x0a;

pub const CARRIAGE_RETURN: u8 = 0x0d;

pub const SPACE: u8 = 0x20;

pub const OPEN_PARENTHESIS: u8 = 0x28;

pub const CLOSE_PARENTHESIS: u8 = 0x29;

pub const ASTERISK: u8 = 0x2a;

pub const PLUS: u8 = 0x2b;

pub const MINUS: u8 = 0x2d;

pub const SLASH: u8 = 0x2f;

pub const CARET: u8 = 0x5e;

/// Whitespace is a space, a tab, a line feed or a carriage return.
pub open spec fn whitespace(byte: u8) -> bool {
    byte == SPACE || byte == TAB || byte == LINE_FEED || byte == CARRIAGE_RETURN
}

/// The five operator characters `+ - * / ^`.
pub open spec fn operator(byte: u8) -> bool {
    byte == PLUS || byte == MINUS || byte == ASTERISK || byte == SLASH || byte == CARET
}

/// The nearest byte before position `at` that is not whitespace, if there is one.
pub open spec fn previous_significant(bytes: Seq<u8>, at: int) -> Option<u8>
    decreases at,
{
    if at <= 0 {
        None
    } else if !whitespace(bytes[at - 1]) {
        Some(bytes[at - 1])
    } else {
        previous_significant(bytes, at - 1)
    }
}

/// The nearest byte before a position that is not whitespace rests on the
/// bytes before that position alone.
pub proof fn lemma_previous_significant_of_prefix(first: Seq<u8>, second: Seq<u8>, at: int)
    requires
        0 <= at <= first.len(),
        at <= second.len(),
        forall|i: int| 0 <= i < at ==> first[i] == second[i],
    ensures
        previous_significant(first, at) == previous_significant(second, at),
    decreases at,
{
    if at > 0 {
        lemma_previous_significant_of_prefix(first, second, at - 1);
    }
}

/// In the second of two joined texts the nearest byte that is not whitespace
/// is looked for in the second first, and then in the first.
pub proof fn lemma_previous_significant_of_concat(left: Seq<u8>, right: Seq<u8>, at: int)
    requires
        0 <= at <= right.len(),
    ensures
        previous_significant(left + right, left.len() + at) == (match previous_significant(
            right,
            at,
        ) {
            Some(byte) => Some(byte),
            None => previous_significant(left, left.len() as int),
        }),
    decreases at,
{
    if at > 0 {
        lemma_previous_significant_of_concat(left, right, at - 1);
        assert((left + right)[left.len() + at - 1] == right[at - 1]);
    } else {
        lemma_previous_significant_of_prefix(left + right, left, left.len() as int);
    }
}

/// Tells whether `byte` is whitespace.
#[verifier::when_used_as_spec(whitespace)]
pub fn is_whitespace(byte: u8) -> (r: bool)
    ensures
        r == whitespace(byte),
{
    byte == SPACE || byte == TAB || byte == LINE_FEED || byte == CARRIAGE_RETURN
}

/// Tells whether `byte` is one of the five operator characters.
#[verifier::when_used_as_spec(operator)]
pub fn is_operator(byte: u8) -> (r: bool)
    ensures
        r == operator(byte),
{
    byte == PLUS || byte == MINUS || byte == ASTERISK || byte == SLASH || byte == CARET
}

} // verus!
