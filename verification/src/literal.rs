//! Number literals: which texts denote a number.
//!
//! A literal is an optional sign followed by a decimal number or by one of the
//! words `inf`, `infinity` and `nan`, in any letter case. A decimal number has
//! digits with at most one point among them and at least one digit in all;
//! an exponent may follow: `e` or `E`, an optional sign, and digits.
//! Nothing else may stand before or after, not even whitespace.

use vstd::prelude::*;
use crate::token::{MINUS, PLUS};

verus! {

pub const POINT: u8 = 0x2e;

pub const ZERO: u8 = 0x30;

pub const NINE: u8 = 0x39;

pub const UPPER_A: u8 = 0x41;

pub const UPPER_E: u8 = 0x45;

pub const UPPER_Z: u8 = 0x5a;

pub const LOWER_A: u8 = 0x61;

pub const LOWER_E: u8 = 0x65;

pub const LOWER_F: u8 = 0x66;

pub const LOWER_I: u8 = 0x69;

pub const LOWER_N: u8 = 0x6e;

pub const LOWER_T: u8 = 0x74;

pub const LOWER_Y: u8 = 0x79;

pub const LOWER_Z: u8 = 0x7a;

/// One of the ten decimal digits.
pub open spec fn digit(byte: u8) -> bool {
    ZERO <= byte <= NINE
}

/// `+` or `-`.
pub open spec fn sign(byte: u8) -> bool {
    byte == PLUS || byte == MINUS
}

/// A capital letter as its small letter, any other byte as it is.
pub open spec fn lowercase(byte: u8) -> u8 {
    if UPPER_A <= byte <= UPPER_Z {
        (byte + 0x20) as u8
    } else {
        byte
    }
}

/// Where the run of digits that starts at `from` ends.
pub open spec fn digits_end(bytes: Seq<u8>, from: int) -> int
    decreases bytes.len() - from,
{
    if 0 <= from < bytes.len() && digit(bytes[from]) {
        digits_end(bytes, from + 1)
    } else {
        from
    }
}

/// What is left of `bytes` from position `at` on is an exponent: the letter
/// `e`, an optional sign, and digits up to the end.
pub open spec fn exponent(bytes: Seq<u8>, at: int) -> bool {
    let start = if at + 1 < bytes.len() && sign(bytes[at + 1]) {
        at + 2
    } else {
        at + 1
    };
    &&& 0 <= at < bytes.len()
    &&& lowercase(bytes[at]) == LOWER_E
    &&& start < digits_end(bytes, start) == bytes.len()
}

/// `bytes` is a decimal number without a sign.
pub open spec fn decimal(bytes: Seq<u8>) -> bool {
    let whole = digits_end(bytes, 0);
    let point = whole < bytes.len() && bytes[whole] == POINT;
    let fraction = if point {
        digits_end(bytes, whole + 1)
    } else {
        whole
    };
    let digits = if point {
        fraction - 1
    } else {
        whole
    };
    &&& digits >= 1
    &&& (fraction == bytes.len() || exponent(bytes, fraction))
}

/// `bytes` is `word`, letter case aside. The word is in small letters.
pub open spec fn spells(bytes: Seq<u8>, word: Seq<u8>) -> bool {
    &&& bytes.len() == word.len()
    &&& forall|i: int| 0 <= i < word.len() ==> lowercase(#[trigger] bytes[i]) == word[i]
}

/// `bytes` is one of the words for the values that are no decimal numbers.
pub open spec fn special(bytes: Seq<u8>) -> bool {
    ||| spells(bytes, seq![LOWER_I, LOWER_N, LOWER_F])
    ||| spells(bytes, seq![LOWER_N, LOWER_A, LOWER_N])
    ||| spells(
        bytes,
        seq![LOWER_I, LOWER_N, LOWER_F, LOWER_I, LOWER_N, LOWER_I, LOWER_T, LOWER_Y],
    )
}

/// `bytes` without the sign that it starts with, if it starts with one.
pub open spec fn without_sign(bytes: Seq<u8>) -> Seq<u8> {
    if bytes.len() > 0 && sign(bytes[0]) {
        bytes.subrange(1, bytes.len() as int)
    } else {
        bytes
    }
}

/// `bytes` is a number literal.
pub open spec fn number_literal(bytes: Seq<u8>) -> bool {
    special(without_sign(bytes)) || decimal(without_sign(bytes))
}

/// A number literal without any sign in it, not even in its exponent.
pub open spec fn plain_literal(bytes: Seq<u8>) -> bool {
    &&& number_literal(bytes)
    &&& forall|i: int| 0 <= i < bytes.len() ==> !sign(#[trigger] bytes[i])
}

/// A byte that can stand in a literal apart from its signs: a digit, a point
/// or a letter.
pub open spec fn literal_byte(byte: u8) -> bool {
    digit(byte) || byte == POINT || UPPER_A <= byte <= UPPER_Z || LOWER_A <= byte <= LOWER_Z
}

proof fn lemma_digits_end(bytes: Seq<u8>, from: int)
    requires
        0 <= from <= bytes.len(),
    ensures
        from <= digits_end(bytes, from) <= bytes.len(),
        forall|i: int| from <= i < digits_end(bytes, from) ==> digit(#[trigger] bytes[i]),
        digits_end(bytes, from) < bytes.len() ==> !digit(bytes[digits_end(bytes, from)]),
    decreases bytes.len() - from,
{
    if from < bytes.len() && digit(bytes[from]) {
        lemma_digits_end(bytes, from + 1);
    }
}

/// A literal holds nothing but digits, points, letters and signs, and a sign
/// only at its start or right after the `e` of its exponent.
pub proof fn lemma_literal_bytes(bytes: Seq<u8>)
    requires
        number_literal(bytes),
    ensures
        bytes.len() > 0,
        forall|i: int|
            0 <= i < bytes.len() ==> literal_byte(#[trigger] bytes[i]) || (sign(bytes[i]) && (i
                == 0 || lowercase(bytes[i - 1]) == LOWER_E)),
{
    let rest = without_sign(bytes);
    let shift = bytes.len() - rest.len();
    assert forall|i: int| 0 <= i < rest.len() implies literal_byte(#[trigger] rest[i]) || (sign(
        rest[i],
    ) && i > 0 && lowercase(rest[i - 1]) == LOWER_E) by {
        if special(rest) {
            let inf = seq![LOWER_I, LOWER_N, LOWER_F];
            let nan = seq![LOWER_N, LOWER_A, LOWER_N];
            let infinity =
                seq![LOWER_I, LOWER_N, LOWER_F, LOWER_I, LOWER_N, LOWER_I, LOWER_T, LOWER_Y];
            if spells(rest, inf) {
                assert(lowercase(rest[i]) == inf[i]);
            } else if spells(rest, nan) {
                assert(lowercase(rest[i]) == nan[i]);
            } else {
                assert(lowercase(rest[i]) == infinity[i]);
            }
        } else {
            let whole = digits_end(rest, 0);
            lemma_digits_end(rest, 0);
            let point = whole < rest.len() && rest[whole] == POINT;
            if point {
                lemma_digits_end(rest, whole + 1);
            }
            let fraction = if point {
                digits_end(rest, whole + 1)
            } else {
                whole
            };
            if fraction < rest.len() {
                let start = if fraction + 1 < rest.len() && sign(rest[fraction + 1]) {
                    fraction + 2
                } else {
                    fraction + 1
                };
                lemma_digits_end(rest, start);
            }
        }
    }
    assert forall|i: int| 0 <= i < bytes.len() implies literal_byte(#[trigger] bytes[i]) || (sign(
        bytes[i],
    ) && (i == 0 || lowercase(bytes[i - 1]) == LOWER_E)) by {
        if i >= shift {
            assert(bytes[i] == rest[i - shift]);
            if i - shift > 0 {
                assert(bytes[i - 1] == rest[i - shift - 1]);
            }
        }
    }
    if special(rest) {
    } else {
        lemma_digits_end(rest, 0);
    }
}

/// A plain literal is made of digits, points and letters, and is not empty.
pub proof fn lemma_plain_literal_bytes(bytes: Seq<u8>)
    requires
        plain_literal(bytes),
    ensures
        bytes.len() > 0,
        forall|i: int| 0 <= i < bytes.len() ==> literal_byte(#[trigger] bytes[i]),
{
    lemma_literal_bytes(bytes);
}

/// Tells whether `text` is a number literal.
pub fn is_number_literal(text: &[u8]) -> (r: bool)
    ensures
        r == number_literal(text@),
{
    let length = text.len();
    let rest = if length > 0 && (text[0] == PLUS || text[0] == MINUS) {
        &text[1..length]
    } else {
        text
    };
    is_special(rest) || is_decimal(rest)
}

fn lower(byte: u8) -> (r: u8)
    ensures
        r == lowercase(byte),
{
    if UPPER_A <= byte && byte <= UPPER_Z {
        byte + 0x20
    } else {
        byte
    }
}

fn is_special(text: &[u8]) -> (r: bool)
    ensures
        r == special(text@),
{
    let length = text.len();
    if length == 3 {
        let first = lower(text[0]);
        let second = lower(text[1]);
        let third = lower(text[2]);
        (first == LOWER_I && second == LOWER_N && third == LOWER_F) || (first == LOWER_N && second
            == LOWER_A && third == LOWER_N)
    } else if length == 8 {
        lower(text[0]) == LOWER_I && lower(text[1]) == LOWER_N && lower(text[2]) == LOWER_F
            && lower(text[3]) == LOWER_I && lower(text[4]) == LOWER_N && lower(text[5]) == LOWER_I
            && lower(text[6]) == LOWER_T && lower(text[7]) == LOWER_Y
    } else {
        false
    }
}

fn skip_digits(text: &[u8], from: usize) -> (end: usize)
    requires
        from <= text@.len(),
    ensures
        end == digits_end(text@, from as int),
        from <= end <= text@.len(),
{
    let mut at = from;
    while at < text.len() && ZERO <= text[at] && text[at] <= NINE
        invariant
            from <= at <= text@.len(),
            digits_end(text@, at as int) == digits_end(text@, from as int),
        decreases text@.len() - at,
    {
        at = at + 1;
    }
    at
}

fn is_exponent(text: &[u8], at: usize) -> (r: bool)
    requires
        at < text@.len(),
    ensures
        r == exponent(text@, at as int),
{
    let length = text.len();
    if lower(text[at]) != LOWER_E {
        return false;
    }
    let start = if at + 1 < length && (text[at + 1] == PLUS || text[at + 1] == MINUS) {
        at + 2
    } else {
        at + 1
    };
    let end = skip_digits(text, start);
    start < end && end == length
}

fn is_decimal(text: &[u8]) -> (r: bool)
    ensures
        r == decimal(text@),
{
    let length = text.len();
    let whole = skip_digits(text, 0);
    let point = whole < length && text[whole] == POINT;
    let fraction = if point {
        skip_digits(text, whole + 1)
    } else {
        whole
    };
    let digits = if point {
        fraction - 1
    } else {
        whole
    };
    digits >= 1 && (fraction == length || is_exponent(text, fraction))
}

} // verus!
