//! Where an expression splits: the token that binds loosest.
//!
//! A scan walks the text once from left to right. What lies strictly inside a
//! recorded parenthesis group is passed over; every other `(` and operator is
//! a token with a priority, and the token with the lowest priority is where
//! the text splits.

use vstd::prelude::*;
use vstd::string::StringSliceAdditionalSpecFns;
use crate::parenthesis::{
    balanced, depth, groups_closed, lemma_groups_closed_grow, lemma_next_group_starts_later,
    lemma_open_group, top_level_spans,
};
use crate::token::{
    ASTERISK, CARET, CLOSE_PARENTHESIS, MINUS, OPEN_PARENTHESIS, PLUS, SLASH,
    is_operator, is_whitespace, operator, previous_significant, whitespace,
};

verus! {

/// An opening parenthesis stands for its whole group, which binds like a number.
pub const GROUP: u8 = 5;

/// A `-` that negates what follows it.
pub const NEGATION: u8 = 4;

/// `^`
pub const POWER: u8 = 3;

/// `*` and `/`
pub const PRODUCT: u8 = 2;

/// `+` and the `-` that subtracts.
pub const SUM: u8 = 1;

/// The priority of a byte as a token, given the nearest byte before it that
/// is not whitespace. A `-` negates when nothing stands before it or an
/// operator does; whitespace, `)` and the characters of a number are no tokens.
pub open spec fn priority(byte: u8, previous: Option<u8>) -> Option<u8> {
    if byte == OPEN_PARENTHESIS {
        Some(GROUP)
    } else if byte == MINUS && (previous is None || operator(previous->Some_0)) {
        Some(NEGATION)
    } else if byte == CARET {
        Some(POWER)
    } else if byte == ASTERISK || byte == SLASH {
        Some(PRODUCT)
    } else if byte == PLUS || byte == MINUS {
        Some(SUM)
    } else {
        None
    }
}

/// Position `at` lies strictly inside the group `spans[cursor]`.
pub open spec fn inside(spans: Seq<(usize, usize)>, cursor: int, at: int) -> bool {
    0 <= cursor < spans.len() && spans[cursor].0 < at < spans[cursor].1
}

/// The group that the scan looks at when it reaches position `upto`: it
/// starts at the first one and moves to the next at every `)` that it does
/// not pass over, until none is left.
pub open spec fn span_cursor(bytes: Seq<u8>, spans: Seq<(usize, usize)>, upto: int) -> int
    decreases upto,
{
    if upto <= 0 {
        0
    } else {
        let cursor = span_cursor(bytes, spans, upto - 1);
        if bytes[upto - 1] == CLOSE_PARENTHESIS && cursor < spans.len() && !inside(
            spans,
            cursor,
            upto - 1,
        ) {
            cursor + 1
        } else {
            cursor
        }
    }
}

/// The scan passes over position `at`.
pub open spec fn hidden(bytes: Seq<u8>, spans: Seq<(usize, usize)>, at: int) -> bool {
    inside(spans, span_cursor(bytes, spans, at), at)
}

/// The priority of the token at position `at`, `None` where the scan sees no token.
pub open spec fn token_priority(bytes: Seq<u8>, spans: Seq<(usize, usize)>, at: int) -> Option<u8> {
    if 0 <= at < bytes.len() && !hidden(bytes, spans, at) {
        priority(bytes[at], previous_significant(bytes, at))
    } else {
        None
    }
}

/// A token of priority `new` takes the place of the best one so far, of
/// priority `best`. Among equals the last one wins, which makes the binary
/// operators associate to the left; only a negation yields to an earlier one.
pub open spec fn supersedes(new: u8, best: u8) -> bool {
    if new == NEGATION {
        new < best
    } else {
        new <= best
    }
}

/// The best token among the first `upto` bytes, with its priority.
pub open spec fn best_token(bytes: Seq<u8>, spans: Seq<(usize, usize)>, upto: int) -> Option<
    (int, u8),
>
    decreases upto,
{
    if upto <= 0 {
        None
    } else {
        let best = best_token(bytes, spans, upto - 1);
        match token_priority(bytes, spans, upto - 1) {
            Some(new) if best is None || supersedes(new, best->Some_0.1) => Some((upto - 1, new)),
            _ => best,
        }
    }
}

/// The position at which the text splits: that of the best token, or the
/// start of the text where there is no token at all.
pub open spec fn minimum_priority_index(bytes: Seq<u8>, spans: Seq<(usize, usize)>) -> int {
    match best_token(bytes, spans, bytes.len() as int) {
        Some((at, _)) => at,
        None => 0,
    }
}

/// Position `at` holds a token that no other token beats: none has a lower
/// priority, and of those with the same priority it is the first if it is a
/// negation and the last if it is anything else.
pub open spec fn is_minimum_priority_token(
    bytes: Seq<u8>,
    spans: Seq<(usize, usize)>,
    at: int,
) -> bool {
    &&& token_priority(bytes, spans, at) is Some
    &&& forall|other: int| #[trigger]
        token_priority(bytes, spans, other) is Some ==> {
            let mine = token_priority(bytes, spans, at)->Some_0;
            let theirs = token_priority(bytes, spans, other)->Some_0;
            &&& mine <= theirs
            &&& mine == theirs && mine == NEGATION ==> at <= other
            &&& mine == theirs && mine != NEGATION ==> other <= at
        }
}

/// There is no token in the text.
pub open spec fn no_token(bytes: Seq<u8>, spans: Seq<(usize, usize)>) -> bool {
    forall|at: int| #[trigger] token_priority(bytes, spans, at) is None
}

proof fn lemma_best_token(bytes: Seq<u8>, spans: Seq<(usize, usize)>, upto: int)
    requires
        0 <= upto <= bytes.len(),
    ensures
        match best_token(bytes, spans, upto) {
            Some((at, found)) => {
                &&& 0 <= at < upto
                &&& token_priority(bytes, spans, at) == Some(found)
                &&& forall|other: int|
                    0 <= other < upto && #[trigger] token_priority(bytes, spans, other) is Some
                        ==> {
                        let theirs = token_priority(bytes, spans, other)->Some_0;
                        &&& found <= theirs
                        &&& found == theirs && found == NEGATION ==> at <= other
                        &&& found == theirs && found != NEGATION ==> other <= at
                    }
            },
            None => forall|other: int|
                0 <= other < upto ==> #[trigger] token_priority(bytes, spans, other) is None,
        },
    decreases upto,
{
    if upto > 0 {
        lemma_best_token(bytes, spans, upto - 1);
    }
}

/// The scan's answer is the token that no other beats, and the start of the
/// text where there is none.
pub proof fn lemma_minimum_priority_index(bytes: Seq<u8>, spans: Seq<(usize, usize)>)
    ensures
        0 <= minimum_priority_index(bytes, spans) <= bytes.len(),
        no_token(bytes, spans) ==> minimum_priority_index(bytes, spans) == 0,
        !no_token(bytes, spans) ==> is_minimum_priority_token(
            bytes,
            spans,
            minimum_priority_index(bytes, spans),
        ),
{
    lemma_best_token(bytes, spans, bytes.len() as int);
}

/// At most one position holds a token that no other beats.
pub proof fn lemma_minimum_priority_token_unique(
    bytes: Seq<u8>,
    spans: Seq<(usize, usize)>,
    first: int,
    second: int,
)
    requires
        is_minimum_priority_token(bytes, spans, first),
        is_minimum_priority_token(bytes, spans, second),
    ensures
        first == second,
{
}

/// The priority of the token at position `at` where no group is open there,
/// `None` where one is.
pub open spec fn open_token_priority(bytes: Seq<u8>, at: int) -> Option<u8> {
    if 0 <= at < bytes.len() && depth(bytes, at) == 0 {
        priority(bytes[at], previous_significant(bytes, at))
    } else {
        None
    }
}

proof fn lemma_cursor_counts_groups(bytes: Seq<u8>, upto: int)
    requires
        balanced(bytes),
        bytes.len() <= usize::MAX,
        0 <= upto <= bytes.len(),
    ensures
        span_cursor(bytes, top_level_spans(bytes), upto) == groups_closed(bytes, upto).len(),
    decreases upto,
{
    if upto > 0 {
        let last = upto - 1;
        lemma_cursor_counts_groups(bytes, last);
        lemma_groups_closed_grow(bytes, upto, bytes.len() as int);
        if bytes[last] == CLOSE_PARENTHESIS {
            assert(depth(bytes, upto) >= 0);
            lemma_open_group(bytes, last);
        }
    }
}

/// In a balanced text the scan, given the groups of that text, passes over
/// what stands where a group is open, but for the `)` that closes the group.
pub proof fn lemma_hidden_in_balanced_text(bytes: Seq<u8>, at: int)
    requires
        balanced(bytes),
        bytes.len() <= usize::MAX,
        0 <= at < bytes.len(),
    ensures
        hidden(bytes, top_level_spans(bytes), at) <==> depth(bytes, at) >= 1 && !(bytes[at]
            == CLOSE_PARENTHESIS && depth(bytes, at) == 1),
{
    lemma_cursor_counts_groups(bytes, at);
    assert(depth(bytes, at) >= 0);
    if depth(bytes, at) >= 1 {
        lemma_open_group(bytes, at);
    } else if groups_closed(bytes, at).len() < top_level_spans(bytes).len() {
        lemma_next_group_starts_later(bytes, at);
    }
}

/// In a balanced text the tokens that the scan sees, given the groups of
/// that text, are the `(` and the operators that stand where no group is open.
pub proof fn lemma_tokens_of_balanced_text(bytes: Seq<u8>)
    requires
        balanced(bytes),
        bytes.len() <= usize::MAX,
    ensures
        forall|at: int| #[trigger]
            token_priority(bytes, top_level_spans(bytes), at) == open_token_priority(bytes, at),
{
    assert forall|at: int| #[trigger]
        token_priority(bytes, top_level_spans(bytes), at) == open_token_priority(bytes, at) by {
        if 0 <= at < bytes.len() {
            lemma_hidden_in_balanced_text(bytes, at);
        }
    }
}

/// Finds where `bytes` splits, given its top-level parenthesis groups.
pub fn find_minimum_priority_token_bytes(
    bytes: &[u8],
    parenthesis_indices: &[(usize, usize)],
) -> (index: usize)
    ensures
        index == minimum_priority_index(bytes@, parenthesis_indices@),
        index <= bytes@.len(),
        no_token(bytes@, parenthesis_indices@) ==> index == 0,
        !no_token(bytes@, parenthesis_indices@) ==> is_minimum_priority_token(
            bytes@,
            parenthesis_indices@,
            index as int,
        ),
{
    let mut cursor: usize = 0;
    let mut previous: Option<u8> = None;
    let mut best: Option<(usize, u8)> = None;
    let mut at: usize = 0;
    while at < bytes.len()
        invariant
            at <= bytes@.len(),
            cursor <= parenthesis_indices@.len(),
            cursor == span_cursor(bytes@, parenthesis_indices@, at as int),
            previous == previous_significant(bytes@, at as int),
            match best {
                Some((index, found)) => best_token(bytes@, parenthesis_indices@, at as int)
                    == Some((index as int, found)),
                None => best_token(bytes@, parenthesis_indices@, at as int) is None,
            },
        decreases bytes@.len() - at,
    {
        let byte = bytes[at];
        let passed_over = cursor < parenthesis_indices.len() && parenthesis_indices[cursor].0 < at
            && at < parenthesis_indices[cursor].1;
        if !passed_over {
            if byte == CLOSE_PARENTHESIS {
                if cursor < parenthesis_indices.len() {
                    cursor = cursor + 1;
                }
            } else {
                match token(byte, previous) {
                    Some(new) => {
                        let better = match best {
                            Some((_, found)) => if new == NEGATION {
                                new < found
                            } else {
                                new <= found
                            },
                            None => true,
                        };
                        if better {
                            best = Some((at, new));
                        }
                    },
                    None => {},
                }
            }
        }
        if !is_whitespace(byte) {
            previous = Some(byte);
        }
        at = at + 1;
    }
    proof {
        lemma_minimum_priority_index(bytes@, parenthesis_indices@);
    }
    match best {
        Some((index, _)) => index,
        None => 0,
    }
}

/// The priority of `byte` as a token.
fn token(byte: u8, previous: Option<u8>) -> (r: Option<u8>)
    ensures
        r == priority(byte, previous),
{
    if byte == OPEN_PARENTHESIS {
        Some(GROUP)
    } else if byte == MINUS && match previous {
        Some(before) => is_operator(before),
        None => true,
    } {
        Some(NEGATION)
    } else if byte == CARET {
        Some(POWER)
    } else if byte == ASTERISK || byte == SLASH {
        Some(PRODUCT)
    } else if byte == PLUS || byte == MINUS {
        Some(SUM)
    } else {
        None
    }
}

/// Finds where `s` splits, as an offset in bytes, given its top-level
/// parenthesis groups.
pub fn find_minimum_priority_token(
    s: &str,
    parenthesis_indices: &[(usize, usize)],
) -> (index: usize)
    ensures
        index == minimum_priority_index(s.spec_bytes(), parenthesis_indices@),
        index <= s.spec_bytes().len(),
        no_token(s.spec_bytes(), parenthesis_indices@) ==> index == 0,
        !no_token(s.spec_bytes(), parenthesis_indices@) ==> is_minimum_priority_token(
            s.spec_bytes(),
            parenthesis_indices@,
            index as int,
        ),
{
    find_minimum_priority_token_bytes(s.as_bytes(), parenthesis_indices)
}

} // verus!
