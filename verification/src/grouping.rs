//! How the parts of a text group into its tree.
//!
//! The tree of a text is put together from the trees of its parts: a number
//! literal is a leaf, a balanced text in parentheses is a parenthesis, and
//! two balanced texts with an operator between them are an operation where
//! that operator is the loosest that stands outside every group. What is
//! said of precedence and of the direction in which operators associate
//! follows from these.

use vstd::prelude::*;
use crate::error::ParseError;
use crate::expression::{Tree, grouped, interior, joined, lemma_parse_blank, negated, parse};
use crate::literal::{
    lemma_plain_literal_bytes, literal_byte, number_literal, plain_literal, sign, without_sign,
};
use crate::operator::operator_of;
use crate::parenthesis::{
    balanced, depth, lemma_depth_of_concat, lemma_depth_of_prefix,
    lemma_depth_without_parentheses, top_level_spans,
};
use crate::priority::{
    GROUP, NEGATION, POWER, PRODUCT, SUM, is_minimum_priority_token, lemma_minimum_priority_index,
    lemma_minimum_priority_token_unique, lemma_tokens_of_balanced_text, minimum_priority_index,
    open_token_priority, priority, supersedes, token_priority,
};
use crate::token::{
    ASTERISK, CARET, CLOSE_PARENTHESIS, MINUS, OPEN_PARENTHESIS, SLASH,
    lemma_previous_significant_of_concat, lemma_previous_significant_of_prefix, operator,
    previous_significant, whitespace,
};
use crate::trim::{lemma_trimmed_is_identity, trimmed};

verus! {

/// The priority of an operator that has an operand before it.
pub open spec fn binary_priority(symbol: u8) -> u8 {
    if symbol == CARET {
        POWER
    } else if symbol == ASTERISK || symbol == SLASH {
        PRODUCT
    } else {
        SUM
    }
}

/// The priority that the operator `symbol` has as a token when it stands
/// right after `left`.
pub open spec fn priority_after(left: Seq<u8>, symbol: u8) -> u8 {
    priority(symbol, previous_significant(left, left.len() as int))->Some_0
}

/// Every token of `bytes` outside its groups gives way to a token of
/// priority `new` that comes after it.
pub open spec fn gives_way_to(bytes: Seq<u8>, new: u8) -> bool {
    forall|at: int|
        (#[trigger] open_token_priority(bytes, at)) matches Some(found) ==> supersedes(new, found)
}

/// A token of priority `best` holds against every token of `bytes` outside
/// its groups that comes after it.
pub open spec fn holds_against(best: u8, bytes: Seq<u8>) -> bool {
    forall|at: int|
        (#[trigger] open_token_priority(bytes, at)) matches Some(new) ==> !supersedes(new, best)
}

/// A plain literal is balanced and holds no token, and an operator that
/// follows it has an operand before it.
pub proof fn lemma_plain_literal_is_an_operand(text: Seq<u8>)
    requires
        plain_literal(text),
    ensures
        text.len() > 0,
        balanced(text),
        !whitespace(text.first()),
        !whitespace(text.last()),
        forall|at: int| #[trigger] open_token_priority(text, at) is None,
        forall|new: u8| gives_way_to(text, new),
        forall|best: u8| holds_against(best, text),
        previous_significant(text, text.len() as int) == Some(text.last()),
        literal_byte(text.last()),
        forall|symbol: u8|
            operator(symbol) ==> #[trigger] priority_after(text, symbol) == binary_priority(symbol),
{
    lemma_plain_literal_bytes(text);
    assert(literal_byte(text.first()) && literal_byte(text.last()));
    assert forall|upto: int| 0 <= upto <= text.len() implies #[trigger] depth(text, upto) == 0 by {
        lemma_depth_without_parentheses(text, upto);
    }
    assert forall|at: int| #[trigger] open_token_priority(text, at) is None by {
        if 0 <= at < text.len() {
            assert(literal_byte(text[at]));
        }
    }
    assert(previous_significant(text, text.len() as int) == Some(text.last()));
}

/// A balanced text without whitespace at its ends splits at the token
/// outside its groups to which every such token before it gives way and
/// which holds against every such token after it.
pub proof fn lemma_split_of_balanced_text(text: Seq<u8>, at: int)
    requires
        balanced(text),
        text.len() <= usize::MAX,
        0 <= at < text.len(),
        !whitespace(text.first()),
        !whitespace(text.last()),
        open_token_priority(text, at) is Some,
        forall|other: int|
            0 <= other < at && (#[trigger] open_token_priority(text, other)) is Some
                ==> supersedes(
                open_token_priority(text, at)->Some_0,
                open_token_priority(text, other)->Some_0,
            ),
        forall|other: int|
            at < other < text.len() && (#[trigger] open_token_priority(text, other)) is Some
                ==> !supersedes(
                open_token_priority(text, other)->Some_0,
                open_token_priority(text, at)->Some_0,
            ),
    ensures
        trimmed(text) == text,
        minimum_priority_index(text, top_level_spans(text)) == at,
{
    let spans = top_level_spans(text);
    lemma_trimmed_is_identity(text);
    lemma_tokens_of_balanced_text(text);
    assert(token_priority(text, spans, at) == open_token_priority(text, at));
    assert forall|other: int| #[trigger] token_priority(text, spans, other) is Some implies {
        let mine = token_priority(text, spans, at)->Some_0;
        let theirs = token_priority(text, spans, other)->Some_0;
        &&& mine <= theirs
        &&& mine == theirs && mine == NEGATION ==> at <= other
        &&& mine == theirs && mine != NEGATION ==> other <= at
    } by {
        assert(token_priority(text, spans, other) == open_token_priority(text, other));
    }
    assert(is_minimum_priority_token(text, spans, at));
    lemma_minimum_priority_index(text, spans);
    lemma_minimum_priority_token_unique(text, spans, at, minimum_priority_index(text, spans));
}

/// A plain literal parses to the number that it is the text of.
pub proof fn lemma_parse_plain_literal(text: Seq<u8>)
    requires
        plain_literal(text),
    ensures
        parse(text) == Ok::<Tree, ParseError>(Tree::Number(text)),
{
    lemma_plain_literal_is_an_operand(text);
    lemma_plain_literal_bytes(text);
    lemma_trimmed_is_identity(text);
    let spans = top_level_spans(text);
    assert forall|at: int| #[trigger] token_priority(text, spans, at) is None by {
        if 0 <= at < text.len() {
            assert(literal_byte(text[at]));
        }
    }
    lemma_minimum_priority_index(text, spans);
    assert(literal_byte(text[0]));
}

/// The tokens of two balanced texts with an operator between them are those
/// of the two texts and the operator; the whole is balanced too.
pub proof fn lemma_tokens_of_joined(left: Seq<u8>, symbol: u8, right: Seq<u8>)
    requires
        balanced(left),
        balanced(right),
        operator(symbol),
    ensures
        balanced(left + seq![symbol] + right),
        forall|at: int|
            0 <= at < left.len() ==> #[trigger] open_token_priority(
                left + seq![symbol] + right,
                at,
            ) == open_token_priority(left, at),
        open_token_priority(left + seq![symbol] + right, left.len() as int) == Some(
            priority_after(left, symbol),
        ),
        forall|at: int|
            left.len() < at < left.len() + 1 + right.len() ==> #[trigger] open_token_priority(
                left + seq![symbol] + right,
                at,
            ) == open_token_priority(right, at - left.len() - 1),
        previous_significant(
            left + seq![symbol] + right,
            (left + seq![symbol] + right).len() as int,
        ) == (match previous_significant(right, right.len() as int) {
            Some(byte) => Some(byte),
            None => Some(symbol),
        }),
{
    let head = left + seq![symbol];
    let text = head + right;
    let middle = left.len() as int;
    assert(head[middle] == symbol);
    lemma_depth_of_prefix(head, left, middle);
    lemma_previous_significant_of_prefix(head, left, middle);
    assert(depth(head, middle + 1) == 0);
    assert(previous_significant(head, middle + 1) == Some(symbol));
    assert forall|upto: int| 0 <= upto <= text.len() implies #[trigger] depth(text, upto) == (
    if upto <= middle {
        depth(left, upto)
    } else {
        depth(right, upto - middle - 1)
    }) by {
        if upto <= middle {
            lemma_depth_of_prefix(text, left, upto);
        } else {
            lemma_depth_of_concat(head, right, upto - middle - 1);
        }
    }
    assert(balanced(text));
    assert forall|at: int| 0 <= at < left.len() implies #[trigger] open_token_priority(text, at)
        == open_token_priority(left, at) by {
        lemma_previous_significant_of_prefix(text, left, at);
    }
    assert(open_token_priority(text, middle) == Some(priority_after(left, symbol))) by {
        lemma_previous_significant_of_prefix(text, left, middle);
        assert(text[middle] == symbol);
    }
    assert forall|at: int| middle < at < text.len() implies #[trigger] open_token_priority(text, at)
        == open_token_priority(right, at - middle - 1) by {
        lemma_previous_significant_of_concat(head, right, at - middle - 1);
        assert(text[at] == right[at - middle - 1]);
    }
    lemma_previous_significant_of_concat(head, right, right.len() as int);
}

/// Two balanced texts with an operator between them parse to the operation
/// on what the two parse to, where that operator is the loosest outside the
/// groups: it takes the place of every token before it, and no token after
/// it takes its place.
pub proof fn lemma_parse_binary(left: Seq<u8>, symbol: u8, right: Seq<u8>)
    requires
        balanced(left),
        balanced(right),
        operator(symbol),
        left.len() + 1 + right.len() <= usize::MAX,
        left.len() > 0 ==> !whitespace(left.first()),
        left.len() == 0 ==> symbol != MINUS,
        right.len() > 0 ==> !whitespace(right.last()),
        gives_way_to(left, priority_after(left, symbol)),
        holds_against(priority_after(left, symbol), right),
    ensures
        parse(left + seq![symbol] + right) == joined(
            operator_of(symbol as char),
            parse(left),
            parse(right),
        ),
{
    let text = left + seq![symbol] + right;
    let middle = left.len() as int;
    lemma_tokens_of_joined(left, symbol, right);
    assert(left.len() > 0 ==> text.first() == left.first());
    assert(text[middle] == symbol);
    assert(right.len() > 0 ==> text.last() == right.last());
    lemma_split_of_balanced_text(text, middle);
    assert(text.subrange(0, middle) == left);
    assert(text.subrange(middle + 1, text.len() as int) == right);
}

/// A `-` before a balanced text parses to the negation of what that text
/// parses to, where every token of the text outside the groups is a
/// negation or a `(`.
pub proof fn lemma_parse_negation(operand: Seq<u8>)
    requires
        balanced(operand),
        operand.len() + 1 <= usize::MAX,
        operand.len() > 0 ==> !whitespace(operand.last()),
        holds_against(NEGATION, operand),
    ensures
        parse(seq![MINUS] + operand) == negated(parse(operand)),
{
    let nothing = Seq::<u8>::empty();
    let text = seq![MINUS] + operand;
    assert(text == nothing + seq![MINUS] + operand);
    assert(balanced(nothing));
    lemma_tokens_of_joined(nothing, MINUS, operand);
    assert(priority_after(nothing, MINUS) == NEGATION);
    assert(operand.len() > 0 ==> text.last() == operand.last());
    lemma_split_of_balanced_text(text, 0);
    assert(text.subrange(1, text.len() as int) == operand);
}

/// A balanced text in parentheses parses to the parenthesis around what the
/// text parses to.
pub proof fn lemma_parse_group(inner: Seq<u8>)
    requires
        balanced(inner),
        inner.len() + 2 <= usize::MAX,
    ensures
        balanced(seq![OPEN_PARENTHESIS] + inner + seq![CLOSE_PARENTHESIS]),
        parse(seq![OPEN_PARENTHESIS] + inner + seq![CLOSE_PARENTHESIS]) == grouped(parse(inner)),
        forall|at: int|
            at != 0 ==> #[trigger] open_token_priority(
                seq![OPEN_PARENTHESIS] + inner + seq![CLOSE_PARENTHESIS],
                at,
            ) is None,
        open_token_priority(seq![OPEN_PARENTHESIS] + inner + seq![CLOSE_PARENTHESIS], 0) == Some(
            GROUP,
        ),
{
    let open = seq![OPEN_PARENTHESIS];
    let text = open + inner + seq![CLOSE_PARENTHESIS];
    let last = inner.len() as int + 1;
    assert(text[0] == OPEN_PARENTHESIS);
    assert(text[last] == CLOSE_PARENTHESIS);
    assert(open[0] == OPEN_PARENTHESIS);
    assert(depth(open, 0) == 0);
    assert(depth(open, 1) == 1);
    assert forall|upto: int| 1 <= upto <= last implies #[trigger] depth(text, upto) == 1 + depth(
        inner,
        upto - 1,
    ) by {
        lemma_depth_of_concat(open, inner, upto - 1);
        lemma_depth_of_prefix(text, open + inner, upto);
    }
    assert(depth(text, last) == 1);
    assert(depth(text, last + 1) == 0);
    assert(balanced(text)) by {
        assert forall|upto: int| 0 <= upto <= text.len() implies #[trigger] depth(text, upto)
            >= 0 by {
            if 1 <= upto <= last {
                assert(depth(inner, upto - 1) >= 0);
            }
        }
    }
    assert(open_token_priority(text, 0) == Some(GROUP));
    assert forall|at: int| at != 0 implies #[trigger] open_token_priority(text, at) is None by {
        if 1 <= at <= last {
            assert(depth(inner, at - 1) >= 0);
        }
    }
    lemma_split_of_balanced_text(text, 0);
    assert(interior(text) == inner);
}

/// What a plain literal parses to.
pub open spec fn number(text: Seq<u8>) -> Result<Tree, ParseError> {
    Ok(Tree::Number(text))
}

/// The operation that the operator `symbol` stands for.
pub open spec fn operation(
    symbol: u8,
    left: Result<Tree, ParseError>,
    right: Result<Tree, ParseError>,
) -> Result<Tree, ParseError> {
    joined(operator_of(symbol as char), left, right)
}

/// A `-` before a plain literal is a number literal too, and parses to the
/// negation of the number.
pub proof fn lemma_parse_negative_literal(literal: Seq<u8>)
    requires
        plain_literal(literal),
        literal.len() + 1 <= usize::MAX,
    ensures
        number_literal(seq![MINUS] + literal),
        parse(seq![MINUS] + literal) == negated(number(literal)),
{
    let text = seq![MINUS] + literal;
    lemma_plain_literal_is_an_operand(literal);
    lemma_parse_plain_literal(literal);
    lemma_parse_negation(literal);
    assert(text[0] == MINUS);
    assert(without_sign(text) == literal);
    assert(!sign(literal[0]));
    assert(without_sign(literal) == literal);
}

/// Two plain literals with an operator between them parse to the operation
/// on the two numbers.
pub proof fn lemma_parse_operation(first: Seq<u8>, symbol: u8, second: Seq<u8>)
    requires
        plain_literal(first),
        plain_literal(second),
        operator(symbol),
        first.len() + 1 + second.len() <= usize::MAX,
    ensures
        parse(first + seq![symbol] + second) == operation(symbol, number(first), number(second)),
{
    lemma_plain_literal_is_an_operand(first);
    lemma_plain_literal_is_an_operand(second);
    lemma_parse_plain_literal(first);
    lemma_parse_plain_literal(second);
    lemma_parse_binary(first, symbol, second);
}

/// Of two operators between three plain literals the second is the root of
/// the tree unless it binds tighter than the first: operators of one
/// priority group from the left, and a tighter one groups first wherever it
/// stands.
pub proof fn lemma_parse_chain(
    first: Seq<u8>,
    earlier: u8,
    second: Seq<u8>,
    later: u8,
    third: Seq<u8>,
)
    requires
        plain_literal(first),
        plain_literal(second),
        plain_literal(third),
        operator(earlier),
        operator(later),
        first.len() + second.len() + third.len() + 2 <= usize::MAX,
    ensures
        parse(first + seq![earlier] + second + seq![later] + third) == (if binary_priority(later)
            <= binary_priority(earlier) {
            operation(
                later,
                operation(earlier, number(first), number(second)),
                number(third),
            )
        } else {
            operation(
                earlier,
                number(first),
                operation(later, number(second), number(third)),
            )
        }),
{
    let text = first + seq![earlier] + second + seq![later] + third;
    lemma_plain_literal_is_an_operand(first);
    lemma_plain_literal_is_an_operand(second);
    lemma_plain_literal_is_an_operand(third);
    lemma_parse_plain_literal(first);
    lemma_parse_plain_literal(second);
    lemma_parse_plain_literal(third);
    if binary_priority(later) <= binary_priority(earlier) {
        let left = first + seq![earlier] + second;
        lemma_tokens_of_joined(first, earlier, second);
        lemma_parse_operation(first, earlier, second);
        assert(left.first() == first.first());
        assert(priority_after(left, later) == binary_priority(later));
        assert(gives_way_to(left, binary_priority(later))) by {
            assert forall|at: int| #[trigger]
                open_token_priority(left, at) is Some implies supersedes(
                binary_priority(later),
                open_token_priority(left, at)->Some_0,
            ) by {
                if 0 <= at < first.len() {
                } else if first.len() < at < left.len() {
                    assert(open_token_priority(second, at - first.len() - 1) is None);
                }
            }
        }
        lemma_parse_binary(left, later, third);
    } else {
        let right = second + seq![later] + third;
        lemma_tokens_of_joined(second, later, third);
        lemma_parse_operation(second, later, third);
        assert(right.last() == third.last());
        assert(holds_against(binary_priority(earlier), right)) by {
            assert forall|at: int| #[trigger]
                open_token_priority(right, at) is Some implies !supersedes(
                open_token_priority(right, at)->Some_0,
                binary_priority(earlier),
            ) by {
                if 0 <= at < second.len() {
                } else if second.len() < at < right.len() {
                    assert(open_token_priority(third, at - second.len() - 1) is None);
                }
            }
        }
        lemma_parse_binary(first, earlier, right);
        assert(text == first + seq![earlier] + right);
    }
}

/// An operator without an operand on one of its sides makes no expression,
/// but for the `-` that negates what follows it.
pub proof fn lemma_parse_without_operand(literal: Seq<u8>, symbol: u8)
    requires
        plain_literal(literal),
        operator(symbol),
        literal.len() + 1 <= usize::MAX,
    ensures
        parse(literal + seq![symbol]) == Err::<Tree, ParseError>(ParseError::IndexOutOfRange),
        symbol != MINUS ==> parse(seq![symbol] + literal) == Err::<Tree, ParseError>(
            ParseError::IndexOutOfRange,
        ),
{
    let nothing = Seq::<u8>::empty();
    lemma_plain_literal_is_an_operand(literal);
    lemma_parse_plain_literal(literal);
    lemma_parse_blank(nothing);
    assert(balanced(nothing));
    assert(holds_against(priority_after(literal, symbol), nothing));
    lemma_parse_binary(literal, symbol, nothing);
    assert(literal + seq![symbol] + nothing == literal + seq![symbol]);
    if symbol != MINUS {
        assert(gives_way_to(nothing, priority_after(nothing, symbol)));
        lemma_parse_binary(nothing, symbol, literal);
        assert(nothing + seq![symbol] + literal == seq![symbol] + literal);
    }
}

/// Two `-` before a plain literal parse to the negation of the negation of
/// the number: the first `-` is the root.
pub proof fn lemma_parse_double_negation(literal: Seq<u8>)
    requires
        plain_literal(literal),
        literal.len() + 2 <= usize::MAX,
    ensures
        parse(seq![MINUS] + (seq![MINUS] + literal)) == negated(negated(number(literal))),
{
    let nothing = Seq::<u8>::empty();
    let inner = seq![MINUS] + literal;
    lemma_plain_literal_is_an_operand(literal);
    lemma_parse_negative_literal(literal);
    assert(balanced(nothing));
    assert(inner == nothing + seq![MINUS] + literal);
    lemma_tokens_of_joined(nothing, MINUS, literal);
    assert(priority_after(nothing, MINUS) == NEGATION);
    assert(inner.last() == literal.last());
    assert(holds_against(NEGATION, inner)) by {
        assert forall|at: int| #[trigger]
            open_token_priority(inner, at) is Some implies !supersedes(
            open_token_priority(inner, at)->Some_0,
            NEGATION,
        ) by {
            if 0 < at < inner.len() {
                assert(open_token_priority(literal, at - 1) is None);
            }
        }
    }
    lemma_parse_negation(inner);
}

/// A `-` at the start binds tighter than the operator after its operand: a
/// negated plain literal, an operator and a plain literal parse to the
/// operation on the negated number and the other.
pub proof fn lemma_parse_negated_operand(first: Seq<u8>, symbol: u8, second: Seq<u8>)
    requires
        plain_literal(first),
        plain_literal(second),
        operator(symbol),
        first.len() + second.len() + 2 <= usize::MAX,
    ensures
        parse(seq![MINUS] + first + seq![symbol] + second) == operation(
            symbol,
            negated(number(first)),
            number(second),
        ),
{
    let nothing = Seq::<u8>::empty();
    let left = seq![MINUS] + first;
    lemma_plain_literal_is_an_operand(first);
    lemma_plain_literal_is_an_operand(second);
    lemma_parse_plain_literal(second);
    lemma_parse_negative_literal(first);
    assert(balanced(nothing));
    assert(left == nothing + seq![MINUS] + first);
    lemma_tokens_of_joined(nothing, MINUS, first);
    assert(priority_after(nothing, MINUS) == NEGATION);
    assert(left.first() == MINUS);
    assert(priority_after(left, symbol) == binary_priority(symbol));
    assert(gives_way_to(left, binary_priority(symbol))) by {
        assert forall|at: int| #[trigger]
            open_token_priority(left, at) is Some implies supersedes(
            binary_priority(symbol),
            open_token_priority(left, at)->Some_0,
        ) by {
            if 0 < at < left.len() {
                assert(open_token_priority(first, at - 1) is None);
            }
        }
    }
    lemma_parse_binary(left, symbol, second);
}

/// Parentheses override precedence: an operation in parentheses, an operator
/// and a plain literal parse to the operation on the parenthesis and the
/// number, whatever the two operators are.
pub proof fn lemma_parse_grouped_operand(
    first: Seq<u8>,
    inner: u8,
    second: Seq<u8>,
    outer: u8,
    third: Seq<u8>,
)
    requires
        plain_literal(first),
        plain_literal(second),
        plain_literal(third),
        operator(inner),
        operator(outer),
        first.len() + second.len() + third.len() + 4 <= usize::MAX,
    ensures
        parse(
            seq![OPEN_PARENTHESIS] + (first + seq![inner] + second) + seq![CLOSE_PARENTHESIS]
                + seq![outer] + third,
        ) == operation(
            outer,
            grouped(operation(inner, number(first), number(second))),
            number(third),
        ),
{
    let within = first + seq![inner] + second;
    let left = seq![OPEN_PARENTHESIS] + within + seq![CLOSE_PARENTHESIS];
    lemma_plain_literal_is_an_operand(first);
    lemma_plain_literal_is_an_operand(second);
    lemma_plain_literal_is_an_operand(third);
    lemma_parse_plain_literal(third);
    lemma_tokens_of_joined(first, inner, second);
    lemma_parse_operation(first, inner, second);
    lemma_parse_group(within);
    assert(left.first() == OPEN_PARENTHESIS);
    assert(left.last() == CLOSE_PARENTHESIS);
    assert(previous_significant(left, left.len() as int) == Some(CLOSE_PARENTHESIS));
    assert(priority_after(left, outer) == binary_priority(outer));
    lemma_parse_binary(left, outer, third);
}

} // verus!
