//! A text without the whitespace around it.

use vstd::prelude::*;
use crate::token::{is_whitespace, whitespace};

verus! {

/// The first position from `from` on that holds no whitespace, or the length
/// of `bytes` where only whitespace is left.
pub open spec fn content_start(bytes: Seq<u8>, from: int) -> int
    decreases bytes.len() - from,
{
    if 0 <= from < bytes.len() && whitespace(bytes[from]) {
        content_start(bytes, from + 1)
    } else {
        from
    }
}

/// The position after the last byte before `upto` that is no whitespace, or
/// 0 where only whitespace stands before `upto`.
pub open spec fn content_end(bytes: Seq<u8>, upto: int) -> int
    decreases upto,
{
    if 0 < upto <= bytes.len() && whitespace(bytes[upto - 1]) {
        content_end(bytes, upto - 1)
    } else {
        upto
    }
}

/// `bytes` without the whitespace at its two ends.
pub open spec fn trimmed(bytes: Seq<u8>) -> Seq<u8> {
    let start = content_start(bytes, 0);
    if start >= bytes.len() {
        Seq::empty()
    } else {
        bytes.subrange(start, content_end(bytes, bytes.len() as int))
    }
}

/// All of `bytes` is whitespace.
pub open spec fn blank(bytes: Seq<u8>) -> bool {
    forall|i: int| 0 <= i < bytes.len() ==> whitespace(#[trigger] bytes[i])
}

/// `inner` is what is left of `bytes` when the whitespace at its two ends is
/// taken away: whitespace alone stands before and after it in `bytes`, and it
/// neither starts nor ends with whitespace.
pub open spec fn is_trimmed_of(inner: Seq<u8>, bytes: Seq<u8>) -> bool {
    &&& exists|before: Seq<u8>, after: Seq<u8>|
        blank(before) && blank(after) && #[trigger] (before + inner + after) == bytes
    &&& inner.len() > 0 ==> !whitespace(inner.first()) && !whitespace(inner.last())
}

proof fn lemma_content_start(bytes: Seq<u8>, from: int)
    requires
        0 <= from <= bytes.len(),
    ensures
        from <= content_start(bytes, from) <= bytes.len(),
        forall|i: int| from <= i < content_start(bytes, from) ==> whitespace(#[trigger] bytes[i]),
        content_start(bytes, from) < bytes.len() ==> !whitespace(bytes[content_start(bytes, from)]),
    decreases bytes.len() - from,
{
    if from < bytes.len() && whitespace(bytes[from]) {
        lemma_content_start(bytes, from + 1);
    }
}

proof fn lemma_content_end(bytes: Seq<u8>, upto: int)
    requires
        0 <= upto <= bytes.len(),
    ensures
        0 <= content_end(bytes, upto) <= upto,
        forall|i: int| content_end(bytes, upto) <= i < upto ==> whitespace(#[trigger] bytes[i]),
        content_end(bytes, upto) > 0 ==> !whitespace(bytes[content_end(bytes, upto) - 1]),
    decreases upto,
{
    if 0 < upto && whitespace(bytes[upto - 1]) {
        lemma_content_end(bytes, upto - 1);
    }
}

/// Trimming takes away the whitespace at the two ends and nothing else.
pub proof fn lemma_trimmed(bytes: Seq<u8>)
    ensures
        is_trimmed_of(trimmed(bytes), bytes),
        trimmed(bytes).len() <= bytes.len(),
        trimmed(bytes).len() == 0 <==> blank(bytes),
{
    let start = content_start(bytes, 0);
    let end = content_end(bytes, bytes.len() as int);
    lemma_content_start(bytes, 0);
    lemma_content_end(bytes, bytes.len() as int);
    if start >= bytes.len() {
        assert(Seq::<u8>::empty() + trimmed(bytes) + bytes == bytes);
        assert(blank(Seq::<u8>::empty()));
    } else {
        assert(start < end);
        let before = bytes.subrange(0, start);
        let after = bytes.subrange(end, bytes.len() as int);
        assert(before + trimmed(bytes) + after == bytes);
        assert(blank(before));
        assert(blank(after));
        assert(!whitespace(bytes[start]));
    }
}

proof fn lemma_content_start_after_blank(before: Seq<u8>, rest: Seq<u8>, from: int)
    requires
        blank(before),
        0 <= from <= before.len(),
        rest.len() > 0,
        !whitespace(rest.first()),
    ensures
        content_start(before + rest, from) == before.len(),
    decreases before.len() - from,
{
    let bytes = before + rest;
    if from < before.len() {
        assert(bytes[from] == before[from]);
        lemma_content_start_after_blank(before, rest, from + 1);
    } else {
        assert(bytes[from] == rest.first());
    }
}

proof fn lemma_content_end_before_blank(rest: Seq<u8>, after: Seq<u8>, upto: int)
    requires
        blank(after),
        rest.len() <= upto <= rest.len() + after.len(),
        rest.len() > 0,
        !whitespace(rest.last()),
    ensures
        content_end(rest + after, upto) == rest.len(),
    decreases upto,
{
    let bytes = rest + after;
    if upto > rest.len() {
        assert(bytes[upto - 1] == after[upto - 1 - rest.len()]);
        lemma_content_end_before_blank(rest, after, upto - 1);
    } else {
        assert(bytes[upto - 1] == rest.last());
    }
}

/// Only one text is what is left of another without the whitespace at its
/// ends.
pub proof fn lemma_trimmed_unique(inner: Seq<u8>, bytes: Seq<u8>)
    requires
        is_trimmed_of(inner, bytes),
    ensures
        trimmed(bytes) == inner,
{
    let (before, after) = choose|before: Seq<u8>, after: Seq<u8>|
        blank(before) && blank(after) && #[trigger] (before + inner + after) == bytes;
    if inner.len() == 0 {
        assert(blank(bytes)) by {
            assert forall|i: int| 0 <= i < bytes.len() implies whitespace(#[trigger] bytes[i]) by {
                if i < before.len() {
                    assert(bytes[i] == before[i]);
                } else {
                    assert(bytes[i] == after[i - before.len()]);
                }
            }
        }
        lemma_trimmed(bytes);
    } else {
        let rest = inner + after;
        assert(rest.first() == inner.first());
        assert(before + rest == bytes);
        lemma_content_start_after_blank(before, rest, 0);
        let head = before + inner;
        assert(head.last() == inner.last());
        lemma_content_end_before_blank(head, after, bytes.len() as int);
        assert(bytes.subrange(before.len() as int, head.len() as int) == inner);
    }
}

/// Whitespace around a text does not change what is left when it is trimmed.
pub proof fn lemma_trimmed_of_padded(before: Seq<u8>, bytes: Seq<u8>, after: Seq<u8>)
    requires
        blank(before),
        blank(after),
    ensures
        trimmed(before + bytes + after) == trimmed(bytes),
{
    lemma_trimmed(bytes);
    let inner = trimmed(bytes);
    let (first, last) = choose|first: Seq<u8>, last: Seq<u8>|
        blank(first) && blank(last) && #[trigger] (first + inner + last) == bytes;
    let wide_first = before + first;
    let wide_last = last + after;
    assert(blank(wide_first)) by {
        assert forall|i: int| 0 <= i < wide_first.len() implies whitespace(
            #[trigger] wide_first[i],
        ) by {
            if i < before.len() {
                assert(wide_first[i] == before[i]);
            } else {
                assert(wide_first[i] == first[i - before.len()]);
            }
        }
    }
    assert(blank(wide_last)) by {
        assert forall|i: int| 0 <= i < wide_last.len() implies whitespace(
            #[trigger] wide_last[i],
        ) by {
            if i < last.len() {
                assert(wide_last[i] == last[i]);
            } else {
                assert(wide_last[i] == after[i - last.len()]);
            }
        }
    }
    assert(wide_first + inner + wide_last == before + bytes + after);
    lemma_trimmed_unique(inner, before + bytes + after);
}

/// A text that neither starts nor ends with whitespace is its own trimming.
pub proof fn lemma_trimmed_is_identity(bytes: Seq<u8>)
    requires
        bytes.len() > 0 ==> !whitespace(bytes.first()) && !whitespace(bytes.last()),
    ensures
        trimmed(bytes) == bytes,
{
    if bytes.len() > 0 {
        assert(bytes.subrange(0, bytes.len() as int) == bytes);
    }
}

/// Takes the whitespace off the two ends of `bytes`.
pub fn trim(bytes: &[u8]) -> (inner: &[u8])
    ensures
        inner@ == trimmed(bytes@),
        is_trimmed_of(inner@, bytes@),
        inner@.len() <= bytes@.len(),
{
    let length = bytes.len();
    let mut start: usize = 0;
    while start < length && is_whitespace(bytes[start])
        invariant
            start <= length == bytes@.len(),
            content_start(bytes@, start as int) == content_start(bytes@, 0),
        decreases length - start,
    {
        start = start + 1;
    }
    proof {
        lemma_trimmed(bytes@);
    }
    if start == length {
        return &bytes[0..0];
    }
    let mut end: usize = length;
    while end > 0 && is_whitespace(bytes[end - 1])
        invariant
            end <= length == bytes@.len(),
            content_end(bytes@, end as int) == content_end(bytes@, length as int),
        decreases end,
    {
        end = end - 1;
    }
    proof {
        lemma_content_start(bytes@, 0);
        lemma_content_end(bytes@, length as int);
    }
    &bytes[start..end]
}

} // verus!
