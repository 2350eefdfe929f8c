//! The parenthesis groups of a text that lie inside no other group.

use vstd::prelude::*;
use vstd::string::StringSliceAdditionalSpecFns;
use crate::token::{CLOSE_PARENTHESIS, OPEN_PARENTHESIS};

verus! {

/// How many groups are open at position `upto`: the `(` among the bytes
/// before it, less the `)`. A `)` that closes nothing takes it below zero.
pub open spec fn depth(bytes: Seq<u8>, upto: int) -> int
    decreases upto,
{
    if upto <= 0 {
        0
    } else if bytes[upto - 1] == OPEN_PARENTHESIS {
        depth(bytes, upto - 1) + 1
    } else if bytes[upto - 1] == CLOSE_PARENTHESIS {
        depth(bytes, upto - 1) - 1
    } else {
        depth(bytes, upto - 1)
    }
}

/// The position of the last `(` before `upto` that was met with no group
/// open, and 0 where there is none.
pub open spec fn pending_open(bytes: Seq<u8>, upto: int) -> int
    decreases upto,
{
    if upto <= 0 {
        0
    } else if bytes[upto - 1] == OPEN_PARENTHESIS && depth(bytes, upto - 1) == 0 {
        upto - 1
    } else {
        pending_open(bytes, upto - 1)
    }
}

/// The groups that close before position `upto`, in the order in which they
/// close: a `)` met with exactly one group open closes the group that the
/// pending `(` opened.
pub open spec fn groups_closed(bytes: Seq<u8>, upto: int) -> Seq<(usize, usize)>
    decreases upto,
{
    if upto <= 0 {
        Seq::empty()
    } else if bytes[upto - 1] == CLOSE_PARENTHESIS && depth(bytes, upto - 1) == 1 {
        groups_closed(bytes, upto - 1).push(
            (pending_open(bytes, upto - 1) as usize, (upto - 1) as usize),
        )
    } else {
        groups_closed(bytes, upto - 1)
    }
}

/// The top-level groups of the whole text, each as the positions of its `(`
/// and of its `)`.
pub open spec fn top_level_spans(bytes: Seq<u8>) -> Seq<(usize, usize)> {
    groups_closed(bytes, bytes.len() as int)
}

/// `start` and `end` are the two parentheses of one top-level group: the `(`
/// stands where no group is open, the `)` where that one alone is, and it
/// stays open in between.
pub open spec fn is_top_level_group(bytes: Seq<u8>, start: int, end: int) -> bool {
    &&& 0 <= start < end < bytes.len()
    &&& bytes[start] == OPEN_PARENTHESIS
    &&& depth(bytes, start) == 0
    &&& bytes[end] == CLOSE_PARENTHESIS
    &&& depth(bytes, end) == 1
    &&& forall|between: int| start < between <= end ==> #[trigger] depth(bytes, between) >= 1
}

/// `spans` holds each top-level group of `bytes` once, and nothing else, from
/// left to right.
pub open spec fn lists_top_level_groups(bytes: Seq<u8>, spans: Seq<(usize, usize)>) -> bool {
    &&& forall|i: int|
        0 <= i < spans.len() ==> is_top_level_group(
            bytes,
            (#[trigger] spans[i]).0 as int,
            spans[i].1 as int,
        )
    &&& forall|start: int, end: int| #[trigger]
        is_top_level_group(bytes, start, end) ==> exists|i: int|
            0 <= i < spans.len() && (#[trigger] spans[i]).0 == start && spans[i].1 == end
    &&& forall|i: int, j: int|
        0 <= i < j < spans.len() ==> (#[trigger] spans[i]).1 < (#[trigger] spans[j]).0
}

/// Every `(` has its `)` after it and every `)` its `(` before it.
pub open spec fn balanced(bytes: Seq<u8>) -> bool {
    &&& forall|upto: int| 0 <= upto <= bytes.len() ==> #[trigger] depth(bytes, upto) >= 0
    &&& depth(bytes, bytes.len() as int) == 0
}

/// Where a group is open, the pending `(` is the one that opened the
/// outermost of the open groups: it stands where none was open, and one has
/// been open ever since.
pub proof fn lemma_pending_open(bytes: Seq<u8>, upto: int)
    requires
        0 <= upto <= bytes.len(),
        depth(bytes, upto) >= 1,
    ensures
        0 <= pending_open(bytes, upto) < upto,
        bytes[pending_open(bytes, upto)] == OPEN_PARENTHESIS,
        depth(bytes, pending_open(bytes, upto)) == 0,
        forall|between: int|
            pending_open(bytes, upto) < between <= upto ==> #[trigger] depth(bytes, between) >= 1,
    decreases upto,
{
    if bytes[upto - 1] == OPEN_PARENTHESIS && depth(bytes, upto - 1) == 0 {
    } else {
        lemma_pending_open(bytes, upto - 1);
    }
}

/// The groups that close before a position are the top-level groups that
/// end before it: each of them once, nothing else, from left to right.
pub proof fn lemma_groups_closed(bytes: Seq<u8>, upto: int)
    requires
        0 <= upto <= bytes.len() <= usize::MAX,
    ensures
        forall|i: int|
            0 <= i < groups_closed(bytes, upto).len() ==> {
                &&& is_top_level_group(
                    bytes,
                    (#[trigger] groups_closed(bytes, upto)[i]).0 as int,
                    groups_closed(bytes, upto)[i].1 as int,
                )
                &&& groups_closed(bytes, upto)[i].1 < upto
            },
        forall|start: int, end: int| #[trigger]
            is_top_level_group(bytes, start, end) && end < upto ==> exists|i: int|
                0 <= i < groups_closed(bytes, upto).len() && (#[trigger] groups_closed(
                    bytes,
                    upto,
                )[i]).0 == start && groups_closed(bytes, upto)[i].1 == end,
        forall|i: int, j: int|
            0 <= i < j < groups_closed(bytes, upto).len() ==> (#[trigger] groups_closed(
                bytes,
                upto,
            )[i]).1 < (#[trigger] groups_closed(bytes, upto)[j]).0,
    decreases upto,
{
    if upto > 0 {
        lemma_groups_closed(bytes, upto - 1);
        let before = groups_closed(bytes, upto - 1);
        let now = groups_closed(bytes, upto);
        let last = upto - 1;
        if bytes[last] == CLOSE_PARENTHESIS && depth(bytes, last) == 1 {
            lemma_pending_open(bytes, last);
            let open = pending_open(bytes, last);
            assert(is_top_level_group(bytes, open, last));
            assert(now == before.push((open as usize, last as usize)));
            assert forall|i: int| 0 <= i < before.len() implies (#[trigger] before[i]).1 < open by {
                let closed = before[i].1 as int;
                assert(is_top_level_group(bytes, before[i].0 as int, closed));
                assert(depth(bytes, closed + 1) == 0);
            }
            assert forall|start: int, end: int| #[trigger]
                is_top_level_group(bytes, start, end) && end < upto implies exists|i: int|
                0 <= i < now.len() && (#[trigger] now[i]).0 == start && now[i].1 == end by {
                if end == last {
                    assert(depth(bytes, start) == 0 && depth(bytes, open) == 0);
                    assert(start == open);
                    assert(now[before.len() as int].0 == start);
                } else {
                    let i = choose|i: int|
                        0 <= i < before.len() && (#[trigger] before[i]).0 == start && before[i].1
                            == end;
                    assert(now[i] == before[i]);
                }
            }
        } else {
            assert(now == before);
            assert forall|start: int, end: int| #[trigger]
                is_top_level_group(bytes, start, end) && end < upto implies exists|i: int|
                0 <= i < now.len() && (#[trigger] now[i]).0 == start && now[i].1 == end by {
                assert(end != last);
            }
        }
    }
}

/// The scan lists the top-level groups: each of them once, nothing else, from
/// left to right.
pub proof fn lemma_top_level_spans(bytes: Seq<u8>)
    requires
        bytes.len() <= usize::MAX,
    ensures
        lists_top_level_groups(bytes, top_level_spans(bytes)),
{
    lemma_groups_closed(bytes, bytes.len() as int);
}

/// The depth at a position rests on the bytes before it alone.
pub proof fn lemma_depth_of_prefix(first: Seq<u8>, second: Seq<u8>, upto: int)
    requires
        0 <= upto <= first.len(),
        upto <= second.len(),
        forall|i: int| 0 <= i < upto ==> first[i] == second[i],
    ensures
        depth(first, upto) == depth(second, upto),
    decreases upto,
{
    if upto > 0 {
        lemma_depth_of_prefix(first, second, upto - 1);
    }
}

/// The depth in the second of two joined texts is the depth at the end of
/// the first and the depth in the second taken alone together.
pub proof fn lemma_depth_of_concat(left: Seq<u8>, right: Seq<u8>, upto: int)
    requires
        0 <= upto <= right.len(),
    ensures
        depth(left + right, left.len() + upto) == depth(left, left.len() as int) + depth(
            right,
            upto,
        ),
    decreases upto,
{
    if upto > 0 {
        lemma_depth_of_concat(left, right, upto - 1);
        assert((left + right)[left.len() + upto - 1] == right[upto - 1]);
    } else {
        lemma_depth_of_prefix(left + right, left, left.len() as int);
    }
}

/// A text without parentheses is balanced, and no group is open anywhere in it.
pub proof fn lemma_depth_without_parentheses(bytes: Seq<u8>, upto: int)
    requires
        0 <= upto <= bytes.len(),
        forall|i: int|
            0 <= i < bytes.len() ==> bytes[i] != OPEN_PARENTHESIS && bytes[i]
                != CLOSE_PARENTHESIS,
    ensures
        depth(bytes, upto) == 0,
    decreases upto,
{
    if upto > 0 {
        lemma_depth_without_parentheses(bytes, upto - 1);
    }
}

/// The groups that close before a position are the first of those that close
/// before a later one.
pub proof fn lemma_groups_closed_grow(bytes: Seq<u8>, upto: int, later: int)
    requires
        0 <= upto <= later,
    ensures
        groups_closed(bytes, upto).len() <= groups_closed(bytes, later).len(),
        forall|i: int|
            0 <= i < groups_closed(bytes, upto).len() ==> groups_closed(bytes, later)[i]
                == #[trigger] groups_closed(bytes, upto)[i],
    decreases later - upto,
{
    if upto < later {
        lemma_groups_closed_grow(bytes, upto, later - 1);
    }
}

/// In a balanced text, where a group is open, the next group to close is the
/// one that the pending `(` opened, and it closes at the first `)` from there
/// on that is met with one group open.
pub proof fn lemma_open_group(bytes: Seq<u8>, at: int)
    requires
        balanced(bytes),
        bytes.len() <= usize::MAX,
        0 <= at < bytes.len(),
        depth(bytes, at) >= 1,
    ensures
        groups_closed(bytes, at).len() < top_level_spans(bytes).len(),
        top_level_spans(bytes)[groups_closed(bytes, at).len() as int].0 == pending_open(bytes, at),
        pending_open(bytes, at) < at <= top_level_spans(bytes)[groups_closed(
            bytes,
            at,
        ).len() as int].1,
        top_level_spans(bytes)[groups_closed(bytes, at).len() as int].1 == at <==> bytes[at]
            == CLOSE_PARENTHESIS && depth(bytes, at) == 1,
    decreases bytes.len() - at,
{
    let closed = groups_closed(bytes, at).len() as int;
    lemma_pending_open(bytes, at);
    if bytes[at] == CLOSE_PARENTHESIS && depth(bytes, at) == 1 {
        lemma_groups_closed_grow(bytes, at + 1, bytes.len() as int);
        assert(groups_closed(bytes, at + 1)[closed] == (
            pending_open(bytes, at) as usize,
            at as usize,
        ));
    } else {
        assert(depth(bytes, at + 1) >= 1);
        assert(groups_closed(bytes, at + 1) == groups_closed(bytes, at));
        assert(pending_open(bytes, at + 1) == pending_open(bytes, at));
        lemma_open_group(bytes, at + 1);
    }
}

/// Where no group is open, the next group to close has not begun.
pub proof fn lemma_next_group_starts_later(bytes: Seq<u8>, at: int)
    requires
        bytes.len() <= usize::MAX,
        0 <= at <= bytes.len(),
        depth(bytes, at) == 0,
        groups_closed(bytes, at).len() < top_level_spans(bytes).len(),
    ensures
        top_level_spans(bytes)[groups_closed(bytes, at).len() as int].0 >= at,
{
    let spans = top_level_spans(bytes);
    let closed = groups_closed(bytes, at).len() as int;
    lemma_groups_closed(bytes, bytes.len() as int);
    lemma_groups_closed(bytes, at);
    lemma_groups_closed_grow(bytes, at, bytes.len() as int);
    let start = spans[closed].0 as int;
    let end = spans[closed].1 as int;
    assert(is_top_level_group(bytes, start, end));
    if end < at {
        let i = choose|i: int|
            0 <= i < closed && (#[trigger] groups_closed(bytes, at)[i]).0 == start
                && groups_closed(bytes, at)[i].1 == end;
        assert(spans[i] == groups_closed(bytes, at)[i]);
        assert(spans[i].1 < spans[closed].0);
    }
}

/// A text without a `)` has no group.
pub proof fn lemma_no_group_without_close(bytes: Seq<u8>)
    requires
        forall|i: int| 0 <= i < bytes.len() ==> bytes[i] != CLOSE_PARENTHESIS,
    ensures
        top_level_spans(bytes) == Seq::<(usize, usize)>::empty(),
{
    lemma_none_closed(bytes, bytes.len() as int);
}

proof fn lemma_none_closed(bytes: Seq<u8>, upto: int)
    requires
        0 <= upto <= bytes.len(),
        forall|i: int| 0 <= i < bytes.len() ==> bytes[i] != CLOSE_PARENTHESIS,
    ensures
        groups_closed(bytes, upto) == Seq::<(usize, usize)>::empty(),
    decreases upto,
{
    if upto > 0 {
        lemma_none_closed(bytes, upto - 1);
    }
}

/// Only one sequence lists the top-level groups of a text.
pub proof fn lemma_top_level_groups_unique(
    bytes: Seq<u8>,
    first: Seq<(usize, usize)>,
    second: Seq<(usize, usize)>,
)
    requires
        lists_top_level_groups(bytes, first),
        lists_top_level_groups(bytes, second),
    ensures
        first == second,
{
    lemma_listing_prefix(bytes, first, second, first.len() as int);
    lemma_listing_prefix(bytes, second, first, second.len() as int);
    assert(first =~= second);
}

proof fn lemma_listing_prefix(
    bytes: Seq<u8>,
    first: Seq<(usize, usize)>,
    second: Seq<(usize, usize)>,
    upto: int,
)
    requires
        lists_top_level_groups(bytes, first),
        lists_top_level_groups(bytes, second),
        0 <= upto <= first.len(),
    ensures
        upto <= second.len(),
        forall|i: int| 0 <= i < upto ==> first[i] == second[i],
    decreases upto,
{
    if upto > 0 {
        lemma_listing_prefix(bytes, first, second, upto - 1);
        let i = upto - 1;
        assert(is_top_level_group(bytes, first[i].0 as int, first[i].1 as int));
        let j = choose|j: int|
            0 <= j < second.len() && (#[trigger] second[j]).0 == first[i].0 && second[j].1
                == first[i].1;
        if j < i {
            assert(first[j] == second[j]);
            assert(first[j].1 < first[i].0);
        } else if j > i {
            assert(is_top_level_group(bytes, second[i].0 as int, second[i].1 as int));
            let k = choose|k: int|
                0 <= k < first.len() && (#[trigger] first[k]).0 == second[i].0 && first[k].1
                    == second[i].1;
            assert(second[i].1 < second[j].0);
            if k < i {
                assert(first[k] == second[k]);
                assert(second[k].1 < second[i].0);
            } else if k > i {
                assert(first[i].1 < first[k].0);
            }
        }
    }
}

/// Lists the top-level parenthesis groups of `bytes`, each as the offsets of
/// its `(` and of its `)`, from left to right. Nothing is said of balance: a
/// `(` that is never closed gives no group, nor does a `)` that closes nothing.
pub fn locate_parenthesis_bytes(bytes: &[u8]) -> (spans: Vec<(usize, usize)>)
    ensures
        spans@ == top_level_spans(bytes@),
        lists_top_level_groups(bytes@, spans@),
{
    let mut spans: Vec<(usize, usize)> = Vec::new();
    let mut open: usize = 0;
    let mut level: i128 = 0;
    let mut at: usize = 0;
    let length = bytes.len();
    while at < length
        invariant
            at <= length == bytes@.len(),
            level == depth(bytes@, at as int),
            -(at as int) <= level <= at,
            open == pending_open(bytes@, at as int),
            spans@ == groups_closed(bytes@, at as int),
        decreases bytes@.len() - at,
    {
        let byte = bytes[at];
        if byte == OPEN_PARENTHESIS {
            if level == 0 {
                open = at;
            }
            level = level + 1;
        } else if byte == CLOSE_PARENTHESIS {
            if level == 1 {
                spans.push((open, at));
            }
            level = level - 1;
        }
        at = at + 1;
    }
    proof {
        lemma_top_level_spans(bytes@);
    }
    spans
}

/// Lists the top-level parenthesis groups of `s`, each as the byte offsets of
/// its `(` and of its `)`, from left to right.
pub fn locate_parenthesis(s: &str) -> (spans: Vec<(usize, usize)>)
    ensures
        spans@ == top_level_spans(s.spec_bytes()),
        lists_top_level_groups(s.spec_bytes(), spans@),
{
    locate_parenthesis_bytes(s.as_bytes())
}

} // verus!
