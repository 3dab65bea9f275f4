//! Ranges that items reserve, one after the other.

use vstd::prelude::*;

verus! {

broadcast use vstd::seq_lib::group_seq_properties;

/// Whether the ranges of items follow one another from `start` on and end at `end`.
pub open spec fn ranges_chain<T>(
    items: Seq<T>,
    first: spec_fn(T) -> nat,
    count: spec_fn(T) -> nat,
    start: nat,
    end: nat,
) -> bool
    decreases items.len(),
{
    if items.len() == 0 {
        end == start
    } else {
        &&& ranges_chain(items.drop_last(), first, count, start, first(items.last()))
        &&& first(items.last()) + count(items.last()) == end
    }
}

/// Whether a position is in the range of an item.
pub open spec fn in_range<T>(
    item: T,
    first: spec_fn(T) -> nat,
    count: spec_fn(T) -> nat,
    position: int,
) -> bool {
    first(item) <= position < first(item) + count(item)
}

/// Whether a position is in the range of one of the items.
pub open spec fn is_covered<T>(
    items: Seq<T>,
    first: spec_fn(T) -> nat,
    count: spec_fn(T) -> nat,
    position: int,
) -> bool {
    exists|i: int|
        0 <= i < items.len() && #[trigger] in_range(items[i], first, count, position)
}

/// Whether the ranges of items, in the order of the items, are contiguous and disjoint and cover
/// what lies between `start` and `end`, and nothing else. Without items there is nothing between.
pub open spec fn ranges_tile<T>(
    items: Seq<T>,
    first: spec_fn(T) -> nat,
    count: spec_fn(T) -> nat,
    start: nat,
    end: nat,
) -> bool {
    &&& start <= end
    &&& items.len() == 0 ==> end == start
    &&& items.len() > 0 ==> first(items[0]) == start
    &&& items.len() > 0 ==> first(items.last()) + count(items.last()) == end
    &&& forall|i: int, j: int|
        0 <= i < items.len() && j == i + 1 && j < items.len() ==> first(#[trigger] items[j])
            == first(#[trigger] items[i]) + count(items[i])
    &&& forall|i: int, j: int|
        0 <= i < j < items.len() ==> first(#[trigger] items[i]) + count(items[i]) <= first(
            #[trigger] items[j],
        )
    &&& forall|i: int|
        0 <= i < items.len() ==> start <= first(#[trigger] items[i]) && first(items[i]) + count(
            items[i],
        ) <= end
    &&& forall|position: int| #[trigger]
        is_covered(items, first, count, position) <==> start <= position < end
}

/// A chain of ranges grows by the range of an item that is put in the next slot.
pub(crate) proof fn lemma_chain_push<T>(
    items: Seq<T>,
    next: int,
    item: T,
    first: spec_fn(T) -> nat,
    count: spec_fn(T) -> nat,
    start: nat,
)
    requires
        0 <= next < items.len(),
        ranges_chain(items.take(next), first, count, start, first(item)),
    ensures
        ranges_chain(
            items.update(next, item).take(next + 1),
            first,
            count,
            start,
            first(item) + count(item),
        ),
{
    let longer = items.update(next, item).take(next + 1);
    assert(longer.drop_last() == items.take(next));
    assert(longer.last() == item);
}

/// Ranges that follow one another tile what lies between the ends of the chain.
pub(crate) proof fn lemma_chain_tiles<T>(
    items: Seq<T>,
    first: spec_fn(T) -> nat,
    count: spec_fn(T) -> nat,
    start: nat,
    end: nat,
)
    requires
        ranges_chain(items, first, count, start, end),
    ensures
        ranges_tile(items, first, count, start, end),
    decreases items.len(),
{
    if items.len() > 0 {
        let front = items.drop_last();
        let n = items.len() - 1;
        lemma_chain_tiles(front, first, count, start, first(items.last()));
        assert forall|i: int, j: int| 0 <= i < j < items.len() implies first(#[trigger] items[i])
            + count(items[i]) <= first(#[trigger] items[j]) by {
            assert(front[i] == items[i]);
            if j < n {
                assert(front[j] == items[j]);
            }
        }
        assert forall|i: int, j: int|
            0 <= i < items.len() && j == i + 1 && j < items.len() implies first(
            #[trigger] items[j],
        ) == first(#[trigger] items[i]) + count(items[i]) by {
            assert(front[i] == items[i]);
            if j < n {
                assert(front[j] == items[j]);
            } else {
                assert(front.last() == items[i]);
            }
        }
        assert forall|i: int| 0 <= i < items.len() implies start <= first(#[trigger] items[i])
            && first(items[i]) + count(items[i]) <= end by {
            if i < n {
                assert(front[i] == items[i]);
            }
        }
        assert forall|position: int| #[trigger]
            is_covered(items, first, count, position) <==> start <= position < end by {
            if start <= position < first(items.last()) {
                assert(is_covered(front, first, count, position));
                let i = choose|i: int|
                    0 <= i < front.len() && #[trigger] in_range(front[i], first, count, position);
                assert(in_range(items[i], first, count, position));
            } else if start <= position < end {
                assert(in_range(items[n], first, count, position));
            }
        }
        if front.len() > 0 {
            assert(front[0] == items[0]);
        }
    } else {
        assert forall|position: int| #[trigger]
            is_covered(items, first, count, position) <==> start <= position < end by {}
    }
}

} // verus!
