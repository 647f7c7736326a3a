//! What the reordering buffers have in common.
//!
//! Items come with an index and in any order. A buffer holds back the items
//! that come early and lets them go in the order of their indices, starting
//! with index 0 and leaving no gap.

use vstd::prelude::*;

verus! {

/// The indices from `from` up to, not including, `to`.
pub open spec fn index_span(from: int, to: int) -> Set<usize> {
    Set::new(|c: usize| from <= c < to)
}

/// The items with the `count` indices from `next` on, in the order of their
/// indices.
pub open spec fn released<T>(pending: Map<usize, T>, next: int, count: int) -> Seq<T>
    decreases count,
{
    if count <= 0 {
        Seq::empty()
    } else {
        released(pending, next, count - 1).push(pending[(next + count - 1) as usize])
    }
}

/// An item with the index `c` is among the arrivals.
pub open spec fn has_arrived<T>(arrivals: Seq<(usize, T)>, c: usize) -> bool {
    exists|j: int| 0 <= j < arrivals.len() && (#[trigger] arrivals[j]).0 == c
}

/// Every arrival is the item of `items` that its index names.
pub open spec fn arrivals_are<T>(items: Seq<T>, arrivals: Seq<(usize, T)>) -> bool {
    forall|j: int|
        0 <= j < arrivals.len() ==> (#[trigger] arrivals[j]).0 < items.len() && arrivals[j].1
            == items[arrivals[j].0 as int]
}

/// Items let go in the order of their indices, each having arrived under its
/// index, are the first of `items` where every arrival is the item that its
/// index names.
pub proof fn lemma_let_go_in_order<T>(items: Seq<T>, arrivals: Seq<(usize, T)>, let_go: Seq<T>)
    requires
        arrivals_are(items, arrivals),
        let_go.len() <= usize::MAX,
        forall|k: int|
            0 <= k < let_go.len() ==> arrivals.contains((k as usize, #[trigger] let_go[k])),
    ensures
        let_go.len() <= items.len(),
        let_go == items.take(let_go.len() as int),
{
    assert forall|k: int| 0 <= k < let_go.len() implies k < items.len() && #[trigger] let_go[k]
        == items[k] by {
        let w = (k as usize, let_go[k]);
        assert(arrivals.contains(w));
        let j = choose|j: int| 0 <= j < arrivals.len() && arrivals[j] == w;
        assert(arrivals[j].0 < items.len());
    }
    if let_go.len() > 0 {
        let last = let_go[let_go.len() - 1];
        assert(let_go.len() - 1 < items.len());
    }
    assert(let_go =~= items.take(let_go.len() as int));
}

/// After one more arrival the indices that have arrived are those from
/// before and the new one.
pub proof fn lemma_has_arrived_push<T>(arrivals: Seq<(usize, T)>, item: (usize, T), c: usize)
    ensures
        has_arrived(arrivals.push(item), c) <==> has_arrived(arrivals, c) || c == item.0,
{
    let longer = arrivals.push(item);
    if has_arrived(arrivals, c) {
        let j = choose|j: int| 0 <= j < arrivals.len() && (#[trigger] arrivals[j]).0 == c;
        assert(longer[j].0 == c);
    }
    if c == item.0 {
        assert(longer[arrivals.len() as int].0 == c);
    }
    if has_arrived(longer, c) {
        let j = choose|j: int| 0 <= j < longer.len() && (#[trigger] longer[j]).0 == c;
        if j < arrivals.len() {
            assert(arrivals[j].0 == c);
        }
    }
}

/// What has arrived stays arrived when one more item arrives.
pub proof fn lemma_arrival_stays<T>(arrivals: Seq<(usize, T)>, item: (usize, T), old: (usize, T))
    requires
        arrivals.contains(old),
    ensures
        arrivals.push(item).contains(old),
        arrivals.push(item).contains(item),
{
    let longer = arrivals.push(item);
    let j = choose|j: int| 0 <= j < arrivals.len() && arrivals[j] == old;
    assert(longer[j] == old);
    assert(longer[arrivals.len() as int] == item);
}

} // verus!
