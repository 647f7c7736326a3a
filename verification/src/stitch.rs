//! From markers to block ranges.
//!
//! A block reaches from its own marker to the next marker of either kind. The
//! stitcher takes the markers chunk by chunk, in whatever order the chunks
//! arrive, works them off in the order of the chunk numbers, and emits a
//! range whenever a marker closes an open block. A block that is still open
//! when the markers end reaches to the end of the input.

use vstd::prelude::*;
use std::collections::HashMap;
use crate::marker::MarkerType;
use crate::keys::search_keys;
use crate::matcher::matcher_builds;
use crate::order::{
    has_arrived, index_span, lemma_arrival_stays, lemma_has_arrived_push, released,
};
use crate::scanner::{
    all_markers, chunk_count, chunk_count_of, chunk_end, chunk_start, is_marker_listing,
    lemma_listing_concat, lemma_listing_unique, lemma_markers_below_listing, markers_ascend,
    Scanner,
};

verus! {

/// The start of the block that is open after `markers` have been worked off,
/// `open` having been open before: a block marker opens a block, an
/// end-of-stream marker leaves none open.
pub open spec fn open_after(open: Option<u64>, markers: Seq<(u64, MarkerType)>) -> Option<u64> {
    if markers.len() == 0 {
        open
    } else {
        match markers.last().1 {
            MarkerType::Block => Some(markers.last().0),
            MarkerType::Eos => None,
        }
    }
}

/// The ranges that `markers` close, `open` having been open before: each
/// marker closes the block that is open when it comes.
pub open spec fn ranges_of(open: Option<u64>, markers: Seq<(u64, MarkerType)>) -> Seq<(u64, u64)>
    decreases markers.len(),
{
    if markers.len() == 0 {
        Seq::empty()
    } else {
        let before = ranges_of(open, markers.drop_last());
        match open_after(open, markers.drop_last()) {
            Some(start) => before.push((start, markers.last().0)),
            None => before,
        }
    }
}

/// The range of the block that is left open at the end of the input, if any.
pub open spec fn tail_range(open: Option<u64>, total_bits: u64) -> Seq<(u64, u64)> {
    match open {
        Some(start) => seq![(start, total_bits)],
        None => Seq::empty(),
    }
}

/// All block ranges of an input of `total_bits` bits whose markers are
/// `markers`.
pub open spec fn block_ranges(markers: Seq<(u64, MarkerType)>, total_bits: u64) -> Seq<(u64, u64)> {
    ranges_of(None, markers) + tail_range(open_after(None, markers), total_bits)
}

/// The markers of the `count` chunks from number `next` on, one chunk after
/// the other.
pub open spec fn drained(pending: Map<usize, Seq<(u64, MarkerType)>>, next: int, count: int) -> Seq<
    (u64, MarkerType),
> {
    released(pending, next, count).flatten()
}

/// Working off markers in two parts gives the ranges of the first part and
/// then those of the second.
pub proof fn lemma_ranges_of_concat(
    open: Option<u64>,
    a: Seq<(u64, MarkerType)>,
    b: Seq<(u64, MarkerType)>,
)
    ensures
        ranges_of(open, a + b) == ranges_of(open, a) + ranges_of(open_after(open, a), b),
        open_after(open, a + b) == open_after(open_after(open, a), b),
    decreases b.len(),
{
    if b.len() == 0 {
        assert(a + b =~= a);
        assert(ranges_of(open, a) + ranges_of(open_after(open, a), b) =~= ranges_of(open, a));
    } else {
        assert((a + b).drop_last() =~= a + b.drop_last());
        assert((a + b).last() == b.last());
        lemma_ranges_of_concat(open, a, b.drop_last());
        let mid = open_after(open, a);
        match open_after(mid, b.drop_last()) {
            Some(start) => {
                assert(ranges_of(open, a + b) =~= ranges_of(open, a) + ranges_of(mid, b));
            },
            None => {},
        }
    }
}

/// Marker `i` is a block marker and has a marker after it.
pub open spec fn opens_range(markers: Seq<(u64, MarkerType)>, i: int) -> bool {
    0 <= i < markers.len() - 1 && markers[i].1 == MarkerType::Block
}

/// The range from marker `i` to the marker after it.
pub open spec fn range_from(markers: Seq<(u64, MarkerType)>, i: int) -> (u64, u64) {
    (markers[i].0, markers[i + 1].0)
}

/// `range` reaches from a block marker to the marker that comes next.
pub open spec fn spans_neighbours(markers: Seq<(u64, MarkerType)>, range: (u64, u64)) -> bool {
    exists|i: int| #[trigger] opens_range(markers, i) && range == range_from(markers, i)
}

proof fn lemma_rising_front(markers: Seq<(u64, MarkerType)>)
    requires
        markers_ascend(markers),
        markers.len() > 0,
    ensures
        markers_ascend(markers.drop_last()),
        markers.len() > 1 ==> markers.drop_last().last().0 < markers.last().0,
{
    let front = markers.drop_last();
    assert forall|a: int, b: int| 0 <= a < b < front.len() implies (#[trigger] front[a]).0 < (
    #[trigger] front[b]).0 by {
        assert(front[a] == markers[a]);
        assert(front[b] == markers[b]);
    }
    if markers.len() > 1 {
        assert(front.last() == markers[markers.len() - 2]);
        assert(markers[markers.len() - 2].0 < markers[markers.len() - 1].0);
    }
}

/// Where the markers rise, no range is empty, each range ends where the
/// next one starts or earlier, and all end at the last marker or earlier.
pub proof fn lemma_ranges_in_order(markers: Seq<(u64, MarkerType)>)
    requires
        markers_ascend(markers),
    ensures
        forall|j: int|
            0 <= j < ranges_of(None, markers).len() ==> (#[trigger] ranges_of(None, markers)[j]).0
                < ranges_of(None, markers)[j].1 <= markers.last().0,
        forall|j: int, k: int|
            0 <= j < k < ranges_of(None, markers).len() ==> (#[trigger] ranges_of(
                None,
                markers,
            )[j]).1 <= (#[trigger] ranges_of(None, markers)[k]).0,
    decreases markers.len(),
{
    if markers.len() > 0 {
        let front = markers.drop_last();
        let before = ranges_of(None, front);
        let now = ranges_of(None, markers);
        lemma_rising_front(markers);
        lemma_ranges_in_order(front);
        match open_after(None, front) {
            Some(start) => {
                assert(now == before.push((start, markers.last().0)));
                assert(start == front.last().0);
                assert forall|j: int| 0 <= j < now.len() implies (#[trigger] now[j]).0 < now[j].1
                    <= markers.last().0 by {
                    if j < before.len() {
                        assert(now[j] == before[j]);
                    }
                }
                assert forall|j: int, k: int| 0 <= j < k < now.len() implies (#[trigger] now[j]).1
                    <= (#[trigger] now[k]).0 by {
                    assert(now[j] == before[j]);
                    if k < before.len() {
                        assert(now[k] == before[k]);
                    }
                }
            },
            None => {
                assert(now == before);
                assert forall|j: int| 0 <= j < now.len() implies (#[trigger] now[j]).0 < now[j].1
                    <= markers.last().0 by {
                    assert(now[j] == before[j]);
                    assert(front.len() > 0);
                }
            },
        }
    }
}

/// Each range reaches from a block marker to the marker that comes next.
pub proof fn lemma_ranges_span_neighbours(markers: Seq<(u64, MarkerType)>)
    ensures
        forall|j: int|
            0 <= j < ranges_of(None, markers).len() ==> spans_neighbours(
                markers,
                #[trigger] ranges_of(None, markers)[j],
            ),
    decreases markers.len(),
{
    if markers.len() > 0 {
        let front = markers.drop_last();
        let before = ranges_of(None, front);
        let now = ranges_of(None, markers);
        let n = markers.len() - 1;
        lemma_ranges_span_neighbours(front);
        assert forall|j: int| 0 <= j < now.len() implies spans_neighbours(
            markers,
            #[trigger] now[j],
        ) by {
            if j < before.len() {
                assert(now[j] == before[j]);
                let i = choose|i: int|
                    #[trigger] opens_range(front, i) && before[j] == range_from(front, i);
                assert(front[i] == markers[i]);
                assert(front[i + 1] == markers[i + 1]);
                assert(opens_range(markers, i) && now[j] == range_from(markers, i));
            } else {
                assert(front.last() == markers[n - 1]);
                assert(opens_range(markers, n - 1) && now[j] == range_from(markers, n - 1));
            }
        }
    }
}

/// Each block marker that has a marker after it starts a range that reaches
/// to that marker.
pub proof fn lemma_neighbours_are_ranges(markers: Seq<(u64, MarkerType)>)
    ensures
        forall|i: int| #[trigger]
            opens_range(markers, i) ==> ranges_of(None, markers).contains(range_from(markers, i)),
    decreases markers.len(),
{
    if markers.len() > 0 {
        let front = markers.drop_last();
        let before = ranges_of(None, front);
        let now = ranges_of(None, markers);
        let n = markers.len() - 1;
        lemma_neighbours_are_ranges(front);
        assert forall|i: int| #[trigger] opens_range(markers, i) implies now.contains(
            range_from(markers, i),
        ) by {
            if i < n - 1 {
                assert(front[i] == markers[i]);
                assert(front[i + 1] == markers[i + 1]);
                assert(opens_range(front, i));
                let r = range_from(front, i);
                assert(before.contains(r));
                let j = choose|j: int| 0 <= j < before.len() && before[j] == r;
                assert(now[j] == r);
            } else {
                assert(front.last() == markers[n - 1]);
                assert(now[now.len() - 1] == range_from(markers, i));
            }
        }
    }
}

/// The order of the block ranges of an input: each range is not empty and
/// ends inside the input, and each starts where the one before it has ended
/// or later. So the starts rise strictly and no two ranges share a bit.
pub proof fn lemma_block_ranges_ordered(
    data: Seq<u8>,
    markers: Seq<(u64, MarkerType)>,
    total_bits: u64,
)
    requires
        total_bits == 8 * data.len(),
        is_marker_listing(data, 0, total_bits as int, 0, markers),
    ensures
        forall|j: int|
            0 <= j < block_ranges(markers, total_bits).len() ==> (#[trigger] block_ranges(
                markers,
                total_bits,
            )[j]).0 < block_ranges(markers, total_bits)[j].1 <= total_bits,
        forall|j: int, k: int|
            0 <= j < k < block_ranges(markers, total_bits).len() ==> (#[trigger] block_ranges(
                markers,
                total_bits,
            )[j]).1 <= (#[trigger] block_ranges(markers, total_bits)[k]).0,
{
    let closed = ranges_of(None, markers);
    let all = block_ranges(markers, total_bits);
    lemma_ranges_in_order(markers);
    if markers.len() > 0 {
        let last = markers[markers.len() - 1];
        assert(last.0 < total_bits);
    }
    assert forall|j: int| 0 <= j < all.len() implies (#[trigger] all[j]).0 < all[j].1
        <= total_bits by {
        if j < closed.len() {
            assert(all[j] == closed[j]);
        }
    }
    assert forall|j: int, k: int| 0 <= j < k < all.len() implies (#[trigger] all[j]).1 <= (
    #[trigger] all[k]).0 by {
        assert(all[j] == closed[j]);
        if k < closed.len() {
            assert(all[k] == closed[k]);
        }
    }
}

/// The bytes that the chunks in front of chunk `n` own, in an input of `len`
/// bytes.
pub open spec fn bytes_in_front(len: int, n: int) -> int {
    if n <= 0 {
        0
    } else {
        chunk_end(len, n - 1)
    }
}

/// Every arrival is the scan result of its chunk: the listing of the markers
/// that start in the bytes of the chunk, with `base` added to each position.
pub open spec fn arrivals_are_scans(
    data: Seq<u8>,
    base: int,
    arrivals: Seq<(usize, Seq<(u64, MarkerType)>)>,
) -> bool {
    forall|j: int|
        0 <= j < arrivals.len() ==> {
            let chunk = #[trigger] arrivals[j];
            &&& chunk.0 < chunk_count_of(data.len() as int)
            &&& is_marker_listing(
                data,
                8 * chunk_start(chunk.0 as int),
                8 * chunk_end(data.len() as int, chunk.0 as int),
                base,
                chunk.1,
            )
        }
}

/// Chunks that are the scan results of the chunks 0 to `n - 1`, put one
/// after the other, list the markers of all bytes in front of chunk `n`.
proof fn lemma_scans_in_a_row(
    data: Seq<u8>,
    base: int,
    chunks: Seq<Seq<(u64, MarkerType)>>,
    n: int,
)
    requires
        0 <= n <= chunks.len(),
        chunks.len() <= chunk_count_of(data.len() as int),
        forall|k: int|
            0 <= k < chunks.len() ==> is_marker_listing(
                data,
                8 * chunk_start(k),
                8 * chunk_end(data.len() as int, k),
                base,
                #[trigger] chunks[k],
            ),
    ensures
        is_marker_listing(
            data,
            0,
            8 * bytes_in_front(data.len() as int, n),
            base,
            chunks.take(n).flatten(),
        ),
    decreases n,
{
    let len = data.len() as int;
    if n == 0 {
        assert(chunks.take(0) =~= Seq::empty());
        assert(chunks.take(0).flatten() =~= Seq::<(u64, MarkerType)>::empty());
    } else {
        lemma_scans_in_a_row(data, base, chunks, n - 1);
        let front = chunks.take(n - 1);
        assert(chunks.take(n) =~= front.push(chunks[n - 1]));
        front.lemma_flatten_push(chunks[n - 1]);
        assert(bytes_in_front(len, n - 1) == chunk_start(n - 1));
        lemma_listing_concat(
            data,
            0,
            8 * chunk_start(n - 1),
            8 * chunk_end(len, n - 1),
            base,
            front.flatten(),
            chunks[n - 1],
        );
    }
}

/// The reordering buffer that turns chunk results into block ranges.
pub struct BlockStitcher {
    chunk_buffer: HashMap<usize, Vec<(u64, MarkerType)>>,
    next_chunk_idx: usize,
    current_block_start: Option<u64>,
    taken: Ghost<Seq<Seq<(u64, MarkerType)>>>,
    arrivals: Ghost<Seq<(usize, Seq<(u64, MarkerType)>)>>,
}

impl BlockStitcher {
    /// The chunks that have arrived and wait for an earlier one.
    pub closed spec fn pending(&self) -> Map<usize, Seq<(u64, MarkerType)>> {
        self.chunk_buffer@.map_values(|v: Vec<(u64, MarkerType)>| v@)
    }

    /// The number of the chunk that is worked off next.
    pub closed spec fn next_chunk(&self) -> usize {
        self.next_chunk_idx
    }

    /// The start of the block that is open, if one is.
    pub closed spec fn open_block(&self) -> Option<u64> {
        self.current_block_start
    }

    /// The chunks worked off so far, in the order of their numbers.
    pub closed spec fn taken(&self) -> Seq<Seq<(u64, MarkerType)>> {
        self.taken@
    }

    /// All markers worked off so far, in the order of the chunks.
    pub closed spec fn consumed(&self) -> Seq<(u64, MarkerType)> {
        self.taken@.flatten()
    }

    /// Every chunk handed to the stitcher so far, with its number, in the
    /// order of arrival.
    pub closed spec fn arrivals(&self) -> Seq<(usize, Seq<(u64, MarkerType)>)> {
        self.arrivals@
    }

    /// Chunk `k` of the chunks worked off arrived with the number `k`; a
    /// chunk that has arrived is worked off or waits; the chunk that is
    /// worked off next does not wait; and the block that is open is the one
    /// that the markers worked off so far leave open.
    pub closed spec fn wf(&self) -> bool {
        &&& self.next_chunk_idx == self.taken@.len()
        &&& self.current_block_start == open_after(None, self.taken@.flatten())
        &&& !self.chunk_buffer@.contains_key(self.next_chunk_idx)
        &&& forall|c: usize| self.chunk_buffer@.contains_key(c) ==> c < usize::MAX
        &&& forall|k: int|
            0 <= k < self.taken@.len() ==> self.arrivals@.contains(
                (k as usize, #[trigger] self.taken@[k]),
            )
        &&& forall|c: usize| #[trigger]
            self.chunk_buffer@.contains_key(c) ==> self.arrivals@.contains(
                (c, self.chunk_buffer@[c]@),
            )
        &&& forall|c: usize| #[trigger]
            has_arrived(self.arrivals@, c) <==> c < self.next_chunk_idx
                || self.chunk_buffer@.contains_key(c)
    }

    /// What the invariant says to the outside: the markers worked off are
    /// those of the chunks 0, 1, 2 and so on without a gap, chunk `k` being a
    /// chunk that arrived with the number `k`; and the block that is open is
    /// the one that these markers leave open.
    pub proof fn lemma_chunk_order(&self)
        requires
            self.wf(),
        ensures
            self.consumed() == self.taken().flatten(),
            self.next_chunk() == self.taken().len(),
            self.open_block() == open_after(None, self.consumed()),
            !self.pending().contains_key(self.next_chunk()),
            forall|k: int|
                0 <= k < self.taken().len() ==> self.arrivals().contains(
                    (k as usize, #[trigger] self.taken()[k]),
                ),
    {
    }

    /// No chunk is lost: a chunk that has arrived is worked off or waits, and
    /// once a chunk has arrived for every number below `n`, the chunks below
    /// `n` are all worked off.
    pub proof fn lemma_nothing_lost(&self, n: usize)
        requires
            self.wf(),
            forall|c: usize| c < n ==> #[trigger] has_arrived(self.arrivals(), c),
        ensures
            forall|c: usize| #[trigger]
                has_arrived(self.arrivals(), c) <==> c < self.next_chunk()
                    || self.pending().contains_key(c),
            n <= self.next_chunk(),
    {
        if self.next_chunk_idx < n {
            assert(has_arrived(self.arrivals(), self.next_chunk_idx));
        }
    }

    /// Whatever the order of arrival: where every arrival is the scan result
    /// of its chunk, the markers worked off so far are the markers of all
    /// bytes in front of the chunk that is worked off next, each once and in
    /// rising order.
    pub proof fn lemma_any_order(&self, data: Seq<u8>, base: int)
        requires
            self.wf(),
            arrivals_are_scans(data, base, self.arrivals()),
        ensures
            self.next_chunk() <= chunk_count_of(data.len() as int),
            is_marker_listing(
                data,
                0,
                8 * bytes_in_front(data.len() as int, self.next_chunk() as int),
                base,
                self.consumed(),
            ),
    {
        let chunks = self.taken@;
        let log = self.arrivals@;
        assert forall|k: int| 0 <= k < chunks.len() implies k < chunk_count_of(
            data.len() as int,
        ) && is_marker_listing(
            data,
            8 * chunk_start(k),
            8 * chunk_end(data.len() as int, k),
            base,
            #[trigger] chunks[k],
        ) by {
            let w = (k as usize, chunks[k]);
            assert(log.contains(w));
            let j = choose|j: int| 0 <= j < log.len() && log[j] == w;
            assert(log[j].0 < chunk_count_of(data.len() as int));
        }
        if chunks.len() > 0 {
            let last = chunks[chunks.len() - 1];
            assert(chunks.len() - 1 < chunk_count_of(data.len() as int));
        }
        lemma_scans_in_a_row(data, base, chunks, chunks.len() as int);
        assert(chunks.take(chunks.len() as int) =~= chunks);
    }

    /// Once every chunk of `data` has arrived, in whatever order, each as the
    /// scan result of its chunk, the markers worked off are all markers of
    /// `data`, and the ranges emitted together with the range that closing
    /// the stitcher gives are the block ranges of `data`.
    pub proof fn lemma_all_arrived(&self, data: Seq<u8>)
        requires
            self.wf(),
            data.len() <= usize::MAX,
            8 * data.len() <= u64::MAX,
            arrivals_are_scans(data, 0, self.arrivals()),
            forall|c: usize|
                c < chunk_count_of(data.len() as int) ==> #[trigger] has_arrived(
                    self.arrivals(),
                    c,
                ),
        ensures
            self.next_chunk() == chunk_count_of(data.len() as int),
            self.consumed() == all_markers(data),
            ranges_of(None, self.consumed()) + tail_range(
                self.open_block(),
                (8 * data.len()) as u64,
            ) == all_blocks(data),
    {
        let len = data.len() as int;
        let n = chunk_count_of(len);
        assert(0 <= n <= len);
        let all = n as usize;
        self.lemma_nothing_lost(all);
        self.lemma_any_order(data, 0);
        assert(self.next_chunk() == n);
        assert(bytes_in_front(len, n) == len);
        lemma_markers_below_listing(data, (8 * len) as nat);
        lemma_listing_unique(data, 0, 8 * len, 0, self.consumed(), all_markers(data));
    }

    /// A stitcher that waits for chunk 0, with no block open.
    pub fn new() -> (fresh: BlockStitcher)
        ensures
            fresh.wf(),
            fresh.pending() == Map::<usize, Seq<(u64, MarkerType)>>::empty(),
            fresh.next_chunk() == 0,
            fresh.open_block() == None::<u64>,
            fresh.taken() == Seq::<Seq<(u64, MarkerType)>>::empty(),
            fresh.consumed() == Seq::<(u64, MarkerType)>::empty(),
            fresh.arrivals() == Seq::<(usize, Seq<(u64, MarkerType)>)>::empty(),
    {
        let fresh = BlockStitcher {
            chunk_buffer: HashMap::new(),
            next_chunk_idx: 0,
            current_block_start: None,
            taken: Ghost(Seq::empty()),
            arrivals: Ghost(Seq::empty()),
        };
        assert(fresh.pending() =~= Map::<usize, Seq<(u64, MarkerType)>>::empty());
        assert(fresh.taken@.flatten() =~= Seq::<(u64, MarkerType)>::empty());
        fresh
    }

    /// Takes the markers of chunk `idx` and returns the ranges that can be
    /// emitted now.
    ///
    /// The chunk is stored. Then, as long as the chunk with the next number
    /// is there, it is taken out and its markers are worked off in order: a
    /// block marker closes the open block, if there is one, and opens its
    /// own; an end-of-stream marker closes the open block, if there is one.
    pub fn push_chunk(&mut self, idx: usize, markers: Vec<(u64, MarkerType)>) -> (ranges: Vec<
        (u64, u64),
    >)
        requires
            old(self).wf(),
            idx < usize::MAX,
        ensures
            final(self).wf(),
            final(self).arrivals() == old(self).arrivals().push((idx, markers@)),
            old(self).next_chunk() <= final(self).next_chunk(),
            forall|c: usize|
                old(self).next_chunk() <= c < final(self).next_chunk() ==> #[trigger] old(
                    self,
                ).pending().insert(idx, markers@).contains_key(c),
            !old(self).pending().insert(idx, markers@).contains_key(final(self).next_chunk()),
            final(self).pending() == old(self).pending().insert(idx, markers@).remove_keys(
                index_span(old(self).next_chunk() as int, final(self).next_chunk() as int),
            ),
            final(self).taken() == old(self).taken() + released(
                old(self).pending().insert(idx, markers@),
                old(self).next_chunk() as int,
                final(self).next_chunk() - old(self).next_chunk(),
            ),
            final(self).consumed() == old(self).consumed() + drained(
                old(self).pending().insert(idx, markers@),
                old(self).next_chunk() as int,
                final(self).next_chunk() - old(self).next_chunk(),
            ),
            ranges@ == ranges_of(
                old(self).open_block(),
                drained(
                    old(self).pending().insert(idx, markers@),
                    old(self).next_chunk() as int,
                    final(self).next_chunk() - old(self).next_chunk(),
                ),
            ),
            final(self).open_block() == open_after(None, final(self).consumed()),
            ranges_of(None, final(self).consumed()) == ranges_of(None, old(self).consumed())
                + ranges@,
    {
        let ghost arrived = old(self).pending().insert(idx, markers@);
        let ghost first = old(self).next_chunk() as int;
        let ghost open0 = old(self).open_block();
        let ghost taken0 = old(self).taken@;
        let ghost log0 = old(self).arrivals@;
        let ghost log = log0.push((idx, markers@));
        let ghost stored0 = old(self).chunk_buffer@;

        self.chunk_buffer.insert(idx, markers);
        proof {
            self.arrivals = Ghost(log);
            assert(self.pending() =~= arrived);
            assert(self.pending() =~= arrived.remove_keys(index_span(first, first)));
            assert(released(arrived, first, 0) =~= Seq::empty());
            assert(taken0 + released(arrived, first, 0) =~= taken0);
            assert(released(arrived, first, 0).flatten() =~= Seq::<(u64, MarkerType)>::empty());
            assert forall|k: int| 0 <= k < taken0.len() implies log.contains(
                (k as usize, #[trigger] taken0[k]),
            ) by {
                lemma_arrival_stays(log0, (idx, markers@), (k as usize, taken0[k]));
            }
            assert forall|c: usize| #[trigger]
                self.chunk_buffer@.contains_key(c) implies log.contains(
                (c, self.chunk_buffer@[c]@),
            ) by {
                if c != idx {
                    assert(stored0.contains_key(c));
                    lemma_arrival_stays(log0, (idx, markers@), (c, stored0[c]@));
                } else {
                    assert(log[log.len() - 1] == (idx, markers@));
                }
            }
            assert forall|c: usize| #[trigger]
                has_arrived(log, c) <==> c < self.next_chunk_idx
                    || self.chunk_buffer@.contains_key(c) by {
                lemma_has_arrived_push(log0, (idx, markers@), c);
            }
        }

        let mut ranges: Vec<(u64, u64)> = Vec::new();
        loop
            invariant
                first <= self.next_chunk_idx,
                self.next_chunk_idx == self.taken@.len(),
                self.arrivals@ == log,
                forall|c: usize| self.chunk_buffer@.contains_key(c) ==> c < usize::MAX,
                forall|k: int|
                    0 <= k < self.taken@.len() ==> log.contains(
                        (k as usize, #[trigger] self.taken@[k]),
                    ),
                forall|c: usize| #[trigger]
                    self.chunk_buffer@.contains_key(c) ==> log.contains(
                        (c, self.chunk_buffer@[c]@),
                    ),
                forall|c: usize| #[trigger]
                    has_arrived(log, c) <==> c < self.next_chunk_idx
                        || self.chunk_buffer@.contains_key(c),
                forall|c: usize|
                    first <= c < self.next_chunk_idx ==> #[trigger] arrived.contains_key(c),
                self.pending() == arrived.remove_keys(
                    index_span(first, self.next_chunk_idx as int),
                ),
                self.taken@ == taken0 + released(arrived, first, self.next_chunk_idx - first),
                ranges@ == ranges_of(open0, drained(arrived, first, self.next_chunk_idx - first)),
                self.current_block_start == open_after(
                    open0,
                    drained(arrived, first, self.next_chunk_idx - first),
                ),
            ensures
                first <= self.next_chunk_idx,
                self.next_chunk_idx == self.taken@.len(),
                self.arrivals@ == log,
                !self.chunk_buffer@.contains_key(self.next_chunk_idx),
                forall|c: usize| self.chunk_buffer@.contains_key(c) ==> c < usize::MAX,
                forall|k: int|
                    0 <= k < self.taken@.len() ==> log.contains(
                        (k as usize, #[trigger] self.taken@[k]),
                    ),
                forall|c: usize| #[trigger]
                    self.chunk_buffer@.contains_key(c) ==> log.contains(
                        (c, self.chunk_buffer@[c]@),
                    ),
                forall|c: usize| #[trigger]
                    has_arrived(log, c) <==> c < self.next_chunk_idx
                        || self.chunk_buffer@.contains_key(c),
                forall|c: usize|
                    first <= c < self.next_chunk_idx ==> #[trigger] arrived.contains_key(c),
                !arrived.contains_key(self.next_chunk_idx),
                self.pending() == arrived.remove_keys(
                    index_span(first, self.next_chunk_idx as int),
                ),
                self.taken@ == taken0 + released(arrived, first, self.next_chunk_idx - first),
                ranges@ == ranges_of(open0, drained(arrived, first, self.next_chunk_idx - first)),
                self.current_block_start == open_after(
                    open0,
                    drained(arrived, first, self.next_chunk_idx - first),
                ),
            decreases usize::MAX - self.next_chunk_idx,
        {
            let next = self.next_chunk_idx;
            let ghost out = released(arrived, first, next - first);
            let ghost worked = out.flatten();
            let ghost stored = self.chunk_buffer@;
            let ghost waiting = self.pending();
            let ghost so_far = self.taken@;
            proof {
                assert(waiting.contains_key(next) == stored.contains_key(next));
                assert(waiting.contains_key(next) == arrived.contains_key(next));
            }
            match self.chunk_buffer.remove(&next) {
                None => {
                    assert(!stored.contains_key(next));
                    assert(self.chunk_buffer@ =~= stored);
                    break ;
                },
                Some(markers) => {
                    assert(stored.contains_key(next) && stored[next] == markers);
                    assert(waiting[next] == markers@);
                    assert(arrived.contains_key(next) && arrived[next] == markers@);
                    let mut i: usize = 0;
                    assert(markers@.take(0) =~= Seq::empty());
                    assert(worked + markers@.take(0) =~= worked);
                    while i < markers.len()
                        invariant
                            0 <= i <= markers.len(),
                            ranges@ == ranges_of(open0, worked + markers@.take(i as int)),
                            self.current_block_start == open_after(
                                open0,
                                worked + markers@.take(i as int),
                            ),
                            self.chunk_buffer@ == stored.remove(next),
                            self.next_chunk_idx == next,
                            self.taken@ == so_far,
                            self.arrivals@ == log,
                        decreases markers.len() - i,
                    {
                        let (marker_pos, mtype) = markers[i];
                        proof {
                            let now = worked + markers@.take(i + 1);
                            assert(now.drop_last() =~= worked + markers@.take(i as int));
                            assert(now.last() == markers@[i as int]);
                        }
                        match mtype {
                            MarkerType::Block => {
                                if let Some(start) = self.current_block_start {
                                    ranges.push((start, marker_pos));
                                }
                                self.current_block_start = Some(marker_pos);
                            },
                            MarkerType::Eos => {
                                if let Some(start) = self.current_block_start {
                                    ranges.push((start, marker_pos));
                                    self.current_block_start = None;
                                }
                            },
                        }
                        i += 1;
                    }
                    self.next_chunk_idx += 1;
                    proof {
                        assert(markers@.take(markers.len() as int) =~= markers@);
                        self.taken = Ghost(so_far.push(markers@));
                        let now = released(arrived, first, next + 1 - first);
                        assert(now == out.push(markers@));
                        out.lemma_flatten_push(markers@);
                        assert(so_far.push(markers@) =~= taken0 + now);
                        assert(log.contains((next, markers@)));
                        let left = self.pending();
                        let want = arrived.remove_keys(index_span(first, next + 1));
                        assert forall|c: usize| left.contains_key(c) <==> want.contains_key(
                            c,
                        ) by {
                            assert(left.contains_key(c) <==> stored.contains_key(c) && c != next);
                            assert(waiting.contains_key(c) <==> stored.contains_key(c));
                            assert(index_span(first, next + 1).contains(c) <==> index_span(
                                first,
                                next as int,
                            ).contains(c) || c == next);
                        }
                        assert forall|c: usize| left.contains_key(c) implies left[c]
                            == want[c] by {
                            assert(stored.contains_key(c));
                            assert(left[c] == stored[c]@);
                            assert(waiting[c] == stored[c]@);
                        }
                        assert(left =~= want);
                    }
                },
            }
        }
        proof {
            let fresh = released(arrived, first, self.next_chunk_idx - first);
            vstd::seq_lib::lemma_flatten_concat(taken0, fresh);
            lemma_ranges_of_concat(None, taken0.flatten(), fresh.flatten());
        }
        ranges
    }

    /// Closes the stitcher when no more chunks will come: a block that is
    /// still open reaches to `total_bits`, the length of the input in bits.
    pub fn finish(self, total_bits: u64) -> (last: Option<(u64, u64)>)
        requires
            self.wf(),
        ensures
            last == match self.open_block() {
                Some(start) => Some((start, total_bits)),
                None => None,
            },
    {
        match self.current_block_start {
            Some(start) => Some((start, total_bits)),
            None => None,
        }
    }
}

/// The block ranges of `data`: for each block marker the range from its bit
/// position to that of the next marker, or to the end of the input where no
/// marker follows.
pub open spec fn all_blocks(data: Seq<u8>) -> Seq<(u64, u64)> {
    block_ranges(all_markers(data), (8 * data.len()) as u64)
}

/// The block ranges of an input lie in it one after the other: each range is
/// not empty and ends inside the input, and each starts where the one before
/// it has ended or later.
pub proof fn lemma_all_blocks_ordered(data: Seq<u8>)
    requires
        8 * data.len() <= u64::MAX,
    ensures
        forall|j: int|
            0 <= j < all_blocks(data).len() ==> (#[trigger] all_blocks(data)[j]).0 < all_blocks(
                data,
            )[j].1 <= 8 * data.len(),
        forall|j: int, k: int|
            0 <= j < k < all_blocks(data).len() ==> (#[trigger] all_blocks(data)[j]).1 <= (
            #[trigger] all_blocks(data)[k]).0,
{
    lemma_markers_below_listing(data, 8 * data.len());
    lemma_block_ranges_ordered(data, all_markers(data), (8 * data.len()) as u64);
}

/// Finds the block ranges of `data`: for each block marker the range from
/// its bit position to that of the next marker, or to the end of the input
/// where no marker follows, in the order of the input.
///
/// There is no answer where the automaton for the marker search cannot be
/// built.
pub fn scan_blocks(data: &[u8]) -> (blocks: Option<Vec<(u64, u64)>>)
    requires
        8 * data.len() <= u64::MAX,
    ensures
        blocks is Some <==> matcher_builds(search_keys()),
        blocks matches Some(found) ==> found@ == all_blocks(data@),
{
    let scanner = match Scanner::new() {
        Some(scanner) => scanner,
        None => {
            return None;
        },
    };
    let len = data.len();
    let num_chunks = chunk_count(len);
    let mut stitcher = BlockStitcher::new();
    let mut blocks: Vec<(u64, u64)> = Vec::new();
    let mut i: usize = 0;
    while i < num_chunks
        invariant
            0 <= i <= num_chunks,
            len == data.len(),
            8 * len <= u64::MAX,
            num_chunks == chunk_count_of(len as int),
            stitcher.wf(),
            stitcher.next_chunk() == i,
            stitcher.pending() == Map::<usize, Seq<(u64, MarkerType)>>::empty(),
            stitcher.open_block() == open_after(None, stitcher.consumed()),
            blocks@ == ranges_of(None, stitcher.consumed()),
            is_marker_listing(data@, 0, 8 * chunk_start(i as int), 0, stitcher.consumed()) || i
                == num_chunks,
            i == num_chunks ==> is_marker_listing(data@, 0, 8 * len, 0, stitcher.consumed()),
        decreases num_chunks - i,
    {
        let markers = scanner.scan_chunk(data, i, 0);
        let ghost before = stitcher.consumed();
        let ghost arrived = stitcher.pending().insert(i, markers@);
        let mut ranges = stitcher.push_chunk(i, markers);
        proof {
            let next = stitcher.next_chunk();
            assert(arrived.contains_key(i));
            if next == i {
                assert(false);
            }
            if next > i + 1 {
                assert(arrived.contains_key((i + 1) as usize));
                assert(false);
            }
            assert(next == i + 1);
            assert(drained(arrived, i as int, 1) =~= arrived[i]) by {
                let none = released(arrived, i as int, 0);
                assert(none =~= Seq::empty());
                none.lemma_flatten_push(arrived[i]);
                assert(none.flatten() =~= Seq::empty());
            }
            assert(stitcher.pending() =~= Map::<usize, Seq<(u64, MarkerType)>>::empty());
            lemma_ranges_of_concat(None, before, markers@);
            lemma_listing_concat(
                data@,
                0,
                8 * chunk_start(i as int),
                8 * chunk_end(len as int, i as int),
                0,
                before,
                markers@,
            );
        }
        blocks.append(&mut ranges);
        i += 1;
    }
    let ghost markers = stitcher.consumed();
    let total_bits: u64 = (len as u64) * 8;
    if let Some(last) = stitcher.finish(total_bits) {
        blocks.push(last);
    }
    proof {
        lemma_markers_below_listing(data@, (8 * len) as nat);
        lemma_listing_unique(data@, 0, 8 * len, 0, markers, all_markers(data@));
        assert(blocks@ =~= block_ranges(markers, total_bits));
    }
    Some(blocks)
}

} // verus!
