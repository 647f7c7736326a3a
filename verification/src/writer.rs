//! Restoring the order of the blocks on output.
//!
//! Blocks are finished in any order. The writer takes each finished block
//! with its index, holds back those that come early, and puts the bytes of
//! the blocks into the output in the order of their indices, starting with
//! block 0 and leaving no gap.

use vstd::prelude::*;
use std::collections::HashMap;
use crate::order::{
    arrivals_are, has_arrived, index_span, lemma_has_arrived_push, lemma_let_go_in_order,
    released,
};

verus! {

/// The place of block `n` in the output: the number of bytes that the blocks
/// in front of it take.
pub open spec fn block_offset(blocks: Seq<Seq<u8>>, n: int) -> int {
    blocks.take(n).flatten().len() as int
}

/// In the output the bytes of block `n` stand at the block's place, and the
/// next block's place is where they end. So the bytes of a block come before
/// those of every later block.
pub proof fn lemma_blocks_in_place(blocks: Seq<Seq<u8>>, n: int)
    requires
        0 <= n < blocks.len(),
    ensures
        block_offset(blocks, n + 1) == block_offset(blocks, n) + blocks[n].len(),
        block_offset(blocks, n + 1) <= blocks.flatten().len(),
        blocks.flatten().subrange(block_offset(blocks, n), block_offset(blocks, n + 1))
            == blocks[n],
{
    let front = blocks.take(n);
    let upto = blocks.take(n + 1);
    let rest = blocks.skip(n + 1);
    assert(upto =~= front.push(blocks[n]));
    front.lemma_flatten_push(blocks[n]);
    assert(blocks =~= upto + rest);
    vstd::seq_lib::lemma_flatten_concat(upto, rest);
    assert(blocks.flatten().subrange(block_offset(blocks, n), block_offset(blocks, n + 1))
        =~= blocks[n]);
}

/// The writer that puts finished blocks into the output in the order of
/// their indices.
pub struct OutputWriter {
    sink: Vec<u8>,
    next_idx: usize,
    buffer: HashMap<usize, Vec<u8>>,
    flushed: Ghost<Seq<u8>>,
    written: Ghost<Seq<Seq<u8>>>,
    arrivals: Ghost<Seq<(usize, Seq<u8>)>>,
}

impl OutputWriter {
    /// The index of the block that is written next.
    pub closed spec fn next_index(&self) -> usize {
        self.next_idx
    }

    /// The blocks that are held back because an earlier one is missing.
    pub closed spec fn pending(&self) -> Map<usize, Seq<u8>> {
        self.buffer@.map_values(|v: Vec<u8>| v@)
    }

    /// The blocks written so far, in the order in which they were written.
    pub closed spec fn written(&self) -> Seq<Seq<u8>> {
        self.written@
    }

    /// All bytes written so far.
    pub closed spec fn output(&self) -> Seq<u8> {
        self.flushed@ + self.sink@
    }

    /// The bytes written since the output was last taken.
    pub closed spec fn unflushed(&self) -> Seq<u8> {
        self.sink@
    }

    /// Every block handed to the writer so far, with its index, in the order
    /// of arrival.
    pub closed spec fn arrivals(&self) -> Seq<(usize, Seq<u8>)> {
        self.arrivals@
    }

    /// The output is the blocks written so far, one after the other; block
    /// `k` of them arrived with the index `k`; the block that is written
    /// next is not held back.
    pub closed spec fn wf(&self) -> bool {
        &&& self.next_idx == self.written@.len()
        &&& self.flushed@ + self.sink@ == self.written@.flatten()
        &&& !self.buffer@.contains_key(self.next_idx)
        &&& forall|c: usize| self.buffer@.contains_key(c) ==> c < usize::MAX
        &&& forall|k: int|
            0 <= k < self.written@.len() ==> self.arrivals@.contains(
                (k as usize, #[trigger] self.written@[k]),
            )
        &&& forall|c: usize| #[trigger]
            self.buffer@.contains_key(c) ==> self.arrivals@.contains((c, self.buffer@[c]@))
        &&& forall|c: usize| #[trigger]
            has_arrived(self.arrivals@, c) <==> c < self.next_idx || self.buffer@.contains_key(c)
    }

    /// What the invariant says to the outside: the output is made of the
    /// blocks 0, 1, 2 and so on without a gap, and block `k` of the output
    /// is a block that arrived with the index `k`.
    pub proof fn lemma_output_order(&self)
        requires
            self.wf(),
        ensures
            self.output() == self.written().flatten(),
            self.next_index() == self.written().len(),
            !self.pending().contains_key(self.next_index()),
            forall|k: int|
                0 <= k < self.written().len() ==> self.arrivals().contains(
                    (k as usize, #[trigger] self.written()[k]),
                ),
    {
    }

    /// No block is lost: a block that has arrived is written or held back,
    /// and once a block has arrived for every index below `n`, the blocks
    /// below `n` are all written.
    pub proof fn lemma_nothing_lost(&self, n: usize)
        requires
            self.wf(),
            forall|c: usize| c < n ==> #[trigger] has_arrived(self.arrivals(), c),
        ensures
            forall|c: usize| #[trigger]
                has_arrived(self.arrivals(), c) <==> c < self.next_index()
                    || self.pending().contains_key(c),
            n <= self.next_index(),
            n <= self.written().len(),
    {
        if self.next_idx < n {
            assert(has_arrived(self.arrivals(), self.next_idx));
        }
    }

    /// Whatever the order of arrival: where every arrival is the block of
    /// `blocks` that its index names, the output is the first blocks of
    /// `blocks`, one after the other.
    pub proof fn lemma_any_order(&self, blocks: Seq<Seq<u8>>)
        requires
            self.wf(),
            arrivals_are(blocks, self.arrivals()),
        ensures
            self.next_index() <= blocks.len(),
            self.written() == blocks.take(self.next_index() as int),
            self.output() == blocks.take(self.next_index() as int).flatten(),
    {
        lemma_let_go_in_order(blocks, self.arrivals@, self.written@);
    }

    /// Once every block of `blocks` has arrived, in whatever order, the
    /// output is all of `blocks`, one after the other.
    pub proof fn lemma_all_arrived(&self, blocks: Seq<Seq<u8>>)
        requires
            self.wf(),
            blocks.len() <= usize::MAX,
            arrivals_are(blocks, self.arrivals()),
            forall|c: usize| c < blocks.len() ==> #[trigger] has_arrived(self.arrivals(), c),
        ensures
            self.next_index() == blocks.len(),
            self.written() == blocks,
            self.output() == blocks.flatten(),
    {
        self.lemma_any_order(blocks);
        self.lemma_nothing_lost(blocks.len() as usize);
        assert(blocks.take(blocks.len() as int) =~= blocks);
    }

    /// A writer that has written nothing and waits for block 0.
    pub fn new() -> (fresh: OutputWriter)
        ensures
            fresh.wf(),
            fresh.next_index() == 0,
            fresh.pending() == Map::<usize, Seq<u8>>::empty(),
            fresh.written() == Seq::<Seq<u8>>::empty(),
            fresh.output() == Seq::<u8>::empty(),
            fresh.unflushed() == Seq::<u8>::empty(),
            fresh.arrivals() == Seq::<(usize, Seq<u8>)>::empty(),
    {
        let fresh = OutputWriter {
            sink: Vec::new(),
            next_idx: 0,
            buffer: HashMap::new(),
            flushed: Ghost(Seq::empty()),
            written: Ghost(Seq::empty()),
            arrivals: Ghost(Seq::empty()),
        };
        assert(fresh.pending() =~= Map::<usize, Seq<u8>>::empty());
        assert(fresh.output() =~= Seq::<u8>::empty());
        assert(fresh.written@.flatten() =~= Seq::<u8>::empty());
        fresh
    }

    /// Takes the finished block `idx`.
    ///
    /// Where `idx` is the index that is written next, the block is written,
    /// and after it every block held back whose index follows without a gap.
    /// Any other block is held back.
    pub fn write_block(&mut self, idx: usize, data: Vec<u8>)
        requires
            old(self).wf(),
            idx < usize::MAX,
        ensures
            final(self).wf(),
            final(self).arrivals() == old(self).arrivals().push((idx, data@)),
            old(self).next_index() <= final(self).next_index(),
            forall|c: usize|
                old(self).next_index() <= c < final(self).next_index() ==> #[trigger] old(
                    self,
                ).pending().insert(idx, data@).contains_key(c),
            !old(self).pending().insert(idx, data@).contains_key(final(self).next_index()),
            final(self).pending() == old(self).pending().insert(idx, data@).remove_keys(
                index_span(old(self).next_index() as int, final(self).next_index() as int),
            ),
            final(self).written() == old(self).written() + released(
                old(self).pending().insert(idx, data@),
                old(self).next_index() as int,
                final(self).next_index() - old(self).next_index(),
            ),
            final(self).output() == old(self).output() + released(
                old(self).pending().insert(idx, data@),
                old(self).next_index() as int,
                final(self).next_index() - old(self).next_index(),
            ).flatten(),
            final(self).unflushed() == old(self).unflushed() + released(
                old(self).pending().insert(idx, data@),
                old(self).next_index() as int,
                final(self).next_index() - old(self).next_index(),
            ).flatten(),
    {
        let ghost arrived = old(self).pending().insert(idx, data@);
        let ghost first = old(self).next_index() as int;
        let ghost written0 = old(self).written@;
        let ghost sink0 = old(self).sink@;
        let ghost log0 = old(self).arrivals@;
        let ghost log = log0.push((idx, data@));
        let ghost stored0 = old(self).buffer@;
        proof {
            self.arrivals = Ghost(log);
            assert forall|k: int| 0 <= k < written0.len() implies log.contains(
                (k as usize, #[trigger] written0[k]),
            ) by {
                let w = (k as usize, written0[k]);
                assert(old(self).arrivals@.contains(w));
                let j = choose|j: int| 0 <= j < log0.len() && log0[j] == w;
                assert(log[j] == w);
            }
            assert forall|c: usize| #[trigger] stored0.contains_key(c) implies log.contains(
                (c, stored0[c]@),
            ) by {
                let w = (c, stored0[c]@);
                assert(log0.contains(w));
                let j = choose|j: int| 0 <= j < log0.len() && log0[j] == w;
                assert(log[j] == w);
            }
            assert(log[log.len() - 1] == (idx, data@));
            assert forall|c: usize| #[trigger]
                has_arrived(log, c) <==> c < old(self).next_idx || stored0.contains_key(c) || c
                    == idx by {
                lemma_has_arrived_push(old(self).arrivals@, (idx, data@), c);
            }
        }
        if idx == self.next_idx {
            let mut data = data;
            let ghost bytes = data@;
            self.sink.append(&mut data);
            self.next_idx += 1;
            proof {
                self.written = Ghost(written0.push(bytes));
                written0.lemma_flatten_push(bytes);
                assert(released(arrived, first, 0) =~= Seq::empty());
                assert(released(arrived, first, 1) =~= seq![bytes]);
                assert(written0.push(bytes) =~= written0 + released(arrived, first, 1));
                assert(self.flushed@ + self.sink@ =~= (old(self).flushed@ + sink0) + bytes);
                assert(self.pending() =~= arrived.remove_keys(index_span(first, first + 1)));
                released(arrived, first, 0).lemma_flatten_push(bytes);
                assert(released(arrived, first, 0).flatten() =~= Seq::<u8>::empty());
                assert(self.sink@ =~= sink0 + released(arrived, first, 1).flatten());
            }
            loop
                invariant
                    first < self.next_idx,
                    self.next_idx == self.written@.len(),
                    self.flushed@ == old(self).flushed@,
                    self.flushed@ + self.sink@ == self.written@.flatten(),
                    self.arrivals@ == log,
                    forall|c: usize| self.buffer@.contains_key(c) ==> c < usize::MAX,
                    forall|k: int|
                        0 <= k < self.written@.len() ==> log.contains(
                            (k as usize, #[trigger] self.written@[k]),
                        ),
                    forall|c: usize| #[trigger]
                        self.buffer@.contains_key(c) ==> log.contains((c, self.buffer@[c]@)),
                    forall|c: usize| #[trigger]
                        has_arrived(log, c) <==> c < self.next_idx || self.buffer@.contains_key(c),
                    forall|c: usize|
                        first <= c < self.next_idx ==> #[trigger] arrived.contains_key(c),
                    self.pending() == arrived.remove_keys(index_span(first, self.next_idx as int)),
                    self.written@ == written0 + released(arrived, first, self.next_idx - first),
                    self.sink@ == sink0 + released(arrived, first, self.next_idx - first).flatten(),
                ensures
                    first < self.next_idx,
                    self.next_idx == self.written@.len(),
                    self.flushed@ == old(self).flushed@,
                    self.flushed@ + self.sink@ == self.written@.flatten(),
                    self.arrivals@ == log,
                    !self.buffer@.contains_key(self.next_idx),
                    forall|c: usize| self.buffer@.contains_key(c) ==> c < usize::MAX,
                    forall|k: int|
                        0 <= k < self.written@.len() ==> log.contains(
                            (k as usize, #[trigger] self.written@[k]),
                        ),
                    forall|c: usize| #[trigger]
                        self.buffer@.contains_key(c) ==> log.contains((c, self.buffer@[c]@)),
                    forall|c: usize| #[trigger]
                        has_arrived(log, c) <==> c < self.next_idx || self.buffer@.contains_key(c),
                    forall|c: usize|
                        first <= c < self.next_idx ==> #[trigger] arrived.contains_key(c),
                    !arrived.contains_key(self.next_idx),
                    self.pending() == arrived.remove_keys(index_span(first, self.next_idx as int)),
                    self.written@ == written0 + released(arrived, first, self.next_idx - first),
                    self.sink@ == sink0 + released(arrived, first, self.next_idx - first).flatten(),
                decreases usize::MAX - self.next_idx,
            {
                let next = self.next_idx;
                let ghost stored = self.buffer@;
                let ghost waiting = self.pending();
                let ghost so_far = self.written@;
                proof {
                    assert(waiting.contains_key(next) == stored.contains_key(next));
                    assert(waiting.contains_key(next) == arrived.contains_key(next));
                }
                match self.buffer.remove(&next) {
                    None => {
                        assert(self.buffer@ =~= stored);
                        break ;
                    },
                    Some(next_data) => {
                        let mut next_data = next_data;
                        let ghost bytes = next_data@;
                        assert(stored.contains_key(next) && stored[next]@ == bytes);
                        assert(waiting[next] == bytes);
                        assert(arrived[next] == bytes);
                        self.sink.append(&mut next_data);
                        self.next_idx += 1;
                        proof {
                            self.written = Ghost(so_far.push(bytes));
                            so_far.lemma_flatten_push(bytes);
                            assert(self.flushed@ + self.sink@ =~= so_far.flatten() + bytes);
                            assert(so_far.push(bytes) =~= written0 + released(
                                arrived,
                                first,
                                next + 1 - first,
                            ));
                            assert(log.contains((next, bytes)));
                            let out = released(arrived, first, next - first);
                            out.lemma_flatten_push(bytes);
                            assert(self.sink@ =~= sink0 + released(
                                arrived,
                                first,
                                next + 1 - first,
                            ).flatten());
                            let left = self.pending();
                            let want = arrived.remove_keys(index_span(first, next + 1));
                            assert forall|c: usize| left.contains_key(c) <==> want.contains_key(
                                c,
                            ) by {
                                assert(left.contains_key(c) <==> stored.contains_key(c) && c
                                    != next);
                                assert(waiting.contains_key(c) <==> stored.contains_key(c));
                                assert(index_span(first, next + 1).contains(c) <==> index_span(
                                    first,
                                    next as int,
                                ).contains(c) || c == next);
                            }
                            assert forall|c: usize| left.contains_key(c) implies left[c]
                                == want[c] by {
                                assert(stored.contains_key(c));
                                assert(left[c] == stored[c]@);
                                assert(waiting[c] == stored[c]@);
                            }
                            assert(left =~= want);
                        }
                    },
                }
            }
            proof {
                let fresh = released(arrived, first, self.next_idx - first);
                vstd::seq_lib::lemma_flatten_concat(written0, fresh);
                assert(self.flushed@ + self.sink@ =~= (old(self).flushed@ + sink0)
                    + fresh.flatten());
            }
        } else {
            self.buffer.insert(idx, data);
            proof {
                assert(self.pending() =~= arrived);
                assert(arrived =~= arrived.remove_keys(index_span(first, first)));
                assert(released(arrived, first, 0) =~= Seq::empty());
                assert(written0 + released(arrived, first, 0) =~= written0);
                assert(Seq::<Seq<u8>>::empty().flatten() =~= Seq::<u8>::empty());
                assert(self.output() =~= old(self).output() + Seq::<u8>::empty());
                assert(self.sink@ =~= sink0 + Seq::<u8>::empty());
                assert forall|c: usize| #[trigger]
                    self.buffer@.contains_key(c) implies log.contains((c, self.buffer@[c]@)) by {
                    if c != idx {
                        assert(stored0.contains_key(c));
                    }
                }
            }
        }
    }

    /// Hands out the bytes written since the output was last taken, for the
    /// caller to pass on. Nothing else changes.
    pub fn take_output(&mut self) -> (bytes: Vec<u8>)
        requires
            old(self).wf(),
        ensures
            final(self).wf(),
            bytes@ == old(self).unflushed(),
            final(self).unflushed() == Seq::<u8>::empty(),
            final(self).output() == old(self).output(),
            final(self).written() == old(self).written(),
            final(self).pending() == old(self).pending(),
            final(self).next_index() == old(self).next_index(),
            final(self).arrivals() == old(self).arrivals(),
    {
        let mut bytes: Vec<u8> = Vec::new();
        bytes.append(&mut self.sink);
        proof {
            self.flushed = Ghost(old(self).flushed@ + old(self).sink@);
            assert(self.flushed@ + self.sink@ =~= old(self).flushed@ + old(self).sink@);
            assert(bytes@ =~= old(self).sink@);
        }
        bytes
    }

    /// Closes the writer and hands out the bytes written since the output
    /// was last taken. Blocks that are still held back are dropped: each of
    /// them waits for a block that never came.
    pub fn finish(self) -> (bytes: Vec<u8>)
        requires
            self.wf(),
        ensures
            bytes@ == self.unflushed(),
    {
        self.sink
    }
}

} // verus!
