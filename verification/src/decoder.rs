//! Reading decoded blocks as one stream of bytes.
//!
//! Decoded blocks arrive in any order. The reader holds them until their
//! turn comes and hands out their bytes in the order of the block indices,
//! as many at a time as the caller's buffer takes.

use vstd::prelude::*;
use std::collections::HashMap;
use crate::order::{
    arrivals_are, has_arrived, index_span, lemma_arrival_stays, lemma_has_arrived_push,
    lemma_let_go_in_order, released,
};

verus! {

/// The state of a reader over decoded blocks: the block that is being read
/// and the place in it, the index of the block that comes next, and the
/// blocks that wait for their turn.
pub struct Bz2Decoder {
    buffer: Vec<u8>,
    buffer_pos: usize,
    next_block_idx: usize,
    pending_blocks: HashMap<usize, Vec<u8>>,
    delivered: Ghost<Seq<u8>>,
    taken: Ghost<Seq<Seq<u8>>>,
    arrivals: Ghost<Seq<(usize, Seq<u8>)>>,
}

/// Every block but the last is empty.
pub open spec fn all_but_last_empty(blocks: Seq<Seq<u8>>) -> bool {
    forall|j: int| 0 <= j < blocks.len() - 1 ==> (#[trigger] blocks[j]).len() == 0
}

/// Every block is empty.
pub open spec fn all_empty(blocks: Seq<Seq<u8>>) -> bool {
    forall|j: int| 0 <= j < blocks.len() ==> (#[trigger] blocks[j]).len() == 0
}

impl Bz2Decoder {
    /// The blocks that wait for their turn.
    pub closed spec fn pending(&self) -> Map<usize, Seq<u8>> {
        self.pending_blocks@.map_values(|v: Vec<u8>| v@)
    }

    /// The index of the block that is taken up next.
    pub closed spec fn next_block(&self) -> usize {
        self.next_block_idx
    }

    /// The bytes of the block being read that have not been handed out.
    pub closed spec fn current(&self) -> Seq<u8> {
        self.buffer@.skip(self.buffer_pos as int)
    }

    /// All bytes handed out so far.
    pub closed spec fn delivered(&self) -> Seq<u8> {
        self.delivered@
    }

    /// The blocks taken up so far, in the order of their indices.
    pub closed spec fn taken(&self) -> Seq<Seq<u8>> {
        self.taken@
    }

    /// Every block handed to the reader so far, with its index, in the order
    /// of arrival.
    pub closed spec fn arrivals(&self) -> Seq<(usize, Seq<u8>)> {
        self.arrivals@
    }

    /// The bytes handed out and the bytes left in the block being read make
    /// up the blocks taken up so far; block `k` of them arrived with the
    /// index `k`; and a block that has arrived is taken up or waits.
    pub closed spec fn wf(&self) -> bool {
        &&& self.buffer_pos <= self.buffer.len()
        &&& self.next_block_idx == self.taken@.len()
        &&& self.delivered@ + self.buffer@.skip(self.buffer_pos as int) == self.taken@.flatten()
        &&& forall|c: usize| self.pending_blocks@.contains_key(c) ==> c < usize::MAX
        &&& forall|k: int|
            0 <= k < self.taken@.len() ==> self.arrivals@.contains(
                (k as usize, #[trigger] self.taken@[k]),
            )
        &&& forall|c: usize| #[trigger]
            self.pending_blocks@.contains_key(c) ==> self.arrivals@.contains(
                (c, self.pending_blocks@[c]@),
            )
        &&& forall|c: usize| #[trigger]
            has_arrived(self.arrivals@, c) <==> c < self.next_block_idx
                || self.pending_blocks@.contains_key(c)
    }

    /// What the invariant says to the outside: what was handed out, followed
    /// by what is left of the block being read, is the blocks 0, 1, 2 and so
    /// on without a gap; block `k` of them is a block that arrived with the
    /// index `k`; and a block that has arrived is taken up or waits.
    pub proof fn lemma_stream_order(&self)
        requires
            self.wf(),
        ensures
            self.delivered() + self.current() == self.taken().flatten(),
            self.next_block() == self.taken().len(),
            forall|k: int|
                0 <= k < self.taken().len() ==> self.arrivals().contains(
                    (k as usize, #[trigger] self.taken()[k]),
                ),
            forall|c: usize| #[trigger]
                has_arrived(self.arrivals(), c) <==> c < self.next_block()
                    || self.pending().contains_key(c),
    {
    }

    /// Whatever the order of arrival: where every arrival is the block of
    /// `blocks` that its index names, what was handed out, followed by what
    /// is left of the block being read, is the first blocks of `blocks`, one
    /// after the other.
    pub proof fn lemma_any_order(&self, blocks: Seq<Seq<u8>>)
        requires
            self.wf(),
            arrivals_are(blocks, self.arrivals()),
        ensures
            self.next_block() <= blocks.len(),
            self.taken() == blocks.take(self.next_block() as int),
            self.delivered() + self.current() == blocks.take(self.next_block() as int).flatten(),
    {
        lemma_let_go_in_order(blocks, self.arrivals@, self.taken@);
    }

    /// A reader that has handed out nothing and waits for block 0.
    pub fn new() -> (fresh: Bz2Decoder)
        ensures
            fresh.wf(),
            fresh.pending() == Map::<usize, Seq<u8>>::empty(),
            fresh.next_block() == 0,
            fresh.current() == Seq::<u8>::empty(),
            fresh.delivered() == Seq::<u8>::empty(),
            fresh.taken() == Seq::<Seq<u8>>::empty(),
            fresh.arrivals() == Seq::<(usize, Seq<u8>)>::empty(),
    {
        let fresh = Bz2Decoder {
            buffer: Vec::new(),
            buffer_pos: 0,
            next_block_idx: 0,
            pending_blocks: HashMap::new(),
            delivered: Ghost(Seq::empty()),
            taken: Ghost(Seq::empty()),
            arrivals: Ghost(Seq::empty()),
        };
        assert(fresh.pending() =~= Map::<usize, Seq<u8>>::empty());
        assert(fresh.current() =~= Seq::<u8>::empty());
        assert(fresh.taken@.flatten() =~= Seq::<u8>::empty());
        assert(fresh.delivered@ + fresh.buffer@.skip(0) =~= Seq::<u8>::empty());
        fresh
    }

    /// Takes the decoded block `idx` and holds it until its turn comes.
    pub fn push_block(&mut self, idx: usize, block: Vec<u8>)
        requires
            old(self).wf(),
            idx < usize::MAX,
        ensures
            final(self).wf(),
            final(self).pending() == old(self).pending().insert(idx, block@),
            final(self).arrivals() == old(self).arrivals().push((idx, block@)),
            final(self).next_block() == old(self).next_block(),
            final(self).current() == old(self).current(),
            final(self).delivered() == old(self).delivered(),
            final(self).taken() == old(self).taken(),
    {
        let ghost log0 = self.arrivals@;
        let ghost log = log0.push((idx, block@));
        let ghost stored0 = self.pending_blocks@;
        let ghost taken0 = self.taken@;
        self.pending_blocks.insert(idx, block);
        proof {
            self.arrivals = Ghost(log);
            assert(self.pending() =~= old(self).pending().insert(idx, block@));
            assert forall|k: int| 0 <= k < taken0.len() implies log.contains(
                (k as usize, #[trigger] taken0[k]),
            ) by {
                lemma_arrival_stays(log0, (idx, block@), (k as usize, taken0[k]));
            }
            assert forall|c: usize| #[trigger]
                self.pending_blocks@.contains_key(c) implies log.contains(
                (c, self.pending_blocks@[c]@),
            ) by {
                if c != idx {
                    assert(stored0.contains_key(c));
                    lemma_arrival_stays(log0, (idx, block@), (c, stored0[c]@));
                } else {
                    assert(log[log.len() - 1] == (idx, block@));
                }
            }
            assert forall|c: usize| #[trigger]
                has_arrived(log, c) <==> c < self.next_block_idx
                    || self.pending_blocks@.contains_key(c) by {
                lemma_has_arrived_push(log0, (idx, block@), c);
            }
        }
    }

    /// Tells whether the reader can hand out nothing until another block
    /// arrives: the block being read is used up and the next one is not
    /// there.
    pub fn is_starved(&self) -> (starved: bool)
        requires
            self.wf(),
        ensures
            starved == (self.current().len() == 0 && !self.pending().contains_key(
                self.next_block(),
            )),
    {
        self.buffer_pos >= self.buffer.len() && !self.pending_blocks.contains_key(
            &self.next_block_idx,
        )
    }

    /// Judges the state of the reader when no more blocks will come.
    ///
    /// The stream has come to its end where the block being read is used up
    /// and no block waits. Else the answer is the index of the first block
    /// that has not been taken up: where blocks wait and the reader is
    /// starved, that is the block that never came.
    pub fn finish(&self) -> (end: Result<(), usize>)
        requires
            self.wf(),
        ensures
            end == if self.current().len() == 0 && self.pending().is_empty() {
                Ok::<(), usize>(())
            } else {
                Err::<(), usize>(self.next_block())
            },
    {
        proof {
            let stored = self.pending_blocks@;
            let waiting = self.pending();
            assert(stored.dom() =~= waiting.dom());
            assert(stored.is_empty() == waiting.is_empty());
        }
        if self.buffer_pos >= self.buffer.len() && self.pending_blocks.is_empty() {
            Ok(())
        } else {
            Err(self.next_block_idx)
        }
    }

    /// Hands out the next bytes of the stream: as many as `buf` takes and the
    /// block being read has left.
    ///
    /// Where the block being read is used up, the blocks that follow are
    /// taken up one after the other, as far as they are there, until one
    /// has bytes. The answer is zero where `buf` is empty, and where the
    /// blocks that are there are used up.
    pub fn read(&mut self, buf: &mut [u8]) -> (n: usize)
        requires
            old(self).wf(),
        ensures
            final(self).wf(),
            old(self).next_block() <= final(self).next_block(),
            forall|c: usize|
                old(self).next_block() <= c < final(self).next_block() ==> #[trigger] old(
                    self,
                ).pending().contains_key(c),
            final(self).pending() == old(self).pending().remove_keys(
                index_span(old(self).next_block() as int, final(self).next_block() as int),
            ),
            final(self).taken() == old(self).taken() + released(
                old(self).pending(),
                old(self).next_block() as int,
                final(self).next_block() - old(self).next_block(),
            ),
            old(self).current().len() > 0 ==> final(self).next_block() == old(self).next_block(),
            all_but_last_empty(
                released(
                    old(self).pending(),
                    old(self).next_block() as int,
                    final(self).next_block() - old(self).next_block(),
                ),
            ),
            final(self).current().len() == 0 && n == 0 ==> !old(self).pending().contains_key(
                final(self).next_block(),
            ),
            n <= old(buf)@.len(),
            n == old(buf)@.len() || final(self).current().len() == 0,
            final(buf)@.len() == old(buf)@.len(),
            final(buf)@.take(n as int) == (old(self).current() + released(
                old(self).pending(),
                old(self).next_block() as int,
                final(self).next_block() - old(self).next_block(),
            ).flatten()).take(n as int),
            final(buf)@.skip(n as int) == old(buf)@.skip(n as int),
            final(self).delivered() == old(self).delivered() + final(buf)@.take(n as int),
            final(self).current() == (old(self).current() + released(
                old(self).pending(),
                old(self).next_block() as int,
                final(self).next_block() - old(self).next_block(),
            ).flatten()).skip(n as int),
            final(self).arrivals() == old(self).arrivals(),
    {
        let ghost waiting0 = old(self).pending();
        let ghost first = old(self).next_block() as int;
        let ghost taken0 = old(self).taken@;
        let ghost current0 = old(self).current();
        let ghost delivered0 = old(self).delivered@;
        let ghost buf0 = old(buf)@;
        proof {
            assert(waiting0 =~= waiting0.remove_keys(index_span(first, first)));
            assert(released(waiting0, first, 0) =~= Seq::empty());
            assert(taken0 + released(waiting0, first, 0) =~= taken0);
            assert(released(waiting0, first, 0).flatten() =~= Seq::<u8>::empty());
            assert(current0 + released(waiting0, first, 0).flatten() =~= current0);
        }
        while self.buffer_pos >= self.buffer.len()
            invariant
                buf@ == buf0,
                buf0 == old(buf)@,
                waiting0 == old(self).pending(),
                first == old(self).next_block() as int,
                taken0 == old(self).taken(),
                current0 == old(self).current(),
                delivered0 == old(self).delivered(),
                self.buffer_pos <= self.buffer.len(),
                first <= self.next_block_idx,
                self.next_block_idx == self.taken@.len(),
                self.delivered@ == delivered0,
                self.delivered@ + self.buffer@.skip(self.buffer_pos as int)
                    == self.taken@.flatten(),
                self.arrivals@ == old(self).arrivals(),
                forall|c: usize| self.pending_blocks@.contains_key(c) ==> c < usize::MAX,
                forall|k: int|
                    0 <= k < self.taken@.len() ==> self.arrivals@.contains(
                        (k as usize, #[trigger] self.taken@[k]),
                    ),
                forall|c: usize| #[trigger]
                    self.pending_blocks@.contains_key(c) ==> self.arrivals@.contains(
                        (c, self.pending_blocks@[c]@),
                    ),
                forall|c: usize| #[trigger]
                    has_arrived(self.arrivals@, c) <==> c < self.next_block_idx
                        || self.pending_blocks@.contains_key(c),
                forall|c: usize|
                    first <= c < self.next_block_idx ==> #[trigger] waiting0.contains_key(c),
                self.pending() == waiting0.remove_keys(
                    index_span(first, self.next_block_idx as int),
                ),
                self.taken@ == taken0 + released(waiting0, first, self.next_block_idx - first),
                current0.len() > 0 ==> self.next_block_idx == first,
                all_but_last_empty(released(waiting0, first, self.next_block_idx - first)),
                self.buffer@.skip(self.buffer_pos as int) == current0 + released(
                    waiting0,
                    first,
                    self.next_block_idx - first,
                ).flatten(),
            decreases usize::MAX - self.next_block_idx,
        {
            let next = self.next_block_idx;
            let ghost stored = self.pending_blocks@;
            let ghost waiting = self.pending();
            let ghost so_far = self.taken@;
            let ghost out = released(waiting0, first, next - first);
            proof {
                assert(waiting.contains_key(next) == stored.contains_key(next));
                assert(waiting.contains_key(next) == waiting0.contains_key(next));
                assert(self.buffer@.skip(self.buffer_pos as int) =~= Seq::<u8>::empty());
                assert(current0.len() == 0);
                assert(out.flatten().len() == 0);
                if out.len() > 0 {
                    let front = out.drop_last();
                    assert(out =~= front.push(out.last()));
                    front.lemma_flatten_push(out.last());
                    assert(out.last().len() == 0);
                }
                assert(all_empty(out));
            }
            match self.pending_blocks.remove(&next) {
                None => {
                    proof {
                        assert(self.pending_blocks@ =~= stored);
                        assert(buf@.take(0) =~= (current0 + out.flatten()).take(0));
                        assert(buf@.skip(0) =~= buf0.skip(0));
                        assert(delivered0 + buf@.take(0) =~= delivered0);
                        assert(self.current() =~= (current0 + out.flatten()).skip(0));
                    }
                    return 0;
                },
                Some(block) => {
                    let ghost bytes = block@;
                    assert(stored.contains_key(next) && stored[next]@ == bytes);
                    assert(waiting[next] == bytes);
                    assert(waiting0[next] == bytes);
                    self.buffer = block;
                    self.buffer_pos = 0;
                    self.next_block_idx += 1;
                    proof {
                        self.taken = Ghost(so_far.push(bytes));
                        so_far.lemma_flatten_push(bytes);
                        assert(self.arrivals@.contains((next, bytes)));
                        let now = released(waiting0, first, next + 1 - first);
                        assert(now == out.push(bytes));
                        out.lemma_flatten_push(bytes);
                        assert(so_far.push(bytes) =~= taken0 + now);
                        assert(self.buffer@.skip(0) =~= bytes);
                        assert(self.delivered@ + self.buffer@.skip(0) =~= so_far.flatten()
                            + bytes);
                        assert(self.buffer@.skip(0) =~= current0 + now.flatten());
                        assert forall|j: int| 0 <= j < now.len() - 1 implies (
                        #[trigger] now[j]).len() == 0 by {
                            assert(now[j] == out[j]);
                        }
                        let left = self.pending();
                        let want = waiting0.remove_keys(index_span(first, next + 1));
                        assert forall|c: usize| left.contains_key(c) <==> want.contains_key(
                            c,
                        ) by {
                            assert(left.contains_key(c) <==> stored.contains_key(c) && c != next);
                            assert(waiting.contains_key(c) <==> stored.contains_key(c));
                            assert(index_span(first, next + 1).contains(c) <==> index_span(
                                first,
                                next as int,
                            ).contains(c) || c == next);
                        }
                        assert forall|c: usize| left.contains_key(c) implies left[c]
                            == want[c] by {
                            assert(stored.contains_key(c));
                            assert(left[c] == stored[c]@);
                            assert(waiting[c] == stored[c]@);
                        }
                        assert(left =~= want);
                    }
                },
            }
        }
        let available: usize = self.buffer.len() - self.buffer_pos;
        let len: usize = if buf.len() < available {
            buf.len()
        } else {
            available
        };
        let ghost stream = self.buffer@.skip(self.buffer_pos as int);
        let mut i: usize = 0;
        while i < len
            invariant
                0 <= i <= len,
                len <= buf.len(),
                len <= self.buffer.len() - self.buffer_pos,
                buf@.len() == buf0.len(),
                stream == self.buffer@.skip(self.buffer_pos as int),
                buf@.take(i as int) == stream.take(i as int),
                buf@.skip(i as int) == buf0.skip(i as int),
            decreases len - i,
        {
            let ghost prev = buf@;
            buf[i] = self.buffer[self.buffer_pos + i];
            proof {
                assert(buf@ == prev.update(i as int, self.buffer@[self.buffer_pos + i]));
                assert(stream[i as int] == self.buffer@[self.buffer_pos + i]);
                assert(buf@.take(i + 1) =~= prev.take(i as int).push(stream[i as int]));
                assert(stream.take(i + 1) =~= stream.take(i as int).push(stream[i as int]));
                assert(buf@.skip(i + 1) =~= prev.skip(i as int).skip(1));
                assert(buf0.skip(i + 1) =~= buf0.skip(i as int).skip(1));
            }
            i += 1;
        }
        self.buffer_pos += len;
        proof {
            self.delivered = Ghost(delivered0 + stream.take(len as int));
            assert(self.buffer@.skip(self.buffer_pos as int) =~= stream.skip(len as int));
            assert((delivered0 + stream.take(len as int)) + stream.skip(len as int) =~= delivered0
                + stream);
        }
        len
    }
}

} // verus!
