//! Finding every marker of an input.
//!
//! The input is tiled into chunks of [`CHUNK_SIZE`] bytes. A chunk owns the
//! markers that start in one of its bytes. To find them it searches its own
//! bytes and the [`OVERLAP`] bytes after them for the search keys, takes the
//! byte in front of each key found as a candidate, drops the candidates that
//! lie outside its own bytes, and keeps those that [`verify_magic`] confirms.
//! Chunks do not depend on one another and may be scanned in any order.

use vstd::prelude::*;
use vstd::slice::slice_subrange;
use aho_corasick::AhoCorasick;
use crate::keys::{
    key_id, key_kind, key_shift, lemma_key_follows_marker, lemma_key_stands_alone,
    make_search_key, search_key, search_keys, KEY_COUNT,
};
use crate::marker::{
    lemma_one_marker_at_most, magic_at, verify_magic, MarkerType, MAGIC_BLOCK, MAGIC_EOS,
};
use crate::matcher::{
    build_matcher, find_hits, hits_are_occurrences, hits_do_not_overlap, hits_skip_only_overlaps,
    lemma_overlapping_hit, matcher_builds, matcher_patterns, matcher_is_default, occurs_at,
};

verus! {

/// The number of bytes that a chunk owns; the last chunk may own fewer.
pub const CHUNK_SIZE: usize = 1048576;

/// The number of bytes after its own that a chunk searches as well.
pub const OVERLAP: usize = 8;

/// The number of chunks of an input of `len` bytes.
pub open spec fn chunk_count_of(len: int) -> int {
    (len + CHUNK_SIZE - 1) / (CHUNK_SIZE as int)
}

/// The index of the first byte that chunk `i` owns.
pub open spec fn chunk_start(i: int) -> int {
    i * CHUNK_SIZE
}

/// The index after the last byte that chunk `i` owns.
pub open spec fn chunk_end(len: int, i: int) -> int {
    if chunk_start(i) + CHUNK_SIZE < len {
        chunk_start(i) + CHUNK_SIZE
    } else {
        len
    }
}

/// The bit positions of the markers rise strictly.
pub open spec fn markers_ascend(markers: Seq<(u64, MarkerType)>) -> bool {
    forall|a: int, b: int|
        0 <= a < b < markers.len() ==> (#[trigger] markers[a]).0 < (#[trigger] markers[b]).0
}

/// Every listed marker lies in the bits `[lo, hi)` of `data`, moved by
/// `base`, and is verified there.
pub open spec fn markers_sound(
    data: Seq<u8>,
    lo: int,
    hi: int,
    base: int,
    markers: Seq<(u64, MarkerType)>,
) -> bool {
    forall|k: int|
        0 <= k < markers.len() ==> {
            let m = #[trigger] markers[k];
            &&& base + lo <= m.0 < base + hi
            &&& magic_at(data, m.0 - base, m.1.magic())
        }
}

/// Every marker that is verified at a bit of `[lo, hi)` is listed, moved by
/// `base`.
pub open spec fn markers_complete(
    data: Seq<u8>,
    lo: int,
    hi: int,
    base: int,
    markers: Seq<(u64, MarkerType)>,
) -> bool {
    forall|bit: int, kind: MarkerType|
        lo <= bit < hi && #[trigger] magic_at(data, bit, kind.magic())
            ==> markers.contains(((base + bit) as u64, kind))
}

/// `markers` lists the verified markers that start in the bits `[lo, hi)` of
/// `data`: all of them, nothing else, each once, in rising order, with
/// `base` added to each position.
pub open spec fn is_marker_listing(
    data: Seq<u8>,
    lo: int,
    hi: int,
    base: int,
    markers: Seq<(u64, MarkerType)>,
) -> bool {
    &&& markers_ascend(markers)
    &&& markers_sound(data, lo, hi, base, markers)
    &&& markers_complete(data, lo, hi, base, markers)
}

/// The bit at which the candidate of a hit starts: the alignment of the key,
/// in the byte in front of the key.
pub open spec fn candidate_bit(start: int, hit: (usize, usize)) -> int {
    (start + hit.1 - 1) * 8 + key_shift(hit.0 as int)
}

/// The marker that a hit gives rise to, if any. `hit` is the number of a key
/// and the index at which it was found, counted from byte `start` of `data`;
/// `[start, end)` are the bytes that the chunk owns.
pub open spec fn hit_marker(data: Seq<u8>, start: int, end: int, base: int, hit: (usize, usize))
    -> Option<(u64, MarkerType)> {
    let kind = key_kind(hit.0 as int);
    let bit = candidate_bit(start, hit);
    if 1 <= hit.1 && hit.1 - 1 < end - start && magic_at(data, bit, kind.magic()) {
        Some(((base + bit) as u64, kind))
    } else {
        None
    }
}

/// The markers that a list of hits gives rise to, in the order of the hits.
pub open spec fn chunk_markers(
    data: Seq<u8>,
    start: int,
    end: int,
    base: int,
    hits: Seq<(usize, usize)>,
) -> Seq<(u64, MarkerType)>
    decreases hits.len(),
{
    if hits.len() == 0 {
        Seq::empty()
    } else {
        let before = chunk_markers(data, start, end, base, hits.drop_last());
        match hit_marker(data, start, end, base, hits.last()) {
            Some(m) => before.push(m),
            None => before,
        }
    }
}

/// `results` holds one entry for each chunk of `data`, in the order of the
/// chunks: the number of the chunk, and the listing of the markers that
/// start in its bytes.
pub open spec fn is_stream_scan(
    data: Seq<u8>,
    base: int,
    results: Seq<(usize, Vec<(u64, MarkerType)>)>,
) -> bool {
    &&& results.len() == chunk_count_of(data.len() as int)
    &&& forall|i: int|
        0 <= i < results.len() ==> (#[trigger] results[i]).0 == i && is_marker_listing(
            data,
            8 * chunk_start(i),
            8 * chunk_end(data.len() as int, i),
            base,
            results[i].1@,
        )
}

/// The table that maps the number of a key to the constant, the kind and the
/// alignment of its marker.
pub open spec fn key_table() -> Seq<(u64, MarkerType, usize)> {
    Seq::new(
        KEY_COUNT as nat,
        |id: int| (key_kind(id).magic(), key_kind(id), key_shift(id) as usize),
    )
}

/// A scanner: the automaton that searches for the sixteen keys, and the table
/// that tells what each key stands for.
pub struct Scanner {
    ac: AhoCorasick,
    patterns_info: Vec<(u64, MarkerType, usize)>,
}

/// What holds of the hits that the automaton reports on `haystack`.
pub open spec fn hits_as_reported(haystack: Seq<u8>, hits: Seq<(usize, usize)>) -> bool {
    &&& hits_are_occurrences(search_keys(), haystack, hits)
    &&& hits_do_not_overlap(search_keys(), hits)
    &&& hits_skip_only_overlaps(search_keys(), haystack, hits)
}

/// As far as `n` hits have been worked off, the markers rise, are sound, lie
/// in front of the next hit, and hold the marker of every hit so far.
spec fn worked_off(
    data: Seq<u8>,
    start: int,
    end: int,
    base: int,
    hits: Seq<(usize, usize)>,
    n: int,
) -> bool {
    let markers = chunk_markers(data, start, end, base, hits.take(n));
    &&& markers_ascend(markers)
    &&& markers_sound(data, 8 * start, 8 * end, base, markers)
    &&& forall|j: int|
        0 <= j < markers.len() && n > 0 ==> (#[trigger] markers[j]).0 < base + 8 * (start
            + hits[n - 1].1)
    &&& forall|k: int|
        0 <= k < n ==> (#[trigger] hit_marker(data, start, end, base, hits[k])) is Some
            ==> markers.contains(hit_marker(data, start, end, base, hits[k])->0)
}

proof fn lemma_worked_off(
    data: Seq<u8>,
    start: int,
    end: int,
    base: int,
    hits: Seq<(usize, usize)>,
    n: int,
)
    requires
        0 <= start <= end <= data.len(),
        0 <= base,
        base + 8 * data.len() <= u64::MAX,
        forall|k: int| 0 <= k < hits.len() ==> (#[trigger] hits[k]).0 < KEY_COUNT,
        forall|k: int| 0 <= k < hits.len() - 1 ==> hits[k].1 + 4 <= (#[trigger] hits[k + 1]).1,
        0 <= n <= hits.len(),
    ensures
        worked_off(data, start, end, base, hits, n),
    decreases n,
{
    if n == 0 {
        assert(hits.take(0) =~= Seq::empty());
    } else {
        lemma_worked_off(data, start, end, base, hits, n - 1);
        let prev = chunk_markers(data, start, end, base, hits.take(n - 1));
        let now = chunk_markers(data, start, end, base, hits.take(n));
        assert(hits.take(n).drop_last() =~= hits.take(n - 1));
        assert(hits.take(n).last() == hits[n - 1]);
        let hit = hits[n - 1];
        assert(hit.0 < KEY_COUNT);
        if n >= 2 {
            assert(hits[n - 2].1 + 4 <= hits[(n - 2) + 1].1);
        }
        match hit_marker(data, start, end, base, hit) {
            Some(m) => {
                assert(now == prev.push(m));
                let bit = candidate_bit(start, hit);
                assert(m.0 == base + bit);
                assert forall|k: int| 0 <= k < n && (#[trigger] hit_marker(
                    data,
                    start,
                    end,
                    base,
                    hits[k],
                )) is Some implies now.contains(hit_marker(data, start, end, base, hits[k])->0) by {
                    if k < n - 1 {
                        let w = hit_marker(data, start, end, base, hits[k])->0;
                        assert(prev.contains(w));
                        let j = choose|j: int| 0 <= j < prev.len() && prev[j] == w;
                        assert(now[j] == w);
                    } else {
                        assert(now[now.len() - 1] == m);
                    }
                }
            },
            None => {
                assert(now == prev);
            },
        }
    }
}

/// A pattern stands in a part of the input where it stands in the input, as
/// long as it fits into the part.
proof fn lemma_occurs_in_part(pattern: Seq<u8>, data: Seq<u8>, start: int, stop: int, at: int)
    requires
        0 <= start <= stop <= data.len(),
        0 <= at,
        at + pattern.len() <= stop - start,
    ensures
        occurs_at(pattern, data.subrange(start, stop), at) <==> occurs_at(
            pattern,
            data,
            start + at,
        ),
{
    let part = data.subrange(start, stop);
    assert(part.subrange(at, at + pattern.len()) =~= data.subrange(
        start + at,
        start + at + pattern.len(),
    ));
}

/// A verified marker that starts in the bytes which a chunk owns is the
/// marker of one of the hits that the automaton reports for the chunk.
proof fn lemma_marker_is_hit(
    data: Seq<u8>,
    start: int,
    end: int,
    scan_end: int,
    base: int,
    hits: Seq<(usize, usize)>,
    bit: int,
    kind: MarkerType,
) -> (k: int)
    requires
        0 <= start <= end <= scan_end <= data.len(),
        scan_end == data.len() || end + 4 <= scan_end,
        hits_as_reported(data.subrange(start, scan_end), hits),
        8 * start <= bit < 8 * end,
        magic_at(data, bit, kind.magic()),
    ensures
        0 <= k < hits.len(),
        hit_marker(data, start, end, base, hits[k]) == Some(((base + bit) as u64, kind)),
{
    let haystack = data.subrange(start, scan_end);
    let keys = search_keys();
    let c = bit / 8;
    let shift = bit % 8;
    let id = key_id(kind, shift);
    let at = c + 1 - start;
    let key = keys[id];
    assert(key == search_key(kind.magic(), shift as u8));
    assert(key.len() == 4);
    lemma_key_follows_marker(data, bit, kind.magic());
    lemma_occurs_in_part(key, data, start, scan_end, at);
    assert(occurs_at(keys[id], haystack, at));
    let k = lemma_overlapping_hit(keys, haystack, hits, id, at);
    let hit = hits[k];
    let other = keys[hit.0 as int];
    assert(other.len() == 4);
    assert(occurs_at(other, haystack, hit.1 as int));
    lemma_occurs_in_part(other, data, start, scan_end, hit.1 as int);
    lemma_key_stands_alone(data, bit, kind, hit.0 as int, start + hit.1);
    assert(hit.1 == at);
    assert(hit.0 == id);
    assert(key_kind(id) == kind);
    assert(key_shift(id) == shift);
    assert(candidate_bit(start, hit) == bit);
    k
}

/// From what the automaton reports, the markers of a chunk are the listing of
/// the chunk's own bits.
proof fn lemma_markers_of_reported_hits(
    data: Seq<u8>,
    start: int,
    end: int,
    scan_end: int,
    base: int,
    hits: Seq<(usize, usize)>,
)
    requires
        0 <= start <= end <= scan_end <= data.len(),
        scan_end == data.len() || end + 4 <= scan_end,
        0 <= base,
        base + 8 * data.len() <= u64::MAX,
        hits_as_reported(data.subrange(start, scan_end), hits),
    ensures
        is_marker_listing(
            data,
            8 * start,
            8 * end,
            base,
            chunk_markers(data, start, end, base, hits),
        ),
{
    let keys = search_keys();
    let markers = chunk_markers(data, start, end, base, hits);
    assert forall|k: int| 0 <= k < hits.len() implies (#[trigger] hits[k]).0 < KEY_COUNT by {}
    assert forall|k: int| 0 <= k < hits.len() - 1 implies hits[k].1 + 4 <= (#[trigger] hits[k
        + 1]).1 by {
        assert(hits[k].0 < keys.len());
        assert(keys[hits[k].0 as int].len() == 4);
    }
    lemma_worked_off(data, start, end, base, hits, hits.len() as int);
    assert(hits.take(hits.len() as int) =~= hits);
    assert forall|bit: int, kind: MarkerType|
        8 * start <= bit < 8 * end && #[trigger] magic_at(
            data,
            bit,
            kind.magic(),
        ) implies markers.contains(((base + bit) as u64, kind)) by {
        let k = lemma_marker_is_hit(data, start, end, scan_end, base, hits, bit, kind);
        assert(hit_marker(data, start, end, base, hits[k]) is Some);
    }
}

/// The kind of the marker that is verified at `bit`, if one is.
pub open spec fn marker_kind_at(data: Seq<u8>, bit: int) -> Option<MarkerType> {
    if magic_at(data, bit, MAGIC_BLOCK) {
        Some(MarkerType::Block)
    } else if magic_at(data, bit, MAGIC_EOS) {
        Some(MarkerType::Eos)
    } else {
        None
    }
}

/// The markers of `data` that start in front of bit `n`, in rising order.
pub open spec fn markers_below(data: Seq<u8>, n: nat) -> Seq<(u64, MarkerType)>
    decreases n,
{
    if n == 0 {
        Seq::empty()
    } else {
        let before = markers_below(data, (n - 1) as nat);
        match marker_kind_at(data, n - 1) {
            Some(kind) => before.push(((n - 1) as u64, kind)),
            None => before,
        }
    }
}

/// All markers of `data`, in rising order.
pub open spec fn all_markers(data: Seq<u8>) -> Seq<(u64, MarkerType)> {
    markers_below(data, 8 * data.len())
}

/// The markers in front of bit `n` are the listing of the bits in front of
/// `n`.
pub proof fn lemma_markers_below_listing(data: Seq<u8>, n: nat)
    requires
        n <= u64::MAX,
    ensures
        is_marker_listing(data, 0, n as int, 0, markers_below(data, n)),
    decreases n,
{
    if n > 0 {
        let bit = n - 1;
        let before = markers_below(data, bit as nat);
        let now = markers_below(data, n);
        lemma_markers_below_listing(data, bit as nat);
        lemma_one_marker_at_most(data, bit);
        let found: Seq<(u64, MarkerType)> = match marker_kind_at(data, bit) {
            Some(kind) => seq![(bit as u64, kind)],
            None => Seq::empty(),
        };
        assert(now =~= before + found);
        assert(markers_ascend(found));
        assert(markers_sound(data, bit, n as int, 0, found));
        assert forall|b: int, kind: MarkerType|
            bit <= b < n && #[trigger] magic_at(
                data,
                b,
                kind.magic(),
            ) implies found.contains(((0 + b) as u64, kind)) by {
            assert(found[0] == (bit as u64, kind));
        }
        lemma_listing_concat(data, 0, bit, n as int, 0, before, found);
    }
}

/// Listings of two stretches of bits that meet make the listing of both.
pub proof fn lemma_listing_concat(
    data: Seq<u8>,
    lo: int,
    mid: int,
    hi: int,
    base: int,
    a: Seq<(u64, MarkerType)>,
    b: Seq<(u64, MarkerType)>,
)
    requires
        lo <= mid <= hi,
        is_marker_listing(data, lo, mid, base, a),
        is_marker_listing(data, mid, hi, base, b),
    ensures
        is_marker_listing(data, lo, hi, base, a + b),
{
    let all = a + b;
    assert forall|x: int, y: int| 0 <= x < y < all.len() implies (#[trigger] all[x]).0 < (
    #[trigger] all[y]).0 by {
        if y < a.len() {
            assert(all[x] == a[x] && all[y] == a[y]);
        } else if x < a.len() {
            assert(all[x] == a[x] && all[y] == b[y - a.len()]);
        } else {
            assert(all[x] == b[x - a.len()] && all[y] == b[y - a.len()]);
        }
    }
    assert forall|k: int| 0 <= k < all.len() implies {
        let m = #[trigger] all[k];
        &&& base + lo <= m.0 < base + hi
        &&& magic_at(data, m.0 - base, m.1.magic())
    } by {
        if k < a.len() {
            assert(all[k] == a[k]);
        } else {
            assert(all[k] == b[k - a.len()]);
        }
    }
    assert forall|bit: int, kind: MarkerType|
        lo <= bit < hi && #[trigger] magic_at(
            data,
            bit,
            kind.magic(),
        ) implies all.contains(((base + bit) as u64, kind)) by {
        let m = ((base + bit) as u64, kind);
        if bit < mid {
            let k = choose|k: int| 0 <= k < a.len() && a[k] == m;
            assert(all[k] == m);
        } else {
            let k = choose|k: int| 0 <= k < b.len() && b[k] == m;
            assert(all[a.len() + k] == m);
        }
    }
}

proof fn lemma_listings_agree_upto(
    data: Seq<u8>,
    lo: int,
    hi: int,
    base: int,
    a: Seq<(u64, MarkerType)>,
    b: Seq<(u64, MarkerType)>,
    n: int,
)
    requires
        0 <= base,
        0 <= lo,
        base + hi <= u64::MAX,
        is_marker_listing(data, lo, hi, base, a),
        is_marker_listing(data, lo, hi, base, b),
        0 <= n <= a.len(),
    ensures
        n <= b.len(),
        forall|j: int| 0 <= j < n ==> a[j] == b[j],
    decreases n,
{
    if n > 0 {
        lemma_listings_agree_upto(data, lo, hi, base, a, b, n - 1);
        let i = n - 1;
        let m = a[i];
        assert(magic_at(data, m.0 - base, m.1.magic()));
        assert(b.contains(((base + (m.0 - base)) as u64, m.1)));
        let k = choose|k: int| 0 <= k < b.len() && b[k] == m;
        if k < i {
            assert(a[k] == b[k]);
            assert(a[k].0 < a[i].0);
        }
        if k > i {
            let w = b[i];
            assert(magic_at(data, w.0 - base, w.1.magic()));
            assert(a.contains(((base + (w.0 - base)) as u64, w.1)));
            let t = choose|t: int| 0 <= t < a.len() && a[t] == w;
            assert(b[i].0 < b[k].0);
            if t < i {
                assert(a[t] == b[t]);
                assert(b[t].0 < b[i].0);
            } else if t > i {
                assert(a[i].0 < a[t].0);
            }
        }
    }
}

/// A stretch of bits has one listing only.
pub proof fn lemma_listing_unique(
    data: Seq<u8>,
    lo: int,
    hi: int,
    base: int,
    a: Seq<(u64, MarkerType)>,
    b: Seq<(u64, MarkerType)>,
)
    requires
        0 <= base,
        0 <= lo,
        base + hi <= u64::MAX,
        is_marker_listing(data, lo, hi, base, a),
        is_marker_listing(data, lo, hi, base, b),
    ensures
        a == b,
{
    lemma_listings_agree_upto(data, lo, hi, base, a, b, a.len() as int);
    lemma_listings_agree_upto(data, lo, hi, base, b, a, b.len() as int);
    assert(a =~= b);
}

/// The number of chunks of an input of `len` bytes.
pub fn chunk_count(len: usize) -> (n: usize)
    ensures
        n == chunk_count_of(len as int),
{
    if len % CHUNK_SIZE != 0 {
        len / CHUNK_SIZE + 1
    } else {
        len / CHUNK_SIZE
    }
}

/// Completeness of the scan: every verified marker of the input is reported
/// by the chunk that owns the byte in which it starts.
pub proof fn lemma_every_marker_reported(
    data: Seq<u8>,
    base: int,
    results: Seq<(usize, Vec<(u64, MarkerType)>)>,
    bit: int,
    kind: MarkerType,
)
    requires
        is_stream_scan(data, base, results),
        0 <= bit,
        magic_at(data, bit, kind.magic()),
    ensures
        0 <= bit / 8 / (CHUNK_SIZE as int) < results.len(),
        results[bit / 8 / (CHUNK_SIZE as int)].1@.contains(((base + bit) as u64, kind)),
{
    let i = bit / 8 / (CHUNK_SIZE as int);
    assert(chunk_start(i) <= bit / 8 < chunk_end(data.len() as int, i));
    assert(results[i].0 == i);
}

/// No marker is reported twice: two entries of the scan with one bit
/// position are one entry of one chunk.
pub proof fn lemma_reported_once(
    data: Seq<u8>,
    base: int,
    results: Seq<(usize, Vec<(u64, MarkerType)>)>,
    i: int,
    j: int,
    i2: int,
    j2: int,
)
    requires
        is_stream_scan(data, base, results),
        0 <= i < results.len(),
        0 <= j < results[i].1@.len(),
        0 <= i2 < results.len(),
        0 <= j2 < results[i2].1@.len(),
        results[i].1@[j].0 == results[i2].1@[j2].0,
    ensures
        i == i2,
        j == j2,
{
    let len = data.len() as int;
    assert(results[i].0 == i);
    assert(results[i2].0 == i2);
    let m = results[i].1@[j];
    let m2 = results[i2].1@[j2];
    assert(base + 8 * chunk_start(i) <= m.0 < base + 8 * chunk_end(len, i));
    assert(base + 8 * chunk_start(i2) <= m2.0 < base + 8 * chunk_end(len, i2));
    if i < i2 {
        assert(chunk_end(len, i) <= chunk_start(i2));
    }
    if i2 < i {
        assert(chunk_end(len, i2) <= chunk_start(i));
    }
}

impl Scanner {
    #[verifier::type_invariant]
    spec fn wf(self) -> bool {
        &&& matcher_patterns(self.ac) == search_keys()
        &&& matcher_is_default(self.ac)
        &&& self.patterns_info@ == key_table()
    }

    /// Prepares the sixteen search keys and has the automaton built.
    ///
    /// There is no scanner where the automaton's builder refuses the keys.
    pub fn new() -> (made: Option<Scanner>)
        ensures
            made is Some <==> matcher_builds(search_keys()),
    {
        let mut patterns: Vec<Vec<u8>> = Vec::new();
        let mut patterns_info: Vec<(u64, MarkerType, usize)> = Vec::new();

        let mut shift: u8 = 0;
        while shift < 8
            invariant
                shift <= 8,
                patterns.len() == shift,
                patterns_info.len() == shift,
                forall|id: int| 0 <= id < shift ==> (#[trigger] patterns[id])@ == search_keys()[id],
                forall|id: int| 0 <= id < shift ==> #[trigger] patterns_info[id] == key_table()[id],
            decreases 8 - shift,
        {
            let search_key = make_search_key(MAGIC_BLOCK, shift);
            patterns.push(search_key);
            patterns_info.push((MAGIC_BLOCK, MarkerType::Block, shift as usize));
            shift += 1;
        }

        let mut shift: u8 = 0;
        while shift < 8
            invariant
                shift <= 8,
                patterns.len() == 8 + shift,
                patterns_info.len() == 8 + shift,
                forall|id: int|
                    0 <= id < 8 + shift ==> (#[trigger] patterns[id])@ == search_keys()[id],
                forall|id: int|
                    0 <= id < 8 + shift ==> #[trigger] patterns_info[id] == key_table()[id],
            decreases 8 - shift,
        {
            let search_key = make_search_key(MAGIC_EOS, shift);
            patterns.push(search_key);
            patterns_info.push((MAGIC_EOS, MarkerType::Eos, shift as usize));
            shift += 1;
        }

        assert(patterns@.map_values(|p: Vec<u8>| p@) =~= search_keys());
        assert(patterns_info@ =~= key_table());
        match build_matcher(&patterns) {
            Ok(ac) => Some(Scanner { ac, patterns_info }),
            Err(_) => None,
        }
    }

    /// Turns the hits of a search into the markers of a chunk.
    ///
    /// `data` is the whole input and `[start, end)` are the bytes that the
    /// chunk owns. Each hit is the number of a search key and the index at
    /// which the key was found, counted from `start`. A hit at index zero is
    /// passed over, since its candidate lies in front of the chunk, and so is
    /// one whose candidate lies at `end` or after. Each remaining candidate
    /// is verified against the whole input, and the verified ones are
    /// listed with `base_offset_bits` added to their bit positions. The key
    /// number of a hit whose candidate is verified has to be one of the
    /// sixteen.
    pub fn markers_from_hits(
        &self,
        data: &[u8],
        start: usize,
        end: usize,
        base_offset_bits: u64,
        hits: &Vec<(usize, usize)>,
    ) -> (markers: Vec<(u64, MarkerType)>)
        requires
            start <= end <= data.len(),
            base_offset_bits + 8 * data.len() <= u64::MAX,
            forall|k: int|
                0 <= k < hits.len() && 1 <= (#[trigger] hits[k]).1 <= end - start ==> hits[k].0
                    < KEY_COUNT,
        ensures
            markers@ == chunk_markers(
                data@,
                start as int,
                end as int,
                base_offset_bits as int,
                hits@,
            ),
    {
        proof {
            use_type_invariant(self);
        }
        let mut local_markers: Vec<(u64, MarkerType)> = Vec::new();
        let mut k: usize = 0;
        assert(hits@.take(0) =~= Seq::empty());
        while k < hits.len()
            invariant
                0 <= k <= hits.len(),
                start <= end <= data.len(),
                base_offset_bits + 8 * data.len() <= u64::MAX,
                forall|k: int|
                    0 <= k < hits.len() && 1 <= (#[trigger] hits[k]).1 <= end - start ==> hits[k].0
                        < KEY_COUNT,
                self.patterns_info@ == key_table(),
                local_markers@ == chunk_markers(
                    data@,
                    start as int,
                    end as int,
                    base_offset_bits as int,
                    hits@.take(k as int),
                ),
            decreases hits.len() - k,
        {
            let (pattern_id, match_start) = hits[k];
            proof {
                assert(hits@.take(k + 1).drop_last() =~= hits@.take(k as int));
                assert(hits@.take(k + 1).last() == hits@[k as int]);
            }
            if match_start != 0 {
                let start_byte_rel: usize = match_start - 1;
                if start_byte_rel < end - start {
                    let (magic, mtype, shift) = self.patterns_info[pattern_id];
                    let rel_bit_offset: u64 = (start + start_byte_rel) as u64 * 8 + shift as u64;
                    if verify_magic(data, rel_bit_offset, magic) {
                        local_markers.push((base_offset_bits + rel_bit_offset, mtype));
                    }
                }
            }
            k += 1;
        }
        assert(hits@.take(hits.len() as int) =~= hits@);
        local_markers
    }

    /// Scans chunk `chunk_index` of `data` and lists the verified markers
    /// that start in its bytes, in rising order, with `base_offset_bits`
    /// added to their bit positions.
    pub fn scan_chunk(&self, data: &[u8], chunk_index: usize, base_offset_bits: u64) -> (markers:
        Vec<(u64, MarkerType)>)
        requires
            chunk_index < chunk_count_of(data.len() as int),
            base_offset_bits + 8 * data.len() <= u64::MAX,
        ensures
            is_marker_listing(
                data@,
                8 * chunk_start(chunk_index as int),
                8 * chunk_end(data.len() as int, chunk_index as int),
                base_offset_bits as int,
                markers@,
            ),
    {
        proof {
            use_type_invariant(self);
        }
        let len = data.len();
        let start: usize = chunk_index * CHUNK_SIZE;
        let end: usize = if len - start > CHUNK_SIZE {
            start + CHUNK_SIZE
        } else {
            len
        };
        let scan_end: usize = if len - end > OVERLAP {
            end + OVERLAP
        } else {
            len
        };
        let slice = slice_subrange(data, start, scan_end);
        let hits = find_hits(&self.ac, slice);
        proof {
            assert forall|i: int| 0 <= i < search_keys().len() implies (
            #[trigger] search_keys()[i]).len() > 0 by {}
            lemma_markers_of_reported_hits(
                data@,
                start as int,
                end as int,
                scan_end as int,
                base_offset_bits as int,
                hits@,
            );
        }
        self.markers_from_hits(data, start, end, base_offset_bits, &hits)
    }

    /// Scans all of `data`, chunk after chunk, and hands out what each chunk
    /// found together with the number of the chunk.
    ///
    /// The chunks do not depend on one another: a caller with threads to
    /// spare reaches the same entries through [`Scanner::scan_chunk`], in
    /// whatever order they complete.
    pub fn scan_stream(&self, data: &[u8], base_offset_bits: u64) -> (results: Vec<
        (usize, Vec<(u64, MarkerType)>),
    >)
        requires
            base_offset_bits + 8 * data.len() <= u64::MAX,
        ensures
            is_stream_scan(data@, base_offset_bits as int, results@),
    {
        let num_chunks = chunk_count(data.len());
        let mut results: Vec<(usize, Vec<(u64, MarkerType)>)> = Vec::new();
        let mut i: usize = 0;
        while i < num_chunks
            invariant
                0 <= i <= num_chunks,
                num_chunks == chunk_count_of(data.len() as int),
                base_offset_bits + 8 * data.len() <= u64::MAX,
                results.len() == i,
                forall|c: int|
                    0 <= c < i ==> (#[trigger] results[c]).0 == c && is_marker_listing(
                        data@,
                        8 * chunk_start(c),
                        8 * chunk_end(data.len() as int, c),
                        base_offset_bits as int,
                        results[c].1@,
                    ),
            decreases num_chunks - i,
        {
            let local_markers = self.scan_chunk(data, i, base_offset_bits);
            results.push((i, local_markers));
            i += 1;
        }
        results
    }
}

} // verus!
