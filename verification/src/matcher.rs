//! The multi-pattern search that finds marker candidates.
//!
//! The search itself is the work of the `aho-corasick` crate. This module
//! says what the rest of the crate relies on: the contracts of the two calls
//! into that crate are taken on trust.

use vstd::prelude::*;
use aho_corasick::{AhoCorasick, BuildError};

verus! {

/// `aho_corasick::AhoCorasick`, the automaton. Nothing of its inside is
/// known here; what it searches for goes by [`matcher_patterns`].
#[verifier::external_type_specification]
#[verifier::external_body]
pub struct ExAhoCorasick(AhoCorasick);

/// `aho_corasick::BuildError`, the reason for which a build was refused. It
/// is carried, never looked into.
#[verifier::external_type_specification]
#[verifier::external_body]
pub struct ExBuildError(BuildError);

/// The patterns that an automaton searches for, in the order in which they
/// were handed to its builder.
pub uninterp spec fn matcher_patterns(ac: AhoCorasick) -> Seq<Seq<u8>>;

/// Whether the builder, in its default configuration, accepts the given
/// patterns.
pub uninterp spec fn matcher_builds(patterns: Seq<Seq<u8>>) -> bool;

/// Whether the automaton was built with the builder's default configuration:
/// it compares bytes exactly, reports a match as soon as one is seen, and
/// searches from any position of a haystack.
pub uninterp spec fn matcher_is_default(ac: AhoCorasick) -> bool;

/// `pattern` stands in `haystack` at index `at`.
pub open spec fn occurs_at(pattern: Seq<u8>, haystack: Seq<u8>, at: int) -> bool {
    &&& 0 <= at
    &&& at + pattern.len() <= haystack.len()
    &&& haystack.subrange(at, at + pattern.len()) == pattern
}

/// Every reported match names a pattern and a place where that pattern
/// stands.
pub open spec fn hits_are_occurrences(
    patterns: Seq<Seq<u8>>,
    haystack: Seq<u8>,
    hits: Seq<(usize, usize)>,
) -> bool {
    forall|k: int|
        0 <= k < hits.len() ==> (#[trigger] hits[k]).0 < patterns.len() && occurs_at(
            patterns[hits[k].0 as int],
            haystack,
            hits[k].1 as int,
        )
}

/// Each reported match starts at or after the end of the one before it.
pub open spec fn hits_do_not_overlap(patterns: Seq<Seq<u8>>, hits: Seq<(usize, usize)>) -> bool {
    forall|k: int|
        0 <= k < hits.len() - 1 && hits[k].0 < patterns.len() ==> hits[k].1
            + patterns[hits[k].0 as int].len() <= (#[trigger] hits[k + 1]).1
}

/// The match `hit` and the span `[at, at + len)` have a byte in common.
pub open spec fn hit_overlaps(
    patterns: Seq<Seq<u8>>,
    hit: (usize, usize),
    at: int,
    len: int,
) -> bool {
    &&& hit.0 < patterns.len()
    &&& hit.1 < at + len
    &&& at < hit.1 + patterns[hit.0 as int].len()
}

/// An occurrence of a pattern goes unreported only where it overlaps a
/// reported match.
#[verifier::opaque]
pub open spec fn hits_skip_only_overlaps(
    patterns: Seq<Seq<u8>>,
    haystack: Seq<u8>,
    hits: Seq<(usize, usize)>,
) -> bool {
    forall|i: int, at: int|
        0 <= i < patterns.len() && #[trigger] occurs_at(patterns[i], haystack, at) ==> exists|
            k: int,
        |
            0 <= k < hits.len() && hit_overlaps(
                patterns,
                #[trigger] hits[k],
                at,
                patterns[i].len() as int,
            )
}

/// Picks, for an occurrence of a pattern, a reported match that overlaps it.
pub proof fn lemma_overlapping_hit(
    patterns: Seq<Seq<u8>>,
    haystack: Seq<u8>,
    hits: Seq<(usize, usize)>,
    i: int,
    at: int,
) -> (k: int)
    requires
        hits_skip_only_overlaps(patterns, haystack, hits),
        0 <= i < patterns.len(),
        occurs_at(patterns[i], haystack, at),
    ensures
        0 <= k < hits.len(),
        hit_overlaps(patterns, hits[k], at, patterns[i].len() as int),
{
    reveal(hits_skip_only_overlaps);
    choose|k: int|
        0 <= k < hits.len() && hit_overlaps(
            patterns,
            #[trigger] hits[k],
            at,
            patterns[i].len() as int,
        )
}

/// All patterns have at least one byte.
pub open spec fn patterns_nonempty(patterns: Seq<Seq<u8>>) -> bool {
    forall|i: int| 0 <= i < patterns.len() ==> (#[trigger] patterns[i]).len() > 0
}

/// Calls `AhoCorasick::new`, which builds an automaton with the default
/// configuration. The build can be refused, which depends on the patterns
/// alone; where it succeeds, the automaton searches for the given patterns,
/// numbered in the given order.
#[verifier::external_body]
pub(crate) fn build_matcher(patterns: &Vec<Vec<u8>>) -> (built: Result<AhoCorasick, BuildError>)
    ensures
        built is Ok <==> matcher_builds(patterns@.map_values(|p: Vec<u8>| p@)),
        built matches Ok(ac) ==> matcher_patterns(ac) == patterns@.map_values(|p: Vec<u8>| p@)
            && matcher_is_default(ac),
{
    AhoCorasick::new(patterns)
}

/// Calls `AhoCorasick::find_iter` and hands out each match as the number of
/// its pattern and the index at which it starts.
///
/// `find_iter` panics on an automaton that does not search from any
/// position; an automaton of the default configuration does. What is stated
/// of the matches, for patterns that are not empty, is what the crate says of
/// a search for matches that do not overlap under its standard semantics:
/// each match is a place where its pattern stands in the haystack; a match is
/// reported as soon as one is seen and the next search starts where it ended,
/// so the matches come in order and do not overlap; and an occurrence goes
/// unreported only where it overlaps a reported match.
#[verifier::external_body]
pub(crate) fn find_hits(ac: &AhoCorasick, haystack: &[u8]) -> (hits: Vec<(usize, usize)>)
    requires
        matcher_is_default(*ac),
    ensures
        patterns_nonempty(matcher_patterns(*ac)) ==> {
            &&& hits_are_occurrences(matcher_patterns(*ac), haystack@, hits@)
            &&& hits_do_not_overlap(matcher_patterns(*ac), hits@)
            &&& hits_skip_only_overlaps(matcher_patterns(*ac), haystack@, hits@)
        },
{
    ac.find_iter(haystack).map(|m| (m.pattern().as_usize(), m.start())).collect()
}

} // verus!
