//! The multi-pattern automaton of the `aho_corasick` crate, as the search uses it.
use aho_corasick::{AhoCorasick, BuildError};
use vstd::prelude::*;

verus! {

#[verifier::external_type_specification]
#[verifier::external_body]
pub struct ExAhoCorasick(AhoCorasick);

#[verifier::external_type_specification]
#[verifier::external_body]
pub struct ExBuildError(BuildError);

/// Relies on `BuildError`'s derived `Clone`, so that this library's errors are
/// cloneable too. Nothing is claimed of the copy.
pub assume_specification[ <BuildError as Clone>::clone ](e: &BuildError) -> BuildError;

/// The patterns an automaton was built from, in the order of their indices.
pub uninterp spec fn automaton_patterns(a: AhoCorasick) -> Seq<Seq<u8>>;

/// The non-empty `pat` lies in `hay` starting at `s`.
pub open spec fn occurs(hay: Seq<u8>, pat: Seq<u8>, s: int) -> bool {
    &&& pat.len() > 0
    &&& 0 <= s
    &&& s + pat.len() <= hay.len()
    &&& hay.subrange(s, s + pat.len()) == pat
}

/// Where the hit `(pattern index, start)` ends.
pub open spec fn hit_end(pats: Seq<Seq<u8>>, h: (usize, usize)) -> int {
    h.1 + pats[h.0 as int].len()
}

/// Where the scan resumes before reporting hit `j`: the end of the one before.
pub open spec fn resume_at(pats: Seq<Seq<u8>>, hits: Seq<(usize, usize)>, j: int) -> int {
    if j == 0 {
        0
    } else {
        hit_end(pats, hits[j - 1])
    }
}

/// `hits` are the non-overlapping occurrences that a left-to-right scan
/// reports, each as soon as its last byte is seen: every hit is an
/// occurrence, each starts where the previous one ended or later, none ends
/// later than any occurrence that starts where the scan resumed, and after the
/// last hit no occurrence starts.
pub open spec fn reported_as_seen(pats: Seq<Seq<u8>>, hay: Seq<u8>, hits: Seq<(usize, usize)>) -> bool {
    &&& forall|j: int|
        0 <= j < hits.len() ==> (#[trigger] hits[j]).0 < pats.len() && occurs(
            hay,
            pats[hits[j].0 as int],
            hits[j].1 as int,
        )
    &&& forall|j: int| 0 < j < hits.len() ==> (#[trigger] hits[j]).1 >= hit_end(pats, hits[j - 1])
    &&& forall|j: int, i: int, s: int|
        #![trigger hits[j], occurs(hay, pats[i], s)]
        0 <= j < hits.len() && 0 <= i < pats.len() && s >= resume_at(pats, hits, j) && occurs(
            hay,
            pats[i],
            s,
        ) ==> s + pats[i].len() >= hit_end(pats, hits[j])
    &&& forall|i: int, s: int|
        0 <= i < pats.len() && s >= resume_at(pats, hits, hits.len() as int) ==> !#[trigger] occurs(
            hay,
            pats[i],
            s,
        )
}

/// Whether an automaton can be built from these patterns: building fails
/// only when the patterns need more states or IDs than the automaton can
/// number, which depends on the patterns alone.
pub uninterp spec fn automaton_builds(pats: Seq<Seq<u8>>) -> bool;

/// Relies on `AhoCorasick::new` with its default configuration (standard
/// match semantics): on success the automaton searches for exactly the given
/// patterns, pattern `i` of the list having the pattern ID `i`. Whether it
/// succeeds depends on the patterns alone, and an empty list always builds.
#[verifier::external_body]
pub(crate) fn build_automaton(anchors: &Vec<Vec<u8>>) -> (r: Result<AhoCorasick, BuildError>)
    ensures
        r is Ok <==> automaton_builds(anchors@.map_values(|v: Vec<u8>| v@)),
        anchors@.len() == 0 ==> r is Ok,
        r matches Ok(a) ==> automaton_patterns(a) == anchors@.map_values(|v: Vec<u8>| v@),
{
    AhoCorasick::new(anchors)
}

/// The matches that a scan of `hay` for `pats` reports, as (pattern index,
/// start), in the order reported.
pub uninterp spec fn scanned(pats: Seq<Seq<u8>>, hay: Seq<u8>) -> Seq<(usize, usize)>;

/// Relies on `AhoCorasick::find_iter` under standard match semantics: it
/// yields the non-overlapping matches from left to right, each reported as
/// soon as the scan reaches its end, the next search starting where the last
/// match ended; what it yields depends on the patterns and the haystack
/// alone. Each match is handed out as (pattern ID, start).
#[verifier::external_body]
pub(crate) fn find_all(ac: &AhoCorasick, haystack: &[u8]) -> (r: Vec<(usize, usize)>)
    requires
        forall|i: int|
            0 <= i < automaton_patterns(*ac).len() ==> (#[trigger] automaton_patterns(*ac)[i]).len() > 0,
    ensures
        r@ == scanned(automaton_patterns(*ac), haystack@),
        reported_as_seen(automaton_patterns(*ac), haystack@, r@),
{
    ac.find_iter(haystack).map(|m| (m.pattern().as_usize(), m.start())).collect()
}

} // verus!
