use vstd::prelude::*;

verus! {

/// The ways a search can fail.
#[derive(Debug, Clone)]
pub enum Error {
    /// The automaton could not be built from the anchors.
    AhoCorasick(aho_corasick::BuildError),
    /// A token of a textual pattern is neither a hex byte nor a wildcard.
    Parsing,
}

} // verus!
