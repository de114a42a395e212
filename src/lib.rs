//! Batch search of a byte buffer for patterns whose bytes may be unknown.
//!
//! Each pattern's longest run of known bytes is handed to a multi-pattern
//! Aho-Corasick automaton; every hit of that run is then checked against the
//! whole pattern, with unknown bytes matching anything.

pub mod automaton;
pub mod error;
pub mod pattern;
pub mod search;
pub mod text;
pub mod theorems;
