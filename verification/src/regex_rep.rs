//! Repetitions.

use vstd::prelude::*;

verus! {

/// How many consecutive times a step's value has to match.
#[derive(Debug, Clone, Copy, PartialEq, Eq, Structural)]
pub enum RegexRep {
    /// Zero or more times, as many as possible.
    Any,
    /// Exactly this many times.
    Exact(usize),
    /// As many times as possible up to `max`, and no fewer than `min`;
    /// an absent bound does not constrain.
    Range { min: Option<usize>, max: Option<usize> },
}

} // verus!
