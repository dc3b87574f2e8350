//! Byte automata: states whose transitions are guarded by sets of bytes.
use vstd::prelude::*;

use crate::guards::Guard;

verus! {

/// An ordered set of indices, kept sorted and without repeats.
pub struct OrderedIxs(pub Vec<usize>);

/// A state of a byte automaton: its guarded transitions (guard, target
/// state) and the tags of the patterns that it accepts.
pub struct State {
    pub transitions: Vec<(Guard, usize)>,
    pub tags: OrderedIxs,
    pub is_deterministic: bool,
}

} // verus!
