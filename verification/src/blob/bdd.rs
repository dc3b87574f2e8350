//! The blob decision diagram: a node tag, then a leaf or an inner node whose
//! owned child follows it; the same layout as `AnchaBdd`.
use vstd::prelude::*;

verus! {

/// A decision diagram in a blob.
pub type Bdd<'a, Var, Leaf> = crate::ancha::bdd::AnchaBdd<'a, Var, Leaf>;

} // verus!
