//! The blob vector: a length, then the elements aligned for their type; the
//! same layout as `AnchaVec`.
use vstd::prelude::*;

verus! {

/// A vector in a blob.
pub type BlobVec<'a, X> = crate::ancha::vec::AnchaVec<'a, X>;

} // verus!
