//! The public input of an addition: a commitment to the added item.
use twenty_first::tip5::Digest;
use vstd::prelude::*;

verus! {

/// What adds an item: the commitment to the item and its randomness.
#[derive(Clone, Copy, Debug)]
pub struct AdditionRecord {
    pub canonical_commitment: Digest,
}

impl AdditionRecord {
    /// The record of the given commitment.
    pub fn new(canonical_commitment: Digest) -> (r: Self)
        ensures
            r.canonical_commitment == canonical_commitment,
    {
        Self { canonical_commitment }
    }
}

} // verus!
