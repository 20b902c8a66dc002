//! Trusted items: the hash function and the Merkle Mountain Range of the
//! `twenty-first` crate, with the contracts that the rest of the library
//! relies on.
use itertools::Itertools;
use twenty_first::prelude::BFieldCodec;
use twenty_first::prelude::BFieldElement;
use twenty_first::prelude::Mmr;
use twenty_first::prelude::Tip5;
use twenty_first::tip5::Digest;
use twenty_first::util_types::mmr::mmr_accumulator::MmrAccumulator;
use twenty_first::util_types::mmr::mmr_membership_proof::MmrMembershipProof;
use twenty_first::util_types::mmr::mmr_trait::LeafMutation;
use crate::shared::NUM_TRIALS;
use vstd::prelude::*;

verus! {

#[verifier::external_type_specification]
#[verifier::external_body]
pub struct ExDigest(Digest);

#[verifier::external_type_specification]
#[verifier::external_body]
pub struct ExMmrAccumulator(MmrAccumulator);

#[verifier::external_type_specification]
#[verifier::external_body]
pub struct ExMmrMembershipProof(MmrMembershipProof);

/// The digest that Tip5 gives for a pair of digests.
pub uninterp spec fn hash_pair_of(left: Digest, right: Digest) -> Digest;

/// The digest that holds the field encoding of an integer.
pub uninterp spec fn encode_u128_of(x: u128) -> Digest;

/// The digest that Tip5 gives for a variable-length list of field elements.
pub uninterp spec fn hash_words_of(words: Seq<u64>) -> Digest;

/// The canonical value of a digest's first field element.
pub uninterp spec fn digest_head_of(d: Digest) -> u64;

/// The number of leaves an MMR accumulator commits to.
pub uninterp spec fn mmr_num_leafs_of(a: MmrAccumulator) -> u64;

/// The peaks of an MMR accumulator.
pub uninterp spec fn mmr_peaks_of(a: MmrAccumulator) -> Seq<Digest>;

/// The digest of an accumulator's peaks and leaf count.
pub uninterp spec fn mmr_bag_peaks_of(a: MmrAccumulator) -> Digest;

/// The accumulator after appending a leaf, and the new leaf's membership proof.
pub uninterp spec fn mmr_append_of(a: MmrAccumulator, leaf: Digest) -> (
    MmrAccumulator,
    MmrMembershipProof,
);

/// Whether an MMR membership proof authenticates a leaf at an index against
/// the given peaks and leaf count.
pub uninterp spec fn mmr_verify_of(
    p: MmrMembershipProof,
    leaf_index: u64,
    leaf: Digest,
    peaks: Seq<Digest>,
    num_leafs: u64,
) -> bool;

/// A membership proof brought up to date with one append to an accumulator,
/// and whether its authentication path changed.
pub uninterp spec fn mmr_update_from_append_of(
    p: MmrMembershipProof,
    leaf_index: u64,
    a: MmrAccumulator,
    leaf: Digest,
) -> (MmrMembershipProof, bool);

/// Membership proofs brought up to date with one append to an accumulator,
/// and the positions of those that changed.
pub uninterp spec fn mmr_batch_update_from_append_of(
    ps: Seq<MmrMembershipProof>,
    leaf_indices: Seq<u64>,
    a: MmrAccumulator,
    leaf: Digest,
) -> (Seq<MmrMembershipProof>, Seq<usize>);

/// An accumulator after a batch of leaf mutations, each given as (leaf index,
/// new leaf, proof of the leaf before the mutation), with the membership
/// proofs brought up to date and the positions of those that changed.
pub uninterp spec fn mmr_batch_mutate_of(
    a: MmrAccumulator,
    ps: Seq<MmrMembershipProof>,
    leaf_indices: Seq<u64>,
    mutations: Seq<(u64, Digest, MmrMembershipProof)>,
) -> (MmrAccumulator, Seq<MmrMembershipProof>, Seq<usize>);

/// The number of one bits of `n`.
pub open spec fn ones(n: u64) -> nat
    decreases n,
{
    if n == 0 {
        0
    } else {
        (n % 2) as nat + ones(n / 2)
    }
}

/// An accumulator has one peak for each one bit of its leaf count.
pub open spec fn mmr_consistent(a: MmrAccumulator) -> bool {
    mmr_peaks_of(a).len() == ones(mmr_num_leafs_of(a))
}

/// An MMR membership proof authenticates some leaf at the index, which is
/// below the leaf count.
pub open spec fn authenticates_some_leaf(
    p: MmrMembershipProof,
    leaf_index: u64,
    peaks: Seq<Digest>,
    num_leafs: u64,
) -> bool {
    &&& leaf_index < num_leafs
    &&& exists|x: Digest| mmr_verify_of(p, leaf_index, x, peaks, num_leafs)
}

/// Relies on `Tip5::hash_pair`: a deterministic digest of two digests.
#[verifier::external_body]
pub fn hash_pair(left: Digest, right: Digest) -> (r: Digest)
    ensures
        r == hash_pair_of(left, right),
{
    Tip5::hash_pair(left, right)
}

/// Relies on `BFieldCodec::encode` of a `u128`: its four 32-bit limbs, held
/// in a digest with a zero last element.
#[verifier::external_body]
pub fn encode_u128(x: u128) -> (r: Digest)
    ensures
        r == encode_u128_of(x),
{
    let limbs = x.encode();
    Digest::new([limbs[0], limbs[1], limbs[2], limbs[3], BFieldElement::new(0)])
}

/// Relies on `Tip5::hash_varlen`: a deterministic digest of a list of field
/// elements, here given as their integer values.
#[verifier::external_body]
pub fn hash_words(words: &Vec<u64>) -> (r: Digest)
    ensures
        r == hash_words_of(words@),
{
    let elements: Vec<BFieldElement> = words.iter().map(|w| BFieldElement::new(*w)).collect();
    Tip5::hash_varlen(&elements)
}

/// Relies on `Digest::values` and `BFieldElement::value`: the canonical
/// value of the first element of a digest.
#[verifier::external_body]
pub fn digest_head(d: Digest) -> (r: u64)
    ensures
        r == digest_head_of(d),
{
    d.values()[0].value()
}

/// Relies on `MmrAccumulator::new_from_leafs`: with no leaves, the
/// accumulator has no leaves and no peaks.
#[verifier::external_body]
pub fn mmr_empty() -> (r: MmrAccumulator)
    ensures
        mmr_num_leafs_of(r) == 0,
        mmr_peaks_of(r) == Seq::<Digest>::empty(),
{
    MmrAccumulator::new_from_leafs(vec![])
}

/// Relies on `Mmr::num_leafs` of `MmrAccumulator`.
#[verifier::external_body]
pub fn mmr_num_leafs(a: &MmrAccumulator) -> (r: u64)
    ensures
        r == mmr_num_leafs_of(*a),
{
    a.num_leafs()
}

/// Relies on `Mmr::bag_peaks` of `MmrAccumulator`: one digest of the peaks
/// and the leaf count.
#[verifier::external_body]
pub fn mmr_bag_peaks(a: &MmrAccumulator) -> (r: Digest)
    ensures
        r == mmr_bag_peaks_of(*a),
{
    a.bag_peaks()
}

/// Relies on `Mmr::peaks` of `MmrAccumulator`.
#[verifier::external_body]
pub fn mmr_peaks(a: &MmrAccumulator) -> (r: Vec<Digest>)
    ensures
        r@ == mmr_peaks_of(*a),
{
    a.peaks()
}

/// Relies on `Clone` of `Digest`, derived over its elements.
pub assume_specification[ <Digest as Clone>::clone ](d: &Digest) -> (r: Digest)
    ensures
        r == *d,
;

/// Relies on `Clone` of `MmrAccumulator`, derived over its fields.
pub assume_specification[ <MmrAccumulator as Clone>::clone ](a: &MmrAccumulator) -> (r:
    MmrAccumulator)
    ensures
        r == *a,
;

/// Relies on `Clone` of `MmrMembershipProof`, derived over its fields.
pub assume_specification[ <MmrMembershipProof as Clone>::clone ](p: &MmrMembershipProof) -> (r:
    MmrMembershipProof)
    ensures
        r == *p,
;

/// Relies on `Mmr::append` of `MmrAccumulator`: the leaf count grows by one,
/// the peaks stay one for each one bit of the leaf count (it asserts them
/// so before), and the returned proof authenticates the new leaf at the old
/// leaf count against the new peaks.
#[verifier::external_body]
pub fn mmr_append(a: &mut MmrAccumulator, leaf: Digest) -> (r: MmrMembershipProof)
    requires
        mmr_num_leafs_of(*old(a)) < u64::MAX,
        mmr_consistent(*old(a)),
    ensures
        (*final(a), r) == mmr_append_of(*old(a), leaf),
        mmr_num_leafs_of(*final(a)) == mmr_num_leafs_of(*old(a)) + 1,
        mmr_consistent(*final(a)),
        mmr_verify_of(
            r,
            mmr_num_leafs_of(*old(a)),
            leaf,
            mmr_peaks_of(*final(a)),
            mmr_num_leafs_of(*final(a)),
        ),
{
    a.append(leaf)
}

/// Relies on `MmrMembershipProof::verify`; it rejects a leaf index that is
/// not below the leaf count.
#[verifier::external_body]
pub fn mmr_verify(
    p: &MmrMembershipProof,
    leaf_index: u64,
    leaf: Digest,
    peaks: &Vec<Digest>,
    num_leafs: u64,
) -> (r: bool)
    requires
        peaks@.len() <= u32::MAX,
    ensures
        r == mmr_verify_of(*p, leaf_index, leaf, peaks@, num_leafs),
        leaf_index >= num_leafs ==> !r,
{
    p.verify(leaf_index, leaf, peaks, num_leafs)
}

/// Relies on `MmrMembershipProof::update_from_append`: the proof of a leaf
/// that it authenticated before the append authenticates it after, and it
/// returns false only where it left the path as it was. It
/// requires a proof of some leaf, below the leaf count.
#[verifier::external_body]
pub fn mmr_update_from_append(
    p: &mut MmrMembershipProof,
    leaf_index: u64,
    a: &MmrAccumulator,
    leaf: Digest,
) -> (r: bool)
    requires
        mmr_num_leafs_of(*a) < u64::MAX,
        mmr_consistent(*a),
        authenticates_some_leaf(*old(p), leaf_index, mmr_peaks_of(*a), mmr_num_leafs_of(*a)),
    ensures
        (*final(p), r) == mmr_update_from_append_of(*old(p), leaf_index, *a, leaf),
        !r ==> *final(p) == *old(p),
        forall|x: Digest|
            mmr_verify_of(*old(p), leaf_index, x, mmr_peaks_of(*a), mmr_num_leafs_of(*a))
                ==> mmr_verify_of(
                *final(p),
                leaf_index,
                x,
                mmr_peaks_of(mmr_append_of(*a, leaf).0),
                (mmr_num_leafs_of(*a) + 1) as u64,
            ),
{
    p.update_from_append(leaf_index, a.num_leafs(), leaf, &a.peaks())
}

/// Relies on `MmrMembershipProof::batch_update_from_append`: each proof of a
/// leaf that it authenticated before the append authenticates it after, and
/// the proofs whose positions it does not return are left as they were. It
/// panics unless the lists have one length and each index is below the leaf
/// count; each proof must be one of some leaf.
#[verifier::external_body]
pub fn mmr_batch_update_from_append(
    ps: &mut Vec<MmrMembershipProof>,
    leaf_indices: &Vec<u64>,
    a: &MmrAccumulator,
    leaf: Digest,
) -> (r: Vec<usize>)
    requires
        mmr_num_leafs_of(*a) < u64::MAX,
        mmr_consistent(*a),
        old(ps)@.len() == leaf_indices@.len(),
        forall|i: int|
            0 <= i < leaf_indices@.len() ==> authenticates_some_leaf(
                #[trigger] old(ps)@[i],
                leaf_indices@[i],
                mmr_peaks_of(*a),
                mmr_num_leafs_of(*a),
            ),
    ensures
        (final(ps)@, r@) == mmr_batch_update_from_append_of(old(ps)@, leaf_indices@, *a, leaf),
        final(ps)@.len() == old(ps)@.len(),
        forall|i: int|
            0 <= i < old(ps)@.len() && !r@.contains(i as usize) ==> #[trigger] final(ps)@[i]
                == old(ps)@[i],
        forall|i: int, x: Digest|
            0 <= i < leaf_indices@.len() && #[trigger] mmr_verify_of(
                old(ps)@[i],
                leaf_indices@[i],
                x,
                mmr_peaks_of(*a),
                mmr_num_leafs_of(*a),
            ) ==> mmr_verify_of(
                final(ps)@[i],
                leaf_indices@[i],
                x,
                mmr_peaks_of(mmr_append_of(*a, leaf).0),
                (mmr_num_leafs_of(*a) + 1) as u64,
            ),
{
    let mut refs: Vec<&mut MmrMembershipProof> = ps.iter_mut().collect();
    let count = a.num_leafs();
    MmrMembershipProof::batch_update_from_append(&mut refs, leaf_indices, count, leaf, &a.peaks())
}

/// Relies on `Mmr::batch_mutate_leaf_and_update_mps` of `MmrAccumulator`:
/// the leaf count and the number of peaks stay, the new peaks follow from
/// the mutations alone, and an empty batch changes nothing. As its documentation says, proofs that were valid stay valid
/// for the new MMR: one of an unmutated leaf authenticates that leaf, one at
/// a mutated index authenticates the new leaf. It panics unless the proof
/// lists have one length,
/// each index is below the leaf count and no leaf is mutated twice; each
/// proof must be one of some leaf.
#[verifier::external_body]
pub fn mmr_batch_mutate(
    a: &mut MmrAccumulator,
    ps: &mut Vec<MmrMembershipProof>,
    leaf_indices: &Vec<u64>,
    mutations: &Vec<(u64, Digest, MmrMembershipProof)>,
) -> (r: Vec<usize>)
    requires
        mmr_consistent(*old(a)),
        old(ps)@.len() == leaf_indices@.len(),
        forall|i: int|
            0 <= i < leaf_indices@.len() ==> authenticates_some_leaf(
                #[trigger] old(ps)@[i],
                leaf_indices@[i],
                mmr_peaks_of(*old(a)),
                mmr_num_leafs_of(*old(a)),
            ),
        forall|i: int|
            0 <= i < mutations@.len() ==> authenticates_some_leaf(
                (#[trigger] mutations@[i]).2,
                mutations@[i].0,
                mmr_peaks_of(*old(a)),
                mmr_num_leafs_of(*old(a)),
            ),
        forall|i: int, j: int|
            0 <= i < j < mutations@.len() ==> (#[trigger] mutations@[i]).0 != (#[trigger] mutations@[j]).0,
    ensures
        (*final(a), final(ps)@, r@) == mmr_batch_mutate_of(
            *old(a),
            old(ps)@,
            leaf_indices@,
            mutations@,
        ),
        mmr_num_leafs_of(*final(a)) == mmr_num_leafs_of(*old(a)),
        mmr_peaks_of(*final(a)).len() == mmr_peaks_of(*old(a)).len(),
        final(ps)@.len() == old(ps)@.len(),
        mutations@.len() == 0 ==> *final(a) == *old(a) && final(ps)@ == old(ps)@,
        *final(a) == mmr_batch_mutate_of(*old(a), Seq::empty(), Seq::empty(), mutations@).0,
        forall|i: int, x: Digest|
            0 <= i < leaf_indices@.len() && #[trigger] mmr_verify_of(
                old(ps)@[i],
                leaf_indices@[i],
                x,
                mmr_peaks_of(*old(a)),
                mmr_num_leafs_of(*old(a)),
            ) && (forall|j: int| 0 <= j < mutations@.len() ==> mutations@[j].0 != leaf_indices@[i])
                ==> mmr_verify_of(
                final(ps)@[i],
                leaf_indices@[i],
                x,
                mmr_peaks_of(*final(a)),
                mmr_num_leafs_of(*final(a)),
            ),
        forall|i: int, j: int|
            0 <= i < leaf_indices@.len() && 0 <= j < mutations@.len() && #[trigger] mutations@[j].0
                == #[trigger] leaf_indices@[i] ==> mmr_verify_of(
                final(ps)@[i],
                leaf_indices@[i],
                mutations@[j].1,
                mmr_peaks_of(*final(a)),
                mmr_num_leafs_of(*final(a)),
            ),
{
    let mut refs: Vec<&mut MmrMembershipProof> = ps.iter_mut().collect();
    let muts = mutations.iter().map(|(i, d, p)| LeafMutation::new(*i, *d, p.clone())).collect();
    a.batch_mutate_leaf_and_update_mps(&mut refs, leaf_indices, muts)
}

/// Relies on `Itertools::unique`: it yields each distinct element once.
#[verifier::external_body]
pub fn count_distinct(v: &Vec<u64>) -> (r: usize)
    ensures
        r == v@.to_set().len(),
{
    v.iter().unique().count()
}

/// Relies on `slice::sort_unstable`: it orders the elements ascending, as a
/// permutation of them.
#[verifier::external_body]
pub fn sort_indices(a: &mut [u128; NUM_TRIALS])
    ensures
        forall|i: int, j: int| 0 <= i <= j < NUM_TRIALS ==> final(a)@[i] <= final(a)@[j],
        final(a)@.to_multiset() == old(a)@.to_multiset(),
{
    a.sort_unstable()
}

} // verus!
