//! A witness that an item is in the mutator set, and its maintenance as
//! other items are added and removed.
use crate::addition_record::AdditionRecord;
use crate::chunk::{chunk_digest, Chunk};
use crate::chunk_dictionary::{
    bits_in_chunk, distinct_keys, has_key, key_position, keys_of, lemma_key_position, proofs_of, upsert, with_bits, with_proofs, ChunkDictionary,
    EntryView,
};
use crate::indices::{derived_indices, get_swbf_indices};
use crate::trusted::{
    authenticates_some_leaf, hash_pair, hash_pair_of, mmr_append, mmr_append_of,
    mmr_batch_mutate, mmr_batch_mutate_of, mmr_batch_update_from_append,
    mmr_batch_update_from_append_of, mmr_num_leafs, mmr_num_leafs_of, mmr_peaks,
    mmr_peaks_of, mmr_update_from_append, mmr_update_from_append_of,
    mmr_verify_of,
};
use crate::removal_record::RemovalRecord;
use crate::set_commitment::{
    entries_valid, entry_valid, entry_validity, lemma_batch_step, lemma_chunk_arith,
    lemma_peaks_bound, leaf_verifies,
    mutations_of,
    chunk_of, prefix_set, removal_mutations, slides_at, touches, touches_chunk, verify_leaf,
    SetCommitment, SetCommitmentError,
};
use crate::shared::{BATCH_SIZE, CHUNK_SIZE, NUM_TRIALS, WINDOW_SIZE};
use twenty_first::tip5::Digest;
use twenty_first::util_types::mmr::mmr_accumulator::MmrAccumulator;
use twenty_first::util_types::mmr::mmr_membership_proof::MmrMembershipProof;
use vstd::prelude::*;

verus! {

/// A witness that an item is in the set.
#[derive(Clone, Debug)]
pub struct MembershipProof {
    /// The randomness of the item's commitment.
    pub randomness: Digest,
    /// The authentication path of the commitment in the commitment list.
    pub auth_path_aocl: MmrMembershipProof,
    /// The leaf index of the commitment in the commitment list.
    pub aocl_leaf_index: u64,
    /// The archived chunks that hold some of the item's indices.
    pub target_chunks: ChunkDictionary,
    /// The item's indices, when they are kept.
    pub cached_indices: Option<[u128; NUM_TRIALS]>,
}

/// The indices of the item that a proof witnesses: the kept ones, or else
/// the derived ones.
pub open spec fn proof_indices(item: Digest, p: MembershipProof) -> Option<[u128; NUM_TRIALS]> {
    match p.cached_indices {
        Some(a) => Some(a),
        None => derived_indices(item, p.randomness, p.aocl_leaf_index),
    }
}

/// The entry for the chunk that leaves the active window of `ms` on a slide.
pub open spec fn slide_entry(ms: SetCommitment) -> EntryView {
    let chunk = prefix_set(ms.swbf_active@);
    (ms.batch_index(), mmr_append_of(ms.swbf_inactive, chunk_digest(chunk)).1, chunk)
}

/// The MMR proofs of the entries, brought up to date with the slide of `ms`,
/// and which of them changed.
pub open spec fn slide_proof_update(d: Seq<EntryView>, ms: SetCommitment) -> (
    Seq<MmrMembershipProof>,
    Seq<usize>,
) {
    mmr_batch_update_from_append_of(
        proofs_of(d),
        keys_of(d),
        ms.swbf_inactive,
        chunk_digest(prefix_set(ms.swbf_active@)),
    )
}

/// The archived chunks of a proof or removal record after the addition that
/// slides the window of `ms`: proofs brought up to date, and the leaving
/// chunk's entry where the indices touch it.
pub open spec fn chunks_after_slide(
    d: Seq<EntryView>,
    ms: SetCommitment,
    indices: Option<[u128; NUM_TRIALS]>,
) -> Seq<EntryView> {
    let d1 = with_proofs(d, slide_proof_update(d, ms).0);
    if indices matches Some(a) && touches(a@, ms.batch_index()) {
        upsert(d1, slide_entry(ms))
    } else {
        d1
    }
}

/// The archived chunks of a proof or removal record after the removal `rr`
/// is applied to `ms`: its positions are set and the proofs follow the
/// mutated leaves.
pub open spec fn chunks_after_removal(
    d: Seq<EntryView>,
    ms: SetCommitment,
    rr: RemovalRecord,
) -> Seq<EntryView> {
    let ind = rr.bit_indices.0@;
    let ps = mmr_batch_mutate_of(
        ms.swbf_inactive,
        proofs_of(d),
        keys_of(d),
        mutations_of(rr.target_chunks@, ind),
    ).1;
    with_proofs(with_bits(d, ind), ps)
}

/// The inactive filter of `ms` after the removal `rr`.
pub open spec fn swbf_after_removal(ms: SetCommitment, rr: RemovalRecord) -> MmrAccumulator {
    mmr_batch_mutate_of(
        ms.swbf_inactive,
        Seq::empty(),
        Seq::empty(),
        mutations_of(rr.target_chunks@, rr.bit_indices.0@),
    ).0
}

/// The MMR proofs of `d` follow the removal `rr` applied to `ms` into `ps`:
/// a proof of an unmutated leaf still authenticates that leaf, and one at a
/// mutated index authenticates the new leaf, against the new peaks.
pub open spec fn proofs_follow_removal(
    d: Seq<EntryView>,
    ms: SetCommitment,
    rr: RemovalRecord,
    ps: Seq<MmrMembershipProof>,
) -> bool {
    let m = mutations_of(rr.target_chunks@, rr.bit_indices.0@);
    let after = swbf_after_removal(ms, rr);
    &&& forall|i: int, x: Digest|
        0 <= i < d.len() && #[trigger] mmr_verify_of(
            d[i].1,
            d[i].0,
            x,
            mmr_peaks_of(ms.swbf_inactive),
            mmr_num_leafs_of(ms.swbf_inactive),
        ) && (forall|j: int| 0 <= j < m.len() ==> m[j].0 != d[i].0) ==> mmr_verify_of(
            ps[i],
            d[i].0,
            x,
            mmr_peaks_of(after),
            mmr_num_leafs_of(after),
        )
    &&& forall|i: int, j: int|
        0 <= i < d.len() && 0 <= j < m.len() && #[trigger] m[j].0 == #[trigger] d[i].0
            ==> mmr_verify_of(ps[i], d[i].0, m[j].1, mmr_peaks_of(after), mmr_num_leafs_of(after))
}

/// Why the chunks `d` of a proof or removal record, whose own indices are
/// `own`, cannot follow the removal `rr` applied to `ms`, if they cannot:
/// some chunk does not authenticate; the removal touches a held chunk that
/// it does not carry; or the removal touches an archived chunk that holds
/// one of the own indices but that `d` lacks, so `d` is stale.
pub open spec fn removal_update_error(
    d: Seq<EntryView>,
    ms: SetCommitment,
    rr: RemovalRecord,
    own: Option<[u128; NUM_TRIALS]>,
) -> Option<SetCommitmentError> {
    let ind = rr.bit_indices.0@;
    if !entries_valid(rr.target_chunks@, ms.swbf_inactive) || !entries_valid(d, ms.swbf_inactive) {
        Some(SetCommitmentError::InvalidTargetChunks)
    } else if exists|i: int|
        0 <= i < d.len() && touches(ind, #[trigger] d[i].0) && !has_key(rr.target_chunks@, d[i].0) {
        Some(SetCommitmentError::RemovalLacksChunk)
    } else if own matches Some(a) && exists|k: int|
        0 <= k < NUM_TRIALS && #[trigger] ind[k] < ms.window_start() && touches(
            a@,
            chunk_of(ind[k]),
        ) && !has_key(d, chunk_of(ind[k])) {
        Some(SetCommitmentError::MissingChunkOnUpdate)
    } else {
        None
    }
}

/// `slide` holds, where the next addition to `ms` slides the window, the
/// chunk that leaves, its digest and its proof in the grown inactive filter.
pub open spec fn is_slide_data(slide: Option<(Chunk, Digest, MmrMembershipProof)>, ms: SetCommitment) -> bool {
    slides_at(ms.num_leafs() + 1) ==> match slide {
        Some(t) => t.0.wf() && t.0@ == prefix_set(ms.swbf_active@) && t.1 == chunk_digest(t.0@)
            && t.2 == slide_entry(ms).1,
        None => false,
    }
}

/// The slide data of the next addition to `ms`, made once for all updates.
pub(crate) fn slide_data(ms: &SetCommitment) -> (r: Option<(Chunk, Digest, MmrMembershipProof)>)
    requires
        ms.wf(),
        ms.num_leafs() < u64::MAX,
    ensures
        is_slide_data(r, *ms),
{
    let n = mmr_num_leafs(&ms.aocl);
    if !SetCommitment::window_slides(n + 1) {
        return None;
    }
    let chunk = ms.slide_chunk();
    let digest = chunk.hash();
    let mut swbf = ms.swbf_inactive.clone();
    let path = mmr_append(&mut swbf, digest);
    Some((chunk, digest, path))
}

impl MembershipProof {
    /// Why the proof of `item` cannot follow an addition to `ms`, if it cannot.
    pub open spec fn addition_error(&self, item: Digest, ms: SetCommitment) -> Option<
        SetCommitmentError,
    > {
        let n = ms.num_leafs();
        if self.aocl_leaf_index >= n {
            Some(SetCommitmentError::RequestedAoclAuthPathOutOfBounds(self.aocl_leaf_index, n))
        } else if !leaf_verifies(
            self.auth_path_aocl,
            self.aocl_leaf_index,
            hash_pair_of(item, self.randomness),
            mmr_peaks_of(ms.aocl),
            n,
        ) {
            Some(SetCommitmentError::InvalidAoclPath)
        } else if slides_at(n + 1) && !entries_valid(self.target_chunks@, ms.swbf_inactive) {
            Some(SetCommitmentError::InvalidTargetChunks)
        } else {
            None
        }
    }

    /// `p` is this proof of `item` after the addition of commitment `c` to
    /// `ms`; each MMR path that authenticated a leaf before authenticates it
    /// in the grown MMR.
    pub open spec fn follows_addition(
        &self,
        item: Digest,
        ms: SetCommitment,
        c: Digest,
        p: MembershipProof,
    ) -> bool {
        let n = ms.num_leafs();
        &&& p.randomness == self.randomness
        &&& p.aocl_leaf_index == self.aocl_leaf_index
        &&& p.cached_indices == self.cached_indices
        &&& p.auth_path_aocl == mmr_update_from_append_of(
            self.auth_path_aocl,
            self.aocl_leaf_index,
            ms.aocl,
            c,
        ).0
        &&& p.target_chunks.wf()
        &&& p.target_chunks@ == if slides_at(n + 1) {
            chunks_after_slide(self.target_chunks@, ms, proof_indices(item, *self))
        } else {
            self.target_chunks@
        }
        &&& forall|x: Digest|
            #[trigger] mmr_verify_of(
                self.auth_path_aocl,
                self.aocl_leaf_index,
                x,
                mmr_peaks_of(ms.aocl),
                n,
            ) ==> mmr_verify_of(
                p.auth_path_aocl,
                self.aocl_leaf_index,
                x,
                mmr_peaks_of(mmr_append_of(ms.aocl, c).0),
                (n + 1) as u64,
            )
        &&& slides_at(n + 1) ==> forall|i: int, x: Digest|
            0 <= i < self.target_chunks@.len() && #[trigger] mmr_verify_of(
                self.target_chunks@[i].1,
                self.target_chunks@[i].0,
                x,
                mmr_peaks_of(ms.swbf_inactive),
                mmr_num_leafs_of(ms.swbf_inactive),
            ) ==> mmr_verify_of(
                slide_proof_update(self.target_chunks@, ms).0[i],
                self.target_chunks@[i].0,
                x,
                mmr_peaks_of(
                    mmr_append_of(ms.swbf_inactive, chunk_digest(prefix_set(ms.swbf_active@))).0,
                ),
                (mmr_num_leafs_of(ms.swbf_inactive) + 1) as u64,
            )
    }

    /// Brings the proof of `own_item` up to date with the addition of
    /// `record` to `ms`, where `ms` is the set before the addition. Returns
    /// whether the proof changed; where it cannot follow, it stays as it is.
    pub fn update_from_addition(
        &mut self,
        own_item: &Digest,
        ms: &SetCommitment,
        record: &AdditionRecord,
    ) -> (r: Result<bool, SetCommitmentError>)
        requires
            old(self).target_chunks.wf(),
            ms.wf(),
            ms.num_leafs() < u64::MAX,
        ensures
            final(self).target_chunks.wf(),
            match r {
                Ok(changed) => {
                    &&& old(self).addition_error(*own_item, *ms) is None
                    &&& old(self).follows_addition(
                        *own_item,
                        *ms,
                        record.canonical_commitment,
                        *final(self),
                    )
                    &&& changed == old(self).addition_changes(
                        *own_item,
                        *ms,
                        record.canonical_commitment,
                    )
                    &&& !changed ==> final(self).auth_path_aocl == old(self).auth_path_aocl
                        && final(self).target_chunks@ == old(self).target_chunks@
                },
                Err(e) => old(self).addition_error(*own_item, *ms) == Some(e) && *final(self)
                    == *old(self),
            },
    {
        let slide = slide_data(ms);
        self.apply_addition(own_item, ms, record, &slide)
    }

    /// Whether the update for the addition of `c` to `ms` reports a change:
    /// its AOCL path was extended, or on a slide an archived chunk's proof
    /// was extended or the leaving chunk's entry was put in. Where it
    /// reports none, the proof is as it was.
    pub open spec fn addition_changes(&self, item: Digest, ms: SetCommitment, c: Digest) -> bool {
        mmr_update_from_append_of(self.auth_path_aocl, self.aocl_leaf_index, ms.aocl, c).1 || (
        slides_at(ms.num_leafs() + 1) && (slide_proof_update(self.target_chunks@, ms).1.len() > 0
            || (proof_indices(item, *self) matches Some(a) && touches(a@, ms.batch_index()))))
    }

    /// The update of `update_from_addition`, with the slide's chunk, its
    /// digest and its MMR proof given.
    fn apply_addition(
        &mut self,
        own_item: &Digest,
        ms: &SetCommitment,
        record: &AdditionRecord,
        slide: &Option<(Chunk, Digest, MmrMembershipProof)>,
    ) -> (r: Result<bool, SetCommitmentError>)
        requires
            old(self).target_chunks.wf(),
            ms.wf(),
            ms.num_leafs() < u64::MAX,
            is_slide_data(*slide, *ms),
        ensures
            final(self).target_chunks.wf(),
            match r {
                Ok(changed) => {
                    &&& old(self).addition_error(*own_item, *ms) is None
                    &&& old(self).follows_addition(
                        *own_item,
                        *ms,
                        record.canonical_commitment,
                        *final(self),
                    )
                    &&& changed == old(self).addition_changes(
                        *own_item,
                        *ms,
                        record.canonical_commitment,
                    )
                    &&& !changed ==> final(self).auth_path_aocl == old(self).auth_path_aocl
                        && final(self).target_chunks@ == old(self).target_chunks@
                },
                Err(e) => old(self).addition_error(*own_item, *ms) == Some(e) && *final(self)
                    == *old(self),
            },
    {
        let n = mmr_num_leafs(&ms.aocl);
        let idx = self.aocl_leaf_index;
        if idx >= n {
            return Err(SetCommitmentError::RequestedAoclAuthPathOutOfBounds(idx, n));
        }
        let leaf = hash_pair(*own_item, self.randomness);
        let peaks = mmr_peaks(&ms.aocl);
        if !verify_leaf(&self.auth_path_aocl, idx, leaf, &peaks, n) {
            return Err(SetCommitmentError::InvalidAoclPath);
        }
        let slides = SetCommitment::window_slides(n + 1);
        if slides {
            let valid = entry_validity(&self.target_chunks, &ms.swbf_inactive);
            let mut i: usize = 0;
            while i < valid.len()
                invariant
                    *self == *old(self),
                    old(self).target_chunks.wf(),
                    n == ms.num_leafs(),
                    slides_at(n + 1),
                    idx == old(self).aocl_leaf_index,
                    idx < n,
                    leaf_verifies(
                        old(self).auth_path_aocl,
                        idx,
                        hash_pair_of(*own_item, old(self).randomness),
                        mmr_peaks_of(ms.aocl),
                        n,
                    ),
                    i <= valid@.len(),
                    valid@.len() == self.target_chunks@.len(),
                    forall|j: int|
                        0 <= j < valid@.len() ==> valid@[j] == entry_valid(
                            self.target_chunks@[j],
                            ms.swbf_inactive,
                        ),
                    forall|j: int|
                        0 <= j < i ==> entry_valid(#[trigger] self.target_chunks@[j], ms.swbf_inactive),
                decreases valid@.len() - i,
            {
                if !valid[i] {
                    return Err(SetCommitmentError::InvalidTargetChunks);
                }
                i = i + 1;
            }
        }
        let ghost old_self = *self;
        let aocl_changed = mmr_update_from_append(
            &mut self.auth_path_aocl,
            idx,
            &ms.aocl,
            record.canonical_commitment,
        );
        if !slides {
            return Ok(aocl_changed);
        }
        let (chunk, digest, new_path) = match slide {
            Some(t) => (t.0.copy(), t.1, t.2.clone()),
            None => {
                return Ok(aocl_changed);
            },
        };
        let (mut ps, keys) = self.target_chunks.proofs_and_keys();
        proof {
            assert forall|j: int| 0 <= j < keys@.len() implies authenticates_some_leaf(
                #[trigger] ps@[j],
                keys@[j],
                mmr_peaks_of(ms.swbf_inactive),
                mmr_num_leafs_of(ms.swbf_inactive),
            ) by {
                let e = old_self.target_chunks@[j];
                assert(entry_valid(e, ms.swbf_inactive));
                assert(mmr_verify_of(
                    ps@[j],
                    keys@[j],
                    chunk_digest(e.2),
                    mmr_peaks_of(ms.swbf_inactive),
                    mmr_num_leafs_of(ms.swbf_inactive),
                ));
            }
        }
        let ghost ps_before = ps@;
        let modified = mmr_batch_update_from_append(&mut ps, &keys, &ms.swbf_inactive, digest);
        proof {
            let d = old_self.target_chunks@;
            assert forall|i: int, x: Digest|
                0 <= i < d.len() && #[trigger] mmr_verify_of(
                    d[i].1,
                    d[i].0,
                    x,
                    mmr_peaks_of(ms.swbf_inactive),
                    mmr_num_leafs_of(ms.swbf_inactive),
                ) implies mmr_verify_of(
                ps@[i],
                d[i].0,
                x,
                mmr_peaks_of(mmr_append_of(ms.swbf_inactive, digest).0),
                (mmr_num_leafs_of(ms.swbf_inactive) + 1) as u64,
            ) by {
                assert(ps_before[i] == d[i].1);
                assert(keys@[i] == d[i].0);
            }
        }
        let mut chunks = self.target_chunks.replace_proofs(&ps);
        let indices = match self.cached_indices {
            Some(a) => Some(a),
            None => get_swbf_indices(own_item, &self.randomness, idx),
        };
        let batch = n / BATCH_SIZE as u64;
        let inserted = match indices {
            Some(a) => touches_chunk(&a, batch),
            None => false,
        };
        if inserted {
            chunks.upsert(batch, new_path, chunk);
        }
        proof {
            if modified@.len() == 0 {
                assert(ps@ =~= ps_before);
                assert(with_proofs(old_self.target_chunks@, ps@) =~= old_self.target_chunks@);
            }
        }
        self.target_chunks = chunks;
        Ok(aocl_changed || modified.len() > 0 || inserted)
    }

    /// A copy of this proof.
    pub(crate) fn copy(&self) -> (r: MembershipProof)
        requires
            self.target_chunks.wf(),
        ensures
            r.randomness == self.randomness,
            r.auth_path_aocl == self.auth_path_aocl,
            r.aocl_leaf_index == self.aocl_leaf_index,
            r.cached_indices == self.cached_indices,
            r.target_chunks.wf(),
            r.target_chunks@ == self.target_chunks@,
    {
        MembershipProof {
            randomness: self.randomness,
            auth_path_aocl: self.auth_path_aocl.clone(),
            aocl_leaf_index: self.aocl_leaf_index,
            target_chunks: self.target_chunks.copy(),
            cached_indices: self.cached_indices,
        }
    }

    /// Brings many proofs up to date with the addition of `record` to `ms`,
    /// where `ms` is the set before the addition and `own_items[i]` is the
    /// item of `proofs[i]`. The entry for the chunk that a slide archives is
    /// made once and given to each proof that needs it. Where some proof
    /// cannot follow, none changes.
    pub fn batch_update_from_addition(
        proofs: &mut Vec<MembershipProof>,
        own_items: &Vec<Digest>,
        ms: &SetCommitment,
        record: &AdditionRecord,
    ) -> (r: Result<(), SetCommitmentError>)
        requires
            old(proofs)@.len() == own_items@.len(),
            forall|i: int| 0 <= i < old(proofs)@.len() ==> (#[trigger] old(proofs)@[i]).target_chunks.wf(),
            ms.wf(),
            ms.num_leafs() < u64::MAX,
        ensures
            final(proofs)@.len() == old(proofs)@.len(),
            forall|i: int| 0 <= i < final(proofs)@.len() ==> (#[trigger] final(proofs)@[i]).target_chunks.wf(),
            match r {
                Ok(()) => forall|i: int|
                    0 <= i < old(proofs)@.len() ==> (#[trigger] old(proofs)@[i]).addition_error(
                        own_items@[i],
                        *ms,
                    ) is None && old(proofs)@[i].follows_addition(
                        own_items@[i],
                        *ms,
                        record.canonical_commitment,
                        final(proofs)@[i],
                    ),
                Err(e) => final(proofs)@ == old(proofs)@ && exists|i: int|
                    0 <= i < old(proofs)@.len() && (#[trigger] old(proofs)@[i]).addition_error(
                        own_items@[i],
                        *ms,
                    ) == Some(e),
            },
    {
        let slide = slide_data(ms);
        let mut updated: Vec<MembershipProof> = Vec::new();
        let mut i: usize = 0;
        while i < proofs.len()
            invariant
                *proofs == *old(proofs),
                proofs@.len() == own_items@.len(),
                forall|j: int| 0 <= j < proofs@.len() ==> (#[trigger] proofs@[j]).target_chunks.wf(),
                ms.wf(),
                ms.num_leafs() < u64::MAX,
                is_slide_data(slide, *ms),
                i <= proofs@.len(),
                updated@.len() == i,
                forall|j: int| 0 <= j < i ==> (#[trigger] updated@[j]).target_chunks.wf(),
                forall|j: int|
                    0 <= j < i ==> (#[trigger] proofs@[j]).addition_error(own_items@[j], *ms) is None
                        && proofs@[j].follows_addition(
                        own_items@[j],
                        *ms,
                        record.canonical_commitment,
                        updated@[j],
                    ),
            decreases proofs@.len() - i,
        {
            let mut p = proofs[i].copy();
            let ghost before = p;
            match p.apply_addition(&own_items[i], ms, record, &slide) {
                Ok(_) => {
                    assert(before.addition_error(own_items@[i as int], *ms) == proofs@[i as int].addition_error(own_items@[i as int], *ms));
                    assert(before.follows_addition(own_items@[i as int], *ms, record.canonical_commitment, p) == proofs@[i as int].follows_addition(own_items@[i as int], *ms, record.canonical_commitment, p));
                    updated.push(p);
                },
                Err(e) => {
                    assert(before.addition_error(own_items@[i as int], *ms) == proofs@[i as int].addition_error(own_items@[i as int], *ms));
                    return Err(e);
                },
            }
            i = i + 1;
        }
        *proofs = updated;
        Ok(())
    }

    /// Brings many proofs up to date with the removal `rr` applied to `ms`,
    /// where `ms` is the set before the removal. Where some proof cannot
    /// follow, none changes.
    pub fn batch_update_from_remove(
        proofs: &mut Vec<MembershipProof>,
        own_items: &Vec<Digest>,
        ms: &SetCommitment,
        rr: &RemovalRecord,
    ) -> (r: Result<(), SetCommitmentError>)
        requires
            old(proofs)@.len() == own_items@.len(),
            forall|i: int| 0 <= i < old(proofs)@.len() ==> (#[trigger] old(proofs)@[i]).target_chunks.wf(),
            rr.target_chunks.wf(),
            ms.wf(),
        ensures
            final(proofs)@.len() == old(proofs)@.len(),
            forall|i: int| 0 <= i < final(proofs)@.len() ==> (#[trigger] final(proofs)@[i]).target_chunks.wf(),
            match r {
                Ok(()) => forall|i: int|
                    0 <= i < old(proofs)@.len() ==> (#[trigger] old(proofs)@[i]).removal_error(
                        own_items@[i],
                        *ms,
                        *rr,
                    ) is None && old(proofs)@[i].follows_removal(*ms, *rr, final(proofs)@[i]),
                Err(e) => final(proofs)@ == old(proofs)@ && exists|i: int|
                    0 <= i < old(proofs)@.len() && (#[trigger] old(proofs)@[i]).removal_error(
                        own_items@[i],
                        *ms,
                        *rr,
                    ) == Some(e),
            },
    {
        let mut updated: Vec<MembershipProof> = Vec::new();
        let mut i: usize = 0;
        while i < proofs.len()
            invariant
                *proofs == *old(proofs),
                proofs@.len() == own_items@.len(),
                forall|j: int| 0 <= j < proofs@.len() ==> (#[trigger] proofs@[j]).target_chunks.wf(),
                rr.target_chunks.wf(),
                ms.wf(),
                i <= proofs@.len(),
                updated@.len() == i,
                forall|j: int| 0 <= j < i ==> (#[trigger] updated@[j]).target_chunks.wf(),
                forall|j: int|
                    0 <= j < i ==> (#[trigger] proofs@[j]).removal_error(own_items@[j], *ms, *rr)
                        is None && proofs@[j].follows_removal(*ms, *rr, updated@[j]),
            decreases proofs@.len() - i,
        {
            let mut p = proofs[i].copy();
            match p.update_from_remove(&own_items[i], ms, rr) {
                Ok(()) => {
                    updated.push(p);
                },
                Err(e) => {
                    return Err(e);
                },
            }
            i = i + 1;
        }
        *proofs = updated;
        Ok(())
    }

    /// Why the proof cannot follow the removal `rr` applied to `ms`, if it
    /// cannot.
    pub open spec fn removal_error(&self, item: Digest, ms: SetCommitment, rr: RemovalRecord) -> Option<
        SetCommitmentError,
    > {
        removal_update_error(self.target_chunks@, ms, rr, proof_indices(item, *self))
    }

    /// `p` is this proof after the removal `rr` is applied to `ms`.
    pub open spec fn follows_removal(&self, ms: SetCommitment, rr: RemovalRecord, p: MembershipProof) -> bool {
        &&& p.randomness == self.randomness
        &&& p.auth_path_aocl == self.auth_path_aocl
        &&& p.aocl_leaf_index == self.aocl_leaf_index
        &&& p.cached_indices == self.cached_indices
        &&& p.target_chunks.wf()
        &&& p.target_chunks@ == chunks_after_removal(self.target_chunks@, ms, rr)
        &&& proofs_follow_removal(self.target_chunks@, ms, rr, proofs_of(p.target_chunks@))
    }

    /// Brings the proof up to date with the removal `rr` applied to `ms`,
    /// where `ms` is the set before the removal: its chunks gain the removed
    /// positions and their proofs follow the mutated leaves in one batch.
    /// Where it cannot follow, it stays as it is.
    pub fn update_from_remove(
        &mut self,
        own_item: &Digest,
        ms: &SetCommitment,
        rr: &RemovalRecord,
    ) -> (r: Result<(), SetCommitmentError>)
        requires
            old(self).target_chunks.wf(),
            rr.target_chunks.wf(),
            ms.wf(),
        ensures
            final(self).target_chunks.wf(),
            match r {
                Ok(()) => old(self).removal_error(*own_item, *ms, *rr) is None && old(
                    self,
                ).follows_removal(*ms, *rr, *final(self)),
                Err(e) => old(self).removal_error(*own_item, *ms, *rr) == Some(e) && *final(self)
                    == *old(self),
            },
    {
        let own = match self.cached_indices {
            Some(a) => Some(a),
            None => get_swbf_indices(own_item, &self.randomness, self.aocl_leaf_index),
        };
        match updated_chunks_for_removal(&self.target_chunks, ms, rr, &own) {
            Ok(chunks) => {
                self.target_chunks = chunks;
                Ok(())
            },
            Err(e) => Err(e),
        }
    }
}

/// The chunks `d` of a proof or removal record after the removal `rr` is
/// applied to `ms`.
pub(crate) fn updated_chunks_for_removal(
    d: &ChunkDictionary,
    ms: &SetCommitment,
    rr: &RemovalRecord,
    own: &Option<[u128; NUM_TRIALS]>,
) -> (r: Result<ChunkDictionary, SetCommitmentError>)
    requires
        d.wf(),
        rr.target_chunks.wf(),
        ms.wf(),
    ensures
        match r {
            Ok(c) => removal_update_error(d@, *ms, *rr, *own) is None && c.wf() && c@
                == chunks_after_removal(d@, *ms, *rr) && proofs_follow_removal(
                d@,
                *ms,
                *rr,
                proofs_of(c@),
            ),
            Err(e) => removal_update_error(d@, *ms, *rr, *own) == Some(e),
        },
{
    let rr_valid = entry_validity(&rr.target_chunks, &ms.swbf_inactive);
    let own_valid = entry_validity(d, &ms.swbf_inactive);
    let mut i: usize = 0;
    while i < rr_valid.len()
        invariant
            i <= rr_valid@.len(),
            rr_valid@.len() == rr.target_chunks@.len(),
            forall|j: int|
                0 <= j < rr_valid@.len() ==> rr_valid@[j] == entry_valid(
                    rr.target_chunks@[j],
                    ms.swbf_inactive,
                ),
            forall|j: int|
                0 <= j < i ==> entry_valid(#[trigger] rr.target_chunks@[j], ms.swbf_inactive),
        decreases rr_valid@.len() - i,
    {
        if !rr_valid[i] {
            return Err(SetCommitmentError::InvalidTargetChunks);
        }
        i = i + 1;
    }
    i = 0;
    while i < own_valid.len()
        invariant
            entries_valid(rr.target_chunks@, ms.swbf_inactive),
            i <= own_valid@.len(),
            own_valid@.len() == d@.len(),
            forall|j: int| 0 <= j < own_valid@.len() ==> own_valid@[j] == entry_valid(d@[j], ms.swbf_inactive),
            forall|j: int| 0 <= j < i ==> entry_valid(#[trigger] d@[j], ms.swbf_inactive),
        decreases own_valid@.len() - i,
    {
        if !own_valid[i] {
            return Err(SetCommitmentError::InvalidTargetChunks);
        }
        i = i + 1;
    }
    let indices = rr.bit_indices.0;
    i = 0;
    while i < d.dictionary.len()
        invariant
            entries_valid(rr.target_chunks@, ms.swbf_inactive),
            entries_valid(d@, ms.swbf_inactive),
            indices@ == rr.bit_indices.0@,
            i <= d@.len(),
            forall|j: int|
                0 <= j < i && touches(rr.bit_indices.0@, #[trigger] d@[j].0) ==> has_key(
                    rr.target_chunks@,
                    d@[j].0,
                ),
        decreases d@.len() - i,
    {
        let key = d.dictionary[i].0;
        if touches_chunk(&indices, key) && rr.target_chunks.find(key).is_none() {
            assert(touches(rr.bit_indices.0@, d@[i as int].0) && !has_key(
                rr.target_chunks@,
                d@[i as int].0,
            ));
            return Err(SetCommitmentError::RemovalLacksChunk);
        }
        i = i + 1;
    }
    if let Some(a) = own {
        let n = mmr_num_leafs(&ms.aocl);
        let start: u128 = (n / BATCH_SIZE as u64) as u128 * CHUNK_SIZE as u128;
        let mut k: usize = 0;
        while k < NUM_TRIALS
            invariant
                entries_valid(rr.target_chunks@, ms.swbf_inactive),
                entries_valid(d@, ms.swbf_inactive),
                forall|j: int|
                    0 <= j < d@.len() && touches(rr.bit_indices.0@, #[trigger] d@[j].0) ==> has_key(
                        rr.target_chunks@,
                        d@[j].0,
                    ),
                *own == Some(*a),
                indices@ == rr.bit_indices.0@,
                start == ms.window_start(),
                k <= NUM_TRIALS,
                forall|j: int|
                    0 <= j < k ==> !(#[trigger] indices@[j] < start && touches(a@, chunk_of(indices@[j]))
                        && !has_key(d@, chunk_of(indices@[j]))),
            decreases NUM_TRIALS - k,
        {
            let b = indices[k];
            if b < start {
                let key = (b / CHUNK_SIZE as u128) as u64;
                if d.find(key).is_none() && touches_chunk(a, key) {
                    assert(indices@[k as int] < start && touches(a@, chunk_of(indices@[k as int])) && !has_key(
                        d@,
                        chunk_of(indices@[k as int]),
                    ));
                    return Err(SetCommitmentError::MissingChunkOnUpdate);
                }
            }
            k = k + 1;
        }
    }
    let mutations = removal_mutations(&rr.target_chunks, &indices);
    let with_new_bits = d.with_bits_set(&indices);
    let (mut ps, keys) = d.proofs_and_keys();
    let mut swbf = ms.swbf_inactive.clone();
    proof {
        assert forall|j: int| 0 <= j < keys@.len() implies authenticates_some_leaf(
            #[trigger] ps@[j],
            keys@[j],
            mmr_peaks_of(swbf),
            mmr_num_leafs_of(swbf),
        ) by {
            assert(entry_valid(d@[j], ms.swbf_inactive));
            assert(mmr_verify_of(
                ps@[j],
                keys@[j],
                chunk_digest(d@[j].2),
                mmr_peaks_of(swbf),
                mmr_num_leafs_of(swbf),
            ));
        }
        let rd = rr.target_chunks@;
        assert forall|j: int| 0 <= j < mutations@.len() implies authenticates_some_leaf(
            (#[trigger] mutations@[j]).2,
            mutations@[j].0,
            mmr_peaks_of(swbf),
            mmr_num_leafs_of(swbf),
        ) by {
            assert(entry_valid(rd[j], ms.swbf_inactive));
            assert(mmr_verify_of(
                mutations@[j].2,
                mutations@[j].0,
                chunk_digest(rd[j].2),
                mmr_peaks_of(swbf),
                mmr_num_leafs_of(swbf),
            ));
        }
    }
    let ghost ps_before = ps@;
    mmr_batch_mutate(&mut swbf, &mut ps, &keys, &mutations);
    let r = with_new_bits.replace_proofs(&ps);
    assert(r@ =~= chunks_after_removal(d@, *ms, *rr));
    proof {
        assert(proofs_of(r@) =~= ps@);
        let dd = d@;
        let m = mutations@;
        assert forall|i: int, x: Digest|
            0 <= i < dd.len() && #[trigger] mmr_verify_of(
                dd[i].1,
                dd[i].0,
                x,
                mmr_peaks_of(ms.swbf_inactive),
                mmr_num_leafs_of(ms.swbf_inactive),
            ) && (forall|j: int| 0 <= j < m.len() ==> m[j].0 != dd[i].0) implies mmr_verify_of(
            ps@[i],
            dd[i].0,
            x,
            mmr_peaks_of(swbf),
            mmr_num_leafs_of(swbf),
        ) by {
            assert(ps_before[i] == dd[i].1);
            assert(keys@[i] == dd[i].0);
        }
        assert forall|i: int, j: int|
            0 <= i < dd.len() && 0 <= j < m.len() && #[trigger] m[j].0 == #[trigger] dd[i].0
                implies mmr_verify_of(ps@[i], dd[i].0, m[j].1, mmr_peaks_of(swbf), mmr_num_leafs_of(swbf)) by {
            assert(keys@[i] == dd[i].0);
        }
    }
    Ok(r)
}

/// Once an item's removal record, as `drop` makes it from the item's proof,
/// is applied to the set and the proof follows that removal, the proof no
/// longer verifies: each of the item's indices is set.
pub proof fn lemma_removal_invalidates(
    s: SetCommitment,
    item: Digest,
    p: MembershipProof,
    rr: RemovalRecord,
    s2: SetCommitment,
    q: MembershipProof,
)
    requires
        s.wf(),
        p.target_chunks.wf(),
        proof_indices(item, p) == Some(rr.bit_indices.0),
        rr.target_chunks@ == p.target_chunks@,
        s.removal_error(rr) is None,
        s.removes(rr, s2),
        p.removal_error(item, s, rr) is None,
        p.follows_removal(s, rr, q),
    ensures
        !s2.spec_verify(item, q),
{
    let a = rr.bit_indices.0;
    let d2 = q.target_chunks@;
    let start = s.window_start();
    assert(s2.window_start() == start);
    assert(proof_indices(item, q) == Some(a));
    assert forall|k: int| 0 <= k < NUM_TRIALS implies !s2.index_unset(d2, #[trigger] a@[k]) by {
        let b = a@[k];
        if b < start {
            let key = chunk_of(b);
            if has_key(d2, key) {
                let pos = key_position(d2, key);
                assert(d2[pos].2 == p.target_chunks@[pos].2.union(
                    bits_in_chunk(a@, p.target_chunks@[pos].0),
                ));
                assert(b / CHUNK_SIZE as u128 <= u64::MAX);
                assert(bits_in_chunk(a@, key).contains((b % CHUNK_SIZE as u128) as u32)) by {
                    assert((a@[k] / CHUNK_SIZE as u128) == key);
                }
            }
        } else if b < start + WINDOW_SIZE {
            assert(s2.swbf_active@[b - start]);
        }
    }
}

/// Updating proofs in a batch gives each proof exactly what updating it
/// alone gives: the result of following an addition is determined.
pub proof fn lemma_addition_update_determined(
    p: MembershipProof,
    item: Digest,
    ms: SetCommitment,
    c: Digest,
    a: MembershipProof,
    b: MembershipProof,
)
    requires
        p.follows_addition(item, ms, c, a),
        p.follows_addition(item, ms, c, b),
    ensures
        a.randomness == b.randomness,
        a.auth_path_aocl == b.auth_path_aocl,
        a.aocl_leaf_index == b.aocl_leaf_index,
        a.cached_indices == b.cached_indices,
        a.target_chunks@ == b.target_chunks@,
{
}

/// Updating proofs in a batch gives each proof exactly what updating it
/// alone gives: the result of following a removal is determined.
pub proof fn lemma_removal_update_determined(
    p: MembershipProof,
    ms: SetCommitment,
    rr: RemovalRecord,
    a: MembershipProof,
    b: MembershipProof,
)
    requires
        p.follows_removal(ms, rr, a),
        p.follows_removal(ms, rr, b),
    ensures
        a.randomness == b.randomness,
        a.auth_path_aocl == b.auth_path_aocl,
        a.aocl_leaf_index == b.aocl_leaf_index,
        a.cached_indices == b.cached_indices,
        a.target_chunks@ == b.target_chunks@,
{
}

proof fn lemma_upsert_keeps(d: Seq<EntryView>, e: EntryView, key: u64)
    requires
        distinct_keys(d),
        distinct_keys(upsert(d, e)),
        has_key(d, key),
        key != e.0,
    ensures
        has_key(upsert(d, e), key),
        key_position(upsert(d, e), key) == key_position(d, key),
        upsert(d, e)[key_position(d, key)] == d[key_position(d, key)],
{
    lemma_key_position(d, key);
    let pos = key_position(d, key);
    let u = upsert(d, e);
    assert(u[pos] == d[pos]);
    assert(has_key(u, key));
    lemma_key_position(u, key);
}

proof fn lemma_upsert_finds(d: Seq<EntryView>, e: EntryView)
    requires
        distinct_keys(d),
        distinct_keys(upsert(d, e)),
    ensures
        has_key(upsert(d, e), e.0),
        upsert(d, e)[key_position(upsert(d, e), e.0)] == e,
{
    let u = upsert(d, e);
    if has_key(d, e.0) {
        lemma_key_position(d, e.0);
        assert(u[key_position(d, e.0)] == e);
    } else {
        assert(u[d.len() as int] == e);
    }
    assert(has_key(u, e.0));
    lemma_key_position(u, e.0);
}

/// A proof that verifies, brought up to date with an addition, verifies
/// against the set after that addition, whether or not the window slid.
pub proof fn lemma_addition_keeps_proof_valid(
    s: SetCommitment,
    item: Digest,
    p: MembershipProof,
    c: Digest,
    s2: SetCommitment,
    q: MembershipProof,
)
    requires
        s.wf(),
        s2.wf(),
        p.target_chunks.wf(),
        s.spec_verify(item, p),
        s.adds(c, s2),
        p.follows_addition(item, s, c, q),
    ensures
        s2.spec_verify(item, q),
{
    let n = s.num_leafs();
    let a = proof_indices(item, p)->Some_0;
    assert(proof_indices(item, q) == Some(a));
    let d = p.target_chunks@;
    let d2 = q.target_chunks@;
    let start = s.window_start();
    let start2 = s2.window_start();
    let batch = s.batch_index();
    lemma_batch_step(n);
    assert(mmr_verify_of(
        p.auth_path_aocl,
        p.aocl_leaf_index,
        hash_pair_of(item, p.randomness),
        mmr_peaks_of(s.aocl),
        n,
    ));
    if !slides_at(n + 1) {
        assert(start2 == start);
        assert forall|k: int| 0 <= k < NUM_TRIALS implies s2.index_ok(d2, #[trigger] a@[k]) by {
            assert(s.index_ok(d, a@[k]));
        }
        let k0 = choose|k: int| 0 <= k < NUM_TRIALS && s.index_unset(d, #[trigger] a@[k]);
        assert(s2.index_unset(d2, a@[k0]));
    } else {
        assert(start2 == start + CHUNK_SIZE);
        let e = slide_entry(s);
        let ps = slide_proof_update(d, s).0;
        let d1 = with_proofs(d, ps);
        assert(distinct_keys(d1)) by {
            assert forall|i: int, j: int| 0 <= i < j < d1.len() implies d1[i].0 != d1[j].0 by {
                assert(d[i].0 != d[j].0);
            }
        }
        assert forall|k: int| 0 <= k < NUM_TRIALS implies s2.index_ok(d2, #[trigger] a@[k])
            && (s.index_unset(d, a@[k]) ==> s2.index_unset(d2, a@[k])) by {
            let b = a@[k];
            assert(s.index_ok(d, b));
            if b < start {
                let key = chunk_of(b);
                lemma_key_position(d, key);
                let pos = key_position(d, key);
                assert(key < batch) by {
                    assert(b / (CHUNK_SIZE as u128) < batch) by (nonlinear_arith)
                        requires
                            b < batch as int * CHUNK_SIZE,
                    ;
                }
                assert(d1[pos] == (d[pos].0, ps[pos], d[pos].2));
                assert(has_key(d1, key));
                lemma_key_position(d1, key);
                if touches(a@, batch) {
                    lemma_upsert_keeps(d1, e, key);
                }
                assert(has_key(d2, key));
                assert(key_position(d2, key) == pos);
                assert(d2[pos] == d1[pos]);
                assert(mmr_verify_of(
                    d[pos].1,
                    d[pos].0,
                    chunk_digest(d[pos].2),
                    mmr_peaks_of(s.swbf_inactive),
                    mmr_num_leafs_of(s.swbf_inactive),
                ));
                assert(entry_valid(d2[pos], s2.swbf_inactive));
                assert(s2.index_ok(d2, b));
                assert(s.index_unset(d, b) ==> s2.index_unset(d2, b));
            } else if b < start2 {
                lemma_chunk_arith(b, batch);
                assert(touches(a@, batch));
                lemma_upsert_finds(d1, e);
                assert(d2 == upsert(d1, e));
                assert(d2[key_position(d2, batch)] == e);
                assert(entry_valid(e, s2.swbf_inactive));
                assert(s2.index_ok(d2, b));
                assert(s.index_unset(d, b) ==> s2.index_unset(d2, b));
            } else {
                assert(b < start + WINDOW_SIZE);
                assert(s2.swbf_active@[b - start2] == s.swbf_active@[b - start]);
                assert(s2.index_ok(d2, b));
                assert(s.index_unset(d, b) ==> s2.index_unset(d2, b));
            }
        }
        let k0 = choose|k: int| 0 <= k < NUM_TRIALS && s.index_unset(d, #[trigger] a@[k]);
        assert(s2.index_unset(d2, a@[k0]));
    }
}

pub(crate) proof fn lemma_same_chunk_and_offset(a: u128, b: u128)
    requires
        a / (CHUNK_SIZE as u128) == b / (CHUNK_SIZE as u128),
        a % (CHUNK_SIZE as u128) == b % (CHUNK_SIZE as u128),
    ensures
        a == b,
{
    assert(a == (a / (CHUNK_SIZE as u128)) * (CHUNK_SIZE as u128) + a % (CHUNK_SIZE as u128)) by (nonlinear_arith);
    assert(b == (b / (CHUNK_SIZE as u128)) * (CHUNK_SIZE as u128) + b % (CHUNK_SIZE as u128)) by (nonlinear_arith);
}

/// A proof that verifies, brought up to date with the removal of another
/// item, verifies after that removal, provided that one of the item's
/// unset indices is not among the removed item's indices, and that where
/// the proof and the removal record carry the same chunk they agree on it.
pub proof fn lemma_removal_keeps_proof_valid(
    s: SetCommitment,
    item: Digest,
    p: MembershipProof,
    rr: RemovalRecord,
    s2: SetCommitment,
    q: MembershipProof,
)
    requires
        s.wf(),
        s2.wf(),
        p.target_chunks.wf(),
        rr.target_chunks.wf(),
        s.spec_verify(item, p),
        s.removal_error(rr) is None,
        s.removes(rr, s2),
        p.removal_error(item, s, rr) is None,
        p.follows_removal(s, rr, q),
        forall|i: int, j: int|
            0 <= i < p.target_chunks@.len() && 0 <= j < rr.target_chunks@.len()
                && #[trigger] p.target_chunks@[i].0 == #[trigger] rr.target_chunks@[j].0
                ==> p.target_chunks@[i].2 == rr.target_chunks@[j].2,
        proof_indices(item, p) matches Some(a) && exists|k: int|
            0 <= k < NUM_TRIALS && s.index_unset(p.target_chunks@, #[trigger] a@[k])
                && !rr.bit_indices.0@.contains(a@[k]),
    ensures
        s2.spec_verify(item, q),
{
    let a = proof_indices(item, p)->Some_0;
    let ind = rr.bit_indices.0@;
    let d = p.target_chunks@;
    let dq = q.target_chunks@;
    let rd = rr.target_chunks@;
    let m = mutations_of(rd, ind);
    let start = s.window_start();
    assert(s2.window_start() == start);
    assert(proof_indices(item, q) == Some(a));
    assert(s2.swbf_inactive == swbf_after_removal(s, rr));
    lemma_peaks_bound(s2.swbf_inactive);
    assert forall|k: int| 0 <= k < NUM_TRIALS implies s2.index_ok(dq, #[trigger] a@[k]) by {
        let b = a@[k];
        assert(s.index_ok(d, b));
        if b < start {
            let key = chunk_of(b);
            lemma_key_position(d, key);
            let pos = key_position(d, key);
            assert(dq[pos].0 == key);
            assert(has_key(dq, key));
            lemma_key_position(dq, key);
            assert(proofs_of(dq)[pos] == dq[pos].1);
            assert(mmr_verify_of(
                d[pos].1,
                d[pos].0,
                chunk_digest(d[pos].2),
                mmr_peaks_of(s.swbf_inactive),
                mmr_num_leafs_of(s.swbf_inactive),
            ));
            if has_key(rd, key) {
                lemma_key_position(rd, key);
                let j = key_position(rd, key);
                assert(m[j].0 == d[pos].0);
                assert(rd[j].2 == d[pos].2);
                assert(dq[pos].2 == d[pos].2.union(bits_in_chunk(ind, key)));
                assert(m[j].1 == chunk_digest(dq[pos].2));
            } else {
                assert(!touches(ind, key));
                assert(bits_in_chunk(ind, key) =~= Set::<u32>::empty()) by {
                    assert forall|x: u32| !bits_in_chunk(ind, key).contains(x) by {
                        if bits_in_chunk(ind, key).contains(x) {
                            let kk = choose|kk: int|
                                0 <= kk < ind.len() && #[trigger] (ind[kk] / CHUNK_SIZE as u128)
                                    == key && ind[kk] % CHUNK_SIZE as u128 == x;
                            assert(touches(ind, key));
                        }
                    }
                }
                assert(dq[pos].2 =~= d[pos].2);
                assert forall|j: int| 0 <= j < m.len() implies m[j].0 != d[pos].0 by {
                    if m[j].0 == d[pos].0 {
                        assert(rd[j].0 == key);
                    }
                }
            }
            assert(entry_valid(dq[pos], s2.swbf_inactive));
        }
    }
    let k0 = choose|k: int|
        0 <= k < NUM_TRIALS && s.index_unset(d, #[trigger] a@[k]) && !ind.contains(a@[k]);
    let b0 = a@[k0];
    if b0 < start {
        let key = chunk_of(b0);
        lemma_key_position(d, key);
        let pos = key_position(d, key);
        assert(dq[pos].0 == key);
        lemma_key_position(dq, key);
        let off = (b0 % CHUNK_SIZE as u128) as u32;
        assert(!bits_in_chunk(ind, key).contains(off)) by {
            if bits_in_chunk(ind, key).contains(off) {
                let kk = choose|kk: int|
                    0 <= kk < ind.len() && #[trigger] (ind[kk] / CHUNK_SIZE as u128) == key
                        && ind[kk] % CHUNK_SIZE as u128 == off;
                assert(b0 / (CHUNK_SIZE as u128) <= u64::MAX);
                lemma_same_chunk_and_offset(ind[kk], b0);
                assert(ind.contains(b0));
            }
        }
        assert(s2.index_unset(dq, b0));
    } else {
        assert(b0 < start + WINDOW_SIZE);
        if s2.swbf_active@[b0 - start] {
            let kk = choose|kk: int| 0 <= kk < NUM_TRIALS && ind[kk] >= start && ind[kk] - start == b0 - start;
            assert(ind.contains(b0));
        }
        assert(s2.index_unset(dq, b0));
    }
}

} // verus!
