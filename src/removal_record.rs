//! The public input of a removal: the removed item's Bloom filter indices,
//! and the archived chunks that hold some of them.
use crate::chunk::chunk_digest;
use crate::chunk_dictionary::ChunkDictionary;
use crate::membership_proof::{
    chunks_after_removal, chunks_after_slide, removal_update_error, updated_chunks_for_removal,
};
use crate::trusted::{
    authenticates_some_leaf, mmr_append, mmr_batch_update_from_append,
    mmr_num_leafs, mmr_num_leafs_of, mmr_peaks_of, mmr_verify_of, sort_indices,
};
use crate::set_commitment::{
    entries_valid, entry_valid, entry_validity, slides_at, touches_chunk, SetCommitment,
    SetCommitmentError,
};
use crate::shared::{BATCH_SIZE, CHUNK_SIZE, NUM_TRIALS};
use vstd::prelude::*;

verus! {

/// The `NUM_TRIALS` Bloom filter indices of an item.
#[derive(Debug, Clone, Copy)]
pub struct BitSet(pub [u128; NUM_TRIALS]);

impl BitSet {
    /// The indices as given.
    pub fn new(bits: &[u128; NUM_TRIALS]) -> (r: Self)
        ensures
            r.0 == *bits,
    {
        BitSet(*bits)
    }

    /// Puts the indices in ascending order.
    pub fn sort_unstable(&mut self)
        ensures
            forall|i: int, j: int|
                0 <= i <= j < NUM_TRIALS ==> final(self).0@[i] <= final(self).0@[j],
            final(self).0@.to_multiset() == old(self).0@.to_multiset(),
    {
        sort_indices(&mut self.0);
    }

    /// The indices, in their order.
    pub fn to_vec(&self) -> (r: Vec<u128>)
        ensures
            r@ == self.0@,
    {
        let mut r: Vec<u128> = Vec::new();
        let mut i: usize = 0;
        while i < NUM_TRIALS
            invariant
                i <= NUM_TRIALS,
                r@ == self.0@.subrange(0, i as int),
            decreases NUM_TRIALS - i,
        {
            r.push(self.0[i]);
            i = i + 1;
            assert(r@ =~= self.0@.subrange(0, i as int));
        }
        assert(self.0@.subrange(0, NUM_TRIALS as int) =~= self.0@);
        r
    }

    /// The indices, in their order.
    pub fn to_array(&self) -> (r: [u128; NUM_TRIALS])
        ensures
            r == self.0,
    {
        self.0
    }
}

/// Why removal records cannot follow a removal.
#[derive(Debug, PartialEq, Eq, Structural)]
pub enum RemovalRecordError {
    /// Some archived chunk does not authenticate against the inactive filter.
    InvalidTargetChunks,
    /// A removal touches an archived chunk that holds one of a record's
    /// indices, but the record lacks that chunk: the record is stale.
    MissingChunkOnUpdateFromRemove,
    /// A removal touches a chunk that a record holds, but does not carry it.
    RemovalLacksChunk,
}

/// What removes an item: its indices, and the archived chunks that hold
/// some of them with their MMR proofs.
#[derive(Clone, Debug)]
pub struct RemovalRecord {
    pub bit_indices: BitSet,
    pub target_chunks: ChunkDictionary,
}

/// Whether an index lies in chunk `c`.
pub open spec fn in_chunk(c: u128) -> spec_fn(u128) -> bool {
    |b: u128| b / (CHUNK_SIZE as u128) == c
}

/// The indices of `ind` that lie in chunk `c`, in their order.
pub open spec fn indices_in_chunk(ind: Seq<u128>, c: u128) -> Seq<u128> {
    ind.filter(in_chunk(c))
}

/// The chunk index of a bit index.
pub open spec fn chunk_index_of(b: u128) -> u128 {
    b / (CHUNK_SIZE as u128)
}

/// Some group of `r` is for chunk `c`.
pub open spec fn has_group(r: Seq<(u128, Vec<u128>)>, c: u128) -> bool {
    exists|g: int| 0 <= g < r.len() && r[g].0 == c
}

/// Some index of `ind` lies in chunk `c`.
pub open spec fn holds_chunk(ind: Seq<u128>, c: u128) -> bool {
    exists|k: int| 0 <= k < ind.len() && chunk_index_of(ind[k]) == c
}

/// `r` groups the indices `ind` by chunk: one group for each chunk that
/// holds some of them, with those indices in their order.
pub open spec fn groups_by_chunk(r: Seq<(u128, Vec<u128>)>, ind: Seq<u128>) -> bool {
    &&& forall|g: int, h: int| 0 <= g < h < r.len() ==> r[g].0 != r[h].0
    &&& forall|g: int| 0 <= g < r.len() ==> (#[trigger] r[g]).1@ == indices_in_chunk(ind, r[g].0)
    &&& forall|k: int| 0 <= k < ind.len() ==> has_group(r, chunk_index_of(#[trigger] ind[k]))
    &&& forall|g: int| 0 <= g < r.len() ==> holds_chunk(ind, (#[trigger] r[g]).0)
}

impl RemovalRecord {
    /// The record's indices grouped by the chunk that holds them.
    pub fn get_chunk_index_to_bit_indices(&self) -> (r: Vec<(u128, Vec<u128>)>)
        ensures
            groups_by_chunk(r@, self.bit_indices.0@),
    {
        broadcast use vstd::seq::Seq::lemma_filter_push;
        let ind = self.bit_indices.0;
        let mut r: Vec<(u128, Vec<u128>)> = Vec::new();
        let mut k: usize = 0;
        while k < NUM_TRIALS
            invariant
                ind@ == self.bit_indices.0@,
                k <= NUM_TRIALS,
                groups_by_chunk(r@, ind@.subrange(0, k as int)),
            decreases NUM_TRIALS - k,
        {
            let b = ind[k];
            let c = b / CHUNK_SIZE as u128;
            let ghost pre = ind@.subrange(0, k as int);
            let ghost cur = ind@.subrange(0, k + 1);
            assert(cur == pre.push(b));
            let mut g: usize = 0;
            while g < r.len() && r[g].0 != c
                invariant
                    g <= r@.len(),
                    forall|h: int| 0 <= h < g ==> r@[h].0 != c,
                decreases r@.len() - g,
            {
                g = g + 1;
            }
            let ghost old_r = r@;
            if g < r.len() {
                let mut group = r[g].1.clone();
                assert(group@ =~= old_r[g as int].1@);
                group.push(b);
                r.set(g, (c, group));
            } else {
                let mut group: Vec<u128> = Vec::new();
                group.push(b);
                r.push((c, group));
                proof {
                    let f = indices_in_chunk(pre, c);
                    if f.len() > 0 {
                        broadcast use vstd::seq_lib::group_filter_ensures;

                        assert(f.contains(f[0]));
                        pre.lemma_filter_contains_rev(in_chunk(c), f[0]);
                        assert(in_chunk(c)(f[0]));
                        let kk = choose|kk: int| 0 <= kk < pre.len() && pre[kk] == f[0];
                        assert(has_group(old_r, chunk_index_of(pre[kk])));
                    }
                    assert(f =~= Seq::<u128>::empty());
                }
            }
            proof {
                assert forall|h: int| 0 <= h < r@.len() implies (#[trigger] r@[h]).1@ == indices_in_chunk(cur, r@[h].0) by {
                    pre.lemma_filter_push(b, in_chunk(r@[h].0));
                    assert(cur.filter(in_chunk(r@[h].0)) == if in_chunk(r@[h].0)(b) {
                        pre.filter(in_chunk(r@[h].0)).push(b)
                    } else {
                        pre.filter(in_chunk(r@[h].0))
                    });
                    if h != g {
                        assert(r@[h] == old_r[h]);
                        assert(r@[h].0 != c);
                    } else {
                        assert(r@[h].0 == c);
                    }
                }
                assert forall|kk: int| 0 <= kk < cur.len() implies has_group(
                    r@,
                    chunk_index_of(#[trigger] cur[kk]),
                ) by {
                    if kk < pre.len() {
                        assert(cur[kk] == pre[kk]);
                        assert(has_group(old_r, chunk_index_of(pre[kk])));
                        let h = choose|h: int| 0 <= h < old_r.len() && old_r[h].0 == chunk_index_of(pre[kk]);
                        assert(r@[h].0 == old_r[h].0);
                    } else {
                        assert(r@[g as int].0 == c);
                    }
                }
                assert forall|h: int| 0 <= h < r@.len() implies holds_chunk(cur, (#[trigger] r@[h]).0) by {
                    if h == g {
                        assert(cur[k as int] == b);
                    } else {
                        assert(r@[h] == old_r[h]);
                        assert(holds_chunk(pre, old_r[h].0));
                        let kk = choose|kk: int| 0 <= kk < pre.len() && chunk_index_of(pre[kk]) == old_r[h].0;
                        assert(cur[kk] == pre[kk]);
                    }
                }
            }
            k = k + 1;
        }
        assert(ind@.subrange(0, NUM_TRIALS as int) =~= ind@);
        r
    }

    /// Whether every carried chunk authenticates against the inactive filter.
    pub fn validate(&self, ms: &SetCommitment) -> (r: bool)
        requires
            self.target_chunks.wf(),
        ensures
            r == entries_valid(self.target_chunks@, ms.swbf_inactive),
    {
        let valid = entry_validity(&self.target_chunks, &ms.swbf_inactive);
        let mut i: usize = 0;
        while i < valid.len()
            invariant
                i <= valid@.len(),
                valid@.len() == self.target_chunks@.len(),
                forall|j: int|
                    0 <= j < valid@.len() ==> valid@[j] == entry_valid(
                        self.target_chunks@[j],
                        ms.swbf_inactive,
                    ),
                forall|j: int|
                    0 <= j < i ==> entry_valid(#[trigger] self.target_chunks@[j], ms.swbf_inactive),
            decreases valid@.len() - i,
        {
            if !valid[i] {
                return false;
            }
            i = i + 1;
        }
        true
    }

    /// Brings removal records up to date with the addition to `ms` of the
    /// next item, where `ms` is the set before the addition. Where the window
    /// slides, the entry for the leaving chunk is made once and given to
    /// each record that has an index in it. Where some record cannot
    /// follow, none changes.
    pub fn batch_update_from_addition(
        removal_records: &mut Vec<RemovalRecord>,
        ms: &SetCommitment,
    ) -> (r: Result<(), RemovalRecordError>)
        requires
            forall|i: int| 0 <= i < old(removal_records)@.len() ==> (#[trigger] old(removal_records)@[i]).target_chunks.wf(),
            ms.wf(),
            ms.num_leafs() < u64::MAX,
        ensures
            final(removal_records)@.len() == old(removal_records)@.len(),
            forall|i: int| 0 <= i < final(removal_records)@.len() ==> (#[trigger] final(removal_records)@[i]).target_chunks.wf(),
            match r {
                Ok(()) => forall|i: int|
                    0 <= i < old(removal_records)@.len() ==> {
                        let o = #[trigger] old(removal_records)@[i];
                        let f = final(removal_records)@[i];
                        &&& f.bit_indices == o.bit_indices
                        &&& f.target_chunks@ == if slides_at(ms.num_leafs() + 1) {
                            chunks_after_slide(o.target_chunks@, *ms, Some(o.bit_indices.0))
                        } else {
                            o.target_chunks@
                        }
                    },
                Err(e) => e == RemovalRecordError::InvalidTargetChunks && slides_at(ms.num_leafs() + 1) && exists|i: int|
                    0 <= i < old(removal_records)@.len() && !entries_valid(
                        (#[trigger] old(removal_records)@[i]).target_chunks@,
                        ms.swbf_inactive,
                    ) && final(removal_records)@ == old(removal_records)@,
            },
    {
        let n = mmr_num_leafs(&ms.aocl);
        if !SetCommitment::window_slides(n + 1) {
            return Ok(());
        }
        let mut i: usize = 0;
        while i < removal_records.len()
            invariant
                *removal_records == *old(removal_records),
                forall|j: int| 0 <= j < removal_records@.len() ==> (#[trigger] removal_records@[j]).target_chunks.wf(),
                slides_at(ms.num_leafs() + 1),
                i <= removal_records@.len(),
                forall|j: int|
                    0 <= j < i ==> entries_valid(
                        (#[trigger] removal_records@[j]).target_chunks@,
                        ms.swbf_inactive,
                    ),
            decreases removal_records@.len() - i,
        {
            if !removal_records[i].validate(ms) {
                return Err(RemovalRecordError::InvalidTargetChunks);
            }
            i = i + 1;
        }
        let chunk = ms.slide_chunk();
        let digest = chunk.hash();
        let mut swbf = ms.swbf_inactive.clone();
        let new_path = mmr_append(&mut swbf, digest);
        let batch = n / BATCH_SIZE as u64;
        let mut updated: Vec<RemovalRecord> = Vec::new();
        i = 0;
        while i < removal_records.len()
            invariant
                forall|j: int| 0 <= j < removal_records@.len() ==> (#[trigger] removal_records@[j]).target_chunks.wf(),
                forall|j: int|
                    0 <= j < removal_records@.len() ==> entries_valid(
                        (#[trigger] removal_records@[j]).target_chunks@,
                        ms.swbf_inactive,
                    ),
                ms.wf(),
                ms.num_leafs() < u64::MAX,
                n == ms.num_leafs(),
                batch == ms.batch_index(),
                chunk.wf(),
                chunk@ == crate::set_commitment::prefix_set(ms.swbf_active@),
                digest == chunk_digest(chunk@),
                new_path == crate::membership_proof::slide_entry(*ms).1,
                i <= removal_records@.len(),
                updated@.len() == i,
                forall|j: int| 0 <= j < i ==> (#[trigger] updated@[j]).target_chunks.wf(),
                forall|j: int|
                    0 <= j < i ==> {
                        let o = #[trigger] removal_records@[j];
                        let f = updated@[j];
                        &&& f.bit_indices == o.bit_indices
                        &&& f.target_chunks.wf()
                        &&& f.target_chunks@ == chunks_after_slide(
                            o.target_chunks@,
                            *ms,
                            Some(o.bit_indices.0),
                        )
                    },
            decreases removal_records@.len() - i,
        {
            let rec = &removal_records[i];
            let (mut ps, keys) = rec.target_chunks.proofs_and_keys();
            proof {
                assert forall|j: int| 0 <= j < keys@.len() implies authenticates_some_leaf(
                    #[trigger] ps@[j],
                    keys@[j],
                    mmr_peaks_of(ms.swbf_inactive),
                    mmr_num_leafs_of(ms.swbf_inactive),
                ) by {
                    let e = rec.target_chunks@[j];
                    assert(entry_valid(e, ms.swbf_inactive));
                    assert(mmr_verify_of(
                        ps@[j],
                        keys@[j],
                        chunk_digest(e.2),
                        mmr_peaks_of(ms.swbf_inactive),
                        mmr_num_leafs_of(ms.swbf_inactive),
                    ));
                }
            }
            mmr_batch_update_from_append(&mut ps, &keys, &ms.swbf_inactive, digest);
            let mut chunks = rec.target_chunks.replace_proofs(&ps);
            if touches_chunk(&rec.bit_indices.0, batch) {
                chunks.upsert(batch, new_path.clone(), chunk.copy());
            }
            updated.push(RemovalRecord { bit_indices: rec.bit_indices, target_chunks: chunks });
            i = i + 1;
        }
        *removal_records = updated;
        Ok(())
    }

    /// Brings removal records up to date with the removal `applied` to
    /// `ms`, where `ms` is the set before the removal. Where some record
    /// cannot follow, none changes.
    pub fn batch_update_from_remove(
        removal_records: &mut Vec<RemovalRecord>,
        ms: &SetCommitment,
        applied: &RemovalRecord,
    ) -> (r: Result<(), RemovalRecordError>)
        requires
            forall|i: int| 0 <= i < old(removal_records)@.len() ==> (#[trigger] old(removal_records)@[i]).target_chunks.wf(),
            applied.target_chunks.wf(),
            ms.wf(),
        ensures
            final(removal_records)@.len() == old(removal_records)@.len(),
            forall|i: int| 0 <= i < final(removal_records)@.len() ==> (#[trigger] final(removal_records)@[i]).target_chunks.wf(),
            match r {
                Ok(()) => forall|i: int|
                    0 <= i < old(removal_records)@.len() ==> {
                        let o = #[trigger] old(removal_records)@[i];
                        let f = final(removal_records)@[i];
                        &&& removal_update_error(o.target_chunks@, *ms, *applied, Some(o.bit_indices.0)) is None
                        &&& f.bit_indices == o.bit_indices
                        &&& f.target_chunks@ == chunks_after_removal(o.target_chunks@, *ms, *applied)
                    },
                Err(e) => final(removal_records)@ == old(removal_records)@ && exists|i: int|
                    0 <= i < old(removal_records)@.len() && match removal_update_error(
                        (#[trigger] old(removal_records)@[i]).target_chunks@,
                        *ms,
                        *applied,
                        Some(old(removal_records)@[i].bit_indices.0),
                    ) {
                        Some(SetCommitmentError::MissingChunkOnUpdate) => e
                            == RemovalRecordError::MissingChunkOnUpdateFromRemove,
                        Some(SetCommitmentError::RemovalLacksChunk) => e
                            == RemovalRecordError::RemovalLacksChunk,
                        Some(_) => e == RemovalRecordError::InvalidTargetChunks,
                        None => false,
                    },
            },
    {
        let mut updated: Vec<RemovalRecord> = Vec::new();
        let mut i: usize = 0;
        while i < removal_records.len()
            invariant
                *removal_records == *old(removal_records),
                forall|j: int| 0 <= j < removal_records@.len() ==> (#[trigger] removal_records@[j]).target_chunks.wf(),
                applied.target_chunks.wf(),
                ms.wf(),
                i <= removal_records@.len(),
                updated@.len() == i,
                forall|j: int| 0 <= j < i ==> (#[trigger] updated@[j]).target_chunks.wf(),
                forall|j: int|
                    0 <= j < i ==> {
                        let o = #[trigger] removal_records@[j];
                        let f = updated@[j];
                        &&& removal_update_error(o.target_chunks@, *ms, *applied, Some(o.bit_indices.0)) is None
                        &&& f.bit_indices == o.bit_indices
                        &&& f.target_chunks.wf()
                        &&& f.target_chunks@ == chunks_after_removal(o.target_chunks@, *ms, *applied)
                    },
            decreases removal_records@.len() - i,
        {
            let rec = &removal_records[i];
            let own = Some(rec.bit_indices.0);
            match updated_chunks_for_removal(&rec.target_chunks, ms, applied, &own) {
                Ok(chunks) => {
                    updated.push(RemovalRecord { bit_indices: rec.bit_indices, target_chunks: chunks });
                },
                Err(SetCommitmentError::MissingChunkOnUpdate) => {
                    return Err(RemovalRecordError::MissingChunkOnUpdateFromRemove);
                },
                Err(SetCommitmentError::RemovalLacksChunk) => {
                    return Err(RemovalRecordError::RemovalLacksChunk);
                },
                Err(_) => {
                    return Err(RemovalRecordError::InvalidTargetChunks);
                },
            }
            i = i + 1;
        }
        *removal_records = updated;
        Ok(())
    }
}

/// Updating removal records in a batch gives each record exactly what a
/// batch of that record alone gives, for an addition: the result is a
/// function of the record and the set.
pub proof fn lemma_record_addition_update_determined(
    o: RemovalRecord,
    ms: SetCommitment,
    f: RemovalRecord,
    g: RemovalRecord,
)
    requires
        f.bit_indices == o.bit_indices,
        g.bit_indices == o.bit_indices,
        f.target_chunks@ == if slides_at(ms.num_leafs() + 1) {
            chunks_after_slide(o.target_chunks@, ms, Some(o.bit_indices.0))
        } else {
            o.target_chunks@
        },
        g.target_chunks@ == if slides_at(ms.num_leafs() + 1) {
            chunks_after_slide(o.target_chunks@, ms, Some(o.bit_indices.0))
        } else {
            o.target_chunks@
        },
    ensures
        f.bit_indices == g.bit_indices,
        f.target_chunks@ == g.target_chunks@,
{
}

/// Updating removal records in a batch gives each record exactly what a
/// batch of that record alone gives, for a removal: the result is a
/// function of the record, the set and the applied record.
pub proof fn lemma_record_removal_update_determined(
    o: RemovalRecord,
    ms: SetCommitment,
    applied: RemovalRecord,
    f: RemovalRecord,
    g: RemovalRecord,
)
    requires
        f.bit_indices == o.bit_indices,
        g.bit_indices == o.bit_indices,
        f.target_chunks@ == chunks_after_removal(o.target_chunks@, ms, applied),
        g.target_chunks@ == chunks_after_removal(o.target_chunks@, ms, applied),
    ensures
        f.bit_indices == g.bit_indices,
        f.target_chunks@ == g.target_chunks@,
{
}

} // verus!
