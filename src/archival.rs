//! A mutator set that keeps every value that each archived chunk has taken,
//! and can undo its most recent addition or removal, as a chain
//! reorganisation needs.
use crate::addition_record::AdditionRecord;
use crate::chunk::{Chunk, strictly_ascending};
use crate::chunk_dictionary::{bits_in_chunk, has_key, key_position, lemma_key_position, with_bits};
use crate::trusted::mmr_num_leafs_of;
use crate::removal_record::RemovalRecord;
use crate::set_commitment::{prefix_set, slides_at, SetCommitment, SetCommitmentError};
use twenty_first::tip5::Digest;
use vstd::prelude::*;

verus! {

/// The values of a chunk history, as sets of positions.
pub open spec fn history_view(h: Seq<Vec<Chunk>>) -> Seq<Seq<Set<u32>>> {
    Seq::new(h.len(), |i: int| Seq::new(h[i]@.len(), |j: int| h[i]@[j]@))
}

/// Every chunk of a history is well formed.
pub open spec fn history_wf(h: Seq<Vec<Chunk>>) -> bool {
    forall|i: int, j: int| 0 <= i < h.len() && 0 <= j < h[i]@.len() ==> (#[trigger] h[i]@[j]).wf()
}

/// A history after a removal with indices `ind` and chunks `d`: each
/// carried chunk gains its new value.
pub open spec fn history_after_removal(
    h: Seq<Seq<Set<u32>>>,
    d: Seq<(u64, twenty_first::util_types::mmr::mmr_membership_proof::MmrMembershipProof, Set<u32>)>,
    ind: Seq<u128>,
) -> Seq<Seq<Set<u32>>> {
    Seq::new(
        h.len(),
        |k: int|
            if has_key(d, k as u64) {
                h[k].push(d[key_position(d, k as u64)].2.union(bits_in_chunk(ind, k as u64)))
            } else {
                h[k]
            },
    )
}

/// Two sets have the same observable state.
pub open spec fn same_state(a: SetCommitment, b: SetCommitment) -> bool {
    &&& a.aocl == b.aocl
    &&& a.swbf_inactive == b.swbf_inactive
    &&& a.swbf_active@ == b.swbf_active@
}

#[derive(Clone, Debug)]
pub struct ArchivalMutatorSet {
    /// The set itself.
    pub set: SetCommitment,
    /// For each archived chunk, the values it has taken, oldest first.
    pub chunk_history: Vec<Vec<Chunk>>,
    /// The state before the most recent operation, and whether that
    /// operation was an addition.
    pub undo: Option<(bool, SetCommitment, Vec<Vec<Chunk>>)>,
}

impl ArchivalMutatorSet {
    /// The set is well formed, each archived chunk has its history, and so
    /// does the state kept for undoing.
    pub open spec fn wf(&self) -> bool {
        &&& self.set.wf()
        &&& self.chunk_history@.len() == mmr_num_leafs_of(self.set.swbf_inactive)
        &&& history_wf(self.chunk_history@)
        &&& self.undo matches Some(u) ==> u.1.wf() && u.2@.len() == mmr_num_leafs_of(
            u.1.swbf_inactive,
        ) && history_wf(u.2@)
    }

    /// `a` is this set after the addition of commitment `c`, with the state
    /// before it kept for undoing.
    pub open spec fn archival_adds(&self, c: Digest, a: ArchivalMutatorSet) -> bool {
        &&& self.set.adds(c, a.set)
        &&& history_view(a.chunk_history@) == if slides_at(self.set.num_leafs() + 1) {
            history_view(self.chunk_history@).push(seq![prefix_set(self.set.swbf_active@)])
        } else {
            history_view(self.chunk_history@)
        }
        &&& a.undo matches Some(u) && u.0 && same_state(u.1, self.set) && history_view(u.2@)
            == history_view(self.chunk_history@)
    }

    /// `a` is this set after the removal `rr`, with the state before it kept
    /// for undoing.
    pub open spec fn archival_removes(&self, rr: RemovalRecord, a: ArchivalMutatorSet) -> bool {
        &&& self.set.removes(rr, a.set)
        &&& history_view(a.chunk_history@) == history_after_removal(
            history_view(self.chunk_history@),
            rr.target_chunks@,
            rr.bit_indices.0@,
        )
        &&& a.undo matches Some(u) && !u.0 && same_state(u.1, self.set) && history_view(u.2@)
            == history_view(self.chunk_history@)
    }

    /// `a` is this set with its most recent operation, of the given kind,
    /// undone.
    pub open spec fn reverts(&self, addition: bool, a: ArchivalMutatorSet) -> bool {
        &&& self.undo matches Some(u) && u.0 == addition && same_state(a.set, u.1) && history_view(
            a.chunk_history@,
        ) == history_view(u.2@)
        &&& a.undo is None
    }

    /// The empty set, with no history and nothing to undo.
    pub fn new() -> (r: ArchivalMutatorSet)
        ensures
            r.wf(),
            r.set.num_leafs() == 0,
            r.chunk_history@.len() == 0,
            r.undo is None,
    {
        ArchivalMutatorSet { set: SetCommitment::default(), chunk_history: Vec::new(), undo: None }
    }

    /// Adds the item that `record` commits to, keeping the archived chunk.
    pub fn add(&mut self, record: &AdditionRecord)
        requires
            old(self).wf(),
            old(self).set.num_leafs() < u64::MAX,
        ensures
            final(self).wf(),
            old(self).archival_adds(record.canonical_commitment, *final(self)),
    {
        let before = copy_set(&self.set);
        let history = copy_history(&self.chunk_history);
        let archived = self.set.add_helper(record);
        match archived {
            Some((_, chunk)) => {
                let mut row: Vec<Chunk> = Vec::new();
                row.push(chunk);
                let ghost h = history_view(self.chunk_history@);
                self.chunk_history.push(row);
                assert(history_view(self.chunk_history@) =~= h.push(
                    seq![prefix_set(before.swbf_active@)],
                )) by {
                    assert(history_view(self.chunk_history@)[h.len() as int] =~= seq![
                        prefix_set(before.swbf_active@),
                    ]);
                }
            },
            None => {},
        }
        self.undo = Some((true, before, history));
    }

    /// Applies a removal record, keeping the new values of the chunks it
    /// changes. Nothing changes where the record cannot be applied.
    pub fn remove(&mut self, rr: &RemovalRecord) -> (r: Result<(), SetCommitmentError>)
        requires
            old(self).wf(),
            rr.target_chunks.wf(),
        ensures
            final(self).wf(),
            match r {
                Ok(()) => old(self).set.removal_error(*rr) is None && old(self).archival_removes(
                    *rr,
                    *final(self),
                ),
                Err(e) => old(self).set.removal_error(*rr) == Some(e) && *final(self) == *old(self),
            },
    {
        let before = copy_set(&self.set);
        let history = copy_history(&self.chunk_history);
        let mut set = copy_set(&self.set);
        match set.remove(rr) {
            Ok(()) => {},
            Err(e) => {
                return Err(e);
            },
        }
        let updated = rr.target_chunks.with_bits_set(&rr.bit_indices.0);
        let ghost h = history_view(self.chunk_history@);
        let ghost d = rr.target_chunks@;
        let ghost ind = rr.bit_indices.0@;
        let mut new_history: Vec<Vec<Chunk>> = Vec::new();
        let mut k: usize = 0;
        while k < self.chunk_history.len()
            invariant
                k <= self.chunk_history@.len(),
                history_wf(self.chunk_history@),
                h == history_view(self.chunk_history@),
                d == rr.target_chunks@,
                ind == rr.bit_indices.0@,
                rr.target_chunks.wf(),
                updated.wf(),
                updated@ == with_bits(d, ind),
                new_history@.len() == k,
                history_wf(new_history@),
                forall|j: int| 0 <= j < k ==> history_view(new_history@)[j] == history_after_removal(h, d, ind)[j],
            decreases self.chunk_history@.len() - k,
        {
            let mut row = copy_row(&self.chunk_history[k]);
            let ghost old_row = history_view(self.chunk_history@)[k as int];
            match updated.find(k as u64) {
                Some(i) => {
                    proof {
                        lemma_key_position(updated@, k as u64);
                        lemma_key_position(d, k as u64);
                    }
                    row.push(updated.dictionary[i].2.copy());
                },
                None => {},
            }
            proof {
                if has_key(d, k as u64) {
                    let x = choose|x: int| 0 <= x < d.len() && d[x].0 == k as u64;
                    assert(updated@[x].0 == k as u64);
                }
                if has_key(updated@, k as u64) {
                    let x = choose|x: int| 0 <= x < updated@.len() && updated@[x].0 == k as u64;
                    assert(d[x].0 == k as u64);
                }
            }
            let ghost prev = new_history@;
            new_history.push(row);
            proof {
                assert forall|j: int| 0 <= j < k implies history_view(new_history@)[j]
                    == history_after_removal(h, d, ind)[j] by {
                    assert(new_history@[j] == prev[j]);
                    assert(history_view(new_history@)[j] =~= history_view(prev)[j]);
                }
            }
            proof {
                assert(history_view(new_history@)[k as int] =~= history_after_removal(h, d, ind)[k as int]);
            }
            k = k + 1;
        }
        assert(history_view(new_history@) =~= history_after_removal(h, d, ind));
        self.set = set;
        self.chunk_history = new_history;
        self.undo = Some((false, before, history));
        Ok(())
    }

    /// Undoes the most recent operation, which must be an addition.
    pub fn revert_add(&mut self) -> (r: Result<(), SetCommitmentError>)
        requires
            old(self).wf(),
        ensures
            final(self).wf(),
            match r {
                Ok(()) => old(self).reverts(true, *final(self)),
                Err(e) => e == SetCommitmentError::NothingToRevert && !(old(self).undo matches Some(
                    u,
                ) && u.0) && *final(self) == *old(self),
            },
    {
        self.revert(true)
    }

    /// Undoes the most recent operation, which must be a removal.
    pub fn revert_remove(&mut self) -> (r: Result<(), SetCommitmentError>)
        requires
            old(self).wf(),
        ensures
            final(self).wf(),
            match r {
                Ok(()) => old(self).reverts(false, *final(self)),
                Err(e) => e == SetCommitmentError::NothingToRevert && !(old(self).undo matches Some(
                    u,
                ) && !u.0) && *final(self) == *old(self),
            },
    {
        self.revert(false)
    }

    fn revert(&mut self, addition: bool) -> (r: Result<(), SetCommitmentError>)
        requires
            old(self).wf(),
        ensures
            final(self).wf(),
            match r {
                Ok(()) => old(self).reverts(addition, *final(self)),
                Err(e) => e == SetCommitmentError::NothingToRevert && !(old(self).undo matches Some(
                    u,
                ) && u.0 == addition) && *final(self) == *old(self),
            },
    {
        let undo = match &self.undo {
            Some(u) => {
                if u.0 != addition {
                    return Err(SetCommitmentError::NothingToRevert);
                }
                (copy_set(&u.1), copy_history(&u.2))
            },
            None => {
                return Err(SetCommitmentError::NothingToRevert);
            },
        };
        proof {
            let u = old(self).undo->Some_0;
            assert(u.1.wf());
            assert(undo.0.wf());
            assert(undo.1@.len() == history_view(undo.1@).len());
            assert(u.2@.len() == history_view(u.2@).len());
        }
        self.set = undo.0;
        self.chunk_history = undo.1;
        self.undo = None;
        Ok(())
    }
}


/// A copy of a set's state.
fn copy_set(s: &SetCommitment) -> (r: SetCommitment)
    ensures
        same_state(r, *s),
        s.wf() ==> r.wf(),
{
    let mut active: Vec<bool> = Vec::new();
    let mut i: usize = 0;
    while i < s.swbf_active.len()
        invariant
            i <= s.swbf_active@.len(),
            active@ == s.swbf_active@.subrange(0, i as int),
        decreases s.swbf_active@.len() - i,
    {
        active.push(s.swbf_active[i]);
        i = i + 1;
        assert(active@ =~= s.swbf_active@.subrange(0, i as int));
    }
    assert(active@ =~= s.swbf_active@);
    SetCommitment { aocl: s.aocl.clone(), swbf_inactive: s.swbf_inactive.clone(), swbf_active: active }
}

/// A copy of one chunk's history.
fn copy_row(row: &Vec<Chunk>) -> (r: Vec<Chunk>)
    requires
        forall|j: int| 0 <= j < row@.len() ==> (#[trigger] row@[j]).wf(),
    ensures
        r@.len() == row@.len(),
        forall|j: int| 0 <= j < r@.len() ==> (#[trigger] r@[j]).wf() && r@[j]@ == row@[j]@,
{
    let mut r: Vec<Chunk> = Vec::new();
    let mut j: usize = 0;
    while j < row.len()
        invariant
            j <= row@.len(),
            forall|x: int| 0 <= x < row@.len() ==> (#[trigger] row@[x]).wf(),
            r@.len() == j,
            forall|x: int| 0 <= x < j ==> (#[trigger] r@[x]).wf() && r@[x]@ == row@[x]@,
        decreases row@.len() - j,
    {
        let c = row[j].copy();
        proof {
            assert(strictly_ascending(c.bits@));
        }
        r.push(c);
        j = j + 1;
    }
    r
}

/// A copy of a chunk history.
fn copy_history(h: &Vec<Vec<Chunk>>) -> (r: Vec<Vec<Chunk>>)
    requires
        history_wf(h@),
    ensures
        history_view(r@) == history_view(h@),
        history_wf(r@),
{
    let mut r: Vec<Vec<Chunk>> = Vec::new();
    let mut k: usize = 0;
    while k < h.len()
        invariant
            k <= h@.len(),
            history_wf(h@),
            r@.len() == k,
            history_wf(r@),
            forall|x: int| 0 <= x < k ==> history_view(r@)[x] == history_view(h@)[x],
        decreases h@.len() - k,
    {
        let row = copy_row(&h[k]);
        r.push(row);
        proof {
            assert(history_view(r@)[k as int] =~= history_view(h@)[k as int]);
        }
        k = k + 1;
    }
    assert(history_view(r@) =~= history_view(h@));
    r
}

/// Undoing an addition restores the observable state before it: the AOCL,
/// the inactive filter, the active window and the chunk history.
pub proof fn lemma_revert_add_restores(
    s: ArchivalMutatorSet,
    c: Digest,
    added: ArchivalMutatorSet,
    reverted: ArchivalMutatorSet,
)
    requires
        s.archival_adds(c, added),
        added.reverts(true, reverted),
    ensures
        same_state(reverted.set, s.set),
        history_view(reverted.chunk_history@) == history_view(s.chunk_history@),
{
}

/// Undoing a removal restores the observable state before it: the AOCL,
/// the inactive filter, the active window and the chunk history.
pub proof fn lemma_revert_remove_restores(
    s: ArchivalMutatorSet,
    rr: RemovalRecord,
    removed: ArchivalMutatorSet,
    reverted: ArchivalMutatorSet,
)
    requires
        s.archival_removes(rr, removed),
        removed.reverts(false, reverted),
    ensures
        same_state(reverted.set, s.set),
        history_view(reverted.chunk_history@) == history_view(s.chunk_history@),
{
}

} // verus!
