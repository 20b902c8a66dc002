//! A map from chunk index to the MMR membership proof of that chunk in the
//! inactive part of the Bloom filter, and the chunk's value.
use crate::chunk::Chunk;
use crate::trusted::count_distinct;
use crate::shared::{CHUNK_SIZE, NUM_TRIALS};
use twenty_first::util_types::mmr::mmr_membership_proof::MmrMembershipProof;
use vstd::prelude::*;

verus! {

/// An entry as the contracts see it: chunk index, proof, set positions.
pub type EntryView = (u64, MmrMembershipProof, Set<u32>);

/// No two entries share a chunk index.
pub open spec fn distinct_keys(d: Seq<EntryView>) -> bool {
    forall|i: int, j: int| 0 <= i < j < d.len() ==> d[i].0 != d[j].0
}

/// Some entry has chunk index `key`.
pub open spec fn has_key(d: Seq<EntryView>, key: u64) -> bool {
    exists|i: int| 0 <= i < d.len() && d[i].0 == key
}

/// The position of the entry with chunk index `key`.
pub open spec fn key_position(d: Seq<EntryView>, key: u64) -> int {
    choose|i: int| 0 <= i < d.len() && d[i].0 == key
}

/// The positions within chunk `key` of those indices that fall in it.
pub open spec fn bits_in_chunk(indices: Seq<u128>, key: u64) -> Set<u32> {
    Set::new(
        |x: u32|
            exists|k: int|
                0 <= k < indices.len() && #[trigger] (indices[k] / CHUNK_SIZE as u128) == key
                    && indices[k] % CHUNK_SIZE as u128 == x,
    )
}

/// Each chunk of `d` gains the positions of the indices that fall in it.
pub open spec fn with_bits(d: Seq<EntryView>, indices: Seq<u128>) -> Seq<EntryView> {
    Seq::new(d.len(), |i: int| (d[i].0, d[i].1, d[i].2.union(bits_in_chunk(indices, d[i].0))))
}

/// `d` with entry `e` in place of the one with its chunk index, or added.
pub open spec fn upsert(d: Seq<EntryView>, e: EntryView) -> Seq<EntryView> {
    if has_key(d, e.0) {
        d.update(key_position(d, e.0), e)
    } else {
        d.push(e)
    }
}

/// The MMR proofs of the entries.
pub open spec fn proofs_of(d: Seq<EntryView>) -> Seq<MmrMembershipProof> {
    Seq::new(d.len(), |i: int| d[i].1)
}

/// The chunk indices of the entries.
pub open spec fn keys_of(d: Seq<EntryView>) -> Seq<u64> {
    Seq::new(d.len(), |i: int| d[i].0)
}

/// `d` with its MMR proofs replaced by `ps`.
pub open spec fn with_proofs(d: Seq<EntryView>, ps: Seq<MmrMembershipProof>) -> Seq<EntryView> {
    Seq::new(d.len(), |i: int| (d[i].0, ps[i], d[i].2))
}

pub proof fn lemma_key_position(d: Seq<EntryView>, key: u64)
    requires
        distinct_keys(d),
        has_key(d, key),
    ensures
        0 <= key_position(d, key) < d.len(),
        d[key_position(d, key)].0 == key,
        forall|i: int| 0 <= i < d.len() && d[i].0 == key ==> i == key_position(d, key),
{
}

/// Entries of chunk index, MMR proof of the chunk in the inactive filter,
/// and chunk value.
#[derive(Clone, Debug)]
pub struct ChunkDictionary {
    pub dictionary: Vec<(u64, MmrMembershipProof, Chunk)>,
}

impl View for ChunkDictionary {
    type V = Seq<EntryView>;

    open spec fn view(&self) -> Seq<EntryView> {
        self.dictionary@.map_values(|e: (u64, MmrMembershipProof, Chunk)| (e.0, e.1, e.2@))
    }
}

impl ChunkDictionary {
    /// Chunk indices are distinct and each chunk is well formed.
    pub open spec fn wf(&self) -> bool {
        &&& distinct_keys(self@)
        &&& forall|i: int| 0 <= i < self.dictionary@.len() ==> (#[trigger] self.dictionary@[i]).2.wf()
    }

    /// The dictionary with no entry.
    pub fn default() -> (r: ChunkDictionary)
        ensures
            r.wf(),
            r@ == Seq::<EntryView>::empty(),
    {
        let r = ChunkDictionary { dictionary: Vec::new() };
        assert(r@ =~= Seq::<EntryView>::empty());
        r
    }

    /// Whether the chunk indices are distinct and each chunk is well formed.
    pub fn is_wf(&self) -> (r: bool)
        ensures
            r == self.wf(),
    {
        let mut i: usize = 0;
        while i < self.dictionary.len()
            invariant
                i <= self.dictionary@.len(),
                forall|k: int| 0 <= k < i ==> (#[trigger] self.dictionary@[k]).2.wf(),
            decreases self.dictionary@.len() - i,
        {
            if !self.dictionary[i].2.is_wf() {
                return false;
            }
            i = i + 1;
        }
        !self.has_duplicates()
    }

    /// Whether two entries share a chunk index.
    pub fn has_duplicates(&self) -> (r: bool)
        ensures
            r == !distinct_keys(self@),
    {
        let mut keys: Vec<u64> = Vec::new();
        let mut i: usize = 0;
        while i < self.dictionary.len()
            invariant
                i <= self.dictionary@.len(),
                keys@.len() == i,
                forall|k: int| 0 <= k < i ==> keys@[k] == self.dictionary@[k].0,
            decreases self.dictionary@.len() - i,
        {
            keys.push(self.dictionary[i].0);
            i = i + 1;
        }
        let distinct = count_distinct(&keys);
        proof {
            keys@.lemma_cardinality_of_set();
            if distinct == keys.len() {
                keys@.lemma_no_dup_set_cardinality();
                assert(distinct_keys(self@)) by {
                    assert forall|a: int, b: int| 0 <= a < b < self@.len() implies self@[a].0
                        != self@[b].0 by {
                        assert(keys@[a] != keys@[b]);
                    }
                }
            } else {
                assert(!distinct_keys(self@)) by {
                    if distinct_keys(self@) {
                        assert(keys@.no_duplicates()) by {
                            assert forall|a: int, b: int|
                                0 <= a < keys@.len() && 0 <= b < keys@.len() && a != b implies keys@[a]
                                != keys@[b] by {
                                if a < b {
                                    assert(self@[a].0 != self@[b].0);
                                } else {
                                    assert(self@[b].0 != self@[a].0);
                                }
                            }
                        }
                        keys@.unique_seq_to_set();
                    }
                }
            }
        }
        distinct != keys.len()
    }

    /// The position of the entry for chunk index `key`, if there is one.
    pub fn find(&self, key: u64) -> (r: Option<usize>)
        ensures
            match r {
                Some(i) => i < self@.len() && self@[i as int].0 == key,
                None => !has_key(self@, key),
            },
    {
        let mut i: usize = 0;
        while i < self.dictionary.len()
            invariant
                i <= self.dictionary@.len(),
                forall|k: int| 0 <= k < i ==> self@[k].0 != key,
            decreases self.dictionary@.len() - i,
        {
            if self.dictionary[i].0 == key {
                return Some(i);
            }
            i = i + 1;
        }
        None
    }

    /// A copy of this dictionary.
    pub fn copy(&self) -> (r: ChunkDictionary)
        requires
            self.wf(),
        ensures
            r.wf(),
            r@ == self@,
    {
        let mut d: Vec<(u64, MmrMembershipProof, Chunk)> = Vec::new();
        let mut i: usize = 0;
        while i < self.dictionary.len()
            invariant
                self.wf(),
                i <= self.dictionary@.len(),
                d@.len() == i,
                forall|k: int|
                    0 <= k < i ==> (#[trigger] d@[k]).0 == self.dictionary@[k].0 && d@[k].1
                        == self.dictionary@[k].1 && d@[k].2.bits@ == self.dictionary@[k].2.bits@,
            decreases self.dictionary@.len() - i,
        {
            let e = &self.dictionary[i];
            d.push((e.0, e.1.clone(), e.2.copy()));
            i = i + 1;
        }
        let r = ChunkDictionary { dictionary: d };
        assert(r@ =~= self@);
        r
    }

    /// A copy of this dictionary in which each chunk gains the positions of
    /// the given indices that fall in it.
    pub fn with_bits_set(&self, indices: &[u128; NUM_TRIALS]) -> (r: ChunkDictionary)
        requires
            self.wf(),
        ensures
            r.wf(),
            r@ == with_bits(self@, indices@),
    {
        let mut d: Vec<(u64, MmrMembershipProof, Chunk)> = Vec::new();
        let mut i: usize = 0;
        while i < self.dictionary.len()
            invariant
                self.wf(),
                i <= self.dictionary@.len(),
                d@.len() == i,
                forall|k: int|
                    0 <= k < i ==> (#[trigger] d@[k]).0 == self.dictionary@[k].0 && d@[k].1
                        == self.dictionary@[k].1 && d@[k].2.wf() && d@[k].2@
                        == self.dictionary@[k].2@.union(
                        bits_in_chunk(indices@, self.dictionary@[k].0),
                    ),
            decreases self.dictionary@.len() - i,
        {
            let e = &self.dictionary[i];
            let key = e.0;
            let mut chunk = e.2.copy();
            let mut j: usize = 0;
            while j < NUM_TRIALS
                invariant
                    chunk.wf(),
                    j <= NUM_TRIALS,
                    chunk@ == e.2@.union(bits_in_chunk(indices@.subrange(0, j as int), key)),
                decreases NUM_TRIALS - j,
            {
                let b = indices[j];
                if b / CHUNK_SIZE as u128 == key as u128 {
                    chunk.set_bit((b % CHUNK_SIZE as u128) as u32);
                }
                j = j + 1;
                proof {
                    let pre = indices@.subrange(0, j - 1);
                    let cur = indices@.subrange(0, j as int);
                    assert forall|x: u32| #[trigger]
                        bits_in_chunk(cur, key).contains(x) <==> bits_in_chunk(pre, key).contains(x)
                            || (b / CHUNK_SIZE as u128 == key && b % CHUNK_SIZE as u128 == x) by {
                        if bits_in_chunk(pre, key).contains(x) {
                            let k = choose|k: int|
                                0 <= k < pre.len() && #[trigger] (pre[k] / CHUNK_SIZE as u128)
                                    == key && pre[k] % CHUNK_SIZE as u128 == x;
                            assert(cur[k] == pre[k]);
                        }
                        if b / CHUNK_SIZE as u128 == key && b % CHUNK_SIZE as u128 == x {
                            assert(cur[j - 1] == b);
                        }
                        if bits_in_chunk(cur, key).contains(x) {
                            let k = choose|k: int|
                                0 <= k < cur.len() && #[trigger] (cur[k] / CHUNK_SIZE as u128)
                                    == key && cur[k] % CHUNK_SIZE as u128 == x;
                            if k < j - 1 {
                                assert(pre[k] == cur[k]);
                            }
                        }
                    }
                    assert(chunk@ =~= e.2@.union(bits_in_chunk(cur, key)));
                }
            }
            assert(indices@.subrange(0, NUM_TRIALS as int) =~= indices@);
            d.push((key, e.1.clone(), chunk));
            i = i + 1;
        }
        let r = ChunkDictionary { dictionary: d };
        assert(r@ =~= with_bits(self@, indices@));
        r
    }

    /// The MMR proofs and the chunk indices of the entries.
    pub fn proofs_and_keys(&self) -> (r: (Vec<MmrMembershipProof>, Vec<u64>))
        ensures
            r.0@ == proofs_of(self@),
            r.1@ == keys_of(self@),
    {
        let mut ps: Vec<MmrMembershipProof> = Vec::new();
        let mut ks: Vec<u64> = Vec::new();
        let mut i: usize = 0;
        while i < self.dictionary.len()
            invariant
                i <= self@.len(),
                ps@ == proofs_of(self@).subrange(0, i as int),
                ks@ == keys_of(self@).subrange(0, i as int),
            decreases self@.len() - i,
        {
            ps.push(self.dictionary[i].1.clone());
            ks.push(self.dictionary[i].0);
            i = i + 1;
            assert(ps@ =~= proofs_of(self@).subrange(0, i as int));
            assert(ks@ =~= keys_of(self@).subrange(0, i as int));
        }
        assert(ps@ =~= proofs_of(self@));
        assert(ks@ =~= keys_of(self@));
        (ps, ks)
    }

    /// A copy of this dictionary with the given MMR proofs.
    pub fn replace_proofs(&self, ps: &Vec<MmrMembershipProof>) -> (r: ChunkDictionary)
        requires
            self.wf(),
            ps@.len() == self@.len(),
        ensures
            r.wf(),
            r@ == with_proofs(self@, ps@),
    {
        let mut d: Vec<(u64, MmrMembershipProof, Chunk)> = Vec::new();
        let mut i: usize = 0;
        while i < self.dictionary.len()
            invariant
                self.wf(),
                ps@.len() == self@.len(),
                i <= self.dictionary@.len(),
                d@.len() == i,
                forall|k: int|
                    0 <= k < i ==> (#[trigger] d@[k]).0 == self.dictionary@[k].0 && d@[k].1
                        == ps@[k] && d@[k].2.bits@ == self.dictionary@[k].2.bits@,
            decreases self.dictionary@.len() - i,
        {
            let e = &self.dictionary[i];
            d.push((e.0, ps[i].clone(), e.2.copy()));
            i = i + 1;
        }
        let r = ChunkDictionary { dictionary: d };
        assert(r@ =~= with_proofs(self@, ps@));
        r
    }

    /// Puts the entry in place of the one with its chunk index, or adds it.
    pub fn upsert(&mut self, key: u64, proof: MmrMembershipProof, chunk: Chunk)
        requires
            old(self).wf(),
            chunk.wf(),
        ensures
            final(self).wf(),
            final(self)@ == upsert(old(self)@, (key, proof, chunk@)),
    {
        let ghost e = (key, proof, chunk@);
        match self.find(key) {
            Some(i) => {
                proof {
                    lemma_key_position(self@, key);
                }
                self.dictionary.set(i, (key, proof, chunk));
                assert(self@ =~= upsert(old(self)@, e));
            },
            None => {
                self.dictionary.push((key, proof, chunk));
                assert(self@ =~= upsert(old(self)@, e));
            },
        }
    }
}

} // verus!
