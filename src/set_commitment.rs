//! The mutator set: an append-only commitment list (AOCL) and a sliding
//! window Bloom filter (SWBF), whose archived chunks form a second MMR.
use crate::addition_record::AdditionRecord;
use crate::chunk::{chunk_digest, pow2, Chunk};
use crate::chunk_dictionary::{
    bits_in_chunk, has_key, key_position, lemma_key_position, ChunkDictionary, EntryView,
};
use crate::indices::{derived_indices, get_swbf_indices, lemma_derived_in_window};
use crate::membership_proof::{proof_indices, MembershipProof};
use crate::trusted::{
    authenticates_some_leaf, hash_pair, hash_pair_of, hash_words, hash_words_of, mmr_append,
    mmr_append_of, mmr_bag_peaks, mmr_bag_peaks_of,
    mmr_batch_mutate, mmr_batch_mutate_of, mmr_consistent, mmr_empty, mmr_num_leafs,
    mmr_num_leafs_of, mmr_peaks, mmr_peaks_of, mmr_verify, mmr_verify_of, ones,
};
use crate::removal_record::{BitSet, RemovalRecord};
use crate::shared::{BATCH_SIZE, CHUNK_SIZE, NUM_TRIALS, WINDOW_SIZE, WINDOW_WORDS, WORD_BITS};
use twenty_first::tip5::Digest;
use twenty_first::util_types::mmr::mmr_accumulator::MmrAccumulator;
use twenty_first::util_types::mmr::mmr_membership_proof::MmrMembershipProof;
use vstd::prelude::*;

verus! {

broadcast use vstd::seq::Seq::lemma_push_to_set_commute;

/// Why an operation on the set or on a membership proof cannot proceed.
#[derive(Debug, PartialEq, Eq, Structural)]
pub enum SetCommitmentError {
    /// A membership proof's leaf index is not below the leaf count: (index, count).
    RequestedAoclAuthPathOutOfBounds(u64, u64),
    /// A membership proof's AOCL path does not authenticate its item.
    InvalidAoclPath,
    /// Some archived chunk of a dictionary does not authenticate against the
    /// inactive part of the filter.
    InvalidTargetChunks,
    /// A removal names an index beyond the active window.
    IndexBeyondWindow,
    /// A removal names an archived index whose chunk it does not carry.
    MissingTargetChunk,
    /// A removal touches an archived chunk that holds one of the proof's own
    /// indices, but the proof lacks that chunk: the proof is stale.
    MissingChunkOnUpdate,
    /// A removal touches a chunk that the proof holds, but does not carry it.
    RemovalLacksChunk,
    /// There is no operation of the requested kind to undo.
    NothingToRevert,
}

/// The window slides on the addition that brings the list to `n` leaves.
pub open spec fn slides_at(n: int) -> bool {
    n > 0 && n % BATCH_SIZE as int == 0
}

/// The set positions of the first chunk of an active window.
pub open spec fn prefix_set(active: Seq<bool>) -> Set<u32> {
    Set::new(|x: u32| x < CHUNK_SIZE && active[x as int])
}

/// An active window moved on by one chunk: its first chunk leaves, the rest
/// moves down and the last chunk is clear.
pub open spec fn slid(active: Seq<bool>) -> Seq<bool> {
    Seq::new(
        WINDOW_SIZE as nat,
        |i: int|
            if i + CHUNK_SIZE < WINDOW_SIZE {
                active[i + CHUNK_SIZE]
            } else {
                false
            },
    )
}

/// An MMR membership proof authenticates a leaf, at an index below the leaf
/// count.
pub open spec fn leaf_verifies(
    p: MmrMembershipProof,
    leaf_index: u64,
    leaf: Digest,
    peaks: Seq<Digest>,
    num_leafs: u64,
) -> bool {
    &&& leaf_index < num_leafs
    &&& peaks.len() <= u32::MAX
    &&& mmr_verify_of(p, leaf_index, leaf, peaks, num_leafs)
}

/// A dictionary entry authenticates its chunk in the inactive filter.
pub open spec fn entry_valid(e: EntryView, swbf: MmrAccumulator) -> bool {
    leaf_verifies(e.1, e.0, chunk_digest(e.2), mmr_peaks_of(swbf), mmr_num_leafs_of(swbf))
}

/// Each entry of a dictionary authenticates its chunk.
pub open spec fn entries_valid(d: Seq<EntryView>, swbf: MmrAccumulator) -> bool {
    forall|i: int| 0 <= i < d.len() ==> entry_valid(#[trigger] d[i], swbf)
}

/// Some index lies in chunk `key`.
pub open spec fn touches(indices: Seq<u128>, key: u64) -> bool {
    exists|k: int| 0 <= k < indices.len() && #[trigger] (indices[k] / CHUNK_SIZE as u128) == key
}

/// The leaf mutations that a removal applies to the inactive filter: each
/// carried chunk, with the removed item's positions set, replaces its leaf.
pub open spec fn mutations_of(d: Seq<EntryView>, indices: Seq<u128>) -> Seq<
    (u64, Digest, MmrMembershipProof),
> {
    Seq::new(
        d.len(),
        |i: int| (d[i].0, chunk_digest(d[i].2.union(bits_in_chunk(indices, d[i].0))), d[i].1),
    )
}

/// The integer whose bit `k`, for `k < width`, is `a[base + k]`.
pub open spec fn bit_word(a: Seq<bool>, base: nat, width: nat) -> nat
    decreases width,
{
    if width == 0 {
        0
    } else {
        bit_word(a, base, (width - 1) as nat) + if a[base + width - 1] {
            pow2((width - 1) as nat)
        } else {
            0
        }
    }
}

/// How many positions the word with index `w` of the window's dense
/// encoding covers.
pub open spec fn window_word_width(w: nat) -> nat {
    if w + 1 < WINDOW_WORDS {
        WORD_BITS as nat
    } else {
        (WINDOW_SIZE - w * WORD_BITS) as nat
    }
}

/// The dense encoding of an active window: words of `WORD_BITS` bits.
pub open spec fn window_words(a: Seq<bool>) -> Seq<u64> {
    Seq::new(
        WINDOW_WORDS as nat,
        |w: int| bit_word(a, (w * WORD_BITS) as nat, window_word_width(w as nat)) as u64,
    )
}

/// The commitment to a whole set: both MMRs' bagged peaks and the active
/// window.
pub open spec fn commitment_digest(s: SetCommitment) -> Digest {
    hash_pair_of(
        hash_pair_of(mmr_bag_peaks_of(s.aocl), mmr_bag_peaks_of(s.swbf_inactive)),
        hash_words_of(window_words(s.swbf_active@)),
    )
}

proof fn lemma_bit_word_bound(a: Seq<bool>, base: nat, width: nat)
    ensures
        bit_word(a, base, width) < pow2(width),
    decreases width,
{
    if width > 0 {
        lemma_bit_word_bound(a, base, (width - 1) as nat);
    }
}

/// The chunk index of a bit index.
pub open spec fn chunk_of(b: u128) -> u64 {
    (b / CHUNK_SIZE as u128) as u64
}

/// The accumulator: the commitment list, the archived chunks of the
/// Bloom filter, and its active window.
#[derive(Clone, Debug)]
pub struct SetCommitment {
    pub aocl: MmrAccumulator,
    pub swbf_inactive: MmrAccumulator,
    pub swbf_active: Vec<bool>,
}

impl SetCommitment {
    /// The number of additions so far.
    pub open spec fn num_leafs(&self) -> u64 {
        mmr_num_leafs_of(self.aocl)
    }

    /// The index of the chunk at which the active window begins.
    pub open spec fn batch_index(&self) -> u64 {
        (self.num_leafs() / BATCH_SIZE as u64) as u64
    }

    /// The first bit index of the active window.
    pub open spec fn window_start(&self) -> u128 {
        (self.batch_index() * CHUNK_SIZE) as u128
    }

    /// The active window has its width, each chunk before it is archived,
    /// and both MMRs have a peak for each one bit of their leaf counts.
    pub open spec fn wf(&self) -> bool {
        &&& self.swbf_active@.len() == WINDOW_SIZE
        &&& mmr_num_leafs_of(self.swbf_inactive) == self.batch_index()
        &&& mmr_consistent(self.aocl)
        &&& mmr_consistent(self.swbf_inactive)
    }

    /// Bit index `b` is accounted for: archived with a valid chunk of `d`,
    /// or within the active window.
    pub open spec fn index_ok(&self, d: Seq<EntryView>, b: u128) -> bool {
        if b < self.window_start() {
            has_key(d, chunk_of(b)) && entry_valid(d[key_position(d, chunk_of(b))], self.swbf_inactive)
        } else {
            b < self.window_start() + WINDOW_SIZE
        }
    }

    /// Bit index `b` is unset: in its chunk of `d`, or in the active window.
    pub open spec fn index_unset(&self, d: Seq<EntryView>, b: u128) -> bool {
        if b < self.window_start() {
            has_key(d, chunk_of(b)) && !d[key_position(d, chunk_of(b))].2.contains(
                (b % CHUNK_SIZE as u128) as u32,
            )
        } else if b < self.window_start() + WINDOW_SIZE {
            !self.swbf_active@[b - self.window_start()]
        } else {
            false
        }
    }

    /// Every index is accounted for and at least one of them is unset.
    pub open spec fn witnesses(&self, d: Seq<EntryView>, indices: Seq<u128>) -> bool {
        &&& forall|k: int| 0 <= k < indices.len() ==> self.index_ok(d, #[trigger] indices[k])
        &&& exists|k: int| 0 <= k < indices.len() && self.index_unset(d, #[trigger] indices[k])
    }

    /// `p` is a valid membership proof of `item` in this set.
    pub open spec fn spec_verify(&self, item: Digest, p: MembershipProof) -> bool {
        &&& p.aocl_leaf_index < self.num_leafs()
        &&& leaf_verifies(
            p.auth_path_aocl,
            p.aocl_leaf_index,
            hash_pair_of(item, p.randomness),
            mmr_peaks_of(self.aocl),
            self.num_leafs(),
        )
        &&& match proof_indices(item, p) {
            Some(a) => self.witnesses(p.target_chunks@, a@),
            None => false,
        }
    }

    /// The archived-chunk entries of a fresh proof: where the item's own
    /// addition slides the window and some of its indices lie in the chunk
    /// that leaves, the entry for that chunk.
    pub open spec fn anticipated_chunks(&self, item: Digest, randomness: Digest) -> Seq<EntryView> {
        let n = self.num_leafs();
        let b = self.batch_index();
        let chunk = prefix_set(self.swbf_active@);
        if slides_at(n + 1) && (derived_indices(item, randomness, n) matches Some(a) && touches(
            a@,
            b,
        )) {
            seq![(b, mmr_append_of(self.swbf_inactive, chunk_digest(chunk)).1, chunk)]
        } else {
            Seq::empty()
        }
    }

    /// `p` is the proof that `prove` gives for the item to be added next.
    pub open spec fn proves(
        &self,
        item: Digest,
        randomness: Digest,
        cache_indices: bool,
        p: MembershipProof,
    ) -> bool {
        &&& p.randomness == randomness
        &&& p.aocl_leaf_index == self.num_leafs()
        &&& p.auth_path_aocl == mmr_append_of(self.aocl, hash_pair_of(item, randomness)).1
        &&& p.cached_indices == if cache_indices {
            derived_indices(item, randomness, self.num_leafs())
        } else {
            None
        }
        &&& p.target_chunks.wf()
        &&& p.target_chunks@ == self.anticipated_chunks(item, randomness)
    }

    /// `s2` is this set after the addition of commitment `c`: the new leaf's
    /// MMR proof authenticates it in the grown list, and where the window
    /// slides, the archived chunk's proof authenticates it in the grown
    /// inactive filter.
    pub open spec fn adds(&self, c: Digest, s2: SetCommitment) -> bool {
        let n = self.num_leafs();
        let chunk = chunk_digest(prefix_set(self.swbf_active@));
        &&& s2.aocl == mmr_append_of(self.aocl, c).0
        &&& s2.num_leafs() == n + 1
        &&& leaf_verifies(mmr_append_of(self.aocl, c).1, n, c, mmr_peaks_of(s2.aocl), s2.num_leafs())
        &&& if slides_at(n + 1) {
            &&& s2.swbf_inactive == mmr_append_of(self.swbf_inactive, chunk).0
            &&& leaf_verifies(
                mmr_append_of(self.swbf_inactive, chunk).1,
                self.batch_index(),
                chunk,
                mmr_peaks_of(s2.swbf_inactive),
                mmr_num_leafs_of(s2.swbf_inactive),
            )
            &&& s2.swbf_active@ == slid(self.swbf_active@)
        } else {
            &&& s2.swbf_inactive == self.swbf_inactive
            &&& s2.swbf_active@ == self.swbf_active@
        }
    }

    /// Why a removal record cannot be applied to this set, if it cannot.
    pub open spec fn removal_error(&self, rr: RemovalRecord) -> Option<SetCommitmentError> {
        let ind = rr.bit_indices.0@;
        let d = rr.target_chunks@;
        if !entries_valid(d, self.swbf_inactive) {
            Some(SetCommitmentError::InvalidTargetChunks)
        } else if exists|k: int|
            0 <= k < NUM_TRIALS && #[trigger] ind[k] >= self.window_start() + WINDOW_SIZE {
            Some(SetCommitmentError::IndexBeyondWindow)
        } else if exists|k: int|
            0 <= k < NUM_TRIALS && #[trigger] ind[k] < self.window_start() && !has_key(
                d,
                chunk_of(ind[k]),
            ) {
            Some(SetCommitmentError::MissingTargetChunk)
        } else {
            None
        }
    }

    /// `s2` is this set after applying the removal record `rr`: the record's
    /// chunks, with its positions set, replace their leaves in the inactive
    /// filter (a record that carries none leaves it as it was), and its
    /// indices in the active window are set.
    pub open spec fn removes(&self, rr: RemovalRecord, s2: SetCommitment) -> bool {
        let ind = rr.bit_indices.0@;
        let start = self.window_start();
        &&& s2.aocl == self.aocl
        &&& s2.swbf_inactive == mmr_batch_mutate_of(
            self.swbf_inactive,
            Seq::empty(),
            Seq::empty(),
            mutations_of(rr.target_chunks@, ind),
        ).0
        &&& rr.target_chunks@.len() == 0 ==> s2.swbf_inactive == self.swbf_inactive
        &&& s2.swbf_active@.len() == WINDOW_SIZE
        &&& forall|i: int|
            0 <= i < WINDOW_SIZE ==> #[trigger] s2.swbf_active@[i] == (self.swbf_active@[i] || exists|
                k: int,
            | 0 <= k < NUM_TRIALS && ind[k] >= start && ind[k] - start == i)
    }

    /// The empty set: no leaves, and a clear active window.
    pub fn default() -> (r: SetCommitment)
        ensures
            r.wf(),
            r.num_leafs() == 0,
            mmr_peaks_of(r.aocl) == Seq::<Digest>::empty(),
            mmr_peaks_of(r.swbf_inactive) == Seq::<Digest>::empty(),
            forall|i: int| 0 <= i < WINDOW_SIZE ==> !r.swbf_active@[i],
    {
        SetCommitment {
            aocl: mmr_empty(),
            swbf_inactive: mmr_empty(),
            swbf_active: vec![false; WINDOW_SIZE],
        }
    }

    /// Whether the window slides on the addition that brings the commitment
    /// list to `num_leafs` leaves.
    pub fn window_slides(num_leafs: u64) -> (r: bool)
        ensures
            r == slides_at(num_leafs as int),
    {
        num_leafs != 0 && num_leafs % BATCH_SIZE as u64 == 0
    }

    /// The addition record of an item: the digest of the item and its
    /// randomness.
    pub fn commit(&self, item: &Digest, randomness: &Digest) -> (r: AdditionRecord)
        ensures
            r.canonical_commitment == hash_pair_of(*item, *randomness),
    {
        AdditionRecord::new(hash_pair(*item, *randomness))
    }

    /// The first chunk of the active window, the one that leaves on a slide.
    pub(crate) fn slide_chunk(&self) -> (r: Chunk)
        requires
            self.wf(),
        ensures
            r.wf(),
            r@ == prefix_set(self.swbf_active@),
    {
        let mut bits: Vec<u32> = Vec::new();
        let mut i: usize = 0;
        while i < CHUNK_SIZE
            invariant
                self.wf(),
                i <= CHUNK_SIZE,
                forall|a: int, b: int| 0 <= a < b < bits@.len() ==> bits@[a] < bits@[b],
                forall|a: int| 0 <= a < bits@.len() ==> bits@[a] < i,
                bits@.to_set() == Set::new(|x: u32| x < i && self.swbf_active@[x as int]),
            decreases CHUNK_SIZE - i,
        {
            if self.swbf_active[i] {
                bits.push(i as u32);
            }
            i = i + 1;
            assert(bits@.to_set() =~= Set::new(|x: u32| x < i && self.swbf_active@[x as int]));
        }
        let r = Chunk { bits };
        assert(r@ =~= prefix_set(self.swbf_active@));
        r
    }

    /// A digest of the whole set, for a block header: it binds the
    /// commitment list, the archived chunks and the active window.
    pub fn hash(&self) -> (r: Digest)
        requires
            self.wf(),
        ensures
            r == commitment_digest(*self),
    {
        let mut words: Vec<u64> = Vec::new();
        let mut w: usize = 0;
        while w < WINDOW_WORDS
            invariant
                self.wf(),
                w <= WINDOW_WORDS,
                words@.len() == w,
                forall|k: int| 0 <= k < w ==> words@[k] == window_words(self.swbf_active@)[k],
            decreases WINDOW_WORDS - w,
        {
            let base: usize = w * WORD_BITS;
            let width: usize = if w + 1 < WINDOW_WORDS {
                WORD_BITS
            } else {
                WINDOW_SIZE - base
            };
            let mut acc: u64 = 0;
            let mut bit: u64 = 1;
            let mut j: usize = 0;
            while j < width
                invariant
                    self.wf(),
                    base == w * WORD_BITS,
                    w < WINDOW_WORDS,
                    width == window_word_width(w as nat),
                    j <= width,
                    acc == bit_word(self.swbf_active@, base as nat, j as nat),
                    bit == pow2(j as nat),
                decreases width - j,
            {
                proof {
                    lemma_bit_word_bound(self.swbf_active@, base as nat, j as nat);
                    crate::chunk::lemma_pow2_monotone(j as nat, 62);
                    crate::chunk::lemma_pow2_62();
                }
                if self.swbf_active[base + j] {
                    acc = acc + bit;
                }
                bit = bit * 2;
                j = j + 1;
            }
            proof {
                lemma_bit_word_bound(self.swbf_active@, base as nat, width as nat);
                crate::chunk::lemma_pow2_monotone(width as nat, 63);
                reveal_with_fuel(pow2, 64);
            }
            words.push(acc);
            w = w + 1;
        }
        assert(words@ =~= window_words(self.swbf_active@));
        let window = hash_words(&words);
        let lists = hash_pair(mmr_bag_peaks(&self.aocl), mmr_bag_peaks(&self.swbf_inactive));
        hash_pair(lists, window)
    }

    /// A membership proof for an item that is to be added next, with the
    /// item's indices kept in it if `cache_indices`.
    pub fn prove(&self, item: &Digest, randomness: &Digest, cache_indices: bool) -> (r:
        MembershipProof)
        requires
            self.wf(),
            self.num_leafs() < u64::MAX,
        ensures
            self.proves(*item, *randomness, cache_indices, r),
    {
        let commitment = hash_pair(*item, *randomness);
        let n = mmr_num_leafs(&self.aocl);
        let mut aocl = self.aocl.clone();
        let auth_path_aocl = mmr_append(&mut aocl, commitment);
        let slides = Self::window_slides(n + 1);
        let indices = if cache_indices || slides {
            get_swbf_indices(item, randomness, n)
        } else {
            None
        };
        let mut target_chunks = ChunkDictionary::default();
        if slides {
            if let Some(a) = indices {
                let batch = n / BATCH_SIZE as u64;
                if touches_chunk(&a, batch) {
                    let chunk = self.slide_chunk();
                    let digest = chunk.hash();
                    let mut swbf = self.swbf_inactive.clone();
                    let path = mmr_append(&mut swbf, digest);
                    target_chunks.dictionary.push((batch, path, chunk));
                    assert(target_chunks@ =~= self.anticipated_chunks(*item, *randomness));
                }
            }
        }
        assert(target_chunks@ =~= self.anticipated_chunks(*item, *randomness));
        MembershipProof {
            randomness: *randomness,
            auth_path_aocl,
            aocl_leaf_index: n,
            target_chunks,
            cached_indices: if cache_indices {
                indices
            } else {
                None
            },
        }
    }

    /// Adds the item that `record` commits to, and returns the chunk index
    /// and value of the chunk that the addition archives, if the window slides.
    pub fn add_helper(&mut self, record: &AdditionRecord) -> (r: Option<(u64, Chunk)>)
        requires
            old(self).wf(),
            old(self).num_leafs() < u64::MAX,
        ensures
            final(self).wf(),
            final(self).num_leafs() == old(self).num_leafs() + 1,
            old(self).adds(record.canonical_commitment, *final(self)),
            match r {
                Some((i, c)) => slides_at(final(self).num_leafs() as int) && i == old(
                    self,
                ).batch_index() && c.wf() && c@ == prefix_set(old(self).swbf_active@),
                None => !slides_at(final(self).num_leafs() as int),
            },
    {
        let n = mmr_num_leafs(&self.aocl);
        proof {
            lemma_batch_step(n);
        }
        if !Self::window_slides(n + 1) {
            mmr_append(&mut self.aocl, record.canonical_commitment);
            proof {
                lemma_peaks_bound(self.aocl);
            }
            return None;
        }
        let chunk = self.slide_chunk();
        let digest = chunk.hash();
        mmr_append(&mut self.aocl, record.canonical_commitment);
        mmr_append(&mut self.swbf_inactive, digest);
        proof {
            lemma_peaks_bound(self.aocl);
            lemma_peaks_bound(self.swbf_inactive);
        }
        let ghost before = self.swbf_active@;
        let ghost mid = *self;
        let mut i: usize = 0;
        while i < WINDOW_SIZE - CHUNK_SIZE
            invariant
                self.aocl == mid.aocl,
                self.swbf_inactive == mid.swbf_inactive,
                i <= WINDOW_SIZE - CHUNK_SIZE,
                self.swbf_active@.len() == WINDOW_SIZE,
                before.len() == WINDOW_SIZE,
                forall|j: int| 0 <= j < i ==> self.swbf_active@[j] == before[j + CHUNK_SIZE],
                forall|j: int| i <= j < WINDOW_SIZE ==> self.swbf_active@[j] == before[j],
            decreases WINDOW_SIZE - CHUNK_SIZE - i,
        {
            let v = self.swbf_active[i + CHUNK_SIZE];
            self.swbf_active.set(i, v);
            i = i + 1;
        }
        while i < WINDOW_SIZE
            invariant
                self.aocl == mid.aocl,
                self.swbf_inactive == mid.swbf_inactive,
                WINDOW_SIZE - CHUNK_SIZE <= i <= WINDOW_SIZE,
                self.swbf_active@.len() == WINDOW_SIZE,
                forall|j: int|
                    0 <= j < WINDOW_SIZE - CHUNK_SIZE ==> self.swbf_active@[j] == before[j
                        + CHUNK_SIZE],
                forall|j: int| WINDOW_SIZE - CHUNK_SIZE <= j < i ==> !self.swbf_active@[j],
            decreases WINDOW_SIZE - i,
        {
            self.swbf_active.set(i, false);
            i = i + 1;
        }
        assert(self.swbf_active@ =~= slid(before));
        Some((n / BATCH_SIZE as u64, chunk))
    }

    /// Adds the item that `record` commits to.
    pub fn add(&mut self, record: &AdditionRecord)
        requires
            old(self).wf(),
            old(self).num_leafs() < u64::MAX,
        ensures
            final(self).wf(),
            final(self).num_leafs() == old(self).num_leafs() + 1,
            old(self).adds(record.canonical_commitment, *final(self)),
    {
        self.add_helper(record);
    }

    /// Applies a removal record: sets the removed item's indices in the
    /// active window and in the archived chunks, whose new digests replace
    /// their leaves in one batch. Nothing changes where the record cannot be
    /// applied.
    pub fn remove(&mut self, rr: &RemovalRecord) -> (r: Result<(), SetCommitmentError>)
        requires
            old(self).wf(),
            rr.target_chunks.wf(),
        ensures
            final(self).wf(),
            match r {
                Ok(()) => old(self).removal_error(*rr) is None && old(self).removes(*rr, *final(self)),
                Err(e) => old(self).removal_error(*rr) == Some(e) && *final(self) == *old(self),
            },
    {
        let n = mmr_num_leafs(&self.aocl);
        let batch: u64 = n / BATCH_SIZE as u64;
        let start: u128 = batch as u128 * CHUNK_SIZE as u128;
        let ghost ind = rr.bit_indices.0@;
        let ghost d = rr.target_chunks@;
        let valid = entry_validity(&rr.target_chunks, &self.swbf_inactive);
        let mut i: usize = 0;
        while i < valid.len()
            invariant
                *self == *old(self),
                old(self).wf(),
                d == rr.target_chunks@,
                i <= valid@.len(),
                valid@.len() == d.len(),
                forall|j: int| 0 <= j < d.len() ==> valid@[j] == entry_valid(d[j], self.swbf_inactive),
                forall|j: int| 0 <= j < i ==> entry_valid(#[trigger] d[j], self.swbf_inactive),
            decreases valid@.len() - i,
        {
            if !valid[i] {
                return Err(SetCommitmentError::InvalidTargetChunks);
            }
            i = i + 1;
        }
        let indices = rr.bit_indices.0;
        let mut k: usize = 0;
        while k < NUM_TRIALS
            invariant
                *self == *old(self),
                old(self).wf(),
                d == rr.target_chunks@,
                ind == rr.bit_indices.0@,
                entries_valid(d, self.swbf_inactive),
                k <= NUM_TRIALS,
                indices@ == ind,
                start == self.window_start(),
                forall|j: int| 0 <= j < k ==> #[trigger] ind[j] < start + WINDOW_SIZE,
            decreases NUM_TRIALS - k,
        {
            if indices[k] >= start + WINDOW_SIZE as u128 {
                return Err(SetCommitmentError::IndexBeyondWindow);
            }
            k = k + 1;
        }
        k = 0;
        while k < NUM_TRIALS
            invariant
                *self == *old(self),
                old(self).wf(),
                rr.target_chunks.wf(),
                ind == rr.bit_indices.0@,
                entries_valid(d, self.swbf_inactive),
                forall|j: int| 0 <= j < NUM_TRIALS ==> #[trigger] ind[j] < start + WINDOW_SIZE,
                k <= NUM_TRIALS,
                indices@ == ind,
                d == rr.target_chunks@,
                start == self.window_start(),
                forall|j: int|
                    0 <= j < k ==> #[trigger] ind[j] >= start || has_key(d, chunk_of(ind[j])),
            decreases NUM_TRIALS - k,
        {
            if indices[k] < start && rr.target_chunks.find((indices[k] / CHUNK_SIZE as u128) as u64).is_none() {
                return Err(SetCommitmentError::MissingTargetChunk);
            }
            k = k + 1;
        }
        let mutations = removal_mutations(&rr.target_chunks, &indices);
        let mut no_proofs: Vec<MmrMembershipProof> = Vec::new();
        let mut swbf = self.swbf_inactive.clone();
        let no_indices: Vec<u64> = Vec::new();
        proof {
            assert forall|j: int| 0 <= j < mutations@.len() implies authenticates_some_leaf(
                (#[trigger] mutations@[j]).2,
                mutations@[j].0,
                mmr_peaks_of(swbf),
                mmr_num_leafs_of(swbf),
            ) by {
                assert(entry_valid(d[j], self.swbf_inactive));
                assert(mmr_verify_of(
                    mutations@[j].2,
                    mutations@[j].0,
                    chunk_digest(d[j].2),
                    mmr_peaks_of(swbf),
                    mmr_num_leafs_of(swbf),
                ));
            }
            assert(no_indices@ =~= Seq::<u64>::empty());
            assert(no_proofs@ =~= Seq::<MmrMembershipProof>::empty());
        }
        mmr_batch_mutate(&mut swbf, &mut no_proofs, &no_indices, &mutations);
        self.swbf_inactive = swbf;
        let ghost before = self.swbf_active@;
        let ghost mid = *self;
        k = 0;
        while k < NUM_TRIALS
            invariant
                self.aocl == mid.aocl,
                self.swbf_inactive == mid.swbf_inactive,
                k <= NUM_TRIALS,
                indices@ == ind,
                before.len() == WINDOW_SIZE,
                self.swbf_active@.len() == WINDOW_SIZE,
                forall|j: int| 0 <= j < NUM_TRIALS ==> #[trigger] ind[j] < start + WINDOW_SIZE,
                forall|i: int|
                    0 <= i < WINDOW_SIZE ==> #[trigger] self.swbf_active@[i] == (before[i] || exists|
                        j: int,
                    | 0 <= j < k && ind[j] >= start && ind[j] - start == i),
            decreases NUM_TRIALS - k,
        {
            if indices[k] >= start {
                self.swbf_active.set((indices[k] - start) as usize, true);
            }
            k = k + 1;
        }
        Ok(())
    }

    /// Whether `p` proves that `item` is in the set.
    pub fn verify(&self, item: &Digest, p: &MembershipProof) -> (r: bool)
        requires
            self.wf(),
            p.target_chunks.wf(),
        ensures
            r == self.spec_verify(*item, *p),
    {
        let n = mmr_num_leafs(&self.aocl);
        if p.aocl_leaf_index >= n {
            return false;
        }
        let leaf = hash_pair(*item, p.randomness);
        let peaks = mmr_peaks(&self.aocl);
        if !verify_leaf(&p.auth_path_aocl, p.aocl_leaf_index, leaf, &peaks, n) {
            return false;
        }
        let indices = match p.cached_indices {
            Some(a) => a,
            None => match get_swbf_indices(item, &p.randomness, p.aocl_leaf_index) {
                Some(a) => a,
                None => {
                    return false;
                },
            },
        };
        self.witnessed(&p.target_chunks, &indices)
    }

    /// Whether the indices are witnessed by `d` and the active window.
    fn witnessed(&self, d: &ChunkDictionary, indices: &[u128; NUM_TRIALS]) -> (r: bool)
        requires
            self.wf(),
            d.wf(),
        ensures
            r == self.witnesses(d@, indices@),
    {
        let n = mmr_num_leafs(&self.aocl);
        let batch: u64 = n / BATCH_SIZE as u64;
        let start: u128 = batch as u128 * CHUNK_SIZE as u128;
        assert(start == self.window_start());
        let valid = entry_validity(d, &self.swbf_inactive);
        let mut all_ok = true;
        let mut some_unset = false;
        let mut k: usize = 0;
        while k < NUM_TRIALS
            invariant
                self.wf(),
                d.wf(),
                k <= NUM_TRIALS,
                start == self.window_start(),
                valid@.len() == d@.len(),
                forall|i: int| 0 <= i < d@.len() ==> valid@[i] == entry_valid(d@[i], self.swbf_inactive),
                all_ok == forall|j: int| 0 <= j < k ==> self.index_ok(d@, #[trigger] indices@[j]),
                some_unset == exists|j: int| 0 <= j < k && self.index_unset(d@, #[trigger] indices@[j]),
            decreases NUM_TRIALS - k,
        {
            let b = indices[k];
            if b < start {
                let key = (b / CHUNK_SIZE as u128) as u64;
                match d.find(key) {
                    None => {
                        all_ok = false;
                    },
                    Some(i) => {
                        proof {
                            lemma_key_position(d@, key);
                        }
                        if !valid[i] {
                            all_ok = false;
                        }
                        if !d.dictionary[i].2.get_bit((b % CHUNK_SIZE as u128) as u32) {
                            some_unset = true;
                        }
                    },
                }
            } else if b < start + WINDOW_SIZE as u128 {
                if !self.swbf_active[(b - start) as usize] {
                    some_unset = true;
                }
            } else {
                all_ok = false;
            }
            k = k + 1;
        }
        all_ok && some_unset
    }

    /// The removal record of an item with the given membership proof.
    /// Nothing is returned where the item's indices cannot be derived.
    pub fn drop(&self, item: &Digest, p: &MembershipProof) -> (r: Option<RemovalRecord>)
        requires
            p.target_chunks.wf(),
        ensures
            match r {
                Some(rr) => proof_indices(*item, *p) == Some(rr.bit_indices.0)
                    && rr.target_chunks.wf() && rr.target_chunks@ == p.target_chunks@,
                None => proof_indices(*item, *p) is None,
            },
    {
        let indices = match p.cached_indices {
            Some(a) => a,
            None => match get_swbf_indices(item, &p.randomness, p.aocl_leaf_index) {
                Some(a) => a,
                None => {
                    return None;
                },
            },
        };
        Some(RemovalRecord { bit_indices: BitSet::new(&indices), target_chunks: p.target_chunks.copy() })
    }
}

/// A 64-bit count has at most 64 one bits.
pub(crate) proof fn lemma_ones_bound(n: u64, k: nat)
    requires
        n < crate::chunk::pow2(k),
    ensures
        ones(n) <= k,
    decreases k,
{
    if n > 0 {
        assert(k > 0) by {
            reveal_with_fuel(crate::chunk::pow2, 1);
        }
        lemma_ones_bound(n / 2, (k - 1) as nat);
    }
}

pub(crate) proof fn lemma_peaks_bound(a: MmrAccumulator)
    requires
        mmr_consistent(a),
    ensures
        mmr_peaks_of(a).len() <= 64,
{
    reveal_with_fuel(crate::chunk::pow2, 65);
    lemma_ones_bound(mmr_num_leafs_of(a), 64);
}

pub(crate) proof fn lemma_batch_step(n: u64)
    requires
        n < u64::MAX,
    ensures
        slides_at(n + 1) ==> (n as int + 1) / (BATCH_SIZE as int) == (n as int) / (BATCH_SIZE as int) + 1,
        !slides_at(n + 1) ==> (n as int + 1) / (BATCH_SIZE as int) == (n as int) / (BATCH_SIZE as int),
{
}

/// The leaf mutations of a removal with the given indices and chunks.
pub(crate) fn removal_mutations(d: &ChunkDictionary, indices: &[u128; NUM_TRIALS]) -> (r: Vec<
    (u64, Digest, MmrMembershipProof),
>)
    requires
        d.wf(),
    ensures
        r@ == mutations_of(d@, indices@),
{
    let updated = d.with_bits_set(indices);
    let mut mutations: Vec<(u64, Digest, MmrMembershipProof)> = Vec::new();
    let mut i: usize = 0;
    while i < updated.dictionary.len()
        invariant
            updated.wf(),
            updated@ == crate::chunk_dictionary::with_bits(d@, indices@),
            i <= updated@.len(),
            mutations@ == mutations_of(d@, indices@).subrange(0, i as int),
        decreases updated@.len() - i,
    {
        let e = &updated.dictionary[i];
        assert(updated@[i as int] == (e.0, e.1, e.2@));
        mutations.push((e.0, e.2.hash(), e.1.clone()));
        assert(mutations@[i as int] == mutations_of(d@, indices@)[i as int]);
        i = i + 1;
        assert(mutations@ =~= mutations_of(d@, indices@).subrange(0, i as int));
    }
    assert(mutations@ =~= mutations_of(d@, indices@));
    mutations
}

/// Whether some index lies in chunk `key`.
pub(crate) fn touches_chunk(indices: &[u128; NUM_TRIALS], key: u64) -> (r: bool)
    ensures
        r == touches(indices@, key),
{
    let mut k: usize = 0;
    while k < NUM_TRIALS
        invariant
            k <= NUM_TRIALS,
            forall|j: int| 0 <= j < k ==> #[trigger] (indices@[j] / CHUNK_SIZE as u128) != key,
        decreases NUM_TRIALS - k,
    {
        if indices[k] / CHUNK_SIZE as u128 == key as u128 {
            return true;
        }
        k = k + 1;
    }
    false
}

/// Whether an MMR membership proof authenticates a leaf.
pub(crate) fn verify_leaf(
    p: &MmrMembershipProof,
    leaf_index: u64,
    leaf: Digest,
    peaks: &Vec<Digest>,
    num_leafs: u64,
) -> (r: bool)
    ensures
        r == leaf_verifies(*p, leaf_index, leaf, peaks@, num_leafs),
{
    leaf_index < num_leafs && peaks.len() <= u32::MAX as usize && mmr_verify(
        p,
        leaf_index,
        leaf,
        peaks,
        num_leafs,
    )
}

/// Whether each entry of `d` authenticates its chunk in `swbf`.
pub(crate) fn entry_validity(d: &ChunkDictionary, swbf: &MmrAccumulator) -> (r: Vec<bool>)
    requires
        d.wf(),
    ensures
        r@.len() == d@.len(),
        forall|i: int| 0 <= i < d@.len() ==> r@[i] == entry_valid(d@[i], *swbf),
{
    let peaks = mmr_peaks(swbf);
    let n = mmr_num_leafs(swbf);
    let mut r: Vec<bool> = Vec::new();
    let mut i: usize = 0;
    while i < d.dictionary.len()
        invariant
            d.wf(),
            peaks@ == mmr_peaks_of(*swbf),
            n == mmr_num_leafs_of(*swbf),
            i <= d@.len(),
            r@.len() == i,
            forall|k: int| 0 <= k < i ==> r@[k] == entry_valid(d@[k], *swbf),
        decreases d@.len() - i,
    {
        let e = &d.dictionary[i];
        let digest = e.2.hash();
        r.push(verify_leaf(&e.1, e.0, digest, &peaks, n));
        i = i + 1;
    }
    r
}

/// A proof made by `prove` for the item to be added next does not verify
/// before that item is added.
pub proof fn lemma_proof_fails_before_addition(
    s: SetCommitment,
    item: Digest,
    randomness: Digest,
    cache_indices: bool,
    p: MembershipProof,
)
    requires
        s.wf(),
        s.proves(item, randomness, cache_indices, p),
    ensures
        !s.spec_verify(item, p),
{
}

pub(crate) proof fn lemma_chunk_arith(b: u128, batch: u64)
    requires
        batch as int * CHUNK_SIZE <= b < (batch as int + 1) * CHUNK_SIZE,
    ensures
        chunk_of(b) == batch,
        b % CHUNK_SIZE as u128 == b - batch * CHUNK_SIZE,
{
    assert(b / CHUNK_SIZE as u128 == batch) by (nonlinear_arith)
        requires
            batch as int * CHUNK_SIZE <= b < (batch as int + 1) * CHUNK_SIZE,
    ;
    assert(b % CHUNK_SIZE as u128 == b - batch * CHUNK_SIZE) by (nonlinear_arith)
        requires
            batch as int * CHUNK_SIZE <= b < (batch as int + 1) * CHUNK_SIZE,
    ;
}

/// A proof made by `prove`, for an item whose commitment is then added,
/// verifies after the addition, provided that one of the item's indices is
/// still unset in the active window (as it is in a window that no removal
/// has touched).
pub proof fn lemma_fresh_proof_verifies(
    s: SetCommitment,
    item: Digest,
    randomness: Digest,
    cache_indices: bool,
    p: MembershipProof,
    s2: SetCommitment,
)
    requires
        s.wf(),
        s2.wf(),
        s.proves(item, randomness, cache_indices, p),
        s.adds(hash_pair_of(item, randomness), s2),
        derived_indices(item, randomness, s.num_leafs()) matches Some(a) && exists|k: int|
            0 <= k < NUM_TRIALS && !s.swbf_active@[#[trigger] a@[k] - s.window_start()],
    ensures
        s2.spec_verify(item, p),
{
    let n = s.num_leafs();
    let a = derived_indices(item, randomness, n)->Some_0;
    let k0 = choose|k: int| 0 <= k < NUM_TRIALS && !s.swbf_active@[#[trigger] a@[k] - s.window_start()];
    lemma_derived_in_window(item, randomness, n);
    let start = s.window_start();
    let start2 = s2.window_start();
    let batch = s.batch_index();
    assert(proof_indices(item, p) == Some(a));
    lemma_batch_step(n);
    if slides_at(n + 1) {
        assert(start2 == start + CHUNK_SIZE);
        let d = p.target_chunks@;
        assert forall|k: int| 0 <= k < NUM_TRIALS implies s2.index_ok(d, #[trigger] a@[k]) by {
            if a@[k] < start2 {
                lemma_chunk_arith(a@[k], batch);
                assert(touches(a@, batch));
                assert(d[0].0 == batch);
            }
        }
        let b0 = a@[k0];
        if b0 < start2 {
            lemma_chunk_arith(b0, batch);
            assert(touches(a@, batch));
            lemma_key_position(d, batch);
            assert(s2.index_unset(d, b0));
        } else {
            assert(s2.swbf_active@[b0 - start2] == s.swbf_active@[b0 - start]);
            assert(s2.index_unset(d, b0));
        }
    } else {
        assert(start2 == start);
        assert(s2.index_unset(p.target_chunks@, a@[k0]));
    }
}

} // verus!
