//! A chunk of the Bloom filter: a set of bit positions below `CHUNK_SIZE`,
//! stored sparsely as the ascending list of the positions that are set.
use crate::trusted::{hash_words, hash_words_of};
use crate::shared::{CHUNK_SIZE, CHUNK_WORDS, WORD_BITS};
use twenty_first::tip5::Digest;
use vstd::prelude::*;

verus! {

broadcast use vstd::seq::Seq::lemma_push_to_set_commute;

/// `s` is strictly ascending.
pub open spec fn strictly_ascending(s: Seq<u32>) -> bool {
    forall|i: int, j: int| 0 <= i < j < s.len() ==> s[i] < s[j]
}

/// 2 to the power `k`.
pub open spec fn pow2(k: nat) -> nat
    decreases k,
{
    if k == 0 {
        1
    } else {
        2 * pow2((k - 1) as nat)
    }
}

/// The integer whose bit `k`, for `k < width`, tells whether position
/// `base + k` is in `s`.
pub open spec fn word_value(s: Set<u32>, base: nat, width: nat) -> nat
    decreases width,
{
    if width == 0 {
        0
    } else {
        word_value(s, base, (width - 1) as nat) + if s.contains((base + width - 1) as u32) {
            pow2((width - 1) as nat)
        } else {
            0
        }
    }
}

/// How many positions the word with index `w` of the dense encoding covers.
pub open spec fn word_width(w: nat) -> nat {
    if w + 1 < CHUNK_WORDS {
        WORD_BITS as nat
    } else {
        (CHUNK_SIZE - w * WORD_BITS) as nat
    }
}

/// The dense encoding of a chunk: `CHUNK_WORDS` words of `WORD_BITS` bits
/// each (the last one shorter), bit `k` of word `w` telling whether position
/// `w * WORD_BITS + k` is set.
pub open spec fn dense_words(s: Set<u32>) -> Seq<u64> {
    Seq::new(
        CHUNK_WORDS as nat,
        |w: int| word_value(s, (w * WORD_BITS) as nat, word_width(w as nat)) as u64,
    )
}

/// The digest of a chunk with the given set positions.
pub open spec fn chunk_digest(s: Set<u32>) -> Digest {
    hash_words_of(dense_words(s))
}

proof fn lemma_word_value_bound(s: Set<u32>, base: nat, width: nat)
    ensures
        word_value(s, base, width) < pow2(width),
    decreases width,
{
    if width > 0 {
        lemma_word_value_bound(s, base, (width - 1) as nat);
    }
}

pub(crate) proof fn lemma_pow2_62()
    ensures
        pow2(62) == 0x4000_0000_0000_0000nat,
{
    reveal_with_fuel(pow2, 63);
}

pub(crate) proof fn lemma_pow2_monotone(a: nat, b: nat)
    requires
        a <= b,
    ensures
        pow2(a) <= pow2(b),
    decreases b,
{
    if a < b {
        lemma_pow2_monotone(a, (b - 1) as nat);
    }
}

proof fn lemma_ascending_steps(s: Seq<u32>, a: int, b: int)
    requires
        0 <= a < b < s.len(),
        forall|k: int| 0 <= k && k + 1 < s.len() ==> #[trigger] s[k] < s[k + 1],
    ensures
        s[a] < s[b],
    decreases b - a,
{
    if b > a + 1 {
        lemma_ascending_steps(s, a, b - 1);
    }
}

/// A set of positions below `CHUNK_SIZE`, as the ascending list of them.
#[derive(Clone, Debug)]
pub struct Chunk {
    pub bits: Vec<u32>,
}

impl View for Chunk {
    type V = Set<u32>;

    open spec fn view(&self) -> Set<u32> {
        self.bits@.to_set()
    }
}

impl Chunk {
    /// The positions are strictly ascending and below `CHUNK_SIZE`.
    pub open spec fn wf(&self) -> bool {
        &&& strictly_ascending(self.bits@)
        &&& forall|i: int| 0 <= i < self.bits@.len() ==> self.bits@[i] < CHUNK_SIZE
    }

    /// Whether the positions are strictly ascending and below `CHUNK_SIZE`.
    pub fn is_wf(&self) -> (r: bool)
        ensures
            r == self.wf(),
    {
        let mut i: usize = 0;
        while i < self.bits.len()
            invariant
                i <= self.bits@.len(),
                forall|k: int| 0 <= k < i ==> self.bits@[k] < CHUNK_SIZE,
                forall|k: int|
                    0 <= k < i && k + 1 < self.bits@.len() ==> #[trigger] self.bits@[k]
                        < self.bits@[k + 1],
            decreases self.bits@.len() - i,
        {
            if self.bits[i] >= CHUNK_SIZE as u32 {
                return false;
            }
            if i + 1 < self.bits.len() && self.bits[i] >= self.bits[i + 1] {
                return false;
            }
            i = i + 1;
        }
        proof {
            assert forall|a: int, b: int| 0 <= a < b < self.bits@.len() implies self.bits@[a]
                < self.bits@[b] by {
                lemma_ascending_steps(self.bits@, a, b);
            }
        }
        true
    }

    /// The chunk with no position set.
    pub fn empty_chunk() -> (r: Chunk)
        ensures
            r.wf(),
            r@ == Set::<u32>::empty(),
            r.bits@.len() == 0,
    {
        let r = Chunk { bits: Vec::new() };
        assert(r@ =~= Set::<u32>::empty());
        r
    }

    /// The first position in `bits` whose value is not below `index`.
    fn lower_bound(&self, index: u32) -> (p: usize)
        requires
            self.wf(),
        ensures
            p <= self.bits@.len(),
            forall|i: int| 0 <= i < p ==> self.bits@[i] < index,
            forall|i: int| p <= i < self.bits@.len() ==> self.bits@[i] >= index,
    {
        let mut p: usize = 0;
        while p < self.bits.len() && self.bits[p] < index
            invariant
                self.wf(),
                p <= self.bits@.len(),
                forall|i: int| 0 <= i < p ==> self.bits@[i] < index,
            decreases self.bits@.len() - p,
        {
            p = p + 1;
        }
        p
    }

    /// Sets position `index`.
    pub fn set_bit(&mut self, index: u32)
        requires
            old(self).wf(),
            index < CHUNK_SIZE,
        ensures
            final(self).wf(),
            final(self)@ == old(self)@.insert(index),
    {
        let p = self.lower_bound(index);
        if p < self.bits.len() && self.bits[p] == index {
            assert(self@ =~= old(self)@.insert(index)) by {
                assert(self.bits@.contains(index));
            }
            return ;
        }
        let ghost before = self.bits@;
        self.bits.insert(p, index);
        assert(self.bits@ == before.insert(p as int, index));
        assert forall|i: int, j: int| 0 <= i < j < self.bits@.len() implies self.bits@[i]
            < self.bits@[j] by {
            if j < p {
            } else if j == p {
            } else if i < p {
            } else if i == p {
                assert(before[j - 1] >= index);
                assert(before[j - 1] != index);
            } else {
                assert(before[i - 1] < before[j - 1]);
            }
        }
        assert(self@ =~= old(self)@.insert(index)) by {
            assert forall|x: u32| old(self).bits@.contains(x) || x == index implies self.bits@.contains(
                x,
            ) by {
                if x == index {
                    assert(self.bits@[p as int] == index);
                } else if old(self).bits@.contains(x) {
                    let k = choose|k: int| 0 <= k < before.len() && before[k] == x;
                    if k < p {
                        assert(self.bits@[k] == x);
                    } else {
                        assert(self.bits@[k + 1] == x);
                    }
                }
            }
            assert forall|x: u32| self.bits@.contains(x) implies old(self).bits@.contains(x) || x
                == index by {
                let k = choose|k: int| 0 <= k < self.bits@.len() && self.bits@[k] == x;
                if k < p {
                    assert(before[k] == x);
                } else if k > p {
                    assert(before[k - 1] == x);
                }
            }
        }
    }

    /// Clears position `index`.
    pub fn unset_bit(&mut self, index: u32)
        requires
            old(self).wf(),
            index < CHUNK_SIZE,
        ensures
            final(self).wf(),
            final(self)@ == old(self)@.remove(index),
    {
        let p = self.lower_bound(index);
        if p < self.bits.len() && self.bits[p] == index {
            let ghost before = self.bits@;
            self.bits.remove(p);
            assert(self.bits@ == before.remove(p as int));
            assert forall|i: int, j: int| 0 <= i < j < self.bits@.len() implies self.bits@[i]
                < self.bits@[j] by {
                if j < p {
                } else if i < p {
                    assert(before[i] < before[j + 1]);
                } else {
                    assert(before[i + 1] < before[j + 1]);
                }
            }
            assert(self@ =~= old(self)@.remove(index)) by {
                assert forall|x: u32| old(self).bits@.contains(x) && x != index implies self.bits@.contains(
                    x,
                ) by {
                    let k = choose|k: int| 0 <= k < before.len() && before[k] == x;
                    if k < p {
                        assert(self.bits@[k] == x);
                    } else {
                        assert(k != p);
                        assert(self.bits@[k - 1] == x);
                    }
                }
                assert forall|x: u32| self.bits@.contains(x) implies old(self).bits@.contains(x)
                    && x != index by {
                    let k = choose|k: int| 0 <= k < self.bits@.len() && self.bits@[k] == x;
                    if k < p {
                        assert(before[k] == x);
                    } else {
                        assert(before[k + 1] == x);
                        assert(before[p as int] < before[k + 1]);
                    }
                }
            }
        } else {
            assert(self@ =~= old(self)@.remove(index)) by {
                assert forall|x: u32| self.bits@.contains(x) implies x != index by {
                    let k = choose|k: int| 0 <= k < self.bits@.len() && self.bits@[k] == x;
                    if k < p {
                    } else if k > p {
                        assert(self.bits@[p as int] < self.bits@[k]);
                    }
                }
            }
        }
    }

    /// Whether position `index` is set.
    pub fn get_bit(&self, index: u32) -> (r: bool)
        requires
            self.wf(),
            index < CHUNK_SIZE,
        ensures
            r == self@.contains(index),
    {
        let p = self.lower_bound(index);
        let r = p < self.bits.len() && self.bits[p] == index;
        proof {
            if self@.contains(index) {
                let k = choose|k: int| 0 <= k < self.bits@.len() && self.bits@[k] == index;
                if k > p {
                    assert(self.bits@[p as int] < self.bits@[k]);
                }
            }
        }
        r
    }

    /// The positions set in either chunk.
    pub fn or(self, other: Self) -> (r: Self)
        requires
            self.wf(),
            other.wf(),
        ensures
            r.wf(),
            r@ == self@.union(other@),
    {
        let mut r = self;
        let mut i: usize = 0;
        while i < other.bits.len()
            invariant
                r.wf(),
                other.wf(),
                i <= other.bits@.len(),
                r@ == self@.union(other.bits@.subrange(0, i as int).to_set()),
            decreases other.bits@.len() - i,
        {
            let b = other.bits[i];
            r.set_bit(b);
            i = i + 1;
            assert(other.bits@.subrange(0, i as int) == other.bits@.subrange(0, i - 1).push(b));
            assert(r@ =~= self@.union(other.bits@.subrange(0, i as int).to_set()));
        }
        assert(other.bits@.subrange(0, i as int) == other.bits@);
        r
    }

    /// Keeps the positions set in exactly one of the two chunks.
    pub fn xor_assign(&mut self, other: Self)
        requires
            old(self).wf(),
            other.wf(),
        ensures
            final(self).wf(),
            final(self)@ == old(self)@.difference(other@).union(other@.difference(old(self)@)),
    {
        let ghost a = self@;
        let mut i: usize = 0;
        while i < other.bits.len()
            invariant
                self.wf(),
                other.wf(),
                i <= other.bits@.len(),
                ({
                    let p = other.bits@.subrange(0, i as int).to_set();
                    self@ == a.difference(p).union(p.difference(a))
                }),
            decreases other.bits@.len() - i,
        {
            let b = other.bits[i];
            let ghost p = other.bits@.subrange(0, i as int).to_set();
            assert(!p.contains(b)) by {
                if p.contains(b) {
                    let k = choose|k: int|
                        0 <= k < i && other.bits@.subrange(0, i as int)[k] == b;
                    assert(other.bits@[k] < other.bits@[i as int]);
                }
            }
            if self.get_bit(b) {
                self.unset_bit(b);
            } else {
                self.set_bit(b);
            }
            i = i + 1;
            assert(other.bits@.subrange(0, i as int) == other.bits@.subrange(0, i - 1).push(b));
            let ghost q = other.bits@.subrange(0, i as int).to_set();
            assert(q =~= p.insert(b));
            assert(self@ =~= a.difference(q).union(q.difference(a)));
        }
        assert(other.bits@.subrange(0, i as int) == other.bits@);
    }

    /// The positions set in both chunks.
    pub fn and(self, other: Self) -> (r: Self)
        requires
            self.wf(),
            other.wf(),
        ensures
            r.wf(),
            r@ == self@.intersect(other@),
    {
        let mut r = Chunk::empty_chunk();
        let mut i: usize = 0;
        while i < self.bits.len()
            invariant
                self.wf(),
                other.wf(),
                i <= self.bits@.len(),
                strictly_ascending(r.bits@),
                forall|k: int|
                    0 <= k < r.bits@.len() ==> self.bits@.subrange(0, i as int).contains(
                        #[trigger] r.bits@[k],
                    ),
                r@ == self.bits@.subrange(0, i as int).to_set().intersect(other@),
            decreases self.bits@.len() - i,
        {
            let b = self.bits[i];
            let ghost before = r.bits@;
            if other.get_bit(b) {
                r.bits.push(b);
                assert(r.bits@ == before.push(b));
                assert forall|x: int, y: int| 0 <= x < y < r.bits@.len() implies r.bits@[x]
                    < r.bits@[y] by {
                    if y == before.len() {
                        assert(self.bits@.subrange(0, i as int).contains(before[x]));
                        let j = choose|j: int|
                            0 <= j < i && self.bits@.subrange(0, i as int)[j] == before[x];
                        assert(self.bits@[j] < self.bits@[i as int]);
                    }
                }
            }
            assert(self.bits@.subrange(0, i + 1) == self.bits@.subrange(0, i as int).push(b));
            assert forall|k: int| 0 <= k < r.bits@.len() implies self.bits@.subrange(
                0,
                i + 1,
            ).contains(#[trigger] r.bits@[k]) by {
                if k < before.len() {
                    assert(self.bits@.subrange(0, i as int).contains(before[k]));
                    let j = choose|j: int|
                        0 <= j < i && self.bits@.subrange(0, i as int)[j] == before[k];
                    assert(self.bits@.subrange(0, i + 1)[j] == before[k]);
                } else {
                    assert(self.bits@.subrange(0, i + 1)[i as int] == b);
                }
            }
            i = i + 1;
            assert(self.bits@.subrange(0, i as int) == self.bits@.subrange(0, i - 1).push(b));
            assert(r@ =~= self.bits@.subrange(0, i as int).to_set().intersect(other@));
        }
        assert(self.bits@.subrange(0, i as int) == self.bits@);
        proof {
            assert forall|k: int| 0 <= k < r.bits@.len() implies r.bits@[k] < CHUNK_SIZE by {
                assert(self.bits@.contains(r.bits@[k]));
            }
        }
        r
    }

    /// No position is set.
    pub fn is_unset(&self) -> (r: bool)
        ensures
            r == (self@ == Set::<u32>::empty()),
    {
        let r = self.bits.len() == 0;
        proof {
            if r {
                assert(self@ =~= Set::<u32>::empty());
            } else {
                assert(self@.contains(self.bits@[0]));
            }
        }
        r
    }

    /// The set positions, ascending, as indices.
    pub fn to_indices(&self) -> (r: Vec<u128>)
        ensures
            r@ == self.bits@.map_values(|b: u32| b as u128),
    {
        let mut r: Vec<u128> = Vec::new();
        let mut i: usize = 0;
        while i < self.bits.len()
            invariant
                i <= self.bits@.len(),
                r@ == self.bits@.subrange(0, i as int).map_values(|b: u32| b as u128),
            decreases self.bits@.len() - i,
        {
            r.push(self.bits[i] as u128);
            i = i + 1;
            assert(r@ =~= self.bits@.subrange(0, i as int).map_values(|b: u32| b as u128));
        }
        assert(self.bits@.subrange(0, i as int) == self.bits@);
        r
    }

    /// The chunk whose set positions are the given indices.
    pub fn from_indices(indices: &[u128]) -> (r: Chunk)
        requires
            forall|i: int| 0 <= i < indices@.len() ==> indices@[i] < CHUNK_SIZE,
        ensures
            r.wf(),
            r@ == indices@.map_values(|b: u128| b as u32).to_set(),
    {
        let mut r = Chunk::empty_chunk();
        let mut i: usize = 0;
        while i < indices.len()
            invariant
                r.wf(),
                i <= indices@.len(),
                forall|k: int| 0 <= k < indices@.len() ==> indices@[k] < CHUNK_SIZE,
                r@ == indices@.subrange(0, i as int).map_values(|b: u128| b as u32).to_set(),
            decreases indices@.len() - i,
        {
            let b = indices[i] as u32;
            r.set_bit(b);
            i = i + 1;
            assert(indices@.subrange(0, i as int).map_values(|b: u128| b as u32) == indices@.subrange(
                0,
                i - 1,
            ).map_values(|b: u128| b as u32).push(b));
            assert(r@ =~= indices@.subrange(0, i as int).map_values(|b: u128| b as u32).to_set());
        }
        assert(indices@.subrange(0, i as int) == indices@);
        r
    }

    /// The chunk whose set positions are the given positions.
    pub fn from_slice(sl: &[u32]) -> (r: Chunk)
        requires
            forall|i: int| 0 <= i < sl@.len() ==> sl@[i] < CHUNK_SIZE,
        ensures
            r.wf(),
            r@ == sl@.to_set(),
    {
        let mut r = Chunk::empty_chunk();
        let mut i: usize = 0;
        while i < sl.len()
            invariant
                r.wf(),
                i <= sl@.len(),
                forall|k: int| 0 <= k < sl@.len() ==> sl@[k] < CHUNK_SIZE,
                r@ == sl@.subrange(0, i as int).to_set(),
            decreases sl@.len() - i,
        {
            let b = sl[i];
            r.set_bit(b);
            i = i + 1;
            assert(sl@.subrange(0, i as int) == sl@.subrange(0, i - 1).push(b));
            assert(r@ =~= sl@.subrange(0, i as int).to_set());
        }
        assert(sl@.subrange(0, i as int) == sl@);
        r
    }

    /// A copy of this chunk.
    pub(crate) fn copy(&self) -> (r: Chunk)
        ensures
            r.bits@ == self.bits@,
            r@ == self@,
    {
        let mut bits: Vec<u32> = Vec::new();
        let mut i: usize = 0;
        while i < self.bits.len()
            invariant
                i <= self.bits@.len(),
                bits@ == self.bits@.subrange(0, i as int),
            decreases self.bits@.len() - i,
        {
            bits.push(self.bits[i]);
            i = i + 1;
            assert(bits@ =~= self.bits@.subrange(0, i as int));
        }
        assert(bits@ =~= self.bits@);
        Chunk { bits }
    }

    /// The digest of the chunk's dense encoding.
    pub fn hash(&self) -> (r: Digest)
        requires
            self.wf(),
        ensures
            r == chunk_digest(self@),
    {
        let mut words: Vec<u64> = Vec::new();
        let mut ptr: usize = 0;
        let mut w: usize = 0;
        while w < CHUNK_WORDS
            invariant
                self.wf(),
                w <= CHUNK_WORDS,
                ptr <= self.bits@.len(),
                words@.len() == w,
                forall|k: int| 0 <= k < w ==> words@[k] == dense_words(self@)[k],
                forall|k: int| 0 <= k < ptr ==> self.bits@[k] < w * WORD_BITS,
                forall|k: int| ptr <= k < self.bits@.len() ==> self.bits@[k] >= w * WORD_BITS,
            decreases CHUNK_WORDS - w,
        {
            let base: usize = w * WORD_BITS;
            let width: usize = if w + 1 < CHUNK_WORDS {
                WORD_BITS
            } else {
                CHUNK_SIZE - base
            };
            assert(width == word_width(w as nat));
            let mut acc: u64 = 0;
            let mut bit: u64 = 1;
            let mut j: usize = 0;
            while j < width
                invariant
                    self.wf(),
                    base == w * WORD_BITS,
                    w < CHUNK_WORDS,
                    width == word_width(w as nat),
                    j <= width,
                    ptr <= self.bits@.len(),
                    acc == word_value(self@, base as nat, j as nat),
                    bit == pow2(j as nat),
                    forall|k: int| 0 <= k < ptr ==> self.bits@[k] < base + j,
                    forall|k: int| ptr <= k < self.bits@.len() ==> self.bits@[k] >= base + j,
                decreases width - j,
            {
                let pos: u32 = (base + j) as u32;
                let is_set = ptr < self.bits.len() && self.bits[ptr] == pos;
                proof {
                    if self@.contains(pos) {
                        assert(self.bits@.contains(pos));
                        let k = choose|k: int| 0 <= k < self.bits@.len() && self.bits@[k] == pos;
                        if k > ptr {
                            assert(self.bits@[ptr as int] < self.bits@[k]);
                        }
                    }
                    if is_set {
                        assert(self@.contains(pos)) by {
                            assert(self.bits@.contains(pos));
                        }
                    }
                    lemma_word_value_bound(self@, base as nat, j as nat);
                    lemma_pow2_monotone(j as nat, 62);
                    lemma_pow2_62();
                }
                if is_set {
                    acc = acc + bit;
                    proof {
                        assert forall|k: int| ptr < k < self.bits@.len() implies self.bits@[k]
                            >= base + j + 1 by {
                            assert(self.bits@[ptr as int] < self.bits@[k]);
                        }
                    }
                    ptr = ptr + 1;
                }
                bit = bit * 2;
                j = j + 1;
            }
            words.push(acc);
            proof {
                lemma_word_value_bound(self@, base as nat, width as nat);
                lemma_pow2_monotone(width as nat, 63);
                reveal_with_fuel(pow2, 64);
                assert forall|k: int| ptr <= k < self.bits@.len() implies self.bits@[k] >= (w + 1)
                    * WORD_BITS by {
                    assert(self.bits@[k] < CHUNK_SIZE);
                }
            }
            w = w + 1;
        }
        assert(words@ =~= dense_words(self@));
        hash_words(&words)
    }
}

impl PartialEq for Chunk {
    fn eq(&self, other: &Chunk) -> (r: bool) {
        if self.bits.len() != other.bits.len() {
            return false;
        }
        let mut i: usize = 0;
        while i < self.bits.len()
            invariant
                self.bits@.len() == other.bits@.len(),
                i <= self.bits@.len(),
                self.bits@.subrange(0, i as int) == other.bits@.subrange(0, i as int),
            decreases self.bits@.len() - i,
        {
            if self.bits[i] != other.bits[i] {
                return false;
            }
            assert(self.bits@.subrange(0, i + 1) =~= other.bits@.subrange(0, i + 1)) by {
                assert(self.bits@.subrange(0, i + 1) =~= self.bits@.subrange(0, i as int).push(
                    self.bits@[i as int],
                ));
                assert(other.bits@.subrange(0, i + 1) =~= other.bits@.subrange(0, i as int).push(
                    other.bits@[i as int],
                ));
            }
            i = i + 1;
        }
        assert(self.bits@ =~= self.bits@.subrange(0, i as int));
        assert(other.bits@ =~= other.bits@.subrange(0, i as int));
        true
    }
}

impl vstd::std_specs::cmp::PartialEqSpecImpl for Chunk {
    open spec fn obeys_eq_spec() -> bool {
        true
    }

    open spec fn eq_spec(&self, other: &Chunk) -> bool {
        self.bits@ == other.bits@
    }
}

impl Eq for Chunk {

}

} // verus!
