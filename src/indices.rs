//! Derivation of an item's Bloom filter indices from the item, its
//! commitment randomness and its leaf index in the commitment list.
use crate::trusted::{
    digest_head, digest_head_of, hash_pair, hash_pair_of, encode_u128, encode_u128_of,
};
use crate::shared::{BATCH_SIZE, CHUNK_SIZE, NUM_TRIALS, SAMPLE_LIMIT, WINDOW_SIZE};
use twenty_first::tip5::Digest;
use vstd::prelude::*;

verus! {

broadcast use vstd::seq::Seq::lemma_push_to_set_commute;

/// `s` is strictly ascending.
pub open spec fn ascending(s: Seq<u128>) -> bool {
    forall|i: int, j: int| 0 <= i < j < s.len() ==> s[i] < s[j]
}

/// The first bit index of the window in which the item added at
/// `leaf_index` places its indices.
pub open spec fn batch_start(leaf_index: u64) -> u128 {
    ((leaf_index / BATCH_SIZE as u64) * CHUNK_SIZE) as u128
}

/// The digest from which all samples of one item are drawn.
pub open spec fn index_seed(item: Digest, randomness: Digest, leaf_index: u64) -> Digest {
    hash_pair_of(item, hash_pair_of(encode_u128_of(leaf_index as u128), randomness))
}

/// The sample that a counter value yields: a value in the window, or none
/// where the digest's value falls in the biased top range and is rejected.
pub open spec fn sample_at(item: Digest, randomness: Digest, leaf_index: u64, counter: u128) -> Option<
    u128,
> {
    let v = digest_head_of(hash_pair_of(encode_u128_of(counter), index_seed(item, randomness, leaf_index)));
    if v < SAMPLE_LIMIT {
        Some(((v % WINDOW_SIZE as u64) as u128 + batch_start(leaf_index)) as u128)
    } else {
        None
    }
}

/// The distinct samples of the counter values below `k`.
pub open spec fn samples_below(item: Digest, randomness: Digest, leaf_index: u64, k: nat) -> Set<
    u128,
>
    decreases k,
{
    if k == 0 {
        Set::empty()
    } else {
        let prev = samples_below(item, randomness, leaf_index, (k - 1) as nat);
        match sample_at(item, randomness, leaf_index, (k - 1) as u128) {
            Some(x) => prev.insert(x),
            None => prev,
        }
    }
}

/// `k` is the least number of counter values that yields `NUM_TRIALS`
/// distinct samples.
pub open spec fn derivation_ends_at(item: Digest, randomness: Digest, leaf_index: u64, k: nat) -> bool {
    &&& 1 <= k <= u128::MAX
    &&& samples_below(item, randomness, leaf_index, k).len() == NUM_TRIALS
    &&& samples_below(item, randomness, leaf_index, (k - 1) as nat).len() < NUM_TRIALS
}

/// `s` is the index list of the item: the distinct samples of the fewest
/// counter values that give `NUM_TRIALS` of them, in ascending order.
pub open spec fn is_index_list(s: Seq<u128>, item: Digest, randomness: Digest, leaf_index: u64) -> bool {
    &&& s.len() == NUM_TRIALS
    &&& ascending(s)
    &&& exists|k: nat|
        derivation_ends_at(item, randomness, leaf_index, k) && s.to_set() == samples_below(
            item,
            randomness,
            leaf_index,
            k,
        )
}

/// The result of the index derivation: the index list, or nothing where the
/// counter range holds fewer than `NUM_TRIALS` distinct samples.
pub open spec fn is_derivation_result(
    r: Option<[u128; NUM_TRIALS]>,
    item: Digest,
    randomness: Digest,
    leaf_index: u64,
) -> bool {
    match r {
        Some(a) => is_index_list(a@, item, randomness, leaf_index),
        None => samples_below(item, randomness, leaf_index, u128::MAX as nat).len() < NUM_TRIALS,
    }
}

/// The result of the index derivation for the given inputs.
pub open spec fn derived_indices(item: Digest, randomness: Digest, leaf_index: u64) -> Option<
    [u128; NUM_TRIALS],
> {
    if exists|r: Option<[u128; NUM_TRIALS]>| is_derivation_result(r, item, randomness, leaf_index) {
        choose|r: Option<[u128; NUM_TRIALS]>| is_derivation_result(r, item, randomness, leaf_index)
    } else {
        None
    }
}

pub proof fn lemma_samples_finite(item: Digest, randomness: Digest, leaf_index: u64, k: nat)
    ensures
        samples_below(item, randomness, leaf_index, k).finite(),
    decreases k,
{
    if k > 0 {
        lemma_samples_finite(item, randomness, leaf_index, (k - 1) as nat);
    }
}

pub proof fn lemma_samples_monotone(
    item: Digest,
    randomness: Digest,
    leaf_index: u64,
    a: nat,
    b: nat,
)
    requires
        a <= b,
    ensures
        samples_below(item, randomness, leaf_index, a).subset_of(
            samples_below(item, randomness, leaf_index, b),
        ),
    decreases b,
{
    if a < b {
        lemma_samples_monotone(item, randomness, leaf_index, a, (b - 1) as nat);
    }
}

pub proof fn lemma_samples_in_window(item: Digest, randomness: Digest, leaf_index: u64, k: nat)
    ensures
        forall|x: u128|
            #[trigger] samples_below(item, randomness, leaf_index, k).contains(x) ==> batch_start(
                leaf_index,
            ) <= x < batch_start(leaf_index) + WINDOW_SIZE,
    decreases k,
{
    if k > 0 {
        lemma_samples_in_window(item, randomness, leaf_index, (k - 1) as nat);
        let prev = samples_below(item, randomness, leaf_index, (k - 1) as nat);
        let start = batch_start(leaf_index);
        assert(start <= 0xffff_ffff_ffff_ffffu128 * CHUNK_SIZE);
        let v = digest_head_of(
            hash_pair_of(encode_u128_of((k - 1) as u128), index_seed(item, randomness, leaf_index)),
        );
        assert((v % WINDOW_SIZE as u64) < WINDOW_SIZE);
        assert forall|x: u128| #[trigger]
            samples_below(item, randomness, leaf_index, k).contains(x) implies start <= x < start
            + WINDOW_SIZE by {
            if !prev.contains(x) {
                assert(sample_at(item, randomness, leaf_index, (k - 1) as u128) == Some(x));
            }
        }
    }
}

/// Two ascending sequences with the same elements are equal.
pub proof fn lemma_ascending_unique(a: Seq<u128>, b: Seq<u128>)
    requires
        ascending(a),
        ascending(b),
        a.to_set() == b.to_set(),
    ensures
        a == b,
    decreases a.len(),
{
    if a.len() == 0 {
        if b.len() > 0 {
            assert(b.to_set().contains(b[0]));
        }
        assert(a =~= b);
    } else {
        assert(b.len() > 0) by {
            assert(a.to_set().contains(a[0]));
        }
        assert(a[0] == b[0]) by {
            assert(b.to_set().contains(a[0]));
            assert(a.to_set().contains(b[0]));
            let i = choose|i: int| 0 <= i < b.len() && b[i] == a[0];
            let j = choose|j: int| 0 <= j < a.len() && a[j] == b[0];
            if i > 0 {
                assert(b[0] < b[i]);
                assert(a[0] <= a[j]);
            }
        }
        let a1 = a.drop_first();
        let b1 = b.drop_first();
        assert(a1.to_set() =~= b1.to_set()) by {
            assert forall|x: u128| a1.to_set().contains(x) implies b1.to_set().contains(x) by {
                let i = choose|i: int| 0 <= i < a1.len() && a1[i] == x;
                assert(a[i + 1] == x);
                assert(a[0] < a[i + 1]);
                assert(b.to_set().contains(x));
                let k = choose|k: int| 0 <= k < b.len() && b[k] == x;
                assert(k != 0);
                assert(b1[k - 1] == x);
            }
            assert forall|x: u128| b1.to_set().contains(x) implies a1.to_set().contains(x) by {
                let i = choose|i: int| 0 <= i < b1.len() && b1[i] == x;
                assert(b[i + 1] == x);
                assert(b[0] < b[i + 1]);
                assert(a.to_set().contains(x));
                let k = choose|k: int| 0 <= k < a.len() && a[k] == x;
                assert(k != 0);
                assert(a1[k - 1] == x);
            }
        }
        lemma_ascending_unique(a1, b1);
        assert(a =~= b) by {
            assert forall|i: int| 0 <= i < a.len() implies a[i] == b[i] by {
                if i > 0 {
                    assert(a[i] == a1[i - 1]);
                    assert(b[i] == b1[i - 1]);
                }
            }
        }
    }
}

/// Index derivation is a function of its three inputs: any two results
/// that meet its contract for the same inputs are equal.
pub proof fn lemma_index_derivation_deterministic(
    a: Option<[u128; NUM_TRIALS]>,
    b: Option<[u128; NUM_TRIALS]>,
    item: Digest,
    randomness: Digest,
    leaf_index: u64,
)
    requires
        is_derivation_result(a, item, randomness, leaf_index),
        is_derivation_result(b, item, randomness, leaf_index),
    ensures
        a == b,
{
    let end = u128::MAX as nat;
    match (a, b) {
        (Some(x), Some(y)) => {
            let kx = choose|k: nat|
                derivation_ends_at(item, randomness, leaf_index, k) && x@.to_set() == samples_below(
                    item,
                    randomness,
                    leaf_index,
                    k,
                );
            let ky = choose|k: nat|
                derivation_ends_at(item, randomness, leaf_index, k) && y@.to_set() == samples_below(
                    item,
                    randomness,
                    leaf_index,
                    k,
                );
            lemma_ends_unique(item, randomness, leaf_index, kx, ky);
            lemma_ascending_unique(x@, y@);
            assert(x =~= y);
        },
        (Some(x), None) => {
            lemma_none_excludes_some(x, item, randomness, leaf_index);
        },
        (None, Some(y)) => {
            lemma_none_excludes_some(y, item, randomness, leaf_index);
        },
        (None, None) => {},
    }
}

proof fn lemma_ends_unique(item: Digest, randomness: Digest, leaf_index: u64, a: nat, b: nat)
    requires
        derivation_ends_at(item, randomness, leaf_index, a),
        derivation_ends_at(item, randomness, leaf_index, b),
    ensures
        a == b,
{
    if a < b {
        lemma_samples_monotone(item, randomness, leaf_index, a, (b - 1) as nat);
        lemma_samples_finite(item, randomness, leaf_index, (b - 1) as nat);
        vstd::set_lib::lemma_len_subset(
            samples_below(item, randomness, leaf_index, a),
            samples_below(item, randomness, leaf_index, (b - 1) as nat),
        );
    } else if b < a {
        lemma_samples_monotone(item, randomness, leaf_index, b, (a - 1) as nat);
        lemma_samples_finite(item, randomness, leaf_index, (a - 1) as nat);
        vstd::set_lib::lemma_len_subset(
            samples_below(item, randomness, leaf_index, b),
            samples_below(item, randomness, leaf_index, (a - 1) as nat),
        );
    }
}

proof fn lemma_none_excludes_some(
    x: [u128; NUM_TRIALS],
    item: Digest,
    randomness: Digest,
    leaf_index: u64,
)
    requires
        is_index_list(x@, item, randomness, leaf_index),
    ensures
        samples_below(item, randomness, leaf_index, u128::MAX as nat).len() >= NUM_TRIALS,
{
    let k = choose|k: nat|
        derivation_ends_at(item, randomness, leaf_index, k) && x@.to_set() == samples_below(
            item,
            randomness,
            leaf_index,
            k,
        );
    lemma_samples_monotone(item, randomness, leaf_index, k, u128::MAX as nat);
    lemma_samples_finite(item, randomness, leaf_index, u128::MAX as nat);
    vstd::set_lib::lemma_len_subset(
        samples_below(item, randomness, leaf_index, k),
        samples_below(item, randomness, leaf_index, u128::MAX as nat),
    );
}

/// A derived index list lies in the window of the item's batch.
pub proof fn lemma_derived_in_window(item: Digest, randomness: Digest, leaf_index: u64)
    requires
        derived_indices(item, randomness, leaf_index) is Some,
    ensures
        forall|i: int|
            0 <= i < NUM_TRIALS ==> batch_start(leaf_index) <= #[trigger] derived_indices(
                item,
                randomness,
                leaf_index,
            )->Some_0@[i] < batch_start(leaf_index) + WINDOW_SIZE,
{
    let r = derived_indices(item, randomness, leaf_index);
    assert(is_derivation_result(r, item, randomness, leaf_index));
    let a = r->Some_0;
    let k = choose|k: nat|
        derivation_ends_at(item, randomness, leaf_index, k) && a@.to_set() == samples_below(
            item,
            randomness,
            leaf_index,
            k,
        );
    lemma_samples_in_window(item, randomness, leaf_index, k);
    assert forall|i: int| 0 <= i < NUM_TRIALS implies batch_start(leaf_index) <= #[trigger] a@[i]
        < batch_start(leaf_index) + WINDOW_SIZE by {
        assert(a@.to_set().contains(a@[i]));
    }
}

/// Inserts `x` into the ascending `v` unless it is there already.
fn insert_ascending(v: &mut Vec<u128>, x: u128)
    requires
        ascending(old(v)@),
    ensures
        ascending(final(v)@),
        final(v)@.to_set() == old(v)@.to_set().insert(x),
{
    let mut p: usize = 0;
    while p < v.len() && v[p] < x
        invariant
            ascending(v@),
            p <= v@.len(),
            forall|i: int| 0 <= i < p ==> v@[i] < x,
        decreases v@.len() - p,
    {
        p = p + 1;
    }
    if p < v.len() && v[p] == x {
        assert(v@.to_set() =~= old(v)@.to_set().insert(x)) by {
            assert(v@.contains(x));
        }
        return ;
    }
    let ghost before = v@;
    v.insert(p, x);
    assert(v@ == before.insert(p as int, x));
    assert forall|i: int, j: int| 0 <= i < j < v@.len() implies v@[i] < v@[j] by {
        if j < p {
        } else if j == p {
        } else if i < p {
        } else if i == p {
            assert(before[j - 1] >= x);
            assert(before[j - 1] != x);
        } else {
            assert(before[i - 1] < before[j - 1]);
        }
    }
    let ghost after = v@;
    assert(after.to_set() =~= before.to_set().insert(x)) by {
        assert forall|y: u128| before.to_set().contains(y) || y == x implies after.to_set().contains(y) by {
            if y == x {
                assert(after[p as int] == x);
            } else {
                let k = choose|k: int| 0 <= k < before.len() && before[k] == y;
                if k < p {
                    assert(after[k] == y);
                } else {
                    assert(after[k + 1] == y);
                }
            }
        }
        assert forall|y: u128| after.to_set().contains(y) implies before.to_set().contains(y) || y == x by {
            let k = choose|k: int| 0 <= k < after.len() && after[k] == y;
            if k < p {
                assert(before[k] == y);
            } else if k > p {
                assert(before[k - 1] == y);
            }
        }
    }
}

proof fn lemma_ascending_no_duplicates(s: Seq<u128>)
    requires
        ascending(s),
    ensures
        s.no_duplicates(),
        s.to_set().len() == s.len(),
{
    assert(s.no_duplicates()) by {
        assert forall|i: int, j: int| 0 <= i < s.len() && 0 <= j < s.len() && i != j implies s[i]
            != s[j] by {
            if i < j {
                assert(s[i] < s[j]);
            } else {
                assert(s[j] < s[i]);
            }
        }
    }
    s.unique_seq_to_set();
}

/// The `NUM_TRIALS` distinct Bloom filter indices of an item added at
/// `aocl_leaf_index`, in ascending order, all within the window that begins
/// at the item's batch. Nothing is returned only where the whole counter
/// range yields fewer distinct indices.
pub fn get_swbf_indices(item: &Digest, randomness: &Digest, aocl_leaf_index: u64) -> (r: Option<
    [u128; NUM_TRIALS],
>)
    ensures
        is_derivation_result(r, *item, *randomness, aocl_leaf_index),
        r == derived_indices(*item, *randomness, aocl_leaf_index),
        r matches Some(a) ==> forall|i: int|
            0 <= i < NUM_TRIALS ==> batch_start(aocl_leaf_index) <= #[trigger] a@[i]
                < batch_start(aocl_leaf_index) + WINDOW_SIZE,
{
    let leaf_digest = encode_u128(aocl_leaf_index as u128);
    let rhs = hash_pair(leaf_digest, *randomness);
    let seed = hash_pair(*item, rhs);
    let batch: u64 = aocl_leaf_index / BATCH_SIZE as u64;
    assert(batch as u128 * CHUNK_SIZE as u128 <= 0xffff_ffff_ffff_ffffu128 * 1500) by (nonlinear_arith)
        requires
            batch <= 0xffff_ffff_ffff_ffffu64,
    ;
    let start: u128 = batch as u128 * CHUNK_SIZE as u128;
    let ghost (it, ra, li) = (*item, *randomness, aocl_leaf_index);
    let mut indices: Vec<u128> = Vec::new();
    let mut j: u128 = 0;
    while indices.len() < NUM_TRIALS && j < u128::MAX
        invariant
            seed == index_seed(it, ra, li),
            start == batch_start(li),
            ascending(indices@),
            indices@.len() <= NUM_TRIALS,
            indices@.to_set() == samples_below(it, ra, li, j as nat),
            j > 0 ==> samples_below(it, ra, li, (j - 1) as nat).len() < NUM_TRIALS,
        decreases u128::MAX - j,
    {
        proof {
            lemma_ascending_no_duplicates(indices@);
        }
        let d = hash_pair(encode_u128(j), seed);
        let v = digest_head(d);
        if v < SAMPLE_LIMIT {
            let x: u128 = (v % WINDOW_SIZE as u64) as u128 + start;
            insert_ascending(&mut indices, x);
        }
        proof {
            lemma_ascending_no_duplicates(indices@);
            lemma_samples_finite(it, ra, li, (j + 1) as nat);
            assert(samples_below(it, ra, li, (j + 1) as nat) =~= indices@.to_set());
        }
        j = j + 1;
    }
    proof {
        lemma_ascending_no_duplicates(indices@);
        lemma_samples_in_window(it, ra, li, j as nat);
    }
    if indices.len() < NUM_TRIALS {
        proof {
            let none: Option<[u128; NUM_TRIALS]> = None;
            assert(is_derivation_result(none, it, ra, li));
            lemma_index_derivation_deterministic(none, derived_indices(it, ra, li), it, ra, li);
        }
        return None;
    }
    let mut arr: [u128; NUM_TRIALS] = [0u128; NUM_TRIALS];
    let mut i: usize = 0;
    while i < NUM_TRIALS
        invariant
            indices@.len() == NUM_TRIALS,
            forall|k: int| 0 <= k < i ==> arr@[k] == indices@[k],
        decreases NUM_TRIALS - i,
    {
        arr[i] = indices[i];
        i = i + 1;
    }
    assert(arr@ =~= indices@);
    proof {
        assert(derivation_ends_at(it, ra, li, j as nat));
        assert forall|k: int| 0 <= k < NUM_TRIALS implies batch_start(li) <= #[trigger] arr@[k]
            < batch_start(li) + WINDOW_SIZE by {
            assert(samples_below(it, ra, li, j as nat).contains(indices@[k]));
        }
        assert(is_derivation_result(Some(arr), it, ra, li));
        lemma_index_derivation_deterministic(Some(arr), derived_indices(it, ra, li), it, ra, li);
    }
    Some(arr)
}

} // verus!
