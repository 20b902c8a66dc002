use mutator_set::{
    get_swbf_indices, AdditionRecord, MembershipProof, RemovalRecord, SetCommitment,
    SetCommitmentError, BATCH_SIZE, CHUNK_SIZE, NUM_TRIALS, WINDOW_SIZE,
};
use rand::rngs::StdRng;
use rand::{thread_rng, Rng, RngCore, SeedableRng};
use std::collections::HashSet;
use twenty_first::prelude::{Mmr, Tip5};
use twenty_first::tip5::Digest;

fn digest_of(x: u128) -> Digest {
    Tip5::hash(&x)
}

fn random_digest(rng: &mut impl RngCore) -> Digest {
    let x: u128 = ((rng.next_u64() as u128) << 64) | rng.next_u64() as u128;
    digest_of(x)
}

fn seeded_rng() -> StdRng {
    StdRng::from_seed(
        vec![vec![0, 1, 4, 33], vec![0; 28]]
            .concat()
            .try_into()
            .unwrap(),
    )
}

fn same_proof(a: &MembershipProof, b: &MembershipProof) -> bool {
    a.randomness == b.randomness
        && a.auth_path_aocl == b.auth_path_aocl
        && a.aocl_leaf_index == b.aocl_leaf_index
        && a.cached_indices == b.cached_indices
        && a.target_chunks.dictionary == b.target_chunks.dictionary
}

#[test]
fn ms_get_indices_test() {
    let mut prng = thread_rng();
    let item = random_digest(&mut prng);
    let randomness = random_digest(&mut prng);
    let ret: [u128; NUM_TRIALS] = get_swbf_indices(&item, &randomness, 0).unwrap();
    assert_eq!(NUM_TRIALS, ret.len());
    let unique: HashSet<u128> = ret.iter().copied().collect();
    assert_eq!(NUM_TRIALS, unique.len());
    assert!(ret.iter().all(|&x| x < WINDOW_SIZE as u128));
}

#[test]
fn set_commitment_init_test() {
    let ms = SetCommitment::default();
    assert_eq!(ms.swbf_active.len(), WINDOW_SIZE);
    assert!(ms.swbf_active.iter().all(|b| !b));
}

#[test]
fn verify_future_bits_test() {
    let mut mutator_set = SetCommitment::default();
    let empty_mutator_set = SetCommitment::default();
    let mut prng = thread_rng();
    for _ in 0..2 * BATCH_SIZE + 2 {
        let item = random_digest(&mut prng);
        let randomness = random_digest(&mut prng);

        let addition_record: AdditionRecord = mutator_set.commit(&item, &randomness);
        let membership_proof: MembershipProof = mutator_set.prove(&item, &randomness, false);
        mutator_set.add_helper(&addition_record);
        assert!(mutator_set.verify(&item, &membership_proof));

        // Verify that a future membership proof returns false and does not crash
        assert!(!empty_mutator_set.verify(&item, &membership_proof));
    }
}

#[test]
fn set_commitment_test_membership_proof_update_from_add() {
    let mut mutator_set = SetCommitment::default();
    let own_item = digest_of(1215);
    let randomness = digest_of(1776);

    let addition_record = mutator_set.commit(&own_item, &randomness);
    let mut membership_proof = mutator_set.prove(&own_item, &randomness, false);
    mutator_set.add_helper(&addition_record);

    // Update membership proof with add operation. Verify that it has changed, and that it now fails to verify.
    let new_item = digest_of(1648);
    let new_randomness = digest_of(1807);
    let new_addition_record = mutator_set.commit(&new_item, &new_randomness);
    let original_membership_proof = membership_proof.clone();
    let changed_mp = match membership_proof.update_from_addition(
        &own_item,
        &mutator_set,
        &new_addition_record,
    ) {
        Ok(changed) => changed,
        Err(err) => panic!("{:?}", err),
    };
    assert!(
        changed_mp,
        "Update must indicate that membership proof has changed"
    );
    assert_ne!(
        original_membership_proof.auth_path_aocl,
        membership_proof.auth_path_aocl
    );
    assert!(
        mutator_set.verify(&own_item, &original_membership_proof),
        "Original membership proof must verify prior to addition"
    );
    assert!(
        !mutator_set.verify(&own_item, &membership_proof),
        "New membership proof must fail to verify prior to addition"
    );

    // Insert the new element into the mutator set, then verify that the membership proof works and
    // that the original membership proof is invalid.
    mutator_set.add_helper(&new_addition_record);
    assert!(
        !mutator_set.verify(&own_item, &original_membership_proof),
        "Original membership proof must fail to verify after addition"
    );
    assert!(
        mutator_set.verify(&own_item, &membership_proof),
        "New membership proof must verify after addition"
    );
}

#[test]
fn set_commitment_membership_proof_updating_from_add_pbt() {
    let mut rng = seeded_rng();
    let mut mutator_set = SetCommitment::default();

    let num_additions = rng.gen_range(0..=100i32);
    println!(
        "running multiple additions test for {} additions",
        num_additions
    );

    let mut membership_proofs_and_items: Vec<(MembershipProof, Digest)> = vec![];
    for i in 0..num_additions {
        println!("loop iteration {}", i);
        let item = random_digest(&mut rng);
        let randomness = random_digest(&mut rng);

        let addition_record = mutator_set.commit(&item, &randomness);
        let membership_proof = mutator_set.prove(&item, &randomness, false);

        // Update all membership proofs
        for (mp, item) in membership_proofs_and_items.iter_mut() {
            let original_mp = mp.clone();
            let changed_res = mp.update_from_addition(item, &mutator_set, &addition_record);
            assert!(changed_res.is_ok());

            // verify that the boolean returned value from the updater method is set correctly
            assert_eq!(changed_res.unwrap(), !same_proof(&original_mp, mp));
        }

        // Add the element
        assert!(!mutator_set.verify(&item, &membership_proof));
        mutator_set.add_helper(&addition_record);
        assert!(mutator_set.verify(&item, &membership_proof));
        membership_proofs_and_items.push((membership_proof, item));

        // Verify that all membership proofs work
        assert!(membership_proofs_and_items
            .clone()
            .into_iter()
            .all(|(mp, item)| mutator_set.verify(&item, &mp)));
    }
}

#[test]
fn test_add_and_prove() {
    let mut mutator_set = SetCommitment::default();
    let item0 = digest_of(1215);
    let randomness0 = digest_of(1776);

    let addition_record = mutator_set.commit(&item0, &randomness0);
    let membership_proof = mutator_set.prove(&item0, &randomness0, false);

    assert!(!mutator_set.verify(&item0, &membership_proof));

    mutator_set.add_helper(&addition_record);

    assert!(mutator_set.verify(&item0, &membership_proof));

    // Insert a new item and verify that this still works
    let item1 = digest_of(1846);
    let randomness1 = digest_of(2009);
    let addition_record = mutator_set.commit(&item1, &randomness1);
    let membership_proof = mutator_set.prove(&item1, &randomness1, false);
    assert!(!mutator_set.verify(&item1, &membership_proof));
    mutator_set.add_helper(&addition_record);
    assert!(mutator_set.verify(&item1, &membership_proof));

    // Insert ~2*BATCH_SIZE  more elements and
    // verify that it works throughout. The reason we insert this many
    // is that we want to make sure that the window slides into a new
    // position.
    let mut prng = thread_rng();
    for _ in 0..2 * BATCH_SIZE + 4 {
        let item = random_digest(&mut prng);
        let randomness = random_digest(&mut prng);
        let addition_record = mutator_set.commit(&item, &randomness);
        let membership_proof = mutator_set.prove(&item, &randomness, false);
        assert!(!mutator_set.verify(&item, &membership_proof));
        mutator_set.add_helper(&addition_record);
        assert!(mutator_set.verify(&item, &membership_proof));
    }
}

#[test]
fn test_add() {
    let mut mutator_set = SetCommitment::default();
    let item = digest_of(1215);
    let randomness = digest_of(1776);

    let addition_record = mutator_set.commit(&item, &randomness);
    let membership_proof = mutator_set.prove(&item, &randomness, false);
    assert!(!mutator_set.verify(&item, &membership_proof));
    mutator_set.add(&addition_record);
    assert!(mutator_set.verify(&item, &membership_proof));
}

#[test]
fn single_add_leaves_window_clear() {
    let mut ms = SetCommitment::default();
    let item = digest_of(1215);
    let randomness = digest_of(1776);
    let record = ms.commit(&item, &randomness);
    let mp = ms.prove(&item, &randomness, false);
    ms.add(&record);
    assert!(ms.verify(&item, &mp));
    assert_eq!(ms.aocl.num_leafs(), 1);
    assert_eq!(ms.swbf_inactive.num_leafs(), 0);
    assert_eq!(ms.swbf_active.len(), WINDOW_SIZE);
    assert!(ms.swbf_active.iter().all(|b| !b));
    assert!(mp.target_chunks.dictionary.is_empty());
}

#[test]
fn window_slides_after_each_batch() {
    assert!(!SetCommitment::window_slides(0));
    assert!(!SetCommitment::window_slides(1));
    assert!(!SetCommitment::window_slides(BATCH_SIZE as u64 - 1));
    assert!(SetCommitment::window_slides(BATCH_SIZE as u64));
    assert!(!SetCommitment::window_slides(BATCH_SIZE as u64 + 1));
    assert!(SetCommitment::window_slides(3 * BATCH_SIZE as u64));
}

#[test]
fn slide_archives_a_zero_chunk_after_a_batch() {
    let mut ms = SetCommitment::default();
    let mut items_and_proofs: Vec<(Digest, MembershipProof)> = vec![];
    for i in 0..BATCH_SIZE as u128 {
        let item = digest_of(10_000 + i);
        let randomness = digest_of(20_000 + i);
        let record = ms.commit(&item, &randomness);
        let mp = ms.prove(&item, &randomness, true);
        for (it, p) in items_and_proofs.iter_mut() {
            p.update_from_addition(it, &ms, &record).unwrap();
        }
        let archived = ms.add_helper(&record);
        if i + 1 < BATCH_SIZE as u128 {
            assert!(archived.is_none());
        } else {
            let (chunk_index, chunk) = archived.unwrap();
            assert_eq!(chunk_index, 0);
            assert!(chunk.is_unset());
        }
        items_and_proofs.push((item, mp));
    }
    assert!(ms.swbf_active.iter().all(|b| !b));
    assert_eq!(ms.aocl.num_leafs(), BATCH_SIZE as u64);
    assert_eq!(ms.swbf_inactive.num_leafs(), 1);
    for (it, p) in items_and_proofs.iter() {
        assert!(!p.target_chunks.has_duplicates());
        assert!(ms.verify(it, p));
    }
}

#[test]
fn removal_sets_active_bits_of_the_item_only() {
    let mut ms = SetCommitment::default();
    let a = digest_of(1);
    let ra = digest_of(2);
    let b = digest_of(3);
    let rb = digest_of(4);
    let rec_a = ms.commit(&a, &ra);
    let mp_a = ms.prove(&a, &ra, false);
    ms.add(&rec_a);
    let rec_b = ms.commit(&b, &rb);
    let mut mp_a2 = mp_a.clone();
    mp_a2.update_from_addition(&a, &ms, &rec_b).unwrap();
    let mp_b = ms.prove(&b, &rb, false);
    ms.add(&rec_b);
    let rr = ms.drop(&a, &mp_a2).unwrap();
    ms.remove(&rr).unwrap();
    let set_bits = ms.swbf_active.iter().filter(|x| **x).count();
    assert_eq!(set_bits, NUM_TRIALS);
    assert!(!ms.verify(&a, &mp_a2));
    assert!(ms.verify(&b, &mp_b));
}

#[test]
fn removal_after_slide_mutates_archived_chunk() {
    let mut ms = SetCommitment::default();
    let mut items_and_proofs: Vec<(Digest, MembershipProof)> = vec![];
    for i in 0..(BATCH_SIZE as u128 + 1) {
        let item = digest_of(500 + i);
        let randomness = digest_of(900 + i);
        let record = ms.commit(&item, &randomness);
        let mp = ms.prove(&item, &randomness, true);
        for (it, p) in items_and_proofs.iter_mut() {
            p.update_from_addition(it, &ms, &record).unwrap();
        }
        ms.add(&record);
        items_and_proofs.push((item, mp));
    }
    let (first, first_mp) = items_and_proofs.remove(0);
    assert!(first_mp.target_chunks.dictionary.iter().any(|e| e.0 == 0));
    let rr = ms.drop(&first, &first_mp).unwrap();
    assert!(rr.bit_indices.to_array().iter().all(|b| *b < WINDOW_SIZE as u128));
    let before = ms.swbf_inactive.clone();
    for (it, p) in items_and_proofs.iter_mut() {
        p.update_from_remove(it, &ms, &rr).unwrap();
    }
    ms.remove(&rr).unwrap();
    assert_ne!(before, ms.swbf_inactive);
    assert!(!ms.verify(&first, &first_mp));
    for (it, p) in items_and_proofs.iter() {
        assert!(ms.verify(it, p));
    }
}

#[test]
fn remove_rejects_index_beyond_window() {
    let mut ms = SetCommitment::default();
    let item = digest_of(7);
    let randomness = digest_of(8);
    let record = ms.commit(&item, &randomness);
    let mp = ms.prove(&item, &randomness, true);
    ms.add(&record);
    let mut rr = ms.drop(&item, &mp).unwrap();
    rr.bit_indices.0[NUM_TRIALS - 1] = WINDOW_SIZE as u128 + 5;
    let before = ms.swbf_active.clone();
    assert_eq!(ms.remove(&rr), Err(SetCommitmentError::IndexBeyondWindow));
    assert_eq!(before, ms.swbf_active);
}

#[test]
fn remove_rejects_missing_archived_chunk() {
    let mut ms = SetCommitment::default();
    for i in 0..(2 * BATCH_SIZE as u128) {
        let record = ms.commit(&digest_of(i), &digest_of(i + 1000));
        ms.add(&record);
    }
    let mut bits = [0u128; NUM_TRIALS];
    for (k, b) in bits.iter_mut().enumerate() {
        *b = (k as u128) * 3;
    }
    let rr = RemovalRecord {
        bit_indices: mutator_set::BitSet::new(&bits),
        target_chunks: mutator_set::ChunkDictionary::default(),
    };
    assert_eq!(ms.remove(&rr), Err(SetCommitmentError::MissingTargetChunk));
}

#[test]
fn update_from_addition_rejects_future_proof() {
    let ms = SetCommitment::default();
    let item = digest_of(11);
    let randomness = digest_of(12);
    let mut mp = ms.prove(&item, &randomness, false);
    let record = ms.commit(&digest_of(13), &digest_of(14));
    assert_eq!(
        mp.update_from_addition(&item, &ms, &record),
        Err(SetCommitmentError::RequestedAoclAuthPathOutOfBounds(0, 0))
    );
}

#[test]
fn update_from_addition_rejects_wrong_item() {
    let mut ms = SetCommitment::default();
    let item = digest_of(11);
    let randomness = digest_of(12);
    let record = ms.commit(&item, &randomness);
    let mut mp = ms.prove(&item, &randomness, false);
    ms.add(&record);
    let next = ms.commit(&digest_of(13), &digest_of(14));
    assert_eq!(
        mp.update_from_addition(&digest_of(99), &ms, &next),
        Err(SetCommitmentError::InvalidAoclPath)
    );
}

#[test]
fn commit_is_the_pair_hash() {
    let ms = SetCommitment::default();
    let item = digest_of(1492);
    let randomness = digest_of(1522);
    let r0 = ms.commit(&item, &randomness);
    let r1 = ms.commit(&item, &randomness);
    assert_eq!(r0.canonical_commitment, r1.canonical_commitment);
    assert_eq!(r0.canonical_commitment, Tip5::hash_pair(item, randomness));
    let r2 = ms.commit(&digest_of(1451), &digest_of(1480));
    assert_ne!(r0.canonical_commitment, r2.canonical_commitment);
}

#[test]
fn index_derivation_shape_and_determinism() {
    let item = digest_of(31);
    let randomness = digest_of(32);
    for leaf in [0u64, 9, 10, 12345] {
        let a = get_swbf_indices(&item, &randomness, leaf).unwrap();
        let b = get_swbf_indices(&item, &randomness, leaf).unwrap();
        assert_eq!(a, b);
        let start = (leaf as u128 / BATCH_SIZE as u128) * CHUNK_SIZE as u128;
        for w in a.windows(2) {
            assert!(w[0] < w[1]);
        }
        assert!(a.iter().all(|x| start <= *x && *x < start + WINDOW_SIZE as u128));
    }
    let other = get_swbf_indices(&item, &digest_of(33), 0).unwrap();
    assert_ne!(other, get_swbf_indices(&item, &randomness, 0).unwrap());
}

#[test]
fn cached_and_derived_indices_agree() {
    let mut ms = SetCommitment::default();
    let item = digest_of(41);
    let randomness = digest_of(42);
    let record = ms.commit(&item, &randomness);
    let cached = ms.prove(&item, &randomness, true);
    let plain = ms.prove(&item, &randomness, false);
    ms.add(&record);
    assert!(ms.verify(&item, &cached));
    assert!(ms.verify(&item, &plain));
    let a = ms.drop(&item, &cached).unwrap();
    let b = ms.drop(&item, &plain).unwrap();
    assert_eq!(a.bit_indices.to_array(), b.bit_indices.to_array());
}

#[test]
fn add_then_remove_all_in_shuffled_order() {
    let mut rng = seeded_rng();
    let mut ms = SetCommitment::default();
    let n = BATCH_SIZE + 4;
    let mut items: Vec<Digest> = vec![];
    let mut proofs: Vec<MembershipProof> = vec![];
    for _ in 0..n {
        let item = random_digest(&mut rng);
        let randomness = random_digest(&mut rng);
        let record = ms.commit(&item, &randomness);
        let mp = ms.prove(&item, &randomness, true);
        MembershipProof::batch_update_from_addition(&mut proofs, &items, &ms, &record).unwrap();
        ms.add(&record);
        items.push(item);
        proofs.push(mp);
        for (it, p) in items.iter().zip(proofs.iter()) {
            assert!(ms.verify(it, p));
        }
    }
    let mut removed: Vec<(Digest, MembershipProof)> = vec![];
    while !items.is_empty() {
        let k = (rng.next_u32() as usize) % items.len();
        let item = items.remove(k);
        let mp = proofs.remove(k);
        let rr = ms.drop(&item, &mp).unwrap();
        assert!(rr.validate(&ms));
        MembershipProof::batch_update_from_remove(&mut proofs, &items, &ms, &rr).unwrap();
        ms.remove(&rr).unwrap();
        assert!(!ms.verify(&item, &mp));
        removed.push((item, mp));
        for (it, p) in items.iter().zip(proofs.iter()) {
            assert!(ms.verify(it, p));
        }
        for (it, p) in removed.iter() {
            assert!(!ms.verify(it, p));
        }
    }
}

#[test]
fn batch_and_single_addition_updates_agree() {
    let mut ms = SetCommitment::default();
    let mut items: Vec<Digest> = vec![];
    let mut proofs: Vec<MembershipProof> = vec![];
    for i in 0..(BATCH_SIZE as u128 + 2) {
        let item = digest_of(3000 + i);
        let randomness = digest_of(4000 + i);
        let record = ms.commit(&item, &randomness);
        let mp = ms.prove(&item, &randomness, i % 2 == 0);
        let mut singles = proofs.clone();
        for (it, p) in items.iter().zip(singles.iter_mut()) {
            p.update_from_addition(it, &ms, &record).unwrap();
        }
        MembershipProof::batch_update_from_addition(&mut proofs, &items, &ms, &record).unwrap();
        for (a, b) in singles.iter().zip(proofs.iter()) {
            assert!(same_proof(a, b));
        }
        ms.add(&record);
        items.push(item);
        proofs.push(mp);
    }
    let rr = ms.drop(&items[0], &proofs[0]).unwrap();
    let rest_items = items[1..].to_vec();
    let mut batch = proofs[1..].to_vec();
    let mut singles = batch.clone();
    for (it, p) in rest_items.iter().zip(singles.iter_mut()) {
        p.update_from_remove(it, &ms, &rr).unwrap();
    }
    MembershipProof::batch_update_from_remove(&mut batch, &rest_items, &ms, &rr).unwrap();
    for (a, b) in singles.iter().zip(batch.iter()) {
        assert!(same_proof(a, b));
    }
    ms.remove(&rr).unwrap();
    for (it, p) in rest_items.iter().zip(batch.iter()) {
        assert!(ms.verify(it, p));
    }
}

#[test]
fn set_digest_tracks_every_part() {
    let mut ms = SetCommitment::default();
    let empty = SetCommitment::default();
    assert_eq!(ms.hash(), empty.hash());
    let item = digest_of(51);
    let randomness = digest_of(52);
    let record = ms.commit(&item, &randomness);
    let mp = ms.prove(&item, &randomness, true);
    ms.add(&record);
    let after_add = ms.hash();
    assert_ne!(after_add, empty.hash());
    let rr = ms.drop(&item, &mp).unwrap();
    ms.remove(&rr).unwrap();
    // only the active window changed
    assert_ne!(ms.hash(), after_add);
    let mut other = ms.clone();
    assert_eq!(other.hash(), ms.hash());
    let last = other.swbf_active.len() - 1;
    other.swbf_active[last] = !other.swbf_active[last];
    assert_ne!(other.hash(), ms.hash());
}

fn set_after_one_slide(cache: bool) -> (SetCommitment, Vec<Digest>, Vec<MembershipProof>) {
    let mut ms = SetCommitment::default();
    let mut items: Vec<Digest> = vec![];
    let mut proofs: Vec<MembershipProof> = vec![];
    for i in 0..(BATCH_SIZE as u128 + 1) {
        let item = digest_of(60 + i);
        let randomness = digest_of(70 + i);
        let record = ms.commit(&item, &randomness);
        let mp = ms.prove(&item, &randomness, cache);
        MembershipProof::batch_update_from_addition(&mut proofs, &items, &ms, &record).unwrap();
        ms.add(&record);
        items.push(item);
        proofs.push(mp);
    }
    (ms, items, proofs)
}

#[test]
fn update_from_remove_reports_stale_proof() {
    for cache in [true, false] {
        let (ms, items, proofs) = set_after_one_slide(cache);
        let rr = ms.drop(&items[0], &proofs[0]).unwrap();
        assert!(rr.target_chunks.dictionary.iter().any(|e| e.0 == 0));
        let mut stale = proofs[1].clone();
        assert!(stale.target_chunks.dictionary.iter().any(|e| e.0 == 0));
        stale.target_chunks = mutator_set::ChunkDictionary::default();
        let before = stale.clone();
        assert_eq!(
            stale.update_from_remove(&items[1], &ms, &rr),
            Err(SetCommitmentError::MissingChunkOnUpdate)
        );
        assert!(same_proof(&before, &stale));
        let mut batch = vec![proofs[2].clone(), before];
        let batch_items = vec![items[2], items[1]];
        assert_eq!(
            MembershipProof::batch_update_from_remove(&mut batch, &batch_items, &ms, &rr),
            Err(SetCommitmentError::MissingChunkOnUpdate)
        );
        assert!(batch[1].target_chunks.dictionary.is_empty());
        // a proof that holds its chunks follows the same removal
        let mut fresh = proofs[1].clone();
        assert_eq!(fresh.update_from_remove(&items[1], &ms, &rr), Ok(()));
    }
}

#[test]
fn update_from_remove_reports_removal_lacking_held_chunk() {
    let (ms, items, proofs) = set_after_one_slide(true);
    let mut rr = ms.drop(&items[0], &proofs[0]).unwrap();
    rr.target_chunks = mutator_set::ChunkDictionary::default();
    let mut p = proofs[1].clone();
    assert!(p.target_chunks.dictionary.iter().any(|e| e.0 == 0));
    assert_eq!(
        p.update_from_remove(&items[1], &ms, &rr),
        Err(SetCommitmentError::RemovalLacksChunk)
    );
}

#[test]
fn chunk_dictionary_validity_check() {
    let (_, _, proofs) = set_after_one_slide(true);
    let mut d = proofs[1].target_chunks.clone();
    assert!(d.is_wf());
    d.dictionary[0].2.bits = vec![5, 3];
    assert!(!d.is_wf());
    let mut e = proofs[1].target_chunks.clone();
    let first = e.dictionary[0].clone();
    e.dictionary.push(first);
    assert!(!e.is_wf());
    assert!(mutator_set::Chunk::from_slice(&[1, 2]).is_wf());
    assert!(!mutator_set::Chunk { bits: vec![1500] }.is_wf());
}
