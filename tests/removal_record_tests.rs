use mutator_set::{
    BitSet, Chunk, ChunkDictionary, MembershipProof, RemovalRecord, RemovalRecordError,
    SetCommitment, BATCH_SIZE, NUM_TRIALS,
};
use twenty_first::util_types::mmr::mmr_membership_proof::MmrMembershipProof;
use rand::{thread_rng, RngCore};
use twenty_first::prelude::Tip5;
use twenty_first::tip5::Digest;

fn digest_of(x: u128) -> Digest {
    Tip5::hash(&x)
}

fn random_digest(rng: &mut impl RngCore) -> Digest {
    let x: u128 = ((rng.next_u64() as u128) << 64) | rng.next_u64() as u128;
    digest_of(x)
}

fn get_mp_and_removal_record() -> (MembershipProof, RemovalRecord) {
    let accumulator = SetCommitment::default();
    let mut rng = thread_rng();
    let item = random_digest(&mut rng);
    let randomness = random_digest(&mut rng);
    let mp = accumulator.prove(&item, &randomness, true);
    let removal_record = accumulator.drop(&item, &mp).unwrap();
    (mp, removal_record)
}

#[test]
fn verify_that_bit_indices_are_sorted_test() {
    let removal_record = get_mp_and_removal_record().1;
    let bit_indices = removal_record.bit_indices.to_vec();
    let mut bit_indices_sorted = bit_indices.clone();
    bit_indices_sorted.sort();
    assert_eq!(
        bit_indices, bit_indices_sorted,
        "bit indices must sorted in the removal record"
    );

    // Alternative way of checking that the indices are sorted (do not delete, we might want this)
    assert!(
        bit_indices.windows(2).all(|s| s[0] < s[1]),
        "bit-indices must be sorted"
    );
}

#[test]
fn simple_remove_test() {
    // Verify that a single element can be added to and removed from the mutator set
    let mut accumulator = SetCommitment::default();
    let mut rng = thread_rng();
    let item = random_digest(&mut rng);
    let randomness = random_digest(&mut rng);
    let addition_record = accumulator.commit(&item, &randomness);
    let mp = accumulator.prove(&item, &randomness, true);

    assert!(
        !accumulator.verify(&item, &mp),
        "Item must fail to verify before it is added"
    );
    accumulator.add(&addition_record);
    let rr = accumulator.drop(&item, &mp).unwrap();
    assert!(
        accumulator.verify(&item, &mp),
        "Item must succeed in verification after it is added"
    );
    accumulator.remove(&rr).unwrap();
    assert!(
        !accumulator.verify(&item, &mp),
        "Item must fail to verify after it is removed"
    );
}

#[test]
fn batch_update_from_addition_pbt() {
    // Verify that a single element can be added to and removed from the mutator set
    let test_iterations = 10;
    for _ in 0..test_iterations {
        let mut accumulator = SetCommitment::default();
        let mut removal_records: Vec<(usize, RemovalRecord)> = vec![];
        let mut items = vec![];
        let mut mps = vec![];
        let mut rng = thread_rng();
        for i in 0..2 * BATCH_SIZE + 4 {
            let item = random_digest(&mut rng);
            let randomness = random_digest(&mut rng);

            let addition_record = accumulator.commit(&item, &randomness);
            let mp = accumulator.prove(&item, &randomness, true);

            // Update all removal records from addition, then add the element
            let mut rrs: Vec<RemovalRecord> =
                removal_records.iter().map(|(_, rr)| rr.clone()).collect();
            let update_res_rr =
                RemovalRecord::batch_update_from_addition(&mut rrs, &accumulator);
            assert!(update_res_rr.is_ok(), "batch update must return OK, i = {}", i);
            for (k, rr) in rrs.into_iter().enumerate() {
                removal_records[k].1 = rr;
            }
            let update_res_mp = MembershipProof::batch_update_from_addition(
                &mut mps,
                &items,
                &accumulator,
                &addition_record,
            );
            assert!(update_res_mp.is_ok(), "batch update must return OK, i = {}", i);
            accumulator.add(&addition_record);
            mps.push(mp.clone());
            items.push(item);

            for removal_record in removal_records.iter().map(|x| &x.1) {
                assert!(
                    removal_record.validate(&accumulator),
                    "removal records must validate, i = {}",
                    i
                );
            }

            let rr = accumulator.drop(&item, &mp).unwrap();
            removal_records.push((i, rr));
        }

        // pick a random removal record from the list of all removal records and check that it still
        // works.
        let random_index = (rng.next_u32() as usize) % removal_records.len();
        let (i, rr) = removal_records[random_index].clone();
        assert!(accumulator.verify(&items[i], &mps[i]));
        accumulator.remove(&rr).unwrap();
        assert!(!accumulator.verify(&items[i], &mps[i]));
    }
}

#[test]
fn batch_update_from_remove_reports_missing_chunk() {
    // a record whose own indices lie in archived chunk 0, which it lacks,
    // while the applied removal touches that chunk: the record is stale
    let (ms, items, mps) = set_after_one_slide();
    let mut stale = ms.drop(&items[1], &mps[1]).unwrap();
    assert!(stale.target_chunks.dictionary.iter().any(|e| e.0 == 0));
    stale.target_chunks = ChunkDictionary::default();
    let applied = ms.drop(&items[0], &mps[0]).unwrap();
    assert!(applied.target_chunks.dictionary.iter().any(|e| e.0 == 0));
    let good = ms.drop(&items[2], &mps[2]).unwrap();
    let mut rrs = vec![good.clone(), stale];
    assert_eq!(
        RemovalRecord::batch_update_from_remove(&mut rrs, &ms, &applied),
        Err(RemovalRecordError::MissingChunkOnUpdateFromRemove)
    );
    // nothing changed
    assert_eq!(rrs[0].target_chunks.dictionary, good.target_chunks.dictionary);
    assert!(rrs[1].target_chunks.dictionary.is_empty());
    let mut ok = vec![good];
    assert_eq!(RemovalRecord::batch_update_from_remove(&mut ok, &ms, &applied), Ok(()));
}

#[test]
fn chunk_dictionary_duplicates() {
    let mut d = ChunkDictionary::default();
    assert!(!d.has_duplicates());
    d.dictionary.push((3, MmrMembershipProof::new(vec![]), Chunk::empty_chunk()));
    d.dictionary.push((5, MmrMembershipProof::new(vec![]), Chunk::empty_chunk()));
    assert!(!d.has_duplicates());
    d.dictionary.push((3, MmrMembershipProof::new(vec![]), Chunk::from_slice(&[1])));
    assert!(d.has_duplicates());
}

#[test]
fn bit_set_sorts_and_converts() {
    let mut bits = [0u128; NUM_TRIALS];
    for (k, b) in bits.iter_mut().enumerate() {
        *b = ((NUM_TRIALS - k) * 7) as u128;
    }
    let mut set = BitSet::new(&bits);
    assert_eq!(set.to_array(), bits);
    set.sort_unstable();
    let v = set.to_vec();
    assert_eq!(v.len(), NUM_TRIALS);
    assert_eq!(v[0], 7);
    assert_eq!(v[NUM_TRIALS - 1], (NUM_TRIALS * 7) as u128);
    assert!(v.windows(2).all(|w| w[0] <= w[1]));
}

#[test]
fn removal_record_update_from_remove_lacking_chunk() {
    // a record that holds chunk 0 while the applied removal, touching it, lacks it
    let (ms, items, mps) = set_after_one_slide();
    let holder = ms.drop(&items[1], &mps[1]).unwrap();
    assert!(holder.target_chunks.dictionary.iter().any(|e| e.0 == 0));
    let mut applied = ms.drop(&items[0], &mps[0]).unwrap();
    applied.target_chunks = ChunkDictionary::default();
    let mut rrs = vec![holder];
    assert_eq!(
        RemovalRecord::batch_update_from_remove(&mut rrs, &ms, &applied),
        Err(RemovalRecordError::RemovalLacksChunk)
    );
}

fn set_after_one_slide() -> (SetCommitment, Vec<Digest>, Vec<MembershipProof>) {
    let mut ms = SetCommitment::default();
    let mut items = vec![];
    let mut mps: Vec<MembershipProof> = vec![];
    for i in 0..(BATCH_SIZE as u128 + 1) {
        let item = digest_of(60 + i);
        let randomness = digest_of(70 + i);
        let record = ms.commit(&item, &randomness);
        let mp = ms.prove(&item, &randomness, true);
        MembershipProof::batch_update_from_addition(&mut mps, &items, &ms, &record).unwrap();
        ms.add(&record);
        items.push(item);
        mps.push(mp);
    }
    (ms, items, mps)
}

#[test]
fn get_chunk_index_to_bit_indices_test() {
    let (mp, removal_record) = get_mp_and_removal_record();

    let chunks2bits = removal_record.get_chunk_index_to_bit_indices();

    // Verify that no indices are repeated in the groups
    let mut all_bits: Vec<u128> = chunks2bits
        .iter()
        .map(|(_, v)| v.clone())
        .collect::<Vec<_>>()
        .concat();
    all_bits.sort_unstable();
    let mut cached_bits = mp.cached_indices.unwrap();
    cached_bits.sort_unstable();
    assert_eq!(cached_bits.to_vec(), all_bits);
    let unique: std::collections::HashSet<u128> = all_bits.iter().copied().collect();
    assert_eq!(unique.len(), all_bits.len());
    all_bits.dedup();
    assert_eq!(NUM_TRIALS, all_bits.len());

    // Verify that the groups have put the indices into the correct buckets
    for (key, values) in chunks2bits {
        for value in values {
            assert!((value - key * mutator_set::CHUNK_SIZE as u128) < mutator_set::CHUNK_SIZE as u128);
        }
    }
}
