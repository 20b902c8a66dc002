use mutator_set::{ArchivalMutatorSet, MembershipProof, SetCommitmentError, BATCH_SIZE};
use twenty_first::prelude::Tip5;
use twenty_first::tip5::Digest;

fn digest_of(x: u128) -> Digest {
    Tip5::hash(&x)
}

fn same_state(a: &ArchivalMutatorSet, b: &ArchivalMutatorSet) -> bool {
    a.set.aocl == b.set.aocl
        && a.set.swbf_inactive == b.set.swbf_inactive
        && a.set.swbf_active == b.set.swbf_active
        && a.chunk_history == b.chunk_history
}

fn fill(ams: &mut ArchivalMutatorSet, n: u128, items: &mut Vec<Digest>, proofs: &mut Vec<MembershipProof>) {
    for i in 0..n {
        let item = digest_of(7000 + i);
        let randomness = digest_of(8000 + i);
        let record = ams.set.commit(&item, &randomness);
        let mp = ams.set.prove(&item, &randomness, true);
        MembershipProof::batch_update_from_addition(proofs, items, &ams.set, &record).unwrap();
        ams.add(&record);
        items.push(item);
        proofs.push(mp);
    }
}

#[test]
fn archival_reorg_round_trip() {
    let mut ams = ArchivalMutatorSet::new();
    let mut items = vec![];
    let mut proofs = vec![];
    fill(&mut ams, 5, &mut items, &mut proofs);
    let mut snapshots = vec![];
    for _ in 0..3 {
        snapshots.push(ams.clone());
        let item = items.remove(0);
        let mp = proofs.remove(0);
        let rr = ams.set.drop(&item, &mp).unwrap();
        MembershipProof::batch_update_from_remove(&mut proofs, &items, &ams.set, &rr).unwrap();
        ams.remove(&rr).unwrap();
        assert!(!ams.set.verify(&item, &mp));
    }
    // the state after five additions and two removals
    let after_two = snapshots.pop().unwrap();
    assert!(!same_state(&ams, &after_two));
    assert_eq!(ams.revert_add(), Err(SetCommitmentError::NothingToRevert));
    ams.revert_remove().unwrap();
    assert!(same_state(&ams, &after_two));
    assert_eq!(ams.revert_remove(), Err(SetCommitmentError::NothingToRevert));
}

#[test]
fn archival_revert_add_after_slide() {
    let mut ams = ArchivalMutatorSet::new();
    let mut items = vec![];
    let mut proofs = vec![];
    fill(&mut ams, BATCH_SIZE as u128 - 1, &mut items, &mut proofs);
    assert!(ams.chunk_history.is_empty());
    let before = ams.clone();
    let record = ams.set.commit(&digest_of(1), &digest_of(2));
    ams.add(&record);
    assert_eq!(ams.chunk_history.len(), 1);
    assert_eq!(ams.chunk_history[0].len(), 1);
    assert!(ams.chunk_history[0][0].is_unset());
    ams.revert_add().unwrap();
    assert!(same_state(&ams, &before));
}

#[test]
fn archival_history_records_removal_in_archived_chunk() {
    let mut ams = ArchivalMutatorSet::new();
    let mut items = vec![];
    let mut proofs = vec![];
    fill(&mut ams, BATCH_SIZE as u128 + 1, &mut items, &mut proofs);
    let rr = ams.set.drop(&items[0], &proofs[0]).unwrap();
    assert!(rr.target_chunks.dictionary.iter().any(|e| e.0 == 0));
    ams.remove(&rr).unwrap();
    assert_eq!(ams.chunk_history[0].len(), 2);
    assert!(ams.chunk_history[0][0].is_unset());
    assert!(!ams.chunk_history[0][1].is_unset());
}
