use mutator_set::{MembershipProof, SetCommitment};
use rand::rngs::StdRng;
use rand::{Rng, RngCore, SeedableRng};
use twenty_first::prelude::Tip5;
use twenty_first::tip5::Digest;

fn digest_of(x: u128) -> Digest {
    Tip5::hash(&x)
}

fn random_digest(rng: &mut impl RngCore) -> Digest {
    let x: u128 = ((rng.next_u64() as u128) << 64) | rng.next_u64() as u128;
    digest_of(x)
}

#[test]
fn accumulation_scheme_init_test() {
    SetCommitment::default();
}

#[test]
fn accumulation_scheme_test_membership_proof_update_from_add() {
    let mut mutator_set = SetCommitment::default();
    let own_item = digest_of(1215);
    let randomness = digest_of(1776);

    let addition_record = mutator_set.commit(&own_item, &randomness);
    let mut membership_proof: MembershipProof = mutator_set.prove(&own_item, &randomness, false);
    mutator_set.add(&addition_record);

    // Update membership proof with add operation. Verify that it has changed, and that it now fails to verify.
    let new_item = digest_of(1648);
    let new_randomness = digest_of(1807);
    let new_addition_record = mutator_set.commit(&new_item, &new_randomness);
    let original_membership_proof = membership_proof.clone();
    membership_proof
        .update_from_addition(&own_item, &mutator_set, &new_addition_record)
        .unwrap();
    assert_ne!(
        original_membership_proof.auth_path_aocl,
        membership_proof.auth_path_aocl
    );
    assert!(
        mutator_set.verify(&own_item, &original_membership_proof),
        "Original membership proof must verify prior to addition"
    );
    assert!(
        !mutator_set.verify(&own_item, &membership_proof),
        "New membership proof must fail to verify prior to addition"
    );

    // Insert the new element into the mutator set, then verify that the membership proof works and
    // that the original membership proof is invalid.
    mutator_set.add(&new_addition_record);
    assert!(
        !mutator_set.verify(&own_item, &original_membership_proof),
        "Original membership proof must fail to verify after addition"
    );
    assert!(
        mutator_set.verify(&own_item, &membership_proof),
        "New membership proof must verify after addition"
    );
}

#[test]
fn accumulation_scheme_membership_proof_updating_from_add_pbt() {
    let mut rng = StdRng::from_seed(
        vec![vec![0, 1, 4, 33], vec![0; 28]]
            .concat()
            .try_into()
            .unwrap(),
    );

    let mut mutator_set = SetCommitment::default();

    let num_additions = rng.gen_range(0..=100i32);
    println!(
        "running multiple additions test for {} additions",
        num_additions
    );

    let mut membership_proofs_and_items: Vec<(MembershipProof, Digest)> = vec![];
    for i in 0..num_additions {
        println!("loop iteration {}", i);
        let item = random_digest(&mut rng);
        let randomness = random_digest(&mut rng);

        let addition_record = mutator_set.commit(&item, &randomness);
        let membership_proof = mutator_set.prove(&item, &randomness, false);

        // Update all membership proofs
        for mp in membership_proofs_and_items.iter_mut() {
            mp.0
                .update_from_addition(&mp.1, &mutator_set, &addition_record)
                .unwrap();
        }

        // Add the element
        assert!(!mutator_set.verify(&item, &membership_proof));
        mutator_set.add(&addition_record);
        assert!(mutator_set.verify(&item, &membership_proof));
        membership_proofs_and_items.push((membership_proof, item));

        // Verify that all membership proofs work
        assert!(membership_proofs_and_items
            .clone()
            .into_iter()
            .all(|(mp, item)| mutator_set.verify(&item, &mp)));
    }
}
