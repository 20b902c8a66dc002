use mutator_set::{Chunk, CHUNK_SIZE};
use rand::{thread_rng, RngCore};

#[test]
fn get_set_unset_bits_pbt() {
    let mut aw = Chunk::empty_chunk();
    for i in 0..CHUNK_SIZE {
        assert!(!aw.get_bit(i as u32));
    }

    let mut prng = thread_rng();
    for _ in 0..CHUNK_SIZE {
        let index = prng.next_u32() % CHUNK_SIZE as u32;
        let set = prng.next_u32() % 2 == 0;
        if set {
            aw.set_bit(index);
        } else {
            aw.unset_bit(index);
        }

        assert_eq!(set, aw.get_bit(index));
    }

    // Set all bits, then check that they are set
    for i in 0..CHUNK_SIZE {
        aw.set_bit(i as u32);
    }

    for i in 0..CHUNK_SIZE {
        assert!(aw.get_bit(i as u32));
    }
}

#[test]
fn xor_and_and_and_is_unset_test() {
    let mut chunk_a = Chunk::empty_chunk();
    chunk_a.set_bit(12);
    chunk_a.set_bit(13);

    let mut chunk_b = Chunk::empty_chunk();
    chunk_b.set_bit(48);
    chunk_b.set_bit(13);

    let mut expected_xor = Chunk::empty_chunk();
    expected_xor.set_bit(12);
    expected_xor.set_bit(48);

    let mut chunk_c = chunk_a.clone();
    chunk_c.xor_assign(chunk_b.clone());

    assert_eq!(
        expected_xor, chunk_c,
        "XOR on chunks must behave as expected"
    );

    let mut expected_and = Chunk::empty_chunk();
    expected_and.set_bit(13);

    chunk_c = chunk_a.clone().and(chunk_b.clone());
    assert_eq!(
        expected_and, chunk_c,
        "AND on chunks must behave as expected"
    );

    // Verify that `is_unset` behaves as expected
    assert!(!chunk_a.is_unset());
    assert!(!chunk_b.is_unset());
    assert!(!chunk_c.is_unset());
    assert!(Chunk::empty_chunk().is_unset());
}

#[test]
fn test_indices() {
    let mut chunk = Chunk::empty_chunk();
    let mut rng = thread_rng();
    let num_insertions = 100;
    for _ in 0..num_insertions {
        let index = rng.next_u32() % (CHUNK_SIZE as u32);
        chunk.set_bit(index);
    }

    let indices = chunk.to_indices();

    let reconstructed_chunk = Chunk::from_indices(&indices);

    assert_eq!(chunk, reconstructed_chunk);
}

#[test]
fn chunk_set_bit_keeps_ascending_positions_once() {
    let mut chunk = Chunk::empty_chunk();
    chunk.set_bit(700);
    chunk.set_bit(3);
    chunk.set_bit(700);
    chunk.set_bit(1499);
    assert_eq!(chunk.bits, vec![3, 700, 1499]);
    chunk.unset_bit(700);
    chunk.unset_bit(5);
    assert_eq!(chunk.bits, vec![3, 1499]);
}

#[test]
fn chunk_or_is_union() {
    let a = Chunk::from_slice(&[1, 5, 9]);
    let b = Chunk::from_slice(&[9, 2]);
    assert_eq!(a.or(b).bits, vec![1, 2, 5, 9]);
}

#[test]
fn chunk_xor_of_overlapping_chunks() {
    let mut a = Chunk::from_slice(&[0, 1, 2]);
    a.xor_assign(Chunk::from_slice(&[2, 3]));
    assert_eq!(a.bits, vec![0, 1, 3]);
}

#[test]
fn chunk_from_indices_and_to_indices() {
    let c = Chunk::from_indices(&[1400, 7, 7, 0]);
    assert_eq!(c.bits, vec![0, 7, 1400]);
    assert_eq!(c.to_indices(), vec![0u128, 7, 1400]);
}

#[test]
fn chunk_hash_depends_on_positions() {
    let zero = Chunk::empty_chunk().hash();
    let mut one = Chunk::empty_chunk();
    one.set_bit(32);
    let mut two = one.clone();
    two.set_bit(33);
    assert_ne!(zero, one.hash());
    assert_ne!(one.hash(), two.hash());
    assert_ne!(zero, two.hash());
    // the last position of the chunk lies in the shorter last word
    let mut last = Chunk::empty_chunk();
    last.set_bit(CHUNK_SIZE as u32 - 1);
    assert_ne!(zero, last.hash());
    assert_eq!(one.hash(), Chunk::from_slice(&[32]).hash());
}
