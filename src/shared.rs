use vstd::prelude::*;

verus! {

/// Number of bits in the active window of the Bloom filter.
pub const WINDOW_SIZE: usize = 30000;

/// Number of bits in one chunk of the Bloom filter.
pub const CHUNK_SIZE: usize = 1500;

/// Number of additions after which the window slides by one chunk.
pub const BATCH_SIZE: usize = 10;

/// Number of distinct Bloom filter indices derived for each item.
pub const NUM_TRIALS: usize = 160;

/// Number of field-element words in the dense encoding of a chunk.
pub const CHUNK_WORDS: usize = 24;

/// Number of field-element words in the dense encoding of the active window.
pub const WINDOW_WORDS: usize = 477;

/// Number of bits packed into one word of the dense encoding.
pub const WORD_BITS: usize = 63;

/// Field modulus of the hash function's base field, less its remainder
/// modulo the window size: values below it reduce uniformly into the window.
pub const SAMPLE_LIMIT: u64 = 18446744069414580000;

} // verus!
