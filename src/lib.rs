//! A mutator set: a cryptographic accumulator for a blockchain's unspent
//! outputs, built from an append-only commitment list and a sliding-window
//! Bloom filter, each kept as a Merkle Mountain Range.
pub mod shared;
pub mod trusted;
pub mod chunk;
pub mod indices;
pub mod chunk_dictionary;
pub mod addition_record;
pub mod membership_proof;
pub mod removal_record;
pub mod set_commitment;
pub mod archival;

pub use chunk::Chunk;

pub use addition_record::AdditionRecord;
pub use archival::ArchivalMutatorSet;
pub use chunk_dictionary::ChunkDictionary;
pub use indices::get_swbf_indices;
pub use membership_proof::MembershipProof;
pub use removal_record::{BitSet, RemovalRecord, RemovalRecordError};
pub use set_commitment::{SetCommitment, SetCommitmentError};
pub use shared::{BATCH_SIZE, CHUNK_SIZE, NUM_TRIALS, WINDOW_SIZE};
