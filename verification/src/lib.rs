//! An append-only Merkle tree stored as one flat, growable sequence of
//! fixed-width hash slots, with tagged (domain-separated) hashing, inclusion
//! proof construction and pure proof verification.

pub mod math;
pub mod position;
pub mod hashing;
pub mod merkle;
pub mod laws;

pub use hashing::{LEAF_TAG, NODE_TAG};
pub use merkle::{MerkleTree, MerkleError, ProofElement, ProofElementDirection};
