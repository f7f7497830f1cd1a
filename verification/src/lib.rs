//! A Merkle sum tree with exclusive allotment proofs.
//!
//! A custodian commits to a list of balances as a single root commitment that
//! binds every leaf through SHA-256 and reveals the total of all balances.
//! Every account holder can check, from a short path of sibling commitments,
//! that their own balance is part of that total.

pub mod allotment;
pub mod commitment;
pub mod hashing;
pub mod laws;
pub mod model;
pub mod tree;

pub use allotment::{AllotmentProof, ExclusiveAllotmentProof};
pub use commitment::{BalanceCommitment, SumCommitment};
pub use tree::{MerkleError, MerkleSumTree, MerkleTree, SUM_LIMIT};
