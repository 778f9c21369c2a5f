//! A secure, append-only log: a Merkle tree over blocks whose roots the single
//! writer signs, a block store, and an operation log that makes every commit
//! atomic and recoverable.
//!
//! The modules, leaves first:
//! - `flat`, `crypto`, `node`: the labelling of the tree, its hashes and
//!   signatures, and its nodes;
//! - `encoding`, `messages`: the compact encoding and the messages that
//!   carry blocks and proofs;
//! - `tree`, `tree_records`, `proofs`: the Merkle tree, how it is opened and
//!   looked up from the tree segment, and how proofs are checked;
//! - `model`, `replay`: the tree as a mathematical object, and what holds
//!   of appends, reads, proofs and replay;
//! - `data`, `storage`: the block store and the layout of the segments;
//! - `oplog`: the operation log with its header, entries and laws;
//! - `controller`: the commit protocol over all of them.
//!
//! Nothing here reads or writes a segment: every operation names what is to
//! be read or written and takes what was read.

pub mod common;
pub mod controller;
pub mod crypto;
pub mod data;
pub mod encoding;
pub mod flat;
pub mod messages;
pub mod model;
pub mod node;
pub mod oplog;
pub mod proofs;
pub mod replay;
pub mod storage;
pub mod tree;
pub mod tree_records;

pub use crate::common::{CodecError, CodecErrorKind, HypercoreError};
pub use crate::controller::{AppendOutcome, Hypercore};
pub use crate::crypto::{generate_keypair, PartialKeypair, PublicKey, SecretKey};
pub use crate::encoding::HypercoreState;
pub use crate::messages::{
    DataBlock, DataHash, DataSeek, DataUpgrade, RequestBlock, RequestSeek, RequestUpgrade,
};
pub use crate::node::Node;
pub use crate::oplog::Oplog;
pub use crate::proofs::Proof;
pub use crate::storage::Store;
