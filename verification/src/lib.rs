//! A sparse Merkle tree with single-bit branching and compressed paths.
//!
//! Keys and leaves are 32-byte hashes. Every node is stored under the digest
//! of its own serialized form, so a root hash authenticates the whole mapping.
//!
//! The executable code is verified with Verus. Each operation of the tree
//! has a contract that says what it returns and writes, as a function of
//! what the store holds:
//!
//! - `bits`, `node`, `utils`, `order`: bit paths, the node codec, and the
//!   order of visit of a batch;
//! - `database`, `hasher`: the two interfaces that a tree is built on, with
//!   an in-memory backend and five hash functions;
//! - `model`: what the operations compute, as functions of a store;
//! - `tree`: the operations themselves;
//! - `walk`, `inserting`, `removing`, `laws`: what a stored tree stands
//!   for, and what follows for lookups, removals, batches and proofs.
use vstd::prelude::*;

pub mod utils;
pub mod bits;
pub mod errors;
pub mod node;
pub mod database;
pub mod hasher;
pub mod order;
pub mod model;
pub mod tree;
pub mod walk;
pub mod inserting;
pub mod removing;
pub mod laws;

pub use crate::bits::Bits;
pub use crate::errors::{ErrorKind, Errors};
pub use crate::node::{Cell, Node, Unit};
pub use crate::database::{Database, MemoryDB};
pub use crate::hasher::Hasher;
pub use crate::tree::Monotree;

verus! {

/// Width in bytes of every hash, key and leaf.
pub const HASH_LEN: usize = 32;

/// Unsigned type that holds a bit index into a key.
pub type BitsLen = u16;

/// A key, a leaf, or the content address of a node.
pub type Hash = [u8; HASH_LEN];

/// The backend of a tree made without naming one.
pub type DefaultDatabase = MemoryDB;

/// The hasher of a tree made without naming one.
pub type DefaultHasher = crate::hasher::Blake3;

/// An inclusion proof: for each node from the root down to the leaf, the
/// side on which the key went and the node's buffer without the hash on
/// that side.
pub type Proof = Vec<(bool, Vec<u8>)>;

/// What every fallible operation of this crate returns.
pub type Result<T> = core::result::Result<T, Errors>;

} // verus!
