//! Merkleization and generalized-index multi-proof engine.
//!
//! The crate turns a typed, nested value into a single 32-byte hash-tree
//! root, addresses every node of the resulting binary tree with a
//! generalized index, extracts the minimal sibling sets needed to prove
//! one or more leaves against the root, and recomputes roots from such
//! proofs.

pub mod chunk;
pub mod gindex;
pub mod hashing;
pub mod merkle;
pub mod multiproof;
pub mod typed;
