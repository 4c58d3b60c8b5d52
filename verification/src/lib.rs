//! An embeddable triple store: facts are fixed-width binary records held in
//! persistent, content-canonical tries, one per useful field ordering, and
//! queried by pattern matching with variable bindings through a
//! cost-guided, backtracking constraint solver.

pub mod bitset;
pub mod blob;
pub mod trible;
pub mod tribledb;
pub mod hashtribleset;
pub mod id;
pub mod query;
pub mod schemas;
pub mod trie;
pub mod valueschemas;
