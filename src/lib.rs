//! An in-memory B-tree of `i64` keys with a fixed minimum degree `D`.
pub mod error;
pub mod iter;
pub mod laws;
pub mod node;
pub mod tree;
