//! Membership checks for small, static sets of byte sequences, answered by
//! walking a weight-ordered trie.
pub mod byte_set;
pub mod expand;
mod builder;
pub mod internal;
pub mod model;

pub use byte_set::ByteSet;
pub use internal::{build_trie, total_bytes, Edge, Node, Trie};
