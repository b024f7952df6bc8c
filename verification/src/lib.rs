//! An embeddable key-value store over ordered byte-string keys, held in a
//! byte-prefix-compressed radix tree. Every node field is a tagged reference
//! that is either absent, resident in memory, or resolved from a backing
//! store by an opaque 64-bit identifier; trees support point lookup, ordered
//! iteration, prefix-subtree extraction, and a recursive union merge with a
//! caller-supplied value-combine rule, in allocating and in-place forms.
//!
//! Resident buffers are plain owned byte vectors: cloning a tree is a deep
//! copy, proven independent of the original, and no reference-counted
//! structural sharing of buffers between trees is modelled. Sharing happens
//! through the backing store instead, where any number of trees may hold the
//! same 64-bit identifier.

pub mod builder;
pub mod encoding;
pub mod filter;
pub mod find;
pub mod flexref;
pub mod inplace;
pub mod laws;
pub mod lex;
pub mod merge;
pub mod node;
pub mod persist;
pub mod store;
pub mod tree;
