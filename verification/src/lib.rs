//! A filesystem-backed content tree for a document editor.
//!
//! The crate is the decision core of the tree: recursive directory scanning
//! with extension-based filtering and deterministic ordering, and the
//! conflict-safe planning of mutation operations (move with collision
//! rejection, duplicate with name generation, recursive copy). The caller
//! reads directory listings from disk into plain values, hands them to these
//! functions, and performs exactly the filesystem actions they decide on.
pub mod ops;
pub mod text;
pub mod tree;
