//! An in-memory directed-acyclic-graph abstraction with incremental node
//! insertion, explicit cross-linking with cycle rejection, and
//! lowest-common-ancestor queries, together with a companion ordered
//! (binary search) tree offering insert, remove, contains, LCA and an
//! indented text rendering.

pub mod dag;
pub mod order;
pub mod text;
pub mod tree;
