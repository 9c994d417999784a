//! Hash-summarised path trees for directory synchronisation: a Merkle tree
//! keyed by path segments, its diff, the entry model and the ignore rules
//! that decide which paths a scan keeps.

pub mod bytes;
pub mod entry;
pub mod model;
pub mod merkle_tree;
pub mod diff;
pub mod laws;
pub mod order;
pub mod walk;
pub mod path_tree;
