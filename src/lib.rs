//! A virtualized index over a lazily loaded file tree: rows of a flat,
//! scrollable listing are mapped to tree nodes and back without ever
//! building the flat list.

pub mod tree;
pub mod resolve;
pub mod paint;
pub mod explorer;
pub mod laws;
