//! Reconstruction of a hierarchical tree from a flat stream of text lines
//! that depict the tree with indentation and box-drawing connector glyphs.
//!
//! Each line is classified by a configurable extraction pattern into a
//! node-anchor column and a data column (counted in Unicode scalar values);
//! a single pass then folds the classified lines into an arena of labeled
//! nodes, finding each line's parent through a transient column index.

pub mod arena;
pub mod builder;
pub mod classify;
pub mod fold;
pub mod laws;
pub mod serialize;
mod colmap;

pub use arena::Arena;
pub use arena::NodeModel;
pub use builder::ParseError;
pub use builder::parse_tree;
pub use classify::Config;
pub use fold::resolve_children;
