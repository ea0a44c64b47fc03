//! Compact k²-tree representation of two-dimensional value grids, with the
//! grid views and the rank/select sequence that the tree is built on.

pub mod graph;
pub mod k2tree;
pub mod linked;
pub mod matrix;
pub mod sequence;
pub mod value;
pub mod webgraph;

pub use crate::k2tree::K2tree;
pub use crate::matrix::Matrix;
pub use crate::sequence::Sequence;
pub use crate::webgraph::from_file;
