//! A hierarchical index over H3 cells that answers region-membership queries:
//! is this cell inside the region described by the cells inserted so far?
//!
//! Cells are 64-bit H3 indices. The tree keeps, under root nodes at a fixed
//! resolution, one node per cell on the way down to each inserted cell; a node
//! without children covers its whole area.
pub mod cell;
pub mod region;
pub mod tree;

pub use region::HTreeError;
pub use tree::{HTree, Node};
