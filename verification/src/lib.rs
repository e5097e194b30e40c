//! A region quadtree over points with integer coordinates.
//!
//! The tree owns an axis-aligned [`QuadTreeBoundary`] and stores up to
//! [`CAPACITY`](quadtree::CAPACITY) points per node; an insertion beyond that
//! subdivides the node into four quadrants. Rectangle and radius range
//! queries return exactly the stored points that satisfy the geometric
//! predicate, in traversal order.

pub mod boundary;
pub mod laws;
pub mod point;
pub mod quadtree;

pub use crate::boundary::QuadTreeBoundary;
pub use crate::boundary::QuadTreeError;
pub use crate::point::Point;
pub use crate::quadtree::QuadTree;
