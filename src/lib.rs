//! A dynamic two-dimensional k-d tree: an unbalanced binary space-partitioning
//! index over points with integer coordinates, kept in an arena of nodes with
//! recycled handles, supporting insertion, removal and nearest-neighbour queries.
pub mod point;
pub mod tree;
pub mod kdtree;
pub mod geometry;
pub mod theorems;
pub mod interaction;
