//! Layout engine for graph visualization.
//!
//! This crate computes normalized 2-D positions for the nodes of an abstract
//! graph and turns those positions, together with styling parameters, into a
//! list of drawable primitives. All geometry is carried out in verified
//! fixed-point arithmetic (see [`fixed`]); the graph itself is the dense,
//! index-based [`graph::GraphData`] that any concrete graph representation can
//! be reduced to.

pub mod bipartite;
pub mod bitset;
pub mod circular;
pub mod fixed;
pub mod force_directed;
pub mod graph;
pub mod hierarchical;
pub mod position;
pub mod random;
pub mod scene;
pub mod settings;

pub use hierarchical::Orientation;
pub use settings::Layout;
