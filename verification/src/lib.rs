//! A verified two-dimensional Barnes-Hut gravity engine.
//!
//! Bodies are point masses with fixed-point integer coordinates.  Each
//! simulation step recomputes a bounding square, rebuilds a quadtree that
//! aggregates mass and mass-weighted position bottom-up, accumulates an
//! approximate net force per body by a theta-controlled traversal, advances
//! each body by semi-implicit Euler integration, and resolves pairwise
//! overlaps by a range query over the same tree.

pub mod num;
pub mod body;
pub mod quadtree;
pub mod tree;
pub mod force;
pub mod collision;
pub mod naive;
pub mod naive_multi_th;
pub mod laws;
pub mod sim;
