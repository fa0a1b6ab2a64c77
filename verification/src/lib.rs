//! Spatial indices for a two-dimensional particle simulation: a Barnes-Hut
//! quadtree for approximate gravity, a kd-tree for neighbour queries, and the
//! elastic collision response that consumes the neighbour lists.
pub mod fixed;
pub mod kd_tree;
pub mod particle;
pub mod quad_tree;
pub mod simulation;
pub mod vec2;
