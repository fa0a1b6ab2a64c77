//! The Barnes-Hut quadtree.
pub mod arena;
pub mod contents;
pub mod force;
pub mod gravity;
pub mod laws;
pub mod node;
pub mod placement;
pub mod propagate;
pub mod quad;
pub mod sums;
pub mod tree;

pub use arena::Arena;
pub use gravity::handle_quadtree_gravity;
pub use node::Node;
pub use quad::Quad;
pub use tree::Quadtree;
