//! Nodes of the quadtree arena.
use crate::quad_tree::quad::Quad;
use crate::vec2::Vec2;
use vstd::prelude::*;

verus! {

/// One node of the arena.
///
/// `children` is 0 for a leaf and otherwise the index of the first of four
/// consecutive children (index 0 is the root and never a child).  `next` is
/// the node at which a depth-first traversal continues once this node's whole
/// subtree is done, or 0 when nothing is left.  `mass` is 0 for an unoccupied
/// leaf.
#[derive(Clone, Copy, Debug)]
pub struct Node {
    pub children: usize,
    pub next: usize,
    pub pos: Vec2,
    pub mass: u32,
    pub quad: Quad,
}

impl Node {
    /// The unoccupied leaf covering `quad` whose traversal successor is `next`.
    pub open spec fn fresh(next: usize, quad: Quad) -> Node {
        Node { children: 0, next, pos: Vec2 { x: 0, y: 0 }, mass: 0, quad }
    }

    /// This node holding `mass` at `pos`, everything else unchanged.
    pub open spec fn holding(self, pos: Vec2, mass: u32) -> Node {
        Node { pos, mass, ..self }
    }

    /// This node with `children` as its first child, everything else unchanged.
    pub open spec fn with_children(self, children: usize) -> Node {
        Node { children, ..self }
    }

    /// The mass this node contributes as a leaf: its mass if it has no
    /// children, and nothing otherwise.
    pub open spec fn leaf_mass(self) -> int {
        if self.children == 0 {
            self.mass as int
        } else {
            0
        }
    }

    pub fn new(next: usize, quad: Quad) -> (n: Node)
        ensures
            n == Node::fresh(next, quad),
    {
        Node { children: 0, next, pos: Vec2::zero(), mass: 0, quad }
    }

    pub fn is_leaf(&self) -> (b: bool)
        ensures
            b == (self.children == 0),
    {
        self.children == 0
    }

    pub fn is_empty(&self) -> (b: bool)
        ensures
            b == (self.mass == 0),
    {
        self.mass == 0
    }
}

} // verus!
