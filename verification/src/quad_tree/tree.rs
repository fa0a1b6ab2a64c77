//! The quadtree itself: construction, insertion.
use crate::quad_tree::arena::{leaf_mass_sum, lemma_sum_bounds, Arena};
use crate::quad_tree::node::Node;
use crate::quad_tree::quad::Quad;
use crate::vec2::Vec2;
use vstd::prelude::*;

verus! {

/// A Barnes-Hut quadtree stored as a flat arena of nodes.
///
/// `t_sq` is the square of the opening-angle threshold and `e_sq` the square
/// of the softening length, both kept squared so that a query needs no square
/// root for either.
pub struct Quadtree {
    pub t_sq: u64,
    pub e_sq: u64,
    pub nodes: Vec<Node>,
    pub parents: Vec<usize>,
}

impl View for Quadtree {
    type V = Arena;

    open spec fn view(&self) -> Arena {
        Arena { t_sq: self.t_sq, e_sq: self.e_sq, nodes: self.nodes@, parents: self.parents@ }
    }
}

impl Quadtree {
    /// Index of the root node.
    pub const ROOT: usize = 0;

    /// An empty tree with opening angle `theta` and softening length
    /// `epsilon`, both fixed-point.  The tree has no root until
    /// [`Quadtree::clear`] gives it one.
    pub fn new(theta: u32, epsilon: u32) -> (tree: Quadtree)
        ensures
            tree.t_sq == theta * theta,
            tree.e_sq == epsilon * epsilon,
            tree.nodes@.len() == 0,
            tree.parents@.len() == 0,
    {
        assert(theta * theta <= u64::MAX && epsilon * epsilon <= u64::MAX) by (nonlinear_arith)
            requires
                theta <= u32::MAX,
                epsilon <= u32::MAX,
        ;
        Quadtree {
            t_sq: (theta as u64) * (theta as u64),
            e_sq: (epsilon as u64) * (epsilon as u64),
            nodes: Vec::new(),
            parents: Vec::new(),
        }
    }

    /// Resets the tree to a single unoccupied root covering `quad`.
    pub fn clear(&mut self, quad: Quad)
        ensures
            final(self)@ == old(self)@.cleared(quad),
            final(self)@.wf(),
            final(self)@.total_mass() == 0,
            final(self).t_sq == old(self).t_sq,
            final(self).e_sq == old(self).e_sq,
    {
        self.nodes.clear();
        self.parents.clear();
        self.nodes.push(Node::new(0, quad));
        proof {
            assert(self.nodes@ =~= seq![Node::fresh(0, quad)]);
            assert(self.parents@ =~= Seq::empty());
            assert(self.nodes@.drop_last() =~= Seq::empty());
            assert(leaf_mass_sum(self.nodes@.drop_last()) == 0);
            assert(self@.children_ok(0));
            assert(self@.leaves_found());
        }
    }

    /// Subdivides the leaf `node` and returns the index of its first child.
    fn subdivide(&mut self, node: usize) -> (children: usize)
        requires
            node < old(self).nodes@.len(),
        ensures
            children == old(self).nodes@.len(),
            final(self)@ == old(self)@.subdivided(node as int),
            children + 4 <= usize::MAX,
            final(self).t_sq == old(self).t_sq,
            final(self).e_sq == old(self).e_sq,
    {
        self.parents.push(node);
        let children: usize = self.nodes.len();
        self.nodes[node].children = children;
        let next: usize = self.nodes[node].next;
        let quads: [Quad; 4] = self.nodes[node].quad.subdivide();
        // The children are linked to their successors once all four exist,
        // so that no index is formed before the arena is known to hold it.
        self.nodes.push(Node::new(next, quads[0]));
        self.nodes.push(Node::new(next, quads[1]));
        self.nodes.push(Node::new(next, quads[2]));
        self.nodes.push(Node::new(next, quads[3]));
        let end: usize = self.nodes.len();
        assert(end == children + 4);
        self.nodes[children].next = children + 1;
        self.nodes[children + 1].next = children + 2;
        self.nodes[children + 2].next = children + 3;
        proof {
            old(self)@.lemma_subdivided_nodes(node as int);
            assert(self.nodes@ =~= old(self)@.subdivided(node as int).nodes);
        }
        children
    }

    /// Inserts `mass` at `pos`.
    ///
    /// The point goes to the leaf that `pos` leads to from the root.  An
    /// unoccupied leaf takes it as it is.  A leaf holding exactly `pos` adds
    /// the mass to its own.  Any other leaf is subdivided until the two
    /// points separate; should the region become too small to split first,
    /// the leaf keeps its point and takes the mass of the new one, as if the
    /// two coincided.  This bounds the depth of the tree by the number of
    /// times the side of the root can be halved.
    ///
    /// Where a leaf holds exactly `pos` already, the tree afterwards is the
    /// tree before with `mass` added to that leaf: still one leaf for the
    /// position, no further node and no subdivision.
    ///
    /// The tree must have a root (see [`Quadtree::clear`]), and the total
    /// mass must still fit the mass type with `mass` added.
    pub fn insert(&mut self, pos: Vec2, mass: u32)
        requires
            old(self)@.wf(),
            old(self)@.total_mass() + mass <= u32::MAX,
        ensures
            final(self)@ == old(self)@.inserted(pos, mass),
            final(self)@.wf(),
            final(self)@.total_mass() == old(self)@.total_mass() + mass,
            old(self).nodes@.len() <= final(self).nodes@.len() <= old(self).nodes@.len() + 124,
            forall|leaf: int|
                0 <= leaf < old(self).nodes@.len() && (#[trigger] old(self).nodes@[leaf]).children
                    == 0 && old(self).nodes@[leaf].mass > 0 && old(self).nodes@[leaf].pos == pos
                    ==> final(self)@ == old(self)@.grown_at(leaf, mass),
            final(self).t_sq == old(self).t_sq,
            final(self).e_sq == old(self).e_sq,
    {
        let mut node: usize = Self::ROOT;
        while self.nodes[node].children != 0
            invariant
                *self == *old(self),
                self@.shape_wf(),
                node < self.nodes@.len(),
                self@.find_leaf(node as int, pos) == self@.find_leaf(0, pos),
            decreases self.nodes@.len() - node,
        {
            proof {
                assert(self@.children_ok(node as int));
                assert(self@.group_ok(self.nodes@[node as int].children as int / 4));
            }
            let q: usize = self.nodes[node].quad.find_quadrant(pos);
            node = self.nodes[node].children + q;
        }
        proof {
            lemma_sum_bounds(self.nodes@, node as int);
        }
        if self.nodes[node].is_empty() {
            self.nodes[node].pos = pos;
            self.nodes[node].mass = mass;
            let count: usize = self.nodes.len();
            proof {
                assert(self.nodes@ =~= old(self)@.with_leaf(node as int, pos, mass).nodes);
                assert(self@ == old(self)@.inserted(pos, mass));
                old(self)@.lemma_inserted_wf(pos, mass);
            }
            return ;
        }
        let p: Vec2 = self.nodes[node].pos;
        let m: u32 = self.nodes[node].mass;
        if pos == p {
            self.nodes[node].mass = m + mass;
            let count: usize = self.nodes.len();
            proof {
                assert(self.nodes@ =~= old(self)@.with_leaf(
                    node as int,
                    pos,
                    (m + mass) as u32,
                ).nodes);
                assert(self@ == old(self)@.inserted(pos, mass));
                old(self)@.lemma_inserted_wf(pos, mass);
            }
            return ;
        }
        loop
            invariant
                node < self.nodes@.len(),
                m + mass <= u32::MAX,
                self@.split(node as int, p, m, pos, mass) == old(self)@.inserted(pos, mass),
                old(self)@.wf(),
                old(self)@.total_mass() + mass <= u32::MAX,
                self.t_sq == old(self).t_sq,
                self.e_sq == old(self).e_sq,
            decreases self.nodes@[node as int].quad.size,
        {
            let quad: Quad = self.nodes[node].quad;
            let q1: usize = quad.find_quadrant(p);
            let q2: usize = quad.find_quadrant(pos);
            let ghost before = self@;
            if q1 != q2 {
                let children: usize = self.subdivide(node);
                let n1: usize = children + q1;
                let n2: usize = children + q2;
                self.nodes[n1].pos = p;
                self.nodes[n1].mass = m;
                self.nodes[n2].pos = pos;
                self.nodes[n2].mass = mass;
                let count: usize = self.nodes.len();
                proof {
                    before.lemma_subdivided_nodes(node as int);
                    assert(self.nodes@ =~= before.subdivided(node as int).with_leaf(
                        n1 as int,
                        p,
                        m,
                    ).with_leaf(n2 as int, pos, mass).nodes);
                    assert(self@ == old(self)@.inserted(pos, mass));
                    old(self)@.lemma_inserted_wf(pos, mass);
                }
                return ;
            }
            if quad.size < 4 {
                self.nodes[node].pos = p;
                self.nodes[node].mass = m + mass;
                let count: usize = self.nodes.len();
                proof {
                    assert(self.nodes@ =~= before.with_leaf(node as int, p, (m + mass) as u32).nodes);
                    assert(self@ == old(self)@.inserted(pos, mass));
                    old(self)@.lemma_inserted_wf(pos, mass);
                }
                return ;
            }
            let children: usize = self.subdivide(node);
            proof {
                before.lemma_subdivided_nodes(node as int);
            }
            node = children + q1;
        }
    }
}

} // verus!
