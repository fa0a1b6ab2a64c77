//! The mathematical model of the quadtree: the node sequence and the
//! sequence of subdivided nodes, with the operations on them.
use crate::quad_tree::node::Node;
use crate::vec2::Vec2;
use vstd::prelude::*;

verus! {

/// The view of a [`crate::quad_tree::Quadtree`]: its two parameters, every
/// node in allocation order, and every subdivided node in the order of
/// subdivision.
pub struct Arena {
    pub t_sq: u64,
    pub e_sq: u64,
    pub nodes: Seq<Node>,
    pub parents: Seq<usize>,
}

/// Sum of the leaf masses of a node sequence.
pub open spec fn leaf_mass_sum(nodes: Seq<Node>) -> int
    decreases nodes.len(),
{
    if nodes.len() == 0 {
        0
    } else {
        leaf_mass_sum(nodes.drop_last()) + nodes.last().leaf_mass()
    }
}

impl Arena {
    /// The `k`-th subdivision is recorded consistently: its node precedes its
    /// four children, which occupy indices `1 + 4k ..= 4 + 4k`, are chained
    /// by `next` in quadrant order, hand on the parent's own successor at the
    /// end, and cover the parent's four child regions.
    pub open spec fn group_ok(self, k: int) -> bool {
        let p = self.parents[k] as int;
        let c = 1 + 4 * k;
        &&& 0 <= p < c
        &&& self.nodes[p].children == c
        &&& self.nodes[c].next == c + 1
        &&& self.nodes[c + 1].next == c + 2
        &&& self.nodes[c + 2].next == c + 3
        &&& self.nodes[c + 3].next == self.nodes[p].next
        &&& self.nodes[c].quad == self.nodes[p].quad.child(0)
        &&& self.nodes[c + 1].quad == self.nodes[p].quad.child(1)
        &&& self.nodes[c + 2].quad == self.nodes[p].quad.child(2)
        &&& self.nodes[c + 3].quad == self.nodes[p].quad.child(3)
    }

    /// Node `n` is a leaf, or its children are the group of the subdivision
    /// that recorded `n`.
    pub open spec fn children_ok(self, n: int) -> bool {
        let c = self.nodes[n].children as int;
        c != 0 ==> c % 4 == 1 && c / 4 < self.parents.len() && self.parents[c / 4] == n
    }

    /// The arena is a tree rooted at node 0: one root plus four children per
    /// subdivision, with consistent child and successor links.
    pub open spec fn shape_wf(self) -> bool {
        &&& self.nodes.len() == 1 + 4 * self.parents.len()
        &&& self.nodes[0].next == 0
        &&& forall|k: int| 0 <= k < self.parents.len() ==> #[trigger] self.group_ok(k)
        &&& forall|n: int| 0 <= n < self.nodes.len() ==> #[trigger] self.children_ok(n)
    }

    /// Total mass held by the leaves.
    pub open spec fn total_mass(self) -> int {
        leaf_mass_sum(self.nodes)
    }

    /// Every occupied leaf is the leaf that its own position leads to from
    /// the root.  No two leaves therefore hold the same position.
    pub open spec fn leaves_found(self) -> bool {
        forall|n: int|
            0 <= n < self.nodes.len() && (#[trigger] self.nodes[n]).children == 0
                && self.nodes[n].mass > 0 ==> self.find_leaf(0, self.nodes[n].pos) == n
    }

    /// A well-formed arena: a tree whose occupied leaves are where their
    /// positions lead, and whose total mass fits the mass type.
    pub open spec fn wf(self) -> bool {
        &&& self.shape_wf()
        &&& self.leaves_found()
        &&& self.total_mass() <= u32::MAX
    }

    /// This arena reset to a single unoccupied root that covers `quad`; the
    /// parameters stay.
    pub open spec fn cleared(self, quad: crate::quad_tree::quad::Quad) -> Arena {
        Arena { nodes: seq![Node::fresh(0, quad)], parents: Seq::empty(), ..self }
    }

    /// The leaf reached from node `n` by following, at every inner node, the
    /// child in the quadrant of `p`.
    pub open spec fn find_leaf(self, n: int, p: Vec2) -> int
        decreases self.nodes.len() - n,
    {
        let c = self.nodes[n].children as int;
        if 0 <= n < c && c + 3 < self.nodes.len() {
            self.find_leaf(c + self.nodes[n].quad.quadrant_of(p), p)
        } else {
            n
        }
    }

    /// Node `n` holds `mass` at `pos`; nothing else changes.
    pub open spec fn with_leaf(self, n: int, pos: Vec2, mass: u32) -> Arena {
        Arena { nodes: self.nodes.update(n, self.nodes[n].holding(pos, mass)), ..self }
    }

    /// Node `n` is subdivided: it is recorded in `parents`, its `children`
    /// link points to four fresh leaves appended to the arena, which cover
    /// its four child regions and are chained so that the last hands on the
    /// successor of `n`.
    pub open spec fn subdivided(self, n: int) -> Arena {
        let c = self.nodes.len() as int;
        let node = self.nodes[n];
        Arena {
            nodes: self.nodes.update(n, node.with_children(c as usize)).push(
                Node::fresh((c + 1) as usize, node.quad.child(0)),
            ).push(Node::fresh((c + 2) as usize, node.quad.child(1))).push(
                Node::fresh((c + 3) as usize, node.quad.child(2)),
            ).push(Node::fresh(node.next, node.quad.child(3))),
            parents: self.parents.push(n as usize),
            ..self
        }
    }

    /// The occupied leaf `n`, holding `m` at `p`, receives a different point
    /// `pos` with `mass`.  The leaf is subdivided until the two points fall
    /// into different quadrants, where each gets a leaf of its own.  If the
    /// region becomes too small to split first, the leaf keeps its point and
    /// takes the mass of the new one, as if the two coincided.
    pub open spec fn split(self, n: int, p: Vec2, m: u32, pos: Vec2, mass: u32) -> Arena
        decreases self.nodes[n].quad.size,
        when 0 <= n < self.nodes.len()
    {
        let quad = self.nodes[n].quad;
        let q1 = quad.quadrant_of(p);
        let q2 = quad.quadrant_of(pos);
        let c = self.nodes.len() as int;
        if q1 != q2 {
            self.subdivided(n).with_leaf(c + q1, p, m).with_leaf(c + q2, pos, mass)
        } else if quad.too_small_to_split() {
            self.with_leaf(n, p, (m + mass) as u32)
        } else {
            proof {
                self.lemma_subdivided_nodes(n);
            }
            self.subdivided(n).split(c + q1, p, m, pos, mass)
        }
    }

    /// The arena after inserting `mass` at `pos`.  The point goes to the leaf
    /// that `pos` leads to from the root.  An unoccupied leaf takes it as it
    /// is; a leaf that holds exactly `pos` adds the mass to its own; any
    /// other leaf is split.
    pub open spec fn inserted(self, pos: Vec2, mass: u32) -> Arena {
        let leaf = self.find_leaf(0, pos);
        let node = self.nodes[leaf];
        if node.mass == 0 {
            self.with_leaf(leaf, pos, mass)
        } else if node.pos == pos {
            self.with_leaf(leaf, pos, (node.mass + mass) as u32)
        } else {
            self.split(leaf, node.pos, node.mass, pos, mass)
        }
    }

    /// The nodes of a subdivided arena, one by one.
    pub proof fn lemma_subdivided_nodes(self, n: int)
        requires
            0 <= n < self.nodes.len(),
        ensures
            ({
                let a = self.subdivided(n);
                let c = self.nodes.len() as int;
                let node = self.nodes[n];
                &&& a.nodes.len() == c + 4
                &&& a.parents == self.parents.push(n as usize)
                &&& a.nodes[n] == node.with_children(c as usize)
                &&& a.nodes[c] == Node::fresh((c + 1) as usize, node.quad.child(0))
                &&& a.nodes[c + 1] == Node::fresh((c + 2) as usize, node.quad.child(1))
                &&& a.nodes[c + 2] == Node::fresh((c + 3) as usize, node.quad.child(2))
                &&& a.nodes[c + 3] == Node::fresh(node.next, node.quad.child(3))
                &&& forall|i: int| 0 <= i < c && i != n ==> a.nodes[i] == self.nodes[i]
            }),
    {
    }
}

/// Appending a node adds its leaf mass to the sum.
pub proof fn lemma_sum_push(nodes: Seq<Node>, x: Node)
    ensures
        leaf_mass_sum(nodes.push(x)) == leaf_mass_sum(nodes) + x.leaf_mass(),
{
    assert(nodes.push(x).drop_last() =~= nodes);
}

/// Replacing a node exchanges its leaf mass in the sum.
pub proof fn lemma_sum_update(nodes: Seq<Node>, i: int, x: Node)
    requires
        0 <= i < nodes.len(),
    ensures
        leaf_mass_sum(nodes.update(i, x)) == leaf_mass_sum(nodes) - nodes[i].leaf_mass()
            + x.leaf_mass(),
    decreases nodes.len(),
{
    if i == nodes.len() - 1 {
        assert(nodes.update(i, x).drop_last() =~= nodes.drop_last());
    } else {
        lemma_sum_update(nodes.drop_last(), i, x);
        assert(nodes.update(i, x).drop_last() =~= nodes.drop_last().update(i, x));
    }
}

/// No leaf holds more than the total.
pub proof fn lemma_sum_bounds(nodes: Seq<Node>, i: int)
    requires
        0 <= i < nodes.len(),
    ensures
        0 <= nodes[i].leaf_mass() <= leaf_mass_sum(nodes),
    decreases nodes.len(),
{
    lemma_sum_nonnegative(nodes.drop_last());
    if i < nodes.len() - 1 {
        lemma_sum_bounds(nodes.drop_last(), i);
    }
}

/// The sum of leaf masses is never negative.
pub proof fn lemma_sum_nonnegative(nodes: Seq<Node>)
    ensures
        0 <= leaf_mass_sum(nodes),
    decreases nodes.len(),
{
    if nodes.len() > 0 {
        lemma_sum_nonnegative(nodes.drop_last());
    }
}

impl Arena {
    /// Changing what a node holds keeps the shape and exchanges its leaf
    /// mass in the total.
    pub proof fn lemma_with_leaf(self, n: int, pos: Vec2, mass: u32)
        requires
            self.shape_wf(),
            0 <= n < self.nodes.len(),
        ensures
            self.with_leaf(n, pos, mass).shape_wf(),
            self.nodes[n].children == 0 ==> self.with_leaf(n, pos, mass).total_mass()
                == self.total_mass() - self.nodes[n].mass + mass,
            self.nodes[n].children != 0 ==> self.with_leaf(n, pos, mass).total_mass()
                == self.total_mass(),
    {
        let a = self.with_leaf(n, pos, mass);
        lemma_sum_update(self.nodes, n, self.nodes[n].holding(pos, mass));
        assert forall|k: int| 0 <= k < a.parents.len() implies #[trigger] a.group_ok(k) by {
            assert(self.group_ok(k));
        }
        assert forall|i: int| 0 <= i < a.nodes.len() implies #[trigger] a.children_ok(i) by {
            assert(self.children_ok(i));
        }
    }

    /// Subdividing a leaf keeps the shape; the leaf's own mass no longer
    /// counts toward the total, and its four children are unoccupied leaves.
    pub proof fn lemma_subdivided(self, n: int)
        requires
            self.shape_wf(),
            0 <= n < self.nodes.len(),
            self.nodes[n].children == 0,
            self.nodes.len() + 4 <= usize::MAX,
        ensures
            self.subdivided(n).shape_wf(),
            self.subdivided(n).total_mass() == self.total_mass() - self.nodes[n].mass,
    {
        let a = self.subdivided(n);
        let c = self.nodes.len() as int;
        let node = self.nodes[n];
        self.lemma_subdivided_nodes(n);
        assert forall|k: int| 0 <= k < a.parents.len() implies #[trigger] a.group_ok(k) by {
            if k < self.parents.len() {
                assert(self.group_ok(k));
            }
        }
        assert forall|i: int| 0 <= i < a.nodes.len() implies #[trigger] a.children_ok(i) by {
            if i < c {
                assert(self.children_ok(i));
            }
        }
        let s0 = self.nodes.update(n, node.with_children(c as usize));
        let s1 = s0.push(Node::fresh((c + 1) as usize, node.quad.child(0)));
        let s2 = s1.push(Node::fresh((c + 2) as usize, node.quad.child(1)));
        let s3 = s2.push(Node::fresh((c + 3) as usize, node.quad.child(2)));
        lemma_sum_update(self.nodes, n, node.with_children(c as usize));
        lemma_sum_push(s0, Node::fresh((c + 1) as usize, node.quad.child(0)));
        lemma_sum_push(s1, Node::fresh((c + 2) as usize, node.quad.child(1)));
        lemma_sum_push(s2, Node::fresh((c + 3) as usize, node.quad.child(2)));
        lemma_sum_push(s3, Node::fresh(node.next, node.quad.child(3)));
    }
}

} // verus!
