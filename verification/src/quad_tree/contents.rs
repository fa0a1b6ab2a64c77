//! What the leaves hold, counted by an arbitrary measure: an insertion adds
//! the inserted point to the leaves and takes nothing away.
use crate::quad_tree::arena::Arena;
use crate::quad_tree::node::Node;
use crate::quad_tree::sums::leaf_sum;
use crate::vec2::Vec2;
use vstd::prelude::*;

verus! {

/// What `f` gives each node of `nodes` for the point it holds.
pub open spec fn held(nodes: Seq<Node>, f: spec_fn(Vec2, u32) -> int) -> spec_fn(int) -> int {
    |n: int| f(nodes[n].pos, nodes[n].mass)
}

/// What node `n` adds to a sum over the leaves.
pub open spec fn leaf_term(nodes: Seq<Node>, v: spec_fn(int) -> int, n: int) -> int {
    if nodes[n].children == 0 {
        v(n)
    } else {
        0
    }
}

/// Sums over the leaves whose terms agree are equal.
pub proof fn lemma_leaves_same(
    a: Seq<Node>,
    va: spec_fn(int) -> int,
    b: Seq<Node>,
    vb: spec_fn(int) -> int,
    upto: int,
)
    requires
        forall|n: int| 0 <= n < upto ==> #[trigger] leaf_term(a, va, n) == leaf_term(b, vb, n),
    ensures
        leaf_sum(a, va, upto) == leaf_sum(b, vb, upto),
    decreases upto,
{
    if upto > 0 {
        lemma_leaves_same(a, va, b, vb, upto - 1);
        assert(leaf_term(a, va, upto - 1) == leaf_term(b, vb, upto - 1));
    }
}

/// Sums over the leaves whose terms agree everywhere but at node `p` differ
/// by the difference of the terms at `p`.
pub proof fn lemma_leaves_differ_at(
    a: Seq<Node>,
    va: spec_fn(int) -> int,
    b: Seq<Node>,
    vb: spec_fn(int) -> int,
    upto: int,
    p: int,
)
    requires
        0 <= p < upto,
        forall|n: int|
            0 <= n < upto && n != p ==> #[trigger] leaf_term(a, va, n) == leaf_term(b, vb, n),
    ensures
        leaf_sum(a, va, upto) - leaf_term(a, va, p) == leaf_sum(b, vb, upto) - leaf_term(b, vb, p),
    decreases upto,
{
    if p == upto - 1 {
        lemma_leaves_same(a, va, b, vb, upto - 1);
    } else {
        lemma_leaves_differ_at(a, va, b, vb, upto - 1, p);
        assert(leaf_term(a, va, upto - 1) == leaf_term(b, vb, upto - 1));
    }
}

impl Arena {
    /// The sum over all leaves of what `f` gives the point that the leaf
    /// holds.
    pub open spec fn leaf_total(self, f: spec_fn(Vec2, u32) -> int) -> int {
        leaf_sum(self.nodes, held(self.nodes, f), self.nodes.len() as int)
    }

    /// Changing what the leaf `n` holds exchanges its term in the total.
    pub proof fn lemma_with_leaf_total(
        self,
        n: int,
        pos: Vec2,
        mass: u32,
        f: spec_fn(Vec2, u32) -> int,
    )
        requires
            0 <= n < self.nodes.len(),
            self.nodes[n].children == 0,
        ensures
            self.with_leaf(n, pos, mass).leaf_total(f) == self.leaf_total(f) - f(
                self.nodes[n].pos,
                self.nodes[n].mass,
            ) + f(pos, mass),
    {
        let after = self.with_leaf(n, pos, mass);
        assert forall|i: int| 0 <= i < self.nodes.len() && i != n implies #[trigger] leaf_term(
            after.nodes,
            held(after.nodes, f),
            i,
        ) == leaf_term(self.nodes, held(self.nodes, f), i) by {}
        lemma_leaves_differ_at(
            after.nodes,
            held(after.nodes, f),
            self.nodes,
            held(self.nodes, f),
            self.nodes.len() as int,
            n,
        );
    }

    /// Subdividing the leaf `n` takes what it holds out of the total; its
    /// four children are unoccupied.
    pub proof fn lemma_subdivided_total(self, n: int, f: spec_fn(Vec2, u32) -> int)
        requires
            0 <= n < self.nodes.len(),
            self.nodes[n].children == 0,
            self.nodes.len() + 4 <= usize::MAX,
            f(Vec2 { x: 0, y: 0 }, 0) == 0,
        ensures
            self.subdivided(n).leaf_total(f) == self.leaf_total(f) - f(
                self.nodes[n].pos,
                self.nodes[n].mass,
            ),
    {
        let after = self.subdivided(n);
        let c = self.nodes.len() as int;
        let v = held(after.nodes, f);
        self.lemma_subdivided_nodes(n);
        assert forall|i: int| 0 <= i < c && i != n implies #[trigger] leaf_term(after.nodes, v, i)
            == leaf_term(self.nodes, held(self.nodes, f), i) by {}
        lemma_leaves_differ_at(after.nodes, v, self.nodes, held(self.nodes, f), c, n);
        assert(leaf_sum(after.nodes, v, c + 1) == leaf_sum(after.nodes, v, c));
        assert(leaf_sum(after.nodes, v, c + 2) == leaf_sum(after.nodes, v, c + 1));
        assert(leaf_sum(after.nodes, v, c + 3) == leaf_sum(after.nodes, v, c + 2));
        assert(leaf_sum(after.nodes, v, c + 4) == leaf_sum(after.nodes, v, c + 3));
    }

    /// A split takes the point that the leaf held out of the total and puts
    /// it back together with the new point: each in a leaf of its own where
    /// subdivision separates them, and otherwise the old point with both
    /// masses.
    pub proof fn lemma_split_total(
        self,
        n: int,
        p: Vec2,
        m: u32,
        pos: Vec2,
        mass: u32,
        f: spec_fn(Vec2, u32) -> int,
    )
        requires
            0 <= n < self.nodes.len(),
            self.nodes[n].children == 0,
            self.split(n, p, m, pos, mass).nodes.len() <= usize::MAX,
            f(Vec2 { x: 0, y: 0 }, 0) == 0,
        ensures
            self.nodes[n].quad.separates(p, pos) ==> self.split(n, p, m, pos, mass).leaf_total(f)
                == self.leaf_total(f) - f(self.nodes[n].pos, self.nodes[n].mass) + f(p, m) + f(
                pos,
                mass,
            ),
            !self.nodes[n].quad.separates(p, pos) ==> self.split(n, p, m, pos, mass).leaf_total(f)
                == self.leaf_total(f) - f(self.nodes[n].pos, self.nodes[n].mass) + f(
                p,
                (m + mass) as u32,
            ),
        decreases self.nodes[n].quad.size,
    {
        let quad = self.nodes[n].quad;
        let q1 = quad.quadrant_of(p);
        let q2 = quad.quadrant_of(pos);
        let c = self.nodes.len() as int;
        self.lemma_subdivided_nodes(n);
        if q1 != q2 {
            let a1 = self.subdivided(n);
            let a2 = a1.with_leaf(c + q1, p, m);
            self.lemma_subdivided_total(n, f);
            a1.lemma_with_leaf_total(c + q1, p, m, f);
            a2.lemma_with_leaf_total(c + q2, pos, mass, f);
        } else if quad.too_small_to_split() {
            self.lemma_with_leaf_total(n, p, (m + mass) as u32, f);
        } else {
            let a1 = self.subdivided(n);
            a1.lemma_split_grows(c + q1, p, m, pos, mass);
            self.lemma_subdivided_total(n, f);
            a1.lemma_split_total(c + q1, p, m, pos, mass, f);
        }
    }

    /// An insertion adds the inserted point to what the leaves hold and
    /// takes nothing away.  Counted by any measure `f` of a point and its
    /// mass that gives an unoccupied leaf nothing: where there is room for
    /// the point, the total grows by what `f` gives the point; where the
    /// position is held already, the total changes as the mass at that
    /// position does.
    pub proof fn lemma_inserted_total(self, pos: Vec2, mass: u32, f: spec_fn(Vec2, u32) -> int)
        requires
            self.shape_wf(),
            self.inserted(pos, mass).nodes.len() <= usize::MAX,
            forall|q: Vec2| #[trigger] f(q, 0) == 0,
        ensures
            self.has_room_for(pos) ==> self.inserted(pos, mass).leaf_total(f) == self.leaf_total(f)
                + f(pos, mass),
            self.holds(pos) ==> self.inserted(pos, mass).leaf_total(f) == self.leaf_total(f) - f(
                pos,
                self.nodes[self.find_leaf(0, pos)].mass,
            ) + f(pos, (self.nodes[self.find_leaf(0, pos)].mass + mass) as u32),
    {
        let n = self.find_leaf(0, pos);
        let node = self.nodes[n];
        self.lemma_descent_ends_at_leaf(0, pos);
        assert(f(Vec2 { x: 0, y: 0 }, 0) == 0);
        assert(f(node.pos, 0) == 0);
        if node.mass == 0 {
            self.lemma_with_leaf_total(n, pos, mass, f);
        } else if node.pos == pos {
            self.lemma_with_leaf_total(n, pos, (node.mass + mass) as u32, f);
        } else {
            self.lemma_split_total(n, node.pos, node.mass, pos, mass, f);
        }
    }
}

} // verus!
