//! Sums over the leaves of the tree, and how a quantity that every inner
//! node sums up from its children relates to them.
use crate::quad_tree::arena::{leaf_mass_sum, Arena};
use crate::quad_tree::node::Node;
use vstd::prelude::*;

verus! {

/// The mass that each node of `nodes` holds.
pub open spec fn stored_mass(nodes: Seq<Node>) -> spec_fn(int) -> int {
    |n: int| nodes[n].mass as int
}

/// A node is on the frontier when the tree is cut off below index `limit`:
/// it is a leaf, or its children lie at or beyond `limit`.
pub open spec fn on_frontier(node: Node, limit: int) -> bool {
    node.children == 0 || node.children >= limit
}

/// Sum of `v` over those of the first `upto` nodes that are on the frontier
/// for `limit`.
pub open spec fn frontier_sum(nodes: Seq<Node>, v: spec_fn(int) -> int, upto: int, limit: int) -> int
    decreases upto,
{
    if upto <= 0 {
        0
    } else {
        frontier_sum(nodes, v, upto - 1, limit) + (if on_frontier(nodes[upto - 1], limit) {
            v(upto - 1)
        } else {
            0
        })
    }
}

/// Sum of `v` over the leaves among the first `upto` nodes.
pub open spec fn leaf_sum(nodes: Seq<Node>, v: spec_fn(int) -> int, upto: int) -> int
    decreases upto,
{
    if upto <= 0 {
        0
    } else {
        leaf_sum(nodes, v, upto - 1) + (if nodes[upto - 1].children == 0 {
            v(upto - 1)
        } else {
            0
        })
    }
}

/// What node `n` adds to a frontier sum.
pub open spec fn frontier_term(nodes: Seq<Node>, v: spec_fn(int) -> int, n: int, limit: int) -> int {
    if on_frontier(nodes[n], limit) {
        v(n)
    } else {
        0
    }
}

/// Frontier sums whose terms agree are equal.
pub proof fn lemma_frontier_same(
    a: Seq<Node>,
    va: spec_fn(int) -> int,
    la: int,
    b: Seq<Node>,
    vb: spec_fn(int) -> int,
    lb: int,
    upto: int,
)
    requires
        forall|n: int|
            0 <= n < upto ==> #[trigger] frontier_term(a, va, n, la) == frontier_term(b, vb, n, lb),
    ensures
        frontier_sum(a, va, upto, la) == frontier_sum(b, vb, upto, lb),
    decreases upto,
{
    if upto > 0 {
        lemma_frontier_same(a, va, la, b, vb, lb, upto - 1);
        assert(frontier_term(a, va, upto - 1, la) == frontier_term(b, vb, upto - 1, lb));
    }
}

/// Frontier sums whose terms agree everywhere but at node `p` differ by the
/// difference of the terms at `p`.
pub proof fn lemma_frontier_differ_at(
    a: Seq<Node>,
    va: spec_fn(int) -> int,
    la: int,
    b: Seq<Node>,
    vb: spec_fn(int) -> int,
    lb: int,
    upto: int,
    p: int,
)
    requires
        0 <= p < upto,
        forall|n: int|
            0 <= n < upto && n != p ==> #[trigger] frontier_term(a, va, n, la) == frontier_term(
                b,
                vb,
                n,
                lb,
            ),
    ensures
        frontier_sum(a, va, upto, la) - frontier_term(a, va, p, la) == frontier_sum(
            b,
            vb,
            upto,
            lb,
        ) - frontier_term(b, vb, p, lb),
    decreases upto,
{
    if p == upto - 1 {
        lemma_frontier_same(a, va, la, b, vb, lb, upto - 1);
    } else {
        lemma_frontier_differ_at(a, va, la, b, vb, lb, upto - 1, p);
        assert(frontier_term(a, va, upto - 1, la) == frontier_term(b, vb, upto - 1, lb));
    }
}

/// A frontier sum of non-negative values is not negative.
pub proof fn lemma_frontier_nonnegative(
    nodes: Seq<Node>,
    v: spec_fn(int) -> int,
    upto: int,
    limit: int,
)
    requires
        forall|n: int| 0 <= n < upto ==> 0 <= #[trigger] v(n),
    ensures
        0 <= frontier_sum(nodes, v, upto, limit),
    decreases upto,
{
    if upto > 0 {
        lemma_frontier_nonnegative(nodes, v, upto - 1, limit);
    }
}

/// With no child link at or beyond `limit`, the frontier is the leaves.
pub proof fn lemma_frontier_is_leaves(
    nodes: Seq<Node>,
    v: spec_fn(int) -> int,
    upto: int,
    limit: int,
)
    requires
        0 <= upto <= nodes.len(),
        forall|n: int| 0 <= n < upto ==> (#[trigger] nodes[n]).children < limit,
    ensures
        frontier_sum(nodes, v, upto, limit) == leaf_sum(nodes, v, upto),
    decreases upto,
{
    if upto > 0 {
        lemma_frontier_is_leaves(nodes, v, upto - 1, limit);
    }
}

/// The sum of the stored masses over the leaves is the sum of the leaf
/// masses.
pub proof fn lemma_leaf_sum_of_masses(nodes: Seq<Node>, upto: int)
    requires
        0 <= upto <= nodes.len(),
    ensures
        leaf_sum(nodes, stored_mass(nodes), upto) == leaf_mass_sum(nodes.take(upto)),
    decreases upto,
{
    if upto > 0 {
        lemma_leaf_sum_of_masses(nodes, upto - 1);
        assert(nodes.take(upto).drop_last() =~= nodes.take(upto - 1));
    }
}

impl Arena {
    /// In a well-shaped arena every child link lies inside the arena, after
    /// the node that holds it, and leads to the group of the subdivision that
    /// recorded the node.
    pub proof fn lemma_children_in_range(self, n: int)
        requires
            self.shape_wf(),
            0 <= n < self.nodes.len(),
            self.nodes[n].children != 0,
        ensures
            n < self.nodes[n].children,
            self.nodes[n].children + 3 < self.nodes.len(),
            self.nodes[n].children % 4 == 1,
            self.parents[self.nodes[n].children as int / 4] == n,
            0 <= self.nodes[n].children as int / 4 < self.parents.len(),
    {
        assert(self.children_ok(n));
        assert(self.group_ok(self.nodes[n].children as int / 4));
    }

    /// The sum of `v` over the four children of the inner node `n`.
    pub open spec fn children_sum(self, n: int, v: spec_fn(int) -> int) -> int {
        let c = self.nodes[n].children as int;
        v(c) + v(c + 1) + v(c + 2) + v(c + 3)
    }

    /// The total leaf mass is the frontier sum of the stored masses over the
    /// whole arena.
    pub proof fn lemma_total_is_frontier(self)
        requires
            self.shape_wf(),
        ensures
            self.total_mass() == frontier_sum(
                self.nodes,
                stored_mass(self.nodes),
                self.nodes.len() as int,
                self.nodes.len() as int,
            ),
            self.total_mass() == leaf_sum(
                self.nodes,
                stored_mass(self.nodes),
                self.nodes.len() as int,
            ),
    {
        self.lemma_frontier_at_end(stored_mass(self.nodes));
        lemma_leaf_sum_of_masses(self.nodes, self.nodes.len() as int);
        assert(self.nodes.take(self.nodes.len() as int) =~= self.nodes);
    }

    /// With the cut at the end of the arena, the frontier is the leaves.
    pub proof fn lemma_frontier_at_end(self, v: spec_fn(int) -> int)
        requires
            self.shape_wf(),
        ensures
            frontier_sum(self.nodes, v, self.nodes.len() as int, self.nodes.len() as int)
                == leaf_sum(self.nodes, v, self.nodes.len() as int),
    {
        assert forall|n: int| 0 <= n < self.nodes.len() implies (#[trigger] self.nodes[n]).children
            < self.nodes.len() by {
            if self.nodes[n].children != 0 {
                self.lemma_children_in_range(n);
            }
        }
        lemma_frontier_is_leaves(self.nodes, v, self.nodes.len() as int, self.nodes.len() as int);
    }

    /// Cutting the tree off one subdivision earlier exchanges, in the
    /// frontier sum, the values of that subdivision's four children for the
    /// value of their parent.
    pub proof fn lemma_frontier_step(self, v: spec_fn(int) -> int, k: int)
        requires
            self.shape_wf(),
            0 <= k < self.parents.len(),
        ensures
            frontier_sum(self.nodes, v, 5 + 4 * k, 5 + 4 * k) == frontier_sum(
                self.nodes,
                v,
                1 + 4 * k,
                5 + 4 * k,
            ) + self.children_sum(self.parents[k] as int, v),
            frontier_sum(self.nodes, v, 1 + 4 * k, 1 + 4 * k) == frontier_sum(
                self.nodes,
                v,
                1 + 4 * k,
                5 + 4 * k,
            ) + v(self.parents[k] as int),
    {
        let c = 1 + 4 * k;
        let p = self.parents[k] as int;
        assert(self.group_ok(k));
        // The four children are on the later frontier.
        assert forall|i: int| c <= i < c + 4 implies #[trigger] frontier_term(
            self.nodes,
            v,
            i,
            c + 4,
        ) == v(i) by {
            if self.nodes[i].children != 0 {
                self.lemma_children_in_range(i);
            }
        }
        assert(frontier_sum(self.nodes, v, c + 4, c + 4) == frontier_sum(self.nodes, v, c, c + 4)
            + v(c) + v(c + 1) + v(c + 2) + v(c + 3)) by {
            assert(frontier_sum(self.nodes, v, c + 1, c + 4) == frontier_sum(
                self.nodes,
                v,
                c,
                c + 4,
            ) + frontier_term(self.nodes, v, c, c + 4));
            assert(frontier_sum(self.nodes, v, c + 2, c + 4) == frontier_sum(
                self.nodes,
                v,
                c + 1,
                c + 4,
            ) + frontier_term(self.nodes, v, c + 1, c + 4));
            assert(frontier_sum(self.nodes, v, c + 3, c + 4) == frontier_sum(
                self.nodes,
                v,
                c + 2,
                c + 4,
            ) + frontier_term(self.nodes, v, c + 2, c + 4));
            assert(frontier_sum(self.nodes, v, c + 4, c + 4) == frontier_sum(
                self.nodes,
                v,
                c + 3,
                c + 4,
            ) + frontier_term(self.nodes, v, c + 3, c + 4));
        }
        // Before the children, the two cuts differ at the parent only.
        assert forall|n: int| 0 <= n < c && n != p implies #[trigger] frontier_term(
            self.nodes,
            v,
            n,
            c,
        ) == frontier_term(self.nodes, v, n, c + 4) by {
            if self.nodes[n].children != 0 {
                self.lemma_children_in_range(n);
            }
        }
        lemma_frontier_differ_at(self.nodes, v, c, self.nodes, v, c + 4, c, p);
    }

    /// `v` gives every inner node the sum of what it gives the node's four
    /// children.
    pub open spec fn additive(self, v: spec_fn(int) -> int) -> bool {
        forall|n: int|
            0 <= n < self.nodes.len() && self.nodes[n].children != 0 ==> #[trigger] v(n)
                == self.children_sum(n, v)
    }

    /// Induction behind [`Arena::lemma_root_is_leaf_sum`]: cut off after `k`
    /// subdivisions, the frontier sums up to the value at the root.
    proof fn lemma_root_is_frontier(self, v: spec_fn(int) -> int, k: int)
        requires
            self.shape_wf(),
            self.additive(v),
            0 <= k <= self.parents.len(),
        ensures
            frontier_sum(self.nodes, v, 1 + 4 * k, 1 + 4 * k) == v(0),
        decreases k,
    {
        if k == 0 {
            assert(frontier_sum(self.nodes, v, 1, 1) == frontier_sum(self.nodes, v, 0, 1)
                + frontier_term(self.nodes, v, 0, 1));
            if self.nodes[0].children != 0 {
                self.lemma_children_in_range(0);
            }
        } else {
            self.lemma_root_is_frontier(v, k - 1);
            self.lemma_frontier_step(v, k - 1);
            assert(self.group_ok(k - 1));
        }
    }

    /// A quantity that every inner node sums up from its four children is,
    /// at the root, the sum over all leaves.
    pub proof fn lemma_root_is_leaf_sum(self, v: spec_fn(int) -> int)
        requires
            self.shape_wf(),
            self.additive(v),
        ensures
            v(0) == leaf_sum(self.nodes, v, self.nodes.len() as int),
    {
        self.lemma_root_is_frontier(v, self.parents.len() as int);
        self.lemma_frontier_at_end(v);
    }
}

} // verus!
