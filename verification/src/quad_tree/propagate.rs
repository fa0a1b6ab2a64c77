//! Bottom-up aggregation of mass and centre of mass.
use crate::fixed::{div_i128, div_toward_zero, lemma_div_toward_zero_between};
use crate::quad_tree::arena::Arena;
use crate::quad_tree::node::Node;
use crate::quad_tree::sums::{
    frontier_sum, frontier_term, lemma_frontier_differ_at, lemma_frontier_nonnegative,
    stored_mass,
};
use crate::quad_tree::tree::Quadtree;
use crate::vec2::Vec2;
use vstd::prelude::*;

verus! {

impl Arena {
    /// Sum of the masses of the four children of the inner node `n`.
    pub open spec fn children_mass(self, n: int) -> int {
        let c = self.nodes[n].children as int;
        self.nodes[c].mass + self.nodes[c + 1].mass + self.nodes[c + 2].mass + self.nodes[c
            + 3].mass
    }

    /// Sum over the four children of the inner node `n` of mass times x.
    pub open spec fn children_moment_x(self, n: int) -> int {
        let c = self.nodes[n].children as int;
        self.nodes[c].pos.x * self.nodes[c].mass + self.nodes[c + 1].pos.x * self.nodes[c
            + 1].mass + self.nodes[c + 2].pos.x * self.nodes[c + 2].mass + self.nodes[c
            + 3].pos.x * self.nodes[c + 3].mass
    }

    /// Sum over the four children of the inner node `n` of mass times y.
    pub open spec fn children_moment_y(self, n: int) -> int {
        let c = self.nodes[n].children as int;
        self.nodes[c].pos.y * self.nodes[c].mass + self.nodes[c + 1].pos.y * self.nodes[c
            + 1].mass + self.nodes[c + 2].pos.y * self.nodes[c + 2].mass + self.nodes[c
            + 3].pos.y * self.nodes[c + 3].mass
    }

    /// The mass-weighted mean position of the four children of the inner
    /// node `n`, each coordinate rounded toward zero; the origin if the
    /// children hold no mass.
    pub open spec fn children_centroid(self, n: int) -> Vec2 {
        if self.children_mass(n) > 0 {
            Vec2 {
                x: div_toward_zero(self.children_moment_x(n), self.children_mass(n)) as i32,
                y: div_toward_zero(self.children_moment_y(n), self.children_mass(n)) as i32,
            }
        } else {
            Vec2 { x: 0, y: 0 }
        }
    }

    /// Node `n` is a leaf, or it holds the summed mass of its children at
    /// their mass-weighted mean position.
    pub open spec fn aggregated(self, n: int) -> bool {
        self.nodes[n].children != 0 ==> {
            &&& self.nodes[n].mass == self.children_mass(n)
            &&& self.nodes[n].pos == self.children_centroid(n)
        }
    }

    /// Every inner node holds the aggregate of its children.
    pub open spec fn propagated(self) -> bool {
        forall|n: int| 0 <= n < self.nodes.len() ==> #[trigger] self.aggregated(n)
    }

    /// Arenas with the same links and regions send every descent to the same
    /// leaf.
    pub proof fn lemma_same_tree_same_descent(self, other: Arena, start: int, p: Vec2)
        requires
            self.same_tree(other),
            0 <= start,
        ensures
            self.find_leaf(start, p) == other.find_leaf(start, p),
        decreases self.nodes.len() - start,
    {
        let c = self.nodes[start].children as int;
        if start < c && c + 3 < self.nodes.len() {
            assert(other.nodes[start].children == c);
            assert(other.nodes[start].quad == self.nodes[start].quad);
            self.lemma_same_tree_same_descent(
                other,
                c + self.nodes[start].quad.quadrant_of(p),
                p,
            );
        } else if start < self.nodes.len() {
            assert(other.nodes[start].children == c);
        }
    }

    /// `self` has the links, regions and leaves of `other`: only what inner
    /// nodes hold may differ.
    pub open spec fn same_tree(self, other: Arena) -> bool {
        &&& self.parents == other.parents
        &&& self.nodes.len() == other.nodes.len()
        &&& forall|n: int|
            0 <= n < self.nodes.len() ==> {
                &&& (#[trigger] self.nodes[n]).children == other.nodes[n].children
                &&& self.nodes[n].next == other.nodes[n].next
                &&& self.nodes[n].quad == other.nodes[n].quad
                &&& self.nodes[n].children == 0 ==> self.nodes[n] == other.nodes[n]
            }
    }
}

/// The weighted mean of four `i32` values with `u32` weights is an `i32`.
pub proof fn lemma_centroid_in_range(
    x0: int,
    m0: int,
    x1: int,
    m1: int,
    x2: int,
    m2: int,
    x3: int,
    m3: int,
)
    requires
        i32::MIN <= x0 <= i32::MAX,
        i32::MIN <= x1 <= i32::MAX,
        i32::MIN <= x2 <= i32::MAX,
        i32::MIN <= x3 <= i32::MAX,
        0 <= m0,
        0 <= m1,
        0 <= m2,
        0 <= m3,
        m0 + m1 + m2 + m3 > 0,
    ensures
        i32::MIN <= div_toward_zero(x0 * m0 + x1 * m1 + x2 * m2 + x3 * m3, m0 + m1 + m2 + m3)
            <= i32::MAX,
{
    let lo = i32::MIN as int;
    let hi = i32::MAX as int;
    assert(lo * m0 <= x0 * m0 <= hi * m0) by (nonlinear_arith)
        requires
            lo <= x0 <= hi,
            0 <= m0,
    ;
    assert(lo * m1 <= x1 * m1 <= hi * m1) by (nonlinear_arith)
        requires
            lo <= x1 <= hi,
            0 <= m1,
    ;
    assert(lo * m2 <= x2 * m2 <= hi * m2) by (nonlinear_arith)
        requires
            lo <= x2 <= hi,
            0 <= m2,
    ;
    assert(lo * m3 <= x3 * m3 <= hi * m3) by (nonlinear_arith)
        requires
            lo <= x3 <= hi,
            0 <= m3,
    ;
    let d = m0 + m1 + m2 + m3;
    assert(lo * d == lo * m0 + lo * m1 + lo * m2 + lo * m3) by (nonlinear_arith)
        requires
            d == m0 + m1 + m2 + m3,
    ;
    assert(hi * d == hi * m0 + hi * m1 + hi * m2 + hi * m3) by (nonlinear_arith)
        requires
            d == m0 + m1 + m2 + m3,
    ;
    lemma_div_toward_zero_between(x0 * m0 + x1 * m1 + x2 * m2 + x3 * m3, d, lo, hi);
}

/// Mass times coordinate, as a wide integer.
fn moment(x: i32, m: u32) -> (r: i128)
    ensures
        r == x * m,
        -0x8000_0000_0000_0000 <= r <= 0x8000_0000_0000_0000,
{
    assert(-0x8000_0000_0000_0000 <= x * m <= 0x8000_0000_0000_0000) by (nonlinear_arith)
        requires
            -0x8000_0000 <= x <= 0x8000_0000,
            0 <= m <= 0x1_0000_0000,
    ;
    (x as i128) * (m as i128)
}

impl Quadtree {
    /// Gives every inner node the summed mass of its four children and their
    /// mass-weighted mean position (the origin where the children hold no
    /// mass).  Subdivided nodes are processed latest first, so that every
    /// child is final before its parent.  Afterwards the root holds the total
    /// mass of the tree.
    pub fn propagate(&mut self)
        requires
            old(self)@.wf(),
        ensures
            final(self)@.propagated(),
            final(self)@.same_tree(old(self)@),
            final(self)@.wf(),
            final(self)@.total_mass() == old(self)@.total_mass(),
            final(self).nodes@[0].mass == final(self)@.total_mass(),
            final(self).t_sq == old(self).t_sq,
            final(self).e_sq == old(self).e_sq,
    {
        proof {
            self@.lemma_total_is_frontier();
            assert forall|n: int|
                0 <= n < self.nodes@.len() && self.nodes@[n].children >= self.nodes@.len()
                    implies #[trigger] self@.aggregated(n) by {
                self@.lemma_children_in_range(n);
            }
        }
        let mut k: usize = self.parents.len();
        while k > 0
            invariant
                k <= self.parents@.len(),
                self@.shape_wf(),
                self@.same_tree(old(self)@),
                self@.total_mass() == old(self)@.total_mass(),
                self@.total_mass() <= u32::MAX,
                frontier_sum(self.nodes@, stored_mass(self.nodes@), 1 + 4 * k, 1 + 4 * k)
                    == self@.total_mass(),
                forall|n: int|
                    0 <= n < self.nodes@.len() && self.nodes@[n].children >= 1 + 4 * k
                        ==> #[trigger] self@.aggregated(n),
                self.t_sq == old(self).t_sq,
                self.e_sq == old(self).e_sq,
            decreases k,
        {
            k = k - 1;
            let ghost before = self@;
            let node: usize = self.parents[k];
            proof {
                assert(before.group_ok(k as int));
                before.lemma_frontier_step(stored_mass(before.nodes), k as int);
                lemma_frontier_nonnegative(
                    before.nodes,
                    stored_mass(before.nodes),
                    1 + 4 * k,
                    5 + 4 * k,
                );
            }
            let i: usize = self.nodes[node].children;
            let c0: Node = self.nodes[i];
            let c1: Node = self.nodes[i + 1];
            let c2: Node = self.nodes[i + 2];
            let c3: Node = self.nodes[i + 3];
            let mass: u64 = c0.mass as u64 + c1.mass as u64 + c2.mass as u64 + c3.mass as u64;
            let mx: i128 = moment(c0.pos.x, c0.mass) + moment(c1.pos.x, c1.mass) + moment(
                c2.pos.x,
                c2.mass,
            ) + moment(c3.pos.x, c3.mass);
            let my: i128 = moment(c0.pos.y, c0.mass) + moment(c1.pos.y, c1.mass) + moment(
                c2.pos.y,
                c2.mass,
            ) + moment(c3.pos.y, c3.mass);
            let pos: Vec2 = if mass > 0 {
                proof {
                    lemma_centroid_in_range(
                        c0.pos.x as int,
                        c0.mass as int,
                        c1.pos.x as int,
                        c1.mass as int,
                        c2.pos.x as int,
                        c2.mass as int,
                        c3.pos.x as int,
                        c3.mass as int,
                    );
                    lemma_centroid_in_range(
                        c0.pos.y as int,
                        c0.mass as int,
                        c1.pos.y as int,
                        c1.mass as int,
                        c2.pos.y as int,
                        c2.mass as int,
                        c3.pos.y as int,
                        c3.mass as int,
                    );
                }
                Vec2 { x: div_i128(mx, mass as i128) as i32, y: div_i128(my, mass as i128) as i32 }
            } else {
                Vec2::zero()
            };
            assert(mass <= u32::MAX);
            proof {
                before.lemma_with_leaf(node as int, pos, mass as u32);
            }
            self.nodes[node].pos = pos;
            self.nodes[node].mass = mass as u32;
            proof {
                let after = self@;
                assert(after.nodes =~= before.with_leaf(node as int, pos, mass as u32).nodes);
                assert(after == before.with_leaf(node as int, pos, mass as u32));
                // The frontier one subdivision earlier.
                assert forall|n: int| 0 <= n < 1 + 4 * k && n != node implies #[trigger] frontier_term(
                    after.nodes,
                    stored_mass(after.nodes),
                    n,
                    1 + 4 * k,
                ) == frontier_term(before.nodes, stored_mass(before.nodes), n, 1 + 4 * k) by {}
                lemma_frontier_differ_at(
                    after.nodes,
                    stored_mass(after.nodes),
                    1 + 4 * k,
                    before.nodes,
                    stored_mass(before.nodes),
                    1 + 4 * k,
                    1 + 4 * k,
                    node as int,
                );
                assert(after.aggregated(node as int));
                assert forall|n: int|
                    0 <= n < after.nodes.len() && after.nodes[n].children >= 1 + 4
                        * k implies #[trigger] after.aggregated(n) by {
                    if n != node {
                        before.lemma_children_in_range(n);
                        assert(before.aggregated(n));
                    }
                }
            }
        }
        proof {
            assert forall|n: int|
                0 <= n < self.nodes@.len() && (#[trigger] self.nodes@[n]).children == 0
                    && self.nodes@[n].mass > 0 implies self@.find_leaf(0, self.nodes@[n].pos)
                == n by {
                assert(old(self).nodes@[n] == self.nodes@[n]);
                self@.lemma_same_tree_same_descent(old(self)@, 0, self.nodes@[n].pos);
            }
            assert(frontier_sum(self.nodes@, stored_mass(self.nodes@), 1, 1) == frontier_sum(
                self.nodes@,
                stored_mass(self.nodes@),
                0,
                1,
            ) + frontier_term(self.nodes@, stored_mass(self.nodes@), 0, 1));
            assert forall|n: int| 0 <= n < self.nodes@.len() implies #[trigger] self@.aggregated(
                n,
            ) by {
                if self.nodes@[n].children != 0 {
                    self@.lemma_children_in_range(n);
                }
            }
        }
    }
}

} // verus!
