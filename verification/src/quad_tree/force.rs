//! Approximate gravitational acceleration by opening-angle limited
//! traversal.
use crate::fixed::{
    clamp_i32, div_i128, div_toward_zero, floor_sqrt, isqrt, lemma_div_toward_zero_between,
    lemma_floor_sqrt_lower, lemma_sqrt_exists, saturate_i32,
};
use crate::quad_tree::arena::Arena;
use crate::quad_tree::node::Node;
use crate::quad_tree::tree::Quadtree;
use crate::vec2::{length_sq, squared_length, Vec2};
use vstd::prelude::*;

verus! {

/// The pulls of the single nodes are summed with 14 extra fractional bits,
/// so that rounding each of them costs next to nothing: this is the factor
/// `2^14` that those bits stand for.
pub const GUARD: i128 = 0x4000;

/// The gravitational constant one in fixed-point units, which is the cube of
/// the scale factor `2^16`, times `GUARD`.
pub const GRAVITY: i128 = 0x4000_0000_0000_0000;

/// The square of the scale factor `2^16`.
pub const SCALE_SQ: u128 = 0x1_0000_0000;

/// The acceleration component along `axis` (0 for x, 1 for y) that a point
/// mass `mass` at `at` causes at `p`, with softening `e_sq`:
/// `d * mass / ((|d|^2 + e_sq) * |d|)` for `d = at - p`, and nothing where
/// `d` is zero.  The value carries the extra fractional bits of `GUARD` and
/// is rounded toward zero.
pub open spec fn pull(at: Vec2, mass: u32, p: Vec2, e_sq: u64, axis: int) -> int {
    let dx = at.x - p.x;
    let dy = at.y - p.y;
    let d_sq = length_sq(dx, dy);
    let d = if axis == 0 {
        dx
    } else {
        dy
    };
    if d_sq == 0 {
        0
    } else {
        div_toward_zero(d * mass * GRAVITY, (d_sq + e_sq) * floor_sqrt(d_sq))
    }
}

/// A region of side `size` whose mass sits at squared distance `d_sq` is far
/// enough to count as a single mass: `size^2 < d_sq * theta^2`.
pub open spec fn far_enough(size: u32, d_sq: int, t_sq: u64) -> bool {
    size * size * SCALE_SQ < d_sq * t_sq
}

/// Where node `m` stands in the order in which successor links run: a link
/// leads to a node of an earlier subdivision, or to a later sibling.
pub open spec fn earlier(m: int, n: int) -> bool {
    (m + 3) / 4 < (n + 3) / 4 || ((m + 3) / 4 == (n + 3) / 4 && m > n)
}

/// Sum of `v` over node `n` and every node that the successor links lead to
/// from it.
pub open spec fn pending(nodes: Seq<Node>, n: int, v: spec_fn(int) -> int) -> int
    decreases (n + 3) / 4, 3 - (n + 3) % 4,
{
    let m = nodes[n].next as int;
    v(n) + (if 0 <= n && m != 0 && earlier(m, n) {
        pending(nodes, m, v)
    } else {
        0
    })
}

impl Arena {
    /// A query at `p` takes node `n` as a single mass: it is a leaf, or far
    /// enough from `p` for its size.
    pub open spec fn single(self, n: int, p: Vec2, t_sq: u64) -> bool {
        let node = self.nodes[n];
        node.children == 0 || far_enough(
            node.quad.size,
            length_sq(node.pos.x - p.x, node.pos.y - p.y),
            t_sq,
        )
    }

    /// The acceleration component along `axis` at `p` due to the subtree of
    /// node `n`: the pull of `n` itself where it counts as a single mass,
    /// and otherwise the sum over its four children.
    pub open spec fn subtree_pull(self, n: int, p: Vec2, t_sq: u64, e_sq: u64, axis: int) -> int
        decreases self.nodes.len() - n,
    {
        let c = self.nodes[n].children as int;
        if !self.single(n, p, t_sq) && 0 <= n < c && c + 3 < self.nodes.len() {
            self.subtree_pull(c, p, t_sq, e_sq, axis) + self.subtree_pull(
                c + 1,
                p,
                t_sq,
                e_sq,
                axis,
            ) + self.subtree_pull(c + 2, p, t_sq, e_sq, axis) + self.subtree_pull(
                c + 3,
                p,
                t_sq,
                e_sq,
                axis,
            )
        } else {
            pull(self.nodes[n].pos, self.nodes[n].mass, p, e_sq, axis)
        }
    }

    /// The acceleration at `p` due to the whole tree: the pull of the root's
    /// subtree, rounded toward zero to a scalar and clamped to the scalar
    /// range.
    pub open spec fn acceleration(self, p: Vec2, t_sq: u64, e_sq: u64) -> Vec2 {
        Vec2 {
            x: clamp_i32(div_toward_zero(self.subtree_pull(0, p, t_sq, e_sq, 0), GUARD as int))
                as i32,
            y: clamp_i32(div_toward_zero(self.subtree_pull(0, p, t_sq, e_sq, 1), GUARD as int))
                as i32,
        }
    }

    /// Number of nodes in the subtree of node `n`.
    pub open spec fn subtree_size(self, n: int) -> int
        decreases self.nodes.len() - n,
    {
        let c = self.nodes[n].children as int;
        if 0 <= n < c && c + 3 < self.nodes.len() {
            1 + self.subtree_size(c) + self.subtree_size(c + 1) + self.subtree_size(c + 2)
                + self.subtree_size(c + 3)
        } else {
            1
        }
    }

    /// A subtree has at least one node.
    pub proof fn lemma_subtree_size_positive(self, n: int)
        ensures
            self.subtree_size(n) >= 1,
        decreases self.nodes.len() - n,
    {
        let c = self.nodes[n].children as int;
        if 0 <= n < c && c + 3 < self.nodes.len() {
            self.lemma_subtree_size_positive(c);
            self.lemma_subtree_size_positive(c + 1);
            self.lemma_subtree_size_positive(c + 2);
            self.lemma_subtree_size_positive(c + 3);
        }
    }

    /// Every successor link leads to an earlier node of the arena, or is 0.
    pub proof fn lemma_next_earlier(self, n: int)
        requires
            self.shape_wf(),
            0 <= n < self.nodes.len(),
        ensures
            self.nodes[n].next != 0 ==> earlier(self.nodes[n].next as int, n) && 1
                <= self.nodes[n].next < self.nodes.len(),
        decreases n,
    {
        if n > 0 {
            let k = (n - 1) / 4;
            assert(self.group_ok(k));
            if (n - 1) % 4 == 3 {
                self.lemma_next_earlier(self.parents[k] as int);
            }
        }
    }

    /// Entering the first child of an inner node leaves pending what was
    /// pending at the node itself, less whatever `v` gives the node beyond
    /// the sum over its children.
    pub proof fn lemma_pending_descend(self, n: int, v: spec_fn(int) -> int)
        requires
            self.shape_wf(),
            0 <= n < self.nodes.len(),
            self.nodes[n].children != 0,
        ensures
            ({
                let c = self.nodes[n].children as int;
                pending(self.nodes, c, v) - (v(c) + v(c + 1) + v(c + 2) + v(c + 3)) == pending(
                    self.nodes,
                    n,
                    v,
                ) - v(n)
            }),
    {
        let c = self.nodes[n].children as int;
        self.lemma_children_in_range(n);
        assert(self.group_ok(c / 4));
        self.lemma_next_earlier(n);
        self.lemma_next_earlier(c);
        self.lemma_next_earlier(c + 1);
        self.lemma_next_earlier(c + 2);
        self.lemma_next_earlier(c + 3);
        assert(pending(self.nodes, c + 2, v) == v(c + 2) + pending(self.nodes, c + 3, v));
        assert(pending(self.nodes, c + 1, v) == v(c + 1) + pending(self.nodes, c + 2, v));
        assert(pending(self.nodes, c, v) == v(c) + pending(self.nodes, c + 1, v));
    }

    /// With non-negative `v`, what is pending is non-negative.
    pub proof fn lemma_pending_nonnegative(self, n: int, v: spec_fn(int) -> int)
        requires
            forall|i: int| 0 <= #[trigger] v(i),
        ensures
            0 <= pending(self.nodes, n, v) - v(n),
        decreases (n + 3) / 4, 3 - (n + 3) % 4,
    {
        let m = self.nodes[n].next as int;
        if 0 <= n && m != 0 && earlier(m, n) {
            self.lemma_pending_nonnegative(m, v);
        }
    }
}

/// The pull of a point mass is at most its mass times the gravitational
/// constant, in either direction.
pub proof fn lemma_pull_bound(at: Vec2, mass: u32, p: Vec2, e_sq: u64, axis: int)
    ensures
        -(mass * GRAVITY) <= pull(at, mass, p, e_sq, axis) <= mass * GRAVITY,
{
    let dx = at.x - p.x;
    let dy = at.y - p.y;
    let d_sq = length_sq(dx, dy);
    let d = if axis == 0 {
        dx
    } else {
        dy
    };
    assert(mass * GRAVITY >= 0) by (nonlinear_arith)
        requires
            mass >= 0,
            GRAVITY >= 0,
    ;
    if d_sq != 0 {
        assert(d_sq >= 1 && d * d <= d_sq) by (nonlinear_arith)
            requires
                d_sq == dx * dx + dy * dy,
                d_sq != 0,
                d == dx || d == dy,
        ;
        lemma_sqrt_exists(d_sq);
        let r = floor_sqrt(d_sq);
        let a = if d >= 0 {
            d
        } else {
            -d
        };
        assert(a * a == d * d) by (nonlinear_arith)
            requires
                a == d || a == -d,
        ;
        lemma_floor_sqrt_lower(d_sq, a, r);
        if r == 0 {
            assert((r + 1) * (r + 1) == 1) by (nonlinear_arith)
                requires
                    r == 0,
            ;
        }
        let den = (d_sq + e_sq) * r;
        let g = mass * GRAVITY;
        assert(den >= r) by (nonlinear_arith)
            requires
                den == (d_sq + e_sq) * r,
                d_sq >= 1,
                e_sq >= 0,
                r >= 1,
        ;
        assert((-g) * den <= d * mass * GRAVITY <= g * den) by (nonlinear_arith)
            requires
                g == mass * GRAVITY,
                g >= 0,
                -den <= d <= den,
                den >= 1,
        ;
        lemma_div_toward_zero_between(d * mass * GRAVITY, den, -g, g);
    }
}

/// The pull of one node on `p`, both components.
fn node_pull(node: &Node, dx: i64, dy: i64, d_sq: u128, e_sq: u64, Ghost(p): Ghost<Vec2>) -> (r: (
    i128,
    i128,
))
    requires
        dx == node.pos.x - p.x,
        dy == node.pos.y - p.y,
        d_sq == length_sq(dx as int, dy as int),
    ensures
        r.0 == pull(node.pos, node.mass, p, e_sq, 0),
        r.1 == pull(node.pos, node.mass, p, e_sq, 1),
{
    if d_sq == 0 {
        return (0, 0);
    }
    let r: u64 = isqrt(d_sq);
    proof {
        lemma_floor_sqrt_lower(d_sq as int, 1, r as int);
        assert(r * r <= d_sq);
    }
    assert(d_sq <= 0x2_0000_0000_0000_0000) by (nonlinear_arith)
        requires
            d_sq == dx * dx + dy * dy,
            -0x1_0000_0000 <= dx <= 0x1_0000_0000,
            -0x1_0000_0000 <= dy <= 0x1_0000_0000,
    ;
    assert(r <= 0x2_0000_0000) by (nonlinear_arith)
        requires
            r * r <= d_sq,
            d_sq <= 0x2_0000_0000_0000_0000,
            r >= 0,
    ;
    let sum: u128 = d_sq + e_sq as u128;
    assert(1 <= sum * r <= 0x3_0000_0000_0000_0000 * 0x2_0000_0000) by (nonlinear_arith)
        requires
            1 <= sum <= 0x3_0000_0000_0000_0000,
            1 <= r <= 0x2_0000_0000,
    ;
    let den: u128 = sum * (r as u128);
    assert(0 <= node.mass * GRAVITY <= 0x1_0000_0000 * 0x4000_0000_0000_0000)
        by (nonlinear_arith)
        requires
            0 <= node.mass <= 0x1_0000_0000,
            GRAVITY == 0x4000_0000_0000_0000,
    ;
    let weight: i128 = (node.mass as i128) * GRAVITY;
    assert(-0x1_0000_0000 * weight <= dx * weight <= 0x1_0000_0000 * weight && -0x1_0000_0000
        * weight <= dy * weight <= 0x1_0000_0000 * weight) by (nonlinear_arith)
        requires
            0 <= weight,
            -0x1_0000_0000 <= dx <= 0x1_0000_0000,
            -0x1_0000_0000 <= dy <= 0x1_0000_0000,
    ;
    let num_x: i128 = (dx as i128) * weight;
    let num_y: i128 = (dy as i128) * weight;
    assert(dx * node.mass * GRAVITY == dx * (node.mass * GRAVITY) && dy * node.mass * GRAVITY
        == dy * (node.mass * GRAVITY)) by (nonlinear_arith);
    (div_i128(num_x, den as i128), div_i128(num_y, den as i128))
}

/// Whether `size^2 < d_sq * theta^2` in fixed-point terms.
fn is_far_enough(size: u32, d_sq: u128, t_sq: u64) -> (b: bool)
    ensures
        b == far_enough(size, d_sq as int, t_sq),
{
    assert(size * size <= 0xffff_ffff * 0xffff_ffff) by (nonlinear_arith)
        requires
            0 <= size <= 0xffff_ffff,
    ;
    let side_sq: u128 = (size as u128) * (size as u128) * SCALE_SQ;
    match d_sq.checked_mul(t_sq as u128) {
        Some(rhs) => side_sq < rhs,
        None => true,
    }
}

impl Quadtree {
    /// The approximate gravitational acceleration at `pos`.
    ///
    /// The tree is walked depth first from the root.  A node that is a leaf,
    /// or far enough from `pos` for its size, contributes the pull of its
    /// mass at its position and its subtree is skipped; any other node is
    /// opened.  [`Quadtree::propagate`] must have run since the last
    /// insertion.
    pub fn acc(&self, pos: Vec2) -> (a: Vec2)
        requires
            self@.shape_wf(),
            self@.propagated(),
        ensures
            a == self@.acceleration(pos, self.t_sq, self.e_sq),
    {
        let ghost vx = |n: int| self@.subtree_pull(n, pos, self.t_sq, self.e_sq, 0);
        let ghost vy = |n: int| self@.subtree_pull(n, pos, self.t_sq, self.e_sq, 1);
        let ghost vm = |n: int| self.nodes@[n].mass as int;
        let ghost vs = |n: int| self@.subtree_size(n);
        let mut acc_x: i128 = 0;
        let mut acc_y: i128 = 0;
        let mut node: usize = Self::ROOT;
        proof {
            assert(pending(self.nodes@, 0, vx) == vx(0));
            assert(pending(self.nodes@, 0, vy) == vy(0));
            assert(pending(self.nodes@, 0, vm) == vm(0));
            self@.lemma_subtree_size_positive(0);
            assert(pending(self.nodes@, 0, vs) == vs(0));
            assert(0 * GRAVITY == 0);
            assert(self.nodes@[0].mass * GRAVITY >= 0) by (nonlinear_arith)
                requires
                    self.nodes@[0].mass >= 0,
                    GRAVITY == 0x4000_0000_0000_0000,
            ;
        }
        let ghost total: int = self.nodes@[0].mass as int;
        let ghost mut seen: int = 0;
        loop
            invariant_except_break
                node < self.nodes@.len(),
                acc_x + pending(self.nodes@, node as int, vx) == vx(0),
                acc_y + pending(self.nodes@, node as int, vy) == vy(0),
                seen + pending(self.nodes@, node as int, vm) == total,
                pending(self.nodes@, node as int, vs) >= 1,
            invariant
                self@.shape_wf(),
                self@.propagated(),
                vx == (|n: int| self@.subtree_pull(n, pos, self.t_sq, self.e_sq, 0)),
                vy == (|n: int| self@.subtree_pull(n, pos, self.t_sq, self.e_sq, 1)),
                vm == (|n: int| self.nodes@[n].mass as int),
                vs == (|n: int| self@.subtree_size(n)),
                total == self.nodes@[0].mass,
                0 <= seen <= total,
                -(seen * GRAVITY) <= acc_x <= seen * GRAVITY,
                -(seen * GRAVITY) <= acc_y <= seen * GRAVITY,
            ensures
                acc_x == vx(0),
                acc_y == vy(0),
            decreases pending(self.nodes@, node as int, vs),
        {
            let n: &Node = &self.nodes[node];
            let dx: i64 = n.pos.x as i64 - pos.x as i64;
            let dy: i64 = n.pos.y as i64 - pos.y as i64;
            let d_sq: u128 = squared_length(dx, dy);
            proof {
                self@.lemma_next_earlier(node as int);
                self@.lemma_subtree_size_positive(node as int);
                assert forall|i: int| 0 <= #[trigger] vm(i) by {}
                assert forall|i: int| 0 <= #[trigger] vs(i) by {
                    self@.lemma_subtree_size_positive(i);
                }
                self@.lemma_pending_nonnegative(node as int, vm);
                self@.lemma_pending_nonnegative(node as int, vs);
            }
            if n.is_leaf() || is_far_enough(n.quad.size, d_sq, self.t_sq) {
                let (tx, ty) = node_pull(n, dx, dy, d_sq, self.e_sq, Ghost(pos));
                proof {
                    lemma_pull_bound(n.pos, n.mass, pos, self.e_sq, 0);
                    lemma_pull_bound(n.pos, n.mass, pos, self.e_sq, 1);
                    assert(self@.single(node as int, pos, self.t_sq));
                    assert(vx(node as int) == tx);
                    assert(vy(node as int) == ty);
                    assert((seen + n.mass) * GRAVITY == seen * GRAVITY + n.mass * GRAVITY)
                        by (nonlinear_arith);
                    assert(total * GRAVITY <= 0x1_0000_0000 * GRAVITY) by (nonlinear_arith)
                        requires
                            total <= 0x1_0000_0000,
                            GRAVITY >= 0,
                    ;
                    assert(seen * GRAVITY <= total * GRAVITY) by (nonlinear_arith)
                        requires
                            seen <= total,
                            GRAVITY >= 0,
                    ;
                    assert((seen + n.mass) * GRAVITY <= total * GRAVITY) by (nonlinear_arith)
                        requires
                            seen + n.mass <= total,
                            GRAVITY >= 0,
                    ;
                    seen = seen + n.mass;
                }
                acc_x = acc_x + tx;
                acc_y = acc_y + ty;
                if n.next == 0 {
                    break ;
                }
                node = n.next;
                proof {
                    self@.lemma_subtree_size_positive(node as int);
                    self@.lemma_pending_nonnegative(node as int, vs);
                }
            } else {
                proof {
                    self@.lemma_children_in_range(node as int);
                    self@.lemma_pending_descend(node as int, vx);
                    self@.lemma_pending_descend(node as int, vy);
                    self@.lemma_pending_descend(node as int, vm);
                    self@.lemma_pending_descend(node as int, vs);
                    assert(self@.aggregated(node as int));
                    self@.lemma_subtree_size_positive(n.children as int);
                    self@.lemma_pending_nonnegative(n.children as int, vs);
                }
                node = n.children;
            }
        }
        Vec2 { x: saturate_i32(div_i128(acc_x, GUARD)), y: saturate_i32(div_i128(acc_y, GUARD)) }
    }
}

} // verus!
