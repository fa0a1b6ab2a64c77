//! What holds of every tree: an insertion keeps it well-formed, aggregation
//! conserves mass and keeps the centre of mass up to rounding, and with a
//! zero opening angle a query sums over every single particle.
use crate::fixed::{lemma_div_toward_zero_error, lemma_sqrt_exists};
use crate::particle::{Particle, Position};
use crate::quad_tree::arena::{lemma_sum_nonnegative, Arena};
use crate::quad_tree::contents::{held, leaf_term, lemma_leaves_same};
use crate::quad_tree::force::{far_enough, pull};
use crate::quad_tree::gravity::{lemma_mass_sum_nonnegative, mass_sum, point_of};
use crate::quad_tree::node::Node;
use crate::quad_tree::sums::{frontier_sum, frontier_term, leaf_sum, stored_mass};
use crate::vec2::{length_sq, Vec2};
use vstd::prelude::*;

verus! {

/// The pull along `axis` that each node of `nodes`, taken as a point mass,
/// has on `p`.
pub open spec fn node_pull(nodes: Seq<Node>, p: Vec2, e_sq: u64, axis: int) -> spec_fn(int) -> int {
    |n: int| pull(nodes[n].pos, nodes[n].mass, p, e_sq, axis)
}

/// Mass times coordinate along `axis` (0 for x, 1 for y) of each node of
/// `nodes`.
pub open spec fn stored_moment(nodes: Seq<Node>, axis: int) -> spec_fn(int) -> int {
    |n: int|
        (if axis == 0 {
            nodes[n].pos.x
        } else {
            nodes[n].pos.y
        }) * nodes[n].mass
}

/// The pull along `axis` on `p` as a measure of a point and its mass.
pub open spec fn pull_on(p: Vec2, e_sq: u64, axis: int) -> spec_fn(Vec2, u32) -> int {
    |at: Vec2, mass: u32| pull(at, mass, p, e_sq, axis)
}

/// The mass as a measure of a point and its mass.
pub open spec fn mass_of() -> spec_fn(Vec2, u32) -> int {
    |at: Vec2, mass: u32| mass as int
}

/// Nothing pulls without mass.
pub proof fn lemma_no_mass_no_pull(at: Vec2, p: Vec2, e_sq: u64, axis: int)
    ensures
        pull(at, 0, p, e_sq, axis) == 0,
{
    let dx = at.x - p.x;
    let dy = at.y - p.y;
    let d_sq = length_sq(dx, dy);
    let d = if axis == 0 {
        dx
    } else {
        dy
    };
    assert(d * 0 * crate::quad_tree::force::GRAVITY == 0) by (nonlinear_arith);
    if d_sq != 0 {
        assert(d_sq >= 1) by (nonlinear_arith)
            requires
                d_sq == dx * dx + dy * dy,
                d_sq != 0,
        ;
        lemma_sqrt_exists(d_sq);
        let r = crate::fixed::floor_sqrt(d_sq);
        if r == 0 {
            assert((r + 1) * (r + 1) == 1) by (nonlinear_arith)
                requires
                    r == 0,
            ;
        }
        assert((d_sq + e_sq) * r > 0) by (nonlinear_arith)
            requires
                d_sq >= 1,
                e_sq >= 0,
                r >= 1,
        ;
    }
}

/// The sum of the pulls along `axis` that the particles, each taken as a
/// point mass at its position, have on `p`.
pub open spec fn pull_sum(
    positions: Seq<Position>,
    particles: Seq<Particle>,
    p: Vec2,
    e_sq: u64,
    axis: int,
) -> int
    decreases positions.len(),
{
    if positions.len() == 0 {
        0
    } else {
        pull_sum(positions.drop_last(), particles.drop_last(), p, e_sq, axis) + pull(
            point_of(positions.last()),
            particles.last().mass,
            p,
            e_sq,
            axis,
        )
    }
}

impl Arena {
    /// Every particle finds room when the particles are inserted in order,
    /// and the arena never outgrows its index type.
    pub open spec fn all_have_room(self, positions: Seq<Position>, particles: Seq<Particle>) -> bool
        decreases positions.len(),
    {
        positions.len() == 0 || {
            let before = self.inserted_all(positions.drop_last(), particles.drop_last());
            &&& self.all_have_room(positions.drop_last(), particles.drop_last())
            &&& before.has_room_for(point_of(positions.last()))
            &&& before.inserted(point_of(positions.last()), particles.last().mass).nodes.len()
                <= usize::MAX
        }
    }

    /// The total leaf mass is the leaf total of the mass.
    pub proof fn lemma_total_mass_is_leaf_total(self)
        requires
            self.shape_wf(),
        ensures
            self.total_mass() == self.leaf_total(mass_of()),
    {
        self.lemma_total_is_frontier();
        assert forall|n: int| 0 <= n < self.nodes.len() implies #[trigger] leaf_term(
            self.nodes,
            stored_mass(self.nodes),
            n,
        ) == leaf_term(self.nodes, held(self.nodes, mass_of()), n) by {}
        lemma_leaves_same(
            self.nodes,
            stored_mass(self.nodes),
            self.nodes,
            held(self.nodes, mass_of()),
            self.nodes.len() as int,
        );
    }

    /// The direct sum is the leaf total of the pull.
    pub proof fn lemma_direct_pull_is_leaf_total(self, p: Vec2, e_sq: u64, axis: int)
        ensures
            self.direct_pull(p, e_sq, axis) == self.leaf_total(pull_on(p, e_sq, axis)),
    {
        assert forall|n: int| 0 <= n < self.nodes.len() implies #[trigger] leaf_term(
            self.nodes,
            node_pull(self.nodes, p, e_sq, axis),
            n,
        ) == leaf_term(self.nodes, held(self.nodes, pull_on(p, e_sq, axis)), n) by {}
        lemma_leaves_same(
            self.nodes,
            node_pull(self.nodes, p, e_sq, axis),
            self.nodes,
            held(self.nodes, pull_on(p, e_sq, axis)),
            self.nodes.len() as int,
        );
    }

    /// Trees with the same leaves have the same direct sum.
    pub proof fn lemma_same_tree_same_pull(self, other: Arena, p: Vec2, e_sq: u64, axis: int)
        requires
            self.same_tree(other),
        ensures
            self.direct_pull(p, e_sq, axis) == other.direct_pull(p, e_sq, axis),
    {
        assert forall|n: int| 0 <= n < self.nodes.len() implies #[trigger] leaf_term(
            self.nodes,
            node_pull(self.nodes, p, e_sq, axis),
            n,
        ) == leaf_term(other.nodes, node_pull(other.nodes, p, e_sq, axis), n) by {
            assert(self.nodes[n].children == other.nodes[n].children);
        }
        lemma_leaves_same(
            self.nodes,
            node_pull(self.nodes, p, e_sq, axis),
            other.nodes,
            node_pull(other.nodes, p, e_sq, axis),
            self.nodes.len() as int,
        );
    }

    /// An insertion keeps the arena well-formed, adds the inserted mass to
    /// the total, and adds at most 124 nodes.  Where a leaf holds exactly the
    /// inserted position already, the insertion only adds to its mass.
    pub proof fn lemma_inserted_wf(self, pos: Vec2, mass: u32)
        requires
            self.wf(),
            self.total_mass() + mass <= u32::MAX,
            self.inserted(pos, mass).nodes.len() <= usize::MAX,
        ensures
            self.inserted(pos, mass).wf(),
            self.inserted(pos, mass).total_mass() == self.total_mass() + mass,
            self.nodes.len() <= self.inserted(pos, mass).nodes.len() <= self.nodes.len() + 124,
            forall|leaf: int|
                0 <= leaf < self.nodes.len() && (#[trigger] self.nodes[leaf]).children == 0
                    && self.nodes[leaf].mass > 0 && self.nodes[leaf].pos == pos
                    ==> self.inserted(pos, mass) == self.grown_at(leaf, mass),
    {
        assert forall|leaf: int|
            0 <= leaf < self.nodes.len() && (#[trigger] self.nodes[leaf]).children == 0
                && self.nodes[leaf].mass > 0 && self.nodes[leaf].pos == pos implies self.inserted(
            pos,
            mass,
        ) == self.grown_at(leaf, mass) by {
            self.lemma_insert_at_held_leaf(leaf, pos, mass);
        }
        let n = self.find_leaf(0, pos);
        let node = self.nodes[n];
        let after = self.inserted(pos, mass);
        self.lemma_inserted_bounded(pos, mass);
        self.lemma_descent_ends_at_leaf(0, pos);
        crate::quad_tree::arena::lemma_sum_bounds(self.nodes, n);
        lemma_sum_nonnegative(self.nodes);
        self.lemma_inserted_found(pos, mass);
        if node.mass == 0 {
            self.lemma_with_leaf(n, pos, mass);
        } else if node.pos == pos {
            self.lemma_with_leaf(n, pos, (node.mass + mass) as u32);
        } else {
            self.lemma_split_total(n, node.pos, node.mass, pos, mass, mass_of());
            self.lemma_total_mass_is_leaf_total();
            after.lemma_total_mass_is_leaf_total();
        }
    }

    /// With room for it, an inserted point adds its own pull to the direct
    /// sum and changes nothing else.
    pub proof fn lemma_insertion_adds_pull(
        self,
        pos: Vec2,
        mass: u32,
        p: Vec2,
        e_sq: u64,
        axis: int,
    )
        requires
            self.shape_wf(),
            self.inserted(pos, mass).nodes.len() <= usize::MAX,
            self.has_room_for(pos),
        ensures
            self.inserted(pos, mass).direct_pull(p, e_sq, axis) == self.direct_pull(p, e_sq, axis)
                + pull(pos, mass, p, e_sq, axis),
    {
        let f = pull_on(p, e_sq, axis);
        assert forall|q: Vec2| #[trigger] f(q, 0) == 0 by {
            lemma_no_mass_no_pull(q, p, e_sq, axis);
        }
        self.lemma_inserted_total(pos, mass, f);
        self.lemma_direct_pull_is_leaf_total(p, e_sq, axis);
        self.inserted(pos, mass).lemma_direct_pull_is_leaf_total(p, e_sq, axis);
    }

    /// Where every particle finds room, the direct sum over the leaves is
    /// the direct sum over the particles: inserting them adds the pull of
    /// each to what the tree pulled before.
    pub proof fn lemma_direct_pull_of_particles(
        self,
        positions: Seq<Position>,
        particles: Seq<Particle>,
        p: Vec2,
        e_sq: u64,
        axis: int,
    )
        requires
            self.wf(),
            positions.len() == particles.len(),
            self.total_mass() + mass_sum(particles) <= u32::MAX,
            self.all_have_room(positions, particles),
        ensures
            self.inserted_all(positions, particles).wf(),
            self.inserted_all(positions, particles).total_mass() == self.total_mass() + mass_sum(
                particles,
            ),
            self.inserted_all(positions, particles).direct_pull(p, e_sq, axis) == self.direct_pull(
                p,
                e_sq,
                axis,
            ) + pull_sum(positions, particles, p, e_sq, axis),
        decreases positions.len(),
    {
        if positions.len() > 0 {
            let before = self.inserted_all(positions.drop_last(), particles.drop_last());
            lemma_mass_sum_nonnegative(particles.drop_last());
            self.lemma_direct_pull_of_particles(
                positions.drop_last(),
                particles.drop_last(),
                p,
                e_sq,
                axis,
            );
            before.lemma_inserted_wf(point_of(positions.last()), particles.last().mass);
            before.lemma_insertion_adds_pull(
                point_of(positions.last()),
                particles.last().mass,
                p,
                e_sq,
                axis,
            );
        }
    }

    /// With an opening angle of zero, the pull of a tree built from particles
    /// that all found room is the direct sum over the particles:
    /// `d * m / ((|d|^2 + e_sq) * |d|)` summed over every particle, with `d`
    /// the vector from `p` to the particle and `m` its mass.  A particle at
    /// `p` itself contributes nothing.
    pub proof fn lemma_zero_angle_sums_particles(
        self,
        quad: crate::quad_tree::quad::Quad,
        positions: Seq<Position>,
        particles: Seq<Particle>,
        p: Vec2,
        e_sq: u64,
        axis: int,
    )
        requires
            self.shape_wf(),
            self.same_tree(self.cleared(quad).inserted_all(positions, particles)),
            positions.len() == particles.len(),
            mass_sum(particles) <= u32::MAX,
            self.cleared(quad).all_have_room(positions, particles),
        ensures
            self.subtree_pull(0, p, 0, e_sq, axis) == pull_sum(positions, particles, p, e_sq, axis),
    {
        let empty = self.cleared(quad);
        assert(empty.children_ok(0));
        assert(empty.nodes.drop_last() =~= Seq::empty());
        assert(crate::quad_tree::arena::leaf_mass_sum(empty.nodes.drop_last()) == 0);
        lemma_no_mass_no_pull(Vec2 { x: 0, y: 0 }, p, e_sq, axis);
        assert(empty.direct_pull(p, e_sq, axis) == 0) by {
            let v = node_pull(empty.nodes, p, e_sq, axis);
            assert(leaf_sum(empty.nodes, v, 1) == leaf_sum(empty.nodes, v, 0) + v(0));
        }
        empty.lemma_direct_pull_of_particles(positions, particles, p, e_sq, axis);
        self.lemma_same_tree_same_pull(empty.inserted_all(positions, particles), p, e_sq, axis);
        self.lemma_zero_angle_is_direct_sum(p, e_sq, axis);
    }

    /// The acceleration component along `axis` at `p` by direct summation:
    /// the sum of the pulls of all leaves, each taken as a point mass.
    pub open spec fn direct_pull(self, p: Vec2, e_sq: u64, axis: int) -> int {
        leaf_sum(self.nodes, node_pull(self.nodes, p, e_sq, axis), self.nodes.len() as int)
    }

    /// After propagation the root holds the total mass of the leaves.
    pub proof fn lemma_root_holds_total_mass(self)
        requires
            self.shape_wf(),
            self.propagated(),
        ensures
            self.nodes[0].mass == self.total_mass(),
    {
        let v = stored_mass(self.nodes);
        assert forall|n: int|
            0 <= n < self.nodes.len() && self.nodes[n].children != 0 implies #[trigger] v(n)
            == self.children_sum(n, v) by {
            assert(self.aggregated(n));
        }
        self.lemma_root_is_leaf_sum(v);
        self.lemma_total_is_frontier();
    }

    /// Sum of the masses held by the nodes of the first `k` subdivisions.
    pub open spec fn inner_mass(self, k: int) -> int
        decreases k,
    {
        if k <= 0 {
            0
        } else {
            self.inner_mass(k - 1) + self.nodes[self.parents[k - 1] as int].mass
        }
    }

    /// Sum over the leaves of mass times coordinate along `axis`: the total
    /// mass times the exact centre of mass.
    pub open spec fn leaf_moment(self, axis: int) -> int {
        leaf_sum(self.nodes, stored_moment(self.nodes, axis), self.nodes.len() as int)
    }

    /// An inner node's mass times its position is less than its mass away
    /// from the sum over its children of mass times position.
    proof fn lemma_moment_error(self, n: int, axis: int)
        requires
            self.shape_wf(),
            self.propagated(),
            0 <= n < self.nodes.len(),
            self.nodes[n].children != 0,
        ensures
            ({
                let v = stored_moment(self.nodes, axis);
                -self.nodes[n].mass <= v(n) - self.children_sum(n, v) <= self.nodes[n].mass
            }),
    {
        let v = stored_moment(self.nodes, axis);
        let c = self.nodes[n].children as int;
        assert(self.aggregated(n));
        self.lemma_children_in_range(n);
        let mass = self.children_mass(n);
        if mass > 0 {
            if axis == 0 {
                lemma_div_toward_zero_error(self.children_moment_x(n), mass);
                crate::quad_tree::propagate::lemma_centroid_in_range(
                    self.nodes[c].pos.x as int,
                    self.nodes[c].mass as int,
                    self.nodes[c + 1].pos.x as int,
                    self.nodes[c + 1].mass as int,
                    self.nodes[c + 2].pos.x as int,
                    self.nodes[c + 2].mass as int,
                    self.nodes[c + 3].pos.x as int,
                    self.nodes[c + 3].mass as int,
                );
            } else {
                lemma_div_toward_zero_error(self.children_moment_y(n), mass);
                crate::quad_tree::propagate::lemma_centroid_in_range(
                    self.nodes[c].pos.y as int,
                    self.nodes[c].mass as int,
                    self.nodes[c + 1].pos.y as int,
                    self.nodes[c + 1].mass as int,
                    self.nodes[c + 2].pos.y as int,
                    self.nodes[c + 2].mass as int,
                    self.nodes[c + 3].pos.y as int,
                    self.nodes[c + 3].mass as int,
                );
            }
        } else {
            assert(self.nodes[c].mass == 0 && self.nodes[c + 1].mass == 0 && self.nodes[c
                + 2].mass == 0 && self.nodes[c + 3].mass == 0);
            assert(v(c) == 0 && v(c + 1) == 0 && v(c + 2) == 0 && v(c + 3) == 0)
                by (nonlinear_arith)
                requires
                    self.nodes[c].mass == 0,
                    self.nodes[c + 1].mass == 0,
                    self.nodes[c + 2].mass == 0,
                    self.nodes[c + 3].mass == 0,
                    v(c) == (if axis == 0 {
                        self.nodes[c].pos.x
                    } else {
                        self.nodes[c].pos.y
                    }) * self.nodes[c].mass,
                    v(c + 1) == (if axis == 0 {
                        self.nodes[c + 1].pos.x
                    } else {
                        self.nodes[c + 1].pos.y
                    }) * self.nodes[c + 1].mass,
                    v(c + 2) == (if axis == 0 {
                        self.nodes[c + 2].pos.x
                    } else {
                        self.nodes[c + 2].pos.y
                    }) * self.nodes[c + 2].mass,
                    v(c + 3) == (if axis == 0 {
                        self.nodes[c + 3].pos.x
                    } else {
                        self.nodes[c + 3].pos.y
                    }) * self.nodes[c + 3].mass,
            ;
            assert(v(n) == 0) by (nonlinear_arith)
                requires
                    self.nodes[n].mass == 0,
                    v(n) == (if axis == 0 {
                        self.nodes[n].pos.x
                    } else {
                        self.nodes[n].pos.y
                    }) * self.nodes[n].mass,
            ;
        }
    }

    /// Induction behind [`Arena::lemma_root_near_centre_of_mass`].
    proof fn lemma_moment_frontier(self, axis: int, k: int)
        requires
            self.shape_wf(),
            self.propagated(),
            0 <= k <= self.parents.len(),
        ensures
            ({
                let v = stored_moment(self.nodes, axis);
                -self.inner_mass(k) <= frontier_sum(self.nodes, v, 1 + 4 * k, 1 + 4 * k) - v(0)
                    <= self.inner_mass(k)
            }),
        decreases k,
    {
        let v = stored_moment(self.nodes, axis);
        if k == 0 {
            assert(frontier_sum(self.nodes, v, 1, 1) == frontier_sum(self.nodes, v, 0, 1)
                + frontier_term(self.nodes, v, 0, 1));
            if self.nodes[0].children != 0 {
                self.lemma_children_in_range(0);
            }
        } else {
            self.lemma_moment_frontier(axis, k - 1);
            self.lemma_frontier_step(v, k - 1);
            assert(self.group_ok(k - 1));
            self.lemma_moment_error(self.parents[k - 1] as int, axis);
        }
    }

    /// After propagation the root lies at the centre of mass of the leaves,
    /// up to rounding: the root's mass times its position differs from the
    /// sum over the leaves of mass times position by no more than the
    /// masses of all inner nodes together.
    pub proof fn lemma_root_near_centre_of_mass(self, axis: int)
        requires
            self.shape_wf(),
            self.propagated(),
        ensures
            ({
                let root = stored_moment(self.nodes, axis)(0);
                let slack = self.inner_mass(self.parents.len() as int);
                -slack <= self.leaf_moment(axis) - root <= slack
            }),
    {
        self.lemma_moment_frontier(axis, self.parents.len() as int);
        self.lemma_frontier_at_end(stored_moment(self.nodes, axis));
    }

    /// With an opening angle of zero no inner node counts as a single mass:
    /// the pull of the tree is the direct sum over all its leaves.
    pub proof fn lemma_zero_angle_is_direct_sum(self, p: Vec2, e_sq: u64, axis: int)
        requires
            self.shape_wf(),
        ensures
            self.subtree_pull(0, p, 0, e_sq, axis) == self.direct_pull(p, e_sq, axis),
    {
        let v = |n: int| self.subtree_pull(n, p, 0, e_sq, axis);
        let w = node_pull(self.nodes, p, e_sq, axis);
        assert forall|n: int|
            0 <= n < self.nodes.len() && self.nodes[n].children != 0 implies #[trigger] v(n)
            == self.children_sum(n, v) by {
            self.lemma_children_in_range(n);
            let node = self.nodes[n];
            assert(!far_enough(
                node.quad.size,
                crate::vec2::length_sq(node.pos.x - p.x, node.pos.y - p.y),
                0,
            )) by (nonlinear_arith);
        }
        self.lemma_root_is_leaf_sum(v);
        assert forall|n: int| 0 <= n < self.nodes.len() implies #[trigger] leaf_term(
            self.nodes,
            v,
            n,
        ) == leaf_term(self.nodes, w, n) by {}
        lemma_leaves_same(self.nodes, v, self.nodes, w, self.nodes.len() as int);
    }
}

} // verus!
