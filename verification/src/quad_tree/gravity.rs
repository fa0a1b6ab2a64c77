//! One tick of gravity: rebuild the tree from the particles, then accelerate
//! every particle by the pull of the tree.
use crate::fixed::{div_i128, div_toward_zero};
use crate::particle::{ApplyForce, Particle, Position};
use crate::quad_tree::arena::Arena;
use crate::quad_tree::quad::Quad;
use crate::quad_tree::tree::Quadtree;
use crate::vec2::Vec2;
use vstd::prelude::*;

verus! {

/// Sum of the masses of a sequence of particles.
pub open spec fn mass_sum(particles: Seq<Particle>) -> int
    decreases particles.len(),
{
    if particles.len() == 0 {
        0
    } else {
        mass_sum(particles.drop_last()) + particles.last().mass
    }
}

/// A position as a vector.
pub open spec fn point_of(position: Position) -> Vec2 {
    Vec2 { x: position.x, y: position.y }
}

/// The positions as vectors.
pub open spec fn points_of(positions: Seq<Position>) -> Seq<Vec2> {
    Seq::new(positions.len(), |i: int| point_of(positions[i]))
}

/// The region that the tree of a tick covers: the bounding square of the
/// positions, or the empty square at the origin where there is no particle.
pub open spec fn root_quad(positions: Seq<Position>) -> Quad {
    if positions.len() == 0 {
        Quad { center: Vec2 { x: 0, y: 0 }, size: 0 }
    } else {
        Quad::bounding(points_of(positions))
    }
}

/// The part of an acceleration that is added to a velocity in one tick: one
/// hundredth, rounded toward zero.
pub open spec fn tick_share(acceleration: Vec2) -> Vec2 {
    Vec2 {
        x: div_toward_zero(acceleration.x as int, 100) as i32,
        y: div_toward_zero(acceleration.y as int, 100) as i32,
    }
}

impl Arena {
    /// The arena after inserting every particle, in order, with its mass at
    /// its position.
    pub open spec fn inserted_all(self, positions: Seq<Position>, particles: Seq<Particle>) -> Arena
        decreases positions.len(),
    {
        if positions.len() == 0 {
            self
        } else {
            self.inserted_all(positions.drop_last(), particles.drop_last()).inserted(
                point_of(positions.last()),
                particles.last().mass,
            )
        }
    }
}

/// The masses of a prefix sum to no more than the masses of the whole.
pub proof fn lemma_mass_sum_prefix(particles: Seq<Particle>, i: int)
    requires
        0 <= i <= particles.len(),
    ensures
        0 <= mass_sum(particles.take(i)) <= mass_sum(particles),
        i < particles.len() ==> mass_sum(particles.take(i + 1)) == mass_sum(particles.take(i))
            + particles[i].mass,
    decreases particles.len() - i,
{
    if i < particles.len() {
        assert(particles.take(i + 1).drop_last() =~= particles.take(i));
        lemma_mass_sum_prefix(particles, i + 1);
    } else {
        assert(particles.take(i) =~= particles);
    }
    lemma_mass_sum_nonnegative(particles.take(i));
}

/// A sum of masses is never negative.
pub proof fn lemma_mass_sum_nonnegative(particles: Seq<Particle>)
    ensures
        0 <= mass_sum(particles),
    decreases particles.len(),
{
    if particles.len() > 0 {
        lemma_mass_sum_nonnegative(particles.drop_last());
    }
}

/// Rebuilds `quadtree` from the particles and accelerates each of them.
///
/// The tree is cleared to the bounding square of the positions, every
/// particle is inserted with its mass, and the masses are propagated; the
/// root then holds the total mass.  After that every particle's velocity
/// grows by one hundredth of the acceleration that the tree gives at its
/// position.
pub fn handle_quadtree_gravity(
    quadtree: &mut Quadtree,
    positions: &Vec<Position>,
    particles: &mut Vec<Particle>,
)
    requires
        positions@.len() == old(particles)@.len(),
        mass_sum(old(particles)@) <= u32::MAX,
    ensures
        final(quadtree).t_sq == old(quadtree).t_sq,
        final(quadtree).e_sq == old(quadtree).e_sq,
        final(quadtree)@.wf(),
        final(quadtree)@.propagated(),
        final(quadtree)@.same_tree(
            old(quadtree)@.cleared(root_quad(positions@)).inserted_all(
                positions@,
                old(particles)@,
            ),
        ),
        final(quadtree).nodes@[0].mass == mass_sum(old(particles)@),
        final(particles)@.len() == old(particles)@.len(),
        forall|i: int|
            0 <= i < positions@.len() ==> #[trigger] final(particles)@[i] == old(
                particles,
            )@[i].pushed(
                tick_share(
                    final(quadtree)@.acceleration(
                        point_of(positions@[i]),
                        final(quadtree).t_sq,
                        final(quadtree).e_sq,
                    ),
                ),
            ),
{
    let n: usize = positions.len();
    let mut points: Vec<Vec2> = Vec::new();
    let mut i: usize = 0;
    while i < n
        invariant
            n == positions@.len(),
            i <= n,
            points@ == points_of(positions@.take(i as int)),
        decreases n - i,
    {
        points.push(Vec2::new(positions[i].x, positions[i].y));
        i = i + 1;
        assert(points@ =~= points_of(positions@.take(i as int)));
    }
    assert(positions@.take(n as int) =~= positions@);
    let root: Quad = if n == 0 {
        Quad { center: Vec2::zero(), size: 0 }
    } else {
        Quad::new_containing(points.as_slice())
    };
    quadtree.clear(root);
    i = 0;
    assert(positions@.take(0) =~= Seq::empty());
    while i < n
        invariant
            n == positions@.len(),
            n == particles@.len(),
            *particles == *old(particles),
            i <= n,
            points@ == points_of(positions@),
            quadtree@ == old(quadtree)@.cleared(root_quad(positions@)).inserted_all(
                positions@.take(i as int),
                particles@.take(i as int),
            ),
            quadtree@.wf(),
            quadtree@.total_mass() == mass_sum(particles@.take(i as int)),
            mass_sum(particles@) <= u32::MAX,
            quadtree.t_sq == old(quadtree).t_sq,
            quadtree.e_sq == old(quadtree).e_sq,
        decreases n - i,
    {
        proof {
            lemma_mass_sum_prefix(particles@, i as int);
            lemma_mass_sum_prefix(particles@, i + 1);
            assert(positions@.take(i + 1).drop_last() =~= positions@.take(i as int));
            assert(particles@.take(i + 1).drop_last() =~= particles@.take(i as int));
        }
        quadtree.insert(points[i], particles[i].mass);
        i = i + 1;
    }
    assert(particles@.take(n as int) =~= particles@);
    quadtree.propagate();
    i = 0;
    while i < n
        invariant
            n == positions@.len(),
            n == particles@.len(),
            i <= n,
            points@ == points_of(positions@),
            quadtree@.shape_wf(),
            quadtree@.propagated(),
            forall|k: int| i <= k < n ==> particles@[k] == old(particles)@[k],
            forall|k: int|
                0 <= k < i ==> #[trigger] particles@[k] == old(particles)@[k].pushed(
                    tick_share(
                        quadtree@.acceleration(point_of(positions@[k]), quadtree.t_sq, quadtree.e_sq),
                    ),
                ),
        decreases n - i,
    {
        let force: Vec2 = quadtree.acc(points[i]);
        let share: Vec2 = Vec2 {
            x: div_i128(force.x as i128, 100) as i32,
            y: div_i128(force.y as i128, 100) as i32,
        };
        let mut particle: Particle = particles[i];
        particle.apply_force(share);
        particles[i] = particle;
        i = i + 1;
    }
}

} // verus!
