//! One tick of collisions: find the neighbours of every particle with the
//! kd-tree, then resolve the pairs found.
use crate::kd_tree::{
    build_kd_tree, kd_ordered, kd_tree_of, lemma_matches_of_permutation, matches_in,
    search_radius, tree_points, tree_size, within, IndexedPoint, KdNode,
};
use crate::particle::{resolve_particle_collision, Pair, Particle, Position};
use crate::vec2::squared_length;
use vstd::prelude::*;

verus! {

/// Positions and particles of one simulation, index by index.
pub struct World {
    pub positions: Seq<Position>,
    pub particles: Seq<Particle>,
}

/// `points` lists the positions with their indices, in order.
pub open spec fn lists(points: Seq<IndexedPoint>, positions: Seq<Position>) -> bool {
    &&& points.len() == positions.len()
    &&& forall|i: int|
        0 <= i < points.len() ==> {
            &&& (#[trigger] points[i]).0 == i
            &&& points[i].1[0] == positions[i].x
            &&& points[i].1[1] == positions[i].y
        }
}

/// A whole number of units as a fixed-point length, or the largest length
/// if it does not fit.
pub open spec fn fixed_length(units: int) -> u32 {
    if units * 65536 > u32::MAX {
        u32::MAX
    } else {
        (units * 65536) as u32
    }
}

/// The radius within which a particle looks for neighbours: twice its own.
pub open spec fn search_reach(particle: Particle) -> u32 {
    fixed_length(particle.radius * 2)
}

/// The sum of the radii of two particles.
pub open spec fn contact_distance(a: Particle, b: Particle) -> u32 {
    fixed_length(a.radius + b.radius)
}

/// The query target for a position.
pub open spec fn target_of(position: Position) -> [i32; 2] {
    [position.x, position.y]
}

/// Particle `to` lies within the reach of particle `from`.
pub open spec fn reaches(world: World, from: int, to: int) -> bool {
    within(
        target_of(world.positions[to]),
        target_of(world.positions[from]),
        search_reach(world.particles[from]),
    )
}

/// Two particles are neighbours when one of them lies within the reach of
/// the other.
pub open spec fn are_neighbours(world: World, i: int, j: int) -> bool {
    reaches(world, i, j) || reaches(world, j, i)
}

/// The neighbours of particle `i` among `points`: what a query at its
/// position with its reach finds.
pub open spec fn neighbours(points: Seq<IndexedPoint>, world: World, i: int) -> Seq<usize> {
    matches_in(points, target_of(world.positions[i]), search_reach(world.particles[i]))
}

/// The pairs that particle `i` contributes, given the indices `found` by its
/// own query, in the order of `found`.  With a neighbour `j` of larger
/// index it forms the pair `(i, j)`.  With a neighbour `j` of smaller index
/// it forms the pair `(j, i)`, unless `i` lies within the reach of `j`: then
/// the query of `j` has found `i`, and the pair is there already.
pub open spec fn pairs_from(world: World, i: usize, found: Seq<usize>) -> Seq<(usize, usize)>
    decreases found.len(),
{
    if found.len() == 0 {
        Seq::empty()
    } else {
        let rest = pairs_from(world, i, found.drop_last());
        let j = found.last();
        if j > i {
            rest.push((i, j))
        } else if j < i && !reaches(world, j as int, i as int) {
            rest.push((j, i))
        } else {
            rest
        }
    }
}

/// The neighbour pairs among the first `n` particles and all the others:
/// what each of the `n` contributes, one particle after the other.  Every
/// pair is written with the smaller index first; no particle is paired with
/// itself.
pub open spec fn pairs_of(points: Seq<IndexedPoint>, world: World, n: int) -> Seq<(usize, usize)>
    decreases n,
{
    if n <= 0 {
        Seq::empty()
    } else {
        pairs_of(points, world, n - 1) + pairs_from(
            world,
            (n - 1) as usize,
            neighbours(points, world, n - 1),
        )
    }
}

/// `pairs` holds every unordered pair of neighbours exactly once, smaller
/// index first, and nothing else.
pub open spec fn each_pair_once(pairs: Seq<(usize, usize)>, world: World) -> bool {
    &&& forall|k: int|
        0 <= k < pairs.len() ==> (#[trigger] pairs[k]).0 < pairs[k].1 < world.positions.len()
    &&& pairs.no_duplicates()
    &&& forall|i: usize, j: usize|
        i < j < world.positions.len() ==> (#[trigger] pairs.contains((i, j)) <==> are_neighbours(
            world,
            i as int,
            j as int,
        ))
}

impl World {
    /// The world after resolving the collision of `pair`.  A pair that names
    /// a particle that does not exist changes nothing.
    pub open spec fn resolved(self, pair: (usize, usize)) -> World {
        let (i, j) = pair;
        if i < self.positions.len() && j < self.positions.len() {
            let after = (Pair {
                pos_i: self.positions[i as int],
                particle_i: self.particles[i as int],
                pos_j: self.positions[j as int],
                particle_j: self.particles[j as int],
            }).resolved(contact_distance(self.particles[i as int], self.particles[j as int]));
            World {
                positions: self.positions.update(i as int, after.pos_i).update(
                    j as int,
                    after.pos_j,
                ),
                particles: self.particles.update(i as int, after.particle_i).update(
                    j as int,
                    after.particle_j,
                ),
            }
        } else {
            self
        }
    }

    /// The world after resolving `pairs` one after another.
    pub open spec fn resolved_all(self, pairs: Seq<(usize, usize)>) -> World
        decreases pairs.len(),
    {
        if pairs.len() == 0 {
            self
        } else {
            self.resolved_all(pairs.drop_last()).resolved(pairs.last())
        }
    }
}

/// The positions with their indices, in order.
pub open spec fn listed(positions: Seq<Position>) -> Seq<IndexedPoint> {
    Seq::new(positions.len(), |i: int| (i as usize, target_of(positions[i])))
}

/// The neighbour pairs of a world in the order in which they are resolved:
/// those that the queries on the kd-tree of the world find, particle after
/// particle.
pub open spec fn collisions(world: World) -> Seq<(usize, usize)> {
    pairs_of(
        tree_points(kd_tree_of(listed(world.positions), 0)),
        world,
        world.positions.len() as int,
    )
}

/// The world after one tick of collisions.
pub open spec fn collided(world: World) -> World {
    world.resolved_all(collisions(world))
}

/// How often the pair `(a, b)`, `a < b`, is among the pairs that particle
/// `i` contributes: as often as `b` was found if `i` is `a`, and as often as
/// `a` was found if `i` is `b` and `b` lies beyond the reach of `a`.
pub proof fn lemma_pairs_from_count(world: World, i: usize, found: Seq<usize>, a: usize, b: usize)
    requires
        a < b,
    ensures
        pairs_from(world, i, found).to_multiset().count((a, b)) == (if i == a {
            found.to_multiset().count(b)
        } else {
            0
        }) + (if i == b && !reaches(world, a as int, b as int) {
            found.to_multiset().count(a)
        } else {
            0
        }),
    decreases found.len(),
{
    broadcast use vstd::seq_lib::group_to_multiset_ensures;

    if found.len() == 0 {
        assert(found.to_multiset().count(a) == 0 && found.to_multiset().count(b) == 0) by {
            assert(found =~= Seq::empty());
        }
    } else {
        let rest = found.drop_last();
        let j = found.last();
        lemma_pairs_from_count(world, i, rest, a, b);
        assert(found =~= rest.push(j));
        assert(found.to_multiset() =~= rest.to_multiset().insert(j));
        let before = pairs_from(world, i, rest);
        if j > i {
            assert(before.push((i, j)).to_multiset() =~= before.to_multiset().insert((i, j)));
        } else if j < i && !reaches(world, j as int, i as int) {
            assert(before.push((j, i)).to_multiset() =~= before.to_multiset().insert((j, i)));
        }
    }
}

/// Every pair that particle `i` contributes has its smaller index first and
/// joins `i` with one of the indices found.
pub proof fn lemma_pairs_from_ordered(world: World, i: usize, found: Seq<usize>, k: int)
    requires
        0 <= k < pairs_from(world, i, found).len(),
    ensures
        pairs_from(world, i, found)[k].0 < pairs_from(world, i, found)[k].1,
        (pairs_from(world, i, found)[k].0 == i && found.contains(pairs_from(world, i, found)[k].1))
            || (pairs_from(world, i, found)[k].1 == i && found.contains(
            pairs_from(world, i, found)[k].0,
        )),
    decreases found.len(),
{
    if found.len() > 0 {
        let rest = found.drop_last();
        let j = found.last();
        let before = pairs_from(world, i, rest);
        assert(found[found.len() - 1] == j);
        if k < before.len() {
            lemma_pairs_from_ordered(world, i, rest, k);
            let x = before[k];
            if rest.contains(x.0) {
                let w = choose|w: int| 0 <= w < rest.len() && rest[w] == x.0;
                assert(found[w] == x.0);
            }
            if rest.contains(x.1) {
                let w = choose|w: int| 0 <= w < rest.len() && rest[w] == x.1;
                assert(found[w] == x.1);
            }
        }
    }
}

/// Among the indexed positions of a world, a query finds every index in
/// range exactly once and no other.
pub proof fn lemma_listed_count(
    points: Seq<IndexedPoint>,
    positions: Seq<Position>,
    upto: int,
    target: [i32; 2],
    radius: u32,
    x: usize,
)
    requires
        lists(points, positions),
        0 <= upto <= points.len(),
    ensures
        matches_in(points.take(upto), target, radius).to_multiset().count(x) == (if x < upto
            && within(target_of(positions[x as int]), target, radius) {
            1nat
        } else {
            0nat
        }),
    decreases upto,
{
    broadcast use vstd::seq_lib::group_to_multiset_ensures;

    if upto == 0 {
        assert(points.take(0) =~= Seq::empty());
        assert(matches_in(points.take(0), target, radius) =~= Seq::empty());
    } else {
        lemma_listed_count(points, positions, upto - 1, target, radius, x);
        assert(points.take(upto).drop_last() =~= points.take(upto - 1));
        let last = points[upto - 1];
        assert(points.take(upto).last() == last);
        assert(within(last.1, target, radius) == within(
            target_of(positions[upto - 1]),
            target,
            radius,
        ));
        let rest = matches_in(points.take(upto - 1), target, radius);
        if within(last.1, target, radius) {
            assert(rest.push(last.0).to_multiset() =~= rest.to_multiset().insert(last.0));
        }
    }
}

/// How often the query of particle `i` on a tree that holds exactly the
/// particles of the world finds particle `x`: once if `x` lies within the
/// reach of `i`, and never otherwise.
pub proof fn lemma_neighbour_count(
    tree: Option<Box<KdNode>>,
    points: Seq<IndexedPoint>,
    world: World,
    i: int,
    x: usize,
)
    requires
        lists(points, world.positions),
        tree_points(tree).to_multiset() == points.to_multiset(),
        x < world.positions.len(),
    ensures
        neighbours(tree_points(tree), world, i).to_multiset().count(x) == (if reaches(
            world,
            i,
            x as int,
        ) {
            1nat
        } else {
            0nat
        }),
{
    let target = target_of(world.positions[i]);
    let radius = search_reach(world.particles[i]);
    lemma_matches_of_permutation(tree_points(tree), points, target, radius);
    lemma_listed_count(points, world.positions, points.len() as int, target, radius, x);
    assert(points.take(points.len() as int) =~= points);
}

/// Induction behind [`lemma_each_pair_once`]: how often the pair `(a, b)`
/// is among the pairs of the first `upto` particles.
proof fn lemma_pairs_count(
    tree: Option<Box<KdNode>>,
    points: Seq<IndexedPoint>,
    world: World,
    upto: int,
    a: usize,
    b: usize,
)
    requires
        lists(points, world.positions),
        tree_points(tree).to_multiset() == points.to_multiset(),
        a < b < world.positions.len(),
        0 <= upto <= world.positions.len(),
    ensures
        pairs_of(tree_points(tree), world, upto).to_multiset().count((a, b)) == (if a < upto
            && reaches(world, a as int, b as int) {
            1nat
        } else {
            0nat
        }) + (if b < upto && !reaches(world, a as int, b as int) && reaches(
            world,
            b as int,
            a as int,
        ) {
            1nat
        } else {
            0nat
        }),
    decreases upto,
{
    broadcast use vstd::seq_lib::group_to_multiset_ensures;

    if upto == 0 {
        assert(pairs_of(tree_points(tree), world, 0) =~= Seq::empty());
    } else {
        assert(points[upto - 1].0 == upto - 1);
        let i = (upto - 1) as usize;
        let found = neighbours(tree_points(tree), world, upto - 1);
        lemma_pairs_count(tree, points, world, upto - 1, a, b);
        lemma_pairs_from_count(world, i, found, a, b);
        lemma_neighbour_count(tree, points, world, upto - 1, a);
        lemma_neighbour_count(tree, points, world, upto - 1, b);
        vstd::seq_lib::lemma_multiset_commutative(
            pairs_of(tree_points(tree), world, upto - 1),
            pairs_from(world, i, found),
        );
    }
}

/// Induction behind [`lemma_each_pair_once`]: every pair among the pairs of
/// the first `upto` particles has its smaller index first and names two
/// particles of the world.
proof fn lemma_pairs_ordered(
    tree: Option<Box<KdNode>>,
    points: Seq<IndexedPoint>,
    world: World,
    upto: int,
    k: int,
)
    requires
        lists(points, world.positions),
        tree_points(tree).to_multiset() == points.to_multiset(),
        0 <= upto <= world.positions.len(),
        0 <= k < pairs_of(tree_points(tree), world, upto).len(),
    ensures
        pairs_of(tree_points(tree), world, upto)[k].0 < pairs_of(
            tree_points(tree),
            world,
            upto,
        )[k].1 < world.positions.len(),
    decreases upto,
{
    broadcast use vstd::seq_lib::group_to_multiset_ensures;

    if upto > 0 {
        let earlier = pairs_of(tree_points(tree), world, upto - 1);
        let i = (upto - 1) as usize;
        let found = neighbours(tree_points(tree), world, upto - 1);
        if k < earlier.len() {
            lemma_pairs_ordered(tree, points, world, upto - 1, k);
        } else {
            assert(points[upto - 1].0 == upto - 1);
            let pair = pairs_from(world, i, found)[k - earlier.len()];
            lemma_pairs_from_ordered(world, i, found, k - earlier.len());
            // Whatever the query found is an index of the world.
            let other = if pair.0 == i && found.contains(pair.1) {
                pair.1
            } else {
                pair.0
            };
            assert(found.contains(other));
            if found.contains(other) {
                crate::kd_tree::lemma_match_iff(
                    tree_points(tree),
                    target_of(world.positions[upto - 1]),
                    search_reach(world.particles[upto - 1]),
                    other,
                );
                let w = choose|w: int|
                    0 <= w < tree_points(tree).len() && (#[trigger] tree_points(tree)[w]).0
                        == other;
                let held = tree_points(tree)[w];
                assert(tree_points(tree).contains(held));
                assert(points.to_multiset().count(held) > 0);
                assert(points.contains(held));
                let v = choose|v: int| 0 <= v < points.len() && points[v] == held;
                assert(points[v].0 == v);
            }
        }
    }
}

/// Every unordered pair of neighbours is resolved exactly once.  Where
/// `tree` holds exactly the particles of the world, the pair `(i, j)`,
/// `i < j`, is among the pairs exactly once if one of the two lies within
/// the reach of the other, and not at all otherwise; and the pairs hold
/// nothing but such pairs.
pub proof fn lemma_each_pair_once(
    tree: Option<Box<KdNode>>,
    points: Seq<IndexedPoint>,
    world: World,
)
    requires
        lists(points, world.positions),
        tree_points(tree).to_multiset() == points.to_multiset(),
    ensures
        each_pair_once(
            pairs_of(tree_points(tree), world, world.positions.len() as int),
            world,
        ),
{
    broadcast use vstd::seq_lib::group_to_multiset_ensures;

    let n = world.positions.len() as int;
    let pairs = pairs_of(tree_points(tree), world, n);
    assert forall|k: int| 0 <= k < pairs.len() implies (#[trigger] pairs[k]).0 < pairs[k].1
        < world.positions.len() by {
        lemma_pairs_ordered(tree, points, world, n, k);
    }
    assert forall|i: usize, j: usize| i < j < world.positions.len() implies (
    #[trigger] pairs.contains((i, j)) <==> are_neighbours(world, i as int, j as int)) by {
        lemma_pairs_count(tree, points, world, n, i, j);
    }
    assert forall|x: (usize, usize)| pairs.to_multiset().contains(x) implies pairs.to_multiset().count(
        x,
    ) == 1 by {
        assert(pairs.contains(x));
        let k = choose|k: int| 0 <= k < pairs.len() && pairs[k] == x;
        lemma_pairs_ordered(tree, points, world, n, k);
        lemma_pairs_count(tree, points, world, n, x.0, x.1);
    }
    pairs.lemma_multiset_has_no_duplicates_conv();
}

/// A whole number of units as a fixed-point length.
fn to_fixed_length(units: u64) -> (r: u32)
    requires
        units <= 0x2_0000_0000,
    ensures
        r == fixed_length(units as int),
{
    let scaled: u64 = units * 65536;
    if scaled > 4294967295 {
        u32::MAX
    } else {
        scaled as u32
    }
}

/// Whether particle `to` lies within the reach of particle `from`.
fn is_within_reach(
    positions: &Vec<Position>,
    particles: &Vec<Particle>,
    from: usize,
    to: usize,
) -> (b: bool)
    requires
        positions@.len() == particles@.len(),
        from < positions@.len(),
        to < positions@.len(),
    ensures
        b == reaches(
            World { positions: positions@, particles: particles@ },
            from as int,
            to as int,
        ),
{
    let dx: i64 = positions[to].x as i64 - positions[from].x as i64;
    let dy: i64 = positions[to].y as i64 - positions[from].y as i64;
    let dist_sq: u128 = squared_length(dx, dy);
    let reach: u32 = to_fixed_length(particles[from].radius as u64 * 2);
    assert(reach * reach <= 0xffff_ffff * 0xffff_ffff) by (nonlinear_arith)
        requires
            0 <= reach <= 0xffff_ffff,
    ;
    dist_sq <= (reach as u128) * (reach as u128)
}

/// Appends to `pairs` the pairs that particle `i` contributes, given the
/// indices `found` by its own query.
fn push_pairs_from(
    i: usize,
    found: &Vec<usize>,
    positions: &Vec<Position>,
    particles: &Vec<Particle>,
    pairs: &mut Vec<(usize, usize)>,
)
    requires
        positions@.len() == particles@.len(),
        i < positions@.len(),
    ensures
        final(pairs)@ == old(pairs)@ + pairs_from(
            World { positions: positions@, particles: particles@ },
            i,
            found@,
        ),
{
    let ghost world = World { positions: positions@, particles: particles@ };
    let mut k: usize = 0;
    assert(found@.take(0) =~= Seq::empty());
    assert(pairs@ =~= old(pairs)@ + pairs_from(world, i, found@.take(0)));
    while k < found.len()
        invariant
            k <= found@.len(),
            positions@.len() == particles@.len(),
            i < positions@.len(),
            world == (World { positions: positions@, particles: particles@ }),
            pairs@ == old(pairs)@ + pairs_from(world, i, found@.take(k as int)),
        decreases found@.len() - k,
    {
        let j: usize = found[k];
        assert(found@.take(k + 1).drop_last() =~= found@.take(k as int));
        if j > i {
            pairs.push((i, j));
        } else if j < i && !is_within_reach(positions, particles, j, i) {
            pairs.push((j, i));
        }
        k = k + 1;
        assert(pairs@ =~= old(pairs)@ + pairs_from(world, i, found@.take(k as int)));
    }
    assert(found@.take(k as int) =~= found@);
}

/// The neighbour pairs of a world whose points are held by `tree`.
///
/// Each particle queries the tree at its own position with twice its radius.
/// It is paired with every neighbour it finds, unless that neighbour has a
/// smaller index and has found the particle by its own query.  Where `tree`
/// holds exactly the particles of the world, every unordered pair of
/// neighbours thus comes out exactly once (see [`lemma_each_pair_once`]).
pub fn collision_pairs(
    tree: &Option<Box<KdNode>>,
    positions: &Vec<Position>,
    particles: &Vec<Particle>,
) -> (pairs: Vec<(usize, usize)>)
    requires
        positions@.len() == particles@.len(),
        kd_ordered(*tree, 0),
        tree_size(*tree) <= usize::MAX,
    ensures
        pairs@ == pairs_of(
            tree_points(*tree),
            World { positions: positions@, particles: particles@ },
            positions@.len() as int,
        ),
{
    let ghost world = World { positions: positions@, particles: particles@ };
    let mut pairs: Vec<(usize, usize)> = Vec::new();
    let mut i: usize = 0;
    while i < positions.len()
        invariant
            i <= positions@.len(),
            positions@.len() == particles@.len(),
            kd_ordered(*tree, 0),
            tree_size(*tree) <= usize::MAX,
            world == (World { positions: positions@, particles: particles@ }),
            pairs@ == pairs_of(tree_points(*tree), world, i as int),
        decreases positions@.len() - i,
    {
        let target: [i32; 2] = [positions[i].x, positions[i].y];
        let reach: u32 = to_fixed_length(particles[i].radius as u64 * 2);
        let mut found: Vec<usize> = Vec::new();
        search_radius(tree, target, reach, 0, &mut found);
        proof {
            assert(target == target_of(positions@[i as int]));
            assert(found@ =~= neighbours(tree_points(*tree), world, i as int));
        }
        push_pairs_from(i, &found, positions, particles, &mut pairs);
        i = i + 1;
    }
    pairs
}

/// Resolves the collisions of `pairs` one after another, each with the sum
/// of the two radii as contact distance.  A pair that names a particle that
/// does not exist is passed over.
pub fn resolve_pairs(
    positions: &mut Vec<Position>,
    particles: &mut Vec<Particle>,
    pairs: &Vec<(usize, usize)>,
)
    requires
        old(positions)@.len() == old(particles)@.len(),
    ensures
        (World { positions: final(positions)@, particles: final(particles)@ }) == (World {
            positions: old(positions)@,
            particles: old(particles)@,
        }).resolved_all(pairs@),
        final(positions)@.len() == old(positions)@.len(),
        final(particles)@.len() == old(particles)@.len(),
{
    let ghost start = World { positions: positions@, particles: particles@ };
    let mut k: usize = 0;
    assert(pairs@.take(0) =~= Seq::empty());
    while k < pairs.len()
        invariant
            k <= pairs@.len(),
            positions@.len() == particles@.len(),
            positions@.len() == start.positions.len(),
            (World { positions: positions@, particles: particles@ }) == start.resolved_all(
                pairs@.take(k as int),
            ),
        decreases pairs@.len() - k,
    {
        let (i, j) = pairs[k];
        let ghost before = World { positions: positions@, particles: particles@ };
        assert(pairs@.take(k + 1).drop_last() =~= pairs@.take(k as int));
        if i < positions.len() && j < positions.len() {
            let mut pos_i: Position = positions[i];
            let mut particle_i: Particle = particles[i];
            let mut pos_j: Position = positions[j];
            let mut particle_j: Particle = particles[j];
            let radius: u32 = to_fixed_length(particle_i.radius as u64 + particle_j.radius as u64);
            resolve_particle_collision(
                &mut pos_i,
                &mut particle_i,
                &mut pos_j,
                &mut particle_j,
                radius,
            );
            positions[i] = pos_i;
            positions[j] = pos_j;
            particles[i] = particle_i;
            particles[j] = particle_j;
            assert(positions@ =~= before.resolved((i, j)).positions);
            assert(particles@ =~= before.resolved((i, j)).particles);
        }
        k = k + 1;
    }
    assert(pairs@.take(k as int) =~= pairs@);
}

/// Finds and resolves the collisions of one tick.
///
/// A kd-tree is built over the positions as they are at the start, and every
/// particle queries it with twice its own radius.  Two particles are
/// neighbours when one of them lies within the reach of the other.  Every
/// unordered pair of neighbours is resolved exactly once, with the sum of
/// the two radii as contact distance, and only after all queries are done.
pub fn handle_collision_kd_tree(positions: &mut Vec<Position>, particles: &mut Vec<Particle>)
    requires
        old(positions)@.len() == old(particles)@.len(),
    ensures
        final(positions)@.len() == old(positions)@.len(),
        final(particles)@.len() == old(particles)@.len(),
        (World { positions: final(positions)@, particles: final(particles)@ }) == collided(
            World { positions: old(positions)@, particles: old(particles)@ },
        ),
        each_pair_once(
            collisions(World { positions: old(positions)@, particles: old(particles)@ }),
            World { positions: old(positions)@, particles: old(particles)@ },
        ),
{
    let mut points: Vec<IndexedPoint> = Vec::new();
    let mut i: usize = 0;
    assert(points@ =~= listed(positions@.take(0)));
    while i < positions.len()
        invariant
            i <= positions@.len(),
            *positions == *old(positions),
            points@ == listed(positions@.take(i as int)),
        decreases positions@.len() - i,
    {
        points.push((i, [positions[i].x, positions[i].y]));
        i = i + 1;
        assert(points@ =~= listed(positions@.take(i as int)));
    }
    assert(positions@.take(i as int) =~= positions@);
    let tree = build_kd_tree(points.as_mut_slice(), 0);
    let pairs = collision_pairs(&tree, positions, particles);
    proof {
        lemma_each_pair_once(
            tree,
            listed(positions@),
            World { positions: positions@, particles: particles@ },
        );
    }
    resolve_pairs(positions, particles, &pairs);
}

} // verus!
