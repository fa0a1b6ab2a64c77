//! Particles and the collision response between two of them.
use crate::fixed::{
    clamp_i32, div_i128, div_toward_zero, floor_sqrt, isqrt, lemma_div_exact,
    lemma_div_toward_zero_between, lemma_div_toward_zero_error, lemma_floor_sqrt_lower,
    saturate_i32,
};
use crate::simulation::{SCREEN_HEIGHT, SCREEN_WIDTH};
use crate::vec2::{length_sq, squared_length, Vec2};
use vstd::prelude::*;

verus! {

/// Something that a force can act on.
pub trait ApplyForce {
    fn apply_force(&mut self, force: Vec2);
}

/// Velocity (fixed-point, per tick), mass and radius (whole units) of a
/// particle.
#[derive(Clone, Copy, Debug)]
pub struct Particle {
    pub vel_x: i32,
    pub vel_y: i32,
    pub mass: u32,
    pub radius: u32,
}

/// Where a particle is, in fixed-point coordinates.
#[derive(Clone, Copy, Debug)]
pub struct Position {
    pub x: i32,
    pub y: i32,
}

impl Default for Particle {
    fn default() -> (p: Particle)
        ensures
            p == (Particle { vel_x: 0, vel_y: 0, mass: 0, radius: 0 }),
    {
        Particle { vel_x: 0, vel_y: 0, mass: 0, radius: 0 }
    }
}

impl Default for Position {
    fn default() -> (p: Position)
        ensures
            p == (Position { x: 0, y: 0 }),
    {
        Position { x: 0, y: 0 }
    }
}

impl Particle {
    /// This particle with `force` added to its velocity, clamped to the
    /// scalar range.
    pub open spec fn pushed(self, force: Vec2) -> Particle {
        Particle {
            vel_x: clamp_i32(self.vel_x + force.x) as i32,
            vel_y: clamp_i32(self.vel_y + force.y) as i32,
            ..self
        }
    }
}

impl ApplyForce for Particle {
    /// Adds `force` to the velocity.
    fn apply_force(&mut self, force: Vec2)
        ensures
            *final(self) == old(self).pushed(force),
    {
        self.vel_x = saturate_i32(self.vel_x as i128 + force.x as i128);
        self.vel_y = saturate_i32(self.vel_y as i128 + force.y as i128);
    }
}

/// The state of a pair of particles.
pub struct Pair {
    pub pos_i: Position,
    pub particle_i: Particle,
    pub pos_j: Position,
    pub particle_j: Particle,
}

impl Pair {
    /// x component of the vector from `j` to `i`.
    pub open spec fn dx(self) -> int {
        self.pos_i.x - self.pos_j.x
    }

    /// y component of the vector from `j` to `i`.
    pub open spec fn dy(self) -> int {
        self.pos_i.y - self.pos_j.y
    }

    /// Squared distance between the two particles.
    pub open spec fn dist_sq(self) -> int {
        length_sq(self.dx(), self.dy())
    }

    /// Sum of the two masses.
    pub open spec fn total_mass(self) -> int {
        self.particle_i.mass + self.particle_j.mass
    }

    /// The velocity of `i` relative to `j`, times the vector from `j` to
    /// `i`: negative exactly when the two approach each other.
    pub open spec fn closing(self) -> int {
        (self.particle_i.vel_x - self.particle_j.vel_x) * self.dx() + (self.particle_i.vel_y
            - self.particle_j.vel_y) * self.dy()
    }

    /// The two particles overlap for the given sum of radii without
    /// coinciding, and approach each other.
    pub open spec fn collides(self, radius: u32) -> bool {
        &&& 0 < self.dist_sq() < radius * radius
        &&& self.total_mass() > 0
        &&& self.closing() < 0
    }

    /// How far the two overlap: the sum of radii less their distance.
    pub open spec fn overlap(self, radius: u32) -> int {
        radius - floor_sqrt(self.dist_sq())
    }

    /// The share of the overlap by which a particle is moved along `d`, the
    /// x or y component of the line of centres, when the other particle has
    /// mass `other_mass`: the heavier the other, the larger the share.
    pub open spec fn push(self, radius: u32, d: int, other_mass: u32) -> int {
        div_toward_zero(
            d * self.overlap(radius) * other_mass,
            floor_sqrt(self.dist_sq()) * self.total_mass(),
        )
    }

    /// The component along `d` of the relative velocity projected onto the
    /// line of centres.
    pub open spec fn normal_velocity(self, d: int) -> int {
        div_toward_zero(self.closing() * d, self.dist_sq())
    }

    /// The change of velocity along `d` of a particle in a perfectly elastic
    /// collision with a particle of mass `other_mass`.
    pub open spec fn impulse(self, d: int, other_mass: u32) -> int {
        div_toward_zero(2 * other_mass * self.normal_velocity(d), self.total_mass())
    }

    /// The pair after the collision response for the sum of radii `radius`.
    ///
    /// A pair that collides is pushed apart along the line of centres by the
    /// amount of its overlap, and exchanges an elastic impulse along that
    /// line.  Any other pair stays as it is.
    pub open spec fn resolved(self, radius: u32) -> Pair {
        if self.collides(radius) {
            Pair {
                pos_i: Position {
                    x: clamp_i32(
                        self.pos_i.x + self.push(radius, self.dx(), self.particle_j.mass),
                    ) as i32,
                    y: clamp_i32(
                        self.pos_i.y + self.push(radius, self.dy(), self.particle_j.mass),
                    ) as i32,
                },
                particle_i: Particle {
                    vel_x: clamp_i32(
                        self.particle_i.vel_x - self.impulse(self.dx(), self.particle_j.mass),
                    ) as i32,
                    vel_y: clamp_i32(
                        self.particle_i.vel_y - self.impulse(self.dy(), self.particle_j.mass),
                    ) as i32,
                    ..self.particle_i
                },
                pos_j: Position {
                    x: clamp_i32(
                        self.pos_j.x - self.push(radius, self.dx(), self.particle_i.mass),
                    ) as i32,
                    y: clamp_i32(
                        self.pos_j.y - self.push(radius, self.dy(), self.particle_i.mass),
                    ) as i32,
                },
                particle_j: Particle {
                    vel_x: clamp_i32(
                        self.particle_j.vel_x + self.impulse(self.dx(), self.particle_i.mass),
                    ) as i32,
                    vel_y: clamp_i32(
                        self.particle_j.vel_y + self.impulse(self.dy(), self.particle_i.mass),
                    ) as i32,
                    ..self.particle_j
                },
            }
        } else {
            self
        }
    }
}

/// The relative velocity projected onto the line of centres is at most twice
/// the largest velocity difference.
pub proof fn lemma_projection_bound(dvx: int, dvy: int, dx: int, dy: int, d: int)
    requires
        -0x1_0000_0000 <= dvx <= 0x1_0000_0000,
        -0x1_0000_0000 <= dvy <= 0x1_0000_0000,
        d == dx || d == dy,
        length_sq(dx, dy) > 0,
    ensures
        -0x2_0000_0000 * length_sq(dx, dy) <= (dvx * dx + dvy * dy) * d <= 0x2_0000_0000
            * length_sq(dx, dy),
        -0x2_0000_0000 <= div_toward_zero((dvx * dx + dvy * dy) * d, length_sq(dx, dy))
            <= 0x2_0000_0000,
{
    let v = 0x1_0000_0000int;
    let xx = dx * dx;
    let yy = dy * dy;
    let xy = dx * dy;
    assert(xx >= 0 && yy >= 0 && -(xx + yy) <= xy <= xx + yy) by (nonlinear_arith)
        requires
            xx == dx * dx,
            yy == dy * dy,
            xy == dx * dy,
    ;
    let a = dx * d;
    let b = dy * d;
    assert(dy * dx == dx * dy) by (nonlinear_arith);
    assert(-(xx + yy) <= a <= xx + yy && -(xx + yy) <= b <= xx + yy);
    assert(-v * (xx + yy) <= dvx * a <= v * (xx + yy)) by (nonlinear_arith)
        requires
            -v <= dvx <= v,
            -(xx + yy) <= a <= xx + yy,
            v >= 0,
    ;
    assert(-v * (xx + yy) <= dvy * b <= v * (xx + yy)) by (nonlinear_arith)
        requires
            -v <= dvy <= v,
            -(xx + yy) <= b <= xx + yy,
            v >= 0,
    ;
    assert((dvx * dx + dvy * dy) * d == dvx * a + dvy * b) by (nonlinear_arith)
        requires
            a == dx * d,
            b == dy * d,
    ;
    lemma_div_toward_zero_between(
        (dvx * dx + dvy * dy) * d,
        length_sq(dx, dy),
        -0x2_0000_0000,
        0x2_0000_0000,
    );
}

impl Pair {
    /// The two particles move along the line of centres relative to each
    /// other.
    pub open spec fn head_on(self) -> bool {
        (self.particle_i.vel_x - self.particle_j.vel_x) * self.dy() == (self.particle_i.vel_y
            - self.particle_j.vel_y) * self.dx()
    }

    /// Two particles of equal mass that collide head-on leave with their
    /// velocities exchanged.  Their total momentum and their total kinetic
    /// energy are therefore what they were.
    pub proof fn lemma_head_on_swap(self, radius: u32)
        requires
            self.collides(radius),
            self.head_on(),
            self.particle_i.mass == self.particle_j.mass,
        ensures
            self.resolved(radius).particle_i.vel_x == self.particle_j.vel_x,
            self.resolved(radius).particle_i.vel_y == self.particle_j.vel_y,
            self.resolved(radius).particle_j.vel_x == self.particle_i.vel_x,
            self.resolved(radius).particle_j.vel_y == self.particle_i.vel_y,
    {
        let dvx = self.particle_i.vel_x - self.particle_j.vel_x;
        let dvy = self.particle_i.vel_y - self.particle_j.vel_y;
        let dx = self.dx();
        let dy = self.dy();
        let m = self.particle_i.mass as int;
        assert(self.closing() * dx == dvx * self.dist_sq() && self.closing() * dy == dvy
            * self.dist_sq()) by (nonlinear_arith)
            requires
                self.closing() == dvx * dx + dvy * dy,
                self.dist_sq() == dx * dx + dy * dy,
                dvx * dy == dvy * dx,
        ;
        lemma_div_exact(dvx, self.dist_sq());
        lemma_div_exact(dvy, self.dist_sq());
        assert(2 * m * dvx == dvx * (m + m) && 2 * m * dvy == dvy * (m + m)) by (nonlinear_arith);
        lemma_div_exact(dvx, m + m);
        lemma_div_exact(dvy, m + m);
    }

    /// `radius` is such that the two collide and no velocity that results is
    /// clamped.
    pub open spec fn collides_unclamped(self, radius: u32) -> bool {
        &&& self.collides(radius)
        &&& i32::MIN <= self.particle_i.vel_x - self.impulse(self.dx(), self.particle_j.mass)
            <= i32::MAX
        &&& i32::MIN <= self.particle_i.vel_y - self.impulse(self.dy(), self.particle_j.mass)
            <= i32::MAX
        &&& i32::MIN <= self.particle_j.vel_x + self.impulse(self.dx(), self.particle_i.mass)
            <= i32::MAX
        &&& i32::MIN <= self.particle_j.vel_y + self.impulse(self.dy(), self.particle_i.mass)
            <= i32::MAX
    }

    /// Two particles of equal mass that collide exchange their velocity
    /// components along the line of centres and keep the components across
    /// it, up to rounding.  With `d` the vector between the centres, `v . d`
    /// the component of a velocity along `d` times the length of `d`, and
    /// `v x d` the component across `d` times the length of `d`: each of
    /// these differs from its exact value by less than `|dx| + |dy|`.
    pub proof fn lemma_equal_mass_exchange(self, radius: u32)
        requires
            self.collides_unclamped(radius),
            self.particle_i.mass == self.particle_j.mass,
        ensures
            ({
                let after = self.resolved(radius);
                let slack = magnitude(self.dx()) + magnitude(self.dy());
                let along_i = dot(self.particle_i.vel_x as int, self.particle_i.vel_y as int, self.dx(), self.dy());
                let along_j = dot(self.particle_j.vel_x as int, self.particle_j.vel_y as int, self.dx(), self.dy());
                let across_i = cross(self.particle_i.vel_x as int, self.particle_i.vel_y as int, self.dx(), self.dy());
                let across_j = cross(self.particle_j.vel_x as int, self.particle_j.vel_y as int, self.dx(), self.dy());
                &&& -slack < dot(
                    after.particle_i.vel_x as int,
                    after.particle_i.vel_y as int,
                    self.dx(),
                    self.dy(),
                ) - along_j < slack
                &&& -slack < dot(
                    after.particle_j.vel_x as int,
                    after.particle_j.vel_y as int,
                    self.dx(),
                    self.dy(),
                ) - along_i < slack
                &&& -slack < cross(
                    after.particle_i.vel_x as int,
                    after.particle_i.vel_y as int,
                    self.dx(),
                    self.dy(),
                ) - across_i < slack
                &&& -slack < cross(
                    after.particle_j.vel_x as int,
                    after.particle_j.vel_y as int,
                    self.dx(),
                    self.dy(),
                ) - across_j < slack
            }),
    {
        let dx = self.dx();
        let dy = self.dy();
        let dist_sq = self.dist_sq();
        let s = self.closing();
        let m = self.particle_i.mass as int;
        let nx = self.normal_velocity(dx);
        let ny = self.normal_velocity(dy);
        assert(2 * m * nx == nx * (m + m) && 2 * m * ny == ny * (m + m)) by (nonlinear_arith);
        lemma_div_exact(nx, m + m);
        lemma_div_exact(ny, m + m);
        lemma_div_toward_zero_error(s * dx, dist_sq);
        lemma_div_toward_zero_error(s * dy, dist_sq);
        let ex = nx * dist_sq - s * dx;
        let ey = ny * dist_sq - s * dy;
        // Along the line of centres the impulse misses the closing speed by
        // the rounding of its two components.
        let along = dot(nx, ny, dx, dy) - s;
        assert(along * dist_sq == dx * ex + dy * ey) by (nonlinear_arith)
            requires
                along == nx * dx + ny * dy - s,
                dist_sq == dx * dx + dy * dy,
                ex == nx * dist_sq - s * dx,
                ey == ny * dist_sq - s * dy,
        ;
        lemma_small_combination(dx, dy, ex, ey, dist_sq, along);
        // Across it the impulse should vanish.
        let across = cross(nx, ny, dx, dy);
        assert(across * dist_sq == dy * ex + (-dx) * ey) by (nonlinear_arith)
            requires
                across == nx * dy - ny * dx,
                ex == nx * dist_sq - s * dx,
                ey == ny * dist_sq - s * dy,
        ;
        lemma_small_combination(dy, -dx, ex, ey, dist_sq, across);
        assert(dot(
            self.particle_i.vel_x - nx,
            self.particle_i.vel_y - ny,
            dx,
            dy,
        ) - dot(self.particle_j.vel_x as int, self.particle_j.vel_y as int, dx, dy) == -along)
            by (nonlinear_arith)
            requires
                along == nx * dx + ny * dy - s,
                s == (self.particle_i.vel_x - self.particle_j.vel_x) * dx + (self.particle_i.vel_y
                    - self.particle_j.vel_y) * dy,
        ;
        assert(dot(
            self.particle_j.vel_x + nx,
            self.particle_j.vel_y + ny,
            dx,
            dy,
        ) - dot(self.particle_i.vel_x as int, self.particle_i.vel_y as int, dx, dy) == along)
            by (nonlinear_arith)
            requires
                along == nx * dx + ny * dy - s,
                s == (self.particle_i.vel_x - self.particle_j.vel_x) * dx + (self.particle_i.vel_y
                    - self.particle_j.vel_y) * dy,
        ;
        assert(cross(
            self.particle_i.vel_x - nx,
            self.particle_i.vel_y - ny,
            dx,
            dy,
        ) - cross(self.particle_i.vel_x as int, self.particle_i.vel_y as int, dx, dy) == -across)
            by (nonlinear_arith)
            requires
                across == nx * dy - ny * dx,
        ;
        assert(cross(
            self.particle_j.vel_x + nx,
            self.particle_j.vel_y + ny,
            dx,
            dy,
        ) - cross(self.particle_j.vel_x as int, self.particle_j.vel_y as int, dx, dy) == across)
            by (nonlinear_arith)
            requires
                across == nx * dy - ny * dx,
        ;
    }

    /// Two particles of equal mass receive opposite impulses: where neither
    /// velocity is clamped, a collision leaves the sum of their velocities,
    /// and with it their total momentum, as it was.
    pub proof fn lemma_equal_mass_momentum(self, radius: u32)
        requires
            self.particle_i.mass == self.particle_j.mass,
            i32::MIN <= self.particle_i.vel_x - self.impulse(self.dx(), self.particle_j.mass)
                <= i32::MAX,
            i32::MIN <= self.particle_i.vel_y - self.impulse(self.dy(), self.particle_j.mass)
                <= i32::MAX,
            i32::MIN <= self.particle_j.vel_x + self.impulse(self.dx(), self.particle_i.mass)
                <= i32::MAX,
            i32::MIN <= self.particle_j.vel_y + self.impulse(self.dy(), self.particle_i.mass)
                <= i32::MAX,
        ensures
            self.resolved(radius).particle_i.vel_x + self.resolved(radius).particle_j.vel_x
                == self.particle_i.vel_x + self.particle_j.vel_x,
            self.resolved(radius).particle_i.vel_y + self.resolved(radius).particle_j.vel_y
                == self.particle_i.vel_y + self.particle_j.vel_y,
    {
    }
}

/// The absolute value of `v`.
pub open spec fn magnitude(v: int) -> int {
    if v >= 0 {
        v
    } else {
        -v
    }
}

/// The scalar product of `(ax, ay)` and `(bx, by)`.
pub open spec fn dot(ax: int, ay: int, bx: int, by: int) -> int {
    ax * bx + ay * by
}

/// The cross product of `(ax, ay)` and `(bx, by)`.
pub open spec fn cross(ax: int, ay: int, bx: int, by: int) -> int {
    ax * by - ay * bx
}

/// If `x * d` is a combination of two errors below `d` with weights `a` and
/// `b`, then `x` is below `|a| + |b|`.
pub proof fn lemma_small_combination(a: int, b: int, ea: int, eb: int, d: int, x: int)
    requires
        d > 0,
        -d < ea < d,
        -d < eb < d,
        x * d == a * ea + b * eb,
        a != 0 || b != 0,
    ensures
        -(magnitude(a) + magnitude(b)) < x < magnitude(a) + magnitude(b),
{
    let ma = magnitude(a);
    let mb = magnitude(b);
    assert(-(ma * (d - 1)) <= a * ea <= ma * (d - 1)) by (nonlinear_arith)
        requires
            ma >= 0,
            a == ma || a == -ma,
            -(d - 1) <= ea <= d - 1,
    ;
    assert(-(mb * (d - 1)) <= b * eb <= mb * (d - 1)) by (nonlinear_arith)
        requires
            mb >= 0,
            b == mb || b == -mb,
            -(d - 1) <= eb <= d - 1,
    ;
    let bound = ma + mb;
    assert(bound * (d - 1) == ma * (d - 1) + mb * (d - 1)) by (nonlinear_arith)
        requires
            bound == ma + mb,
    ;
    assert(-bound < x < bound) by (nonlinear_arith)
        requires
            d > 0,
            bound > 0,
            -(bound * (d - 1)) <= x * d <= bound * (d - 1),
    ;
}

/// `d * overlap * other_mass / share`, rounded toward zero.
fn push_amount(d: i64, overlap: i128, other_mass: i128, share: i128) -> (r: i128)
    requires
        -0x1_0000_0000 <= d <= 0x1_0000_0000,
        0 <= overlap <= 0x1_0000_0000,
        0 <= other_mass <= 0x1_0000_0000,
        share > 0,
    ensures
        r == div_toward_zero(d * overlap * other_mass, share as int),
        -0x1_0000_0000_0000_0000_0000_0000 <= r <= 0x1_0000_0000_0000_0000_0000_0000,
{
    assert(-0x1_0000_0000_0000_0000 <= d * overlap <= 0x1_0000_0000_0000_0000)
        by (nonlinear_arith)
        requires
            -0x1_0000_0000 <= d <= 0x1_0000_0000,
            0 <= overlap <= 0x1_0000_0000,
    ;
    let reach: i128 = (d as i128) * overlap;
    assert(-0x1_0000_0000_0000_0000_0000_0000 <= reach * other_mass
        <= 0x1_0000_0000_0000_0000_0000_0000) by (nonlinear_arith)
        requires
            -0x1_0000_0000_0000_0000 <= reach <= 0x1_0000_0000_0000_0000,
            0 <= other_mass <= 0x1_0000_0000,
    ;
    let num: i128 = reach * other_mass;
    proof {
        let bound = 0x1_0000_0000_0000_0000_0000_0000int;
        assert(-bound * share <= num <= bound * share) by (nonlinear_arith)
            requires
                -bound <= num <= bound,
                share >= 1,
                bound >= 0,
        ;
        lemma_div_toward_zero_between(num as int, share as int, -bound, bound);
    }
    div_i128(num, share)
}

/// `2 * other_mass * normal / total`, rounded toward zero.
fn impulse_amount(normal: i128, other_mass: i128, total: i128) -> (r: i128)
    requires
        -0x2_0000_0000 <= normal <= 0x2_0000_0000,
        0 <= other_mass <= 0x1_0000_0000,
        total > 0,
    ensures
        r == div_toward_zero(2 * other_mass * normal, total as int),
        -0x4_0000_0000_0000_0000 <= r <= 0x4_0000_0000_0000_0000,
{
    assert(-0x4_0000_0000_0000_0000 <= 2 * other_mass * normal <= 0x4_0000_0000_0000_0000)
        by (nonlinear_arith)
        requires
            -0x2_0000_0000 <= normal <= 0x2_0000_0000,
            0 <= other_mass <= 0x1_0000_0000,
    ;
    let num: i128 = 2 * other_mass * normal;
    proof {
        let bound = 0x4_0000_0000_0000_0000int;
        assert(-bound * total <= num <= bound * total) by (nonlinear_arith)
            requires
                -bound <= num <= bound,
                total >= 1,
                bound >= 0,
        ;
        lemma_div_toward_zero_between(num as int, total as int, -bound, bound);
    }
    div_i128(num, total)
}

/// `closing * d / dist_sq`, rounded toward zero, where `closing` is the
/// relative velocity `(dvx, dvy)` times the vector `(dx, dy)` and `d` one of
/// `dx` and `dy`.
fn normal_amount(closing: i128, d: i64, dist_sq: u128, dvx: i64, dvy: i64, dx: i64, dy: i64) -> (r:
    i128)
    requires
        -0x1_0000_0000 <= dvx <= 0x1_0000_0000,
        -0x1_0000_0000 <= dvy <= 0x1_0000_0000,
        -0x1_0000_0000 <= dx <= 0x1_0000_0000,
        -0x1_0000_0000 <= dy <= 0x1_0000_0000,
        d == dx || d == dy,
        closing == dvx * dx + dvy * dy,
        dist_sq == length_sq(dx as int, dy as int),
        0 < dist_sq <= 0x2_0000_0000_0000_0000,
    ensures
        r == div_toward_zero(closing * d, dist_sq as int),
        -0x2_0000_0000 <= r <= 0x2_0000_0000,
{
    proof {
        lemma_projection_bound(dvx as int, dvy as int, dx as int, dy as int, d as int);
        assert(0x2_0000_0000 * length_sq(dx as int, dy as int) <= 0x2_0000_0000
            * 0x2_0000_0000_0000_0000);
    }
    div_i128(closing * (d as i128), dist_sq as i128)
}

/// Resolves a collision between two particles whose radii sum to `radius`.
///
/// Nothing happens unless the two overlap (`0 < distance^2 < radius^2`) and
/// approach each other.  If they do, both are pushed apart along the line of
/// centres by the amount of the overlap, each in proportion to the mass of
/// the other, and their velocities change by a perfectly elastic impulse
/// along that line.
pub fn resolve_particle_collision(
    pos_i: &mut Position,
    particle_i: &mut Particle,
    pos_j: &mut Position,
    particle_j: &mut Particle,
    radius: u32,
)
    ensures
        (Pair {
            pos_i: *final(pos_i),
            particle_i: *final(particle_i),
            pos_j: *final(pos_j),
            particle_j: *final(particle_j),
        }) == (Pair {
            pos_i: *old(pos_i),
            particle_i: *old(particle_i),
            pos_j: *old(pos_j),
            particle_j: *old(particle_j),
        }).resolved(radius),
{
    let dx: i64 = pos_i.x as i64 - pos_j.x as i64;
    let dy: i64 = pos_i.y as i64 - pos_j.y as i64;
    let dist_sq: u128 = squared_length(dx, dy);
    assert(radius * radius <= 0xffff_ffff * 0xffff_ffff) by (nonlinear_arith)
        requires
            0 <= radius <= 0xffff_ffff,
    ;
    let reach: u128 = (radius as u128) * (radius as u128);
    let mass_i: i128 = particle_i.mass as i128;
    let mass_j: i128 = particle_j.mass as i128;
    let total_mass: i128 = mass_i + mass_j;
    if dist_sq < reach && dist_sq > 0 && total_mass > 0 {
        let dvx: i64 = particle_i.vel_x as i64 - particle_j.vel_x as i64;
        let dvy: i64 = particle_i.vel_y as i64 - particle_j.vel_y as i64;
        assert(-0x1_0000_0000_0000_0000 <= dvx * dx <= 0x1_0000_0000_0000_0000
            && -0x1_0000_0000_0000_0000 <= dvy * dy <= 0x1_0000_0000_0000_0000)
            by (nonlinear_arith)
            requires
                -0x1_0000_0000 <= dvx <= 0x1_0000_0000,
                -0x1_0000_0000 <= dvy <= 0x1_0000_0000,
                -0x1_0000_0000 <= dx <= 0x1_0000_0000,
                -0x1_0000_0000 <= dy <= 0x1_0000_0000,
        ;
        let closing: i128 = (dvx as i128) * (dx as i128) + (dvy as i128) * (dy as i128);
        if closing < 0 {
            let dist: u64 = isqrt(dist_sq);
            proof {
                lemma_floor_sqrt_lower(dist_sq as int, 1, dist as int);
                assert(dist < radius) by (nonlinear_arith)
                    requires
                        dist * dist <= dist_sq,
                        dist_sq < radius * radius,
                        dist >= 0,
                        radius >= 0,
                ;
            }
            let overlap: i128 = radius as i128 - dist as i128;
            assert(1 <= dist * total_mass <= 0x1_0000_0000 * 0x2_0000_0000) by (nonlinear_arith)
                requires
                    1 <= dist <= 0x1_0000_0000,
                    1 <= total_mass <= 0x2_0000_0000,
            ;
            let share: i128 = (dist as i128) * total_mass;
            let push_ix: i128 = push_amount(dx, overlap, mass_j, share);
            let push_iy: i128 = push_amount(dy, overlap, mass_j, share);
            let push_jx: i128 = push_amount(dx, overlap, mass_i, share);
            let push_jy: i128 = push_amount(dy, overlap, mass_i, share);
            let normal_x: i128 = normal_amount(closing, dx, dist_sq, dvx, dvy, dx, dy);
            let normal_y: i128 = normal_amount(closing, dy, dist_sq, dvx, dvy, dx, dy);
            let impulse_ix: i128 = impulse_amount(normal_x, mass_j, total_mass);
            let impulse_iy: i128 = impulse_amount(normal_y, mass_j, total_mass);
            let impulse_jx: i128 = impulse_amount(normal_x, mass_i, total_mass);
            let impulse_jy: i128 = impulse_amount(normal_y, mass_i, total_mass);
            pos_i.x = saturate_i32(pos_i.x as i128 + push_ix);
            pos_i.y = saturate_i32(pos_i.y as i128 + push_iy);
            pos_j.x = saturate_i32(pos_j.x as i128 - push_jx);
            pos_j.y = saturate_i32(pos_j.y as i128 - push_jy);
            particle_i.vel_x = saturate_i32(particle_i.vel_x as i128 - impulse_ix);
            particle_i.vel_y = saturate_i32(particle_i.vel_y as i128 - impulse_iy);
            particle_j.vel_x = saturate_i32(particle_j.vel_x as i128 + impulse_jx);
            particle_j.vel_y = saturate_i32(particle_j.vel_y as i128 + impulse_jy);
        }
    }
}

/// Half of the extent `full`, rounded toward zero.
pub open spec fn half(full: i32) -> int {
    div_toward_zero(full as int, 2)
}

/// A velocity component after one tick: reversed if the moved coordinate
/// `at` lies outside `-limit ..= limit`, then damped by one part in a
/// thousand.
pub open spec fn bounced(vel: i32, at: i32, limit: int) -> int {
    let turned = if at < -limit || at > limit {
        -vel
    } else {
        vel as int
    };
    div_toward_zero(turned * 999, 1000)
}

/// Velocity component after one tick.
fn bounce(vel: i32, at: i32, full: i32) -> (r: i32)
    requires
        full >= 0,
    ensures
        r == bounced(vel, at, half(full)),
{
    let limit: i32 = full / 2;
    let turned: i128 = if at < -limit || at > limit {
        -(vel as i128)
    } else {
        vel as i128
    };
    let damped: i128 = div_i128(turned * 999, 1000);
    damped as i32
}

/// The position and particle after one tick: the position advanced by the
/// velocity (clamped to the scalar range), each velocity component reversed
/// where the particle has left the world on that axis, and the velocity
/// damped by one part in a thousand.
pub open spec fn stepped(position: Position, particle: Particle) -> (Position, Particle) {
    let x = clamp_i32(position.x + particle.vel_x) as i32;
    let y = clamp_i32(position.y + particle.vel_y) as i32;
    (
        Position { x, y },
        Particle {
            vel_x: bounced(particle.vel_x, x, half(SCREEN_WIDTH)) as i32,
            vel_y: bounced(particle.vel_y, y, half(SCREEN_HEIGHT)) as i32,
            ..particle
        },
    )
}

/// Advances one particle by one tick.
pub fn update_position(position: &mut Position, particle: &mut Particle)
    ensures
        (*final(position), *final(particle)) == stepped(*old(position), *old(particle)),
{
    position.x = saturate_i32(position.x as i128 + particle.vel_x as i128);
    position.y = saturate_i32(position.y as i128 + particle.vel_y as i128);
    particle.vel_x = bounce(particle.vel_x, position.x, SCREEN_WIDTH);
    particle.vel_y = bounce(particle.vel_y, position.y, SCREEN_HEIGHT);
}

} // verus!
