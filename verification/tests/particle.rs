use particlebevy::fixed::ONE;
use particlebevy::particle::{
    resolve_particle_collision, update_position, ApplyForce, Particle, Position,
};
use particlebevy::simulation::{SCREEN_HEIGHT, SCREEN_WIDTH};
use particlebevy::vec2::Vec2;

fn pair(
    pi: (i32, i32),
    vi: (i32, i32),
    mi: u32,
    pj: (i32, i32),
    vj: (i32, i32),
    mj: u32,
) -> (Position, Particle, Position, Particle) {
    (
        Position { x: pi.0, y: pi.1 },
        Particle { vel_x: vi.0, vel_y: vi.1, mass: mi, radius: 1 },
        Position { x: pj.0, y: pj.1 },
        Particle { vel_x: vj.0, vel_y: vj.1, mass: mj, radius: 1 },
    )
}

fn state_of(s: &(Position, Particle, Position, Particle)) -> [i32; 8] {
    state(s)
}

fn state(s: &(Position, Particle, Position, Particle)) -> [i32; 8] {
    [s.0.x, s.0.y, s.1.vel_x, s.1.vel_y, s.2.x, s.2.y, s.3.vel_x, s.3.vel_y]
}

fn resolve(s: &mut (Position, Particle, Position, Particle), radius: u32) {
    let (a, b, c, d) = s;
    resolve_particle_collision(a, b, c, d, radius);
}

#[test]
fn defaults_are_zero() {
    let particle = Particle::default();
    assert_eq!((particle.vel_x, particle.vel_y, particle.mass, particle.radius), (0, 0, 0, 0));
    let position = Position::default();
    assert_eq!((position.x, position.y), (0, 0));
}

#[test]
fn world_dimensions() {
    assert_eq!(SCREEN_WIDTH, 8000 * ONE);
    assert_eq!(SCREEN_HEIGHT, 8000 * ONE);
}

#[test]
fn force_adds_to_the_velocity() {
    let mut particle = Particle { vel_x: 10, vel_y: -10, mass: 3, radius: 4 };
    particle.apply_force(Vec2::new(5, -7));
    assert_eq!((particle.vel_x, particle.vel_y), (15, -17));
    assert_eq!((particle.mass, particle.radius), (3, 4));
}

#[test]
fn force_is_clamped_to_the_scalar_range() {
    let mut particle = Particle { vel_x: i32::MAX - 1, vel_y: i32::MIN + 1, mass: 3, radius: 4 };
    particle.apply_force(Vec2::new(5, -7));
    assert_eq!((particle.vel_x, particle.vel_y), (i32::MAX, i32::MIN));
}

#[test]
fn head_on_pair_of_equal_mass_bounces_back() {
    let mut s = pair((-5 * ONE, 0), (ONE, 0), 1, (5 * ONE, 0), (-ONE, 0), 1);
    resolve(&mut s, 12 * ONE as u32);
    assert_eq!((s.1.vel_x, s.1.vel_y), (-ONE, 0));
    assert_eq!((s.3.vel_x, s.3.vel_y), (ONE, 0));
    assert_eq!((s.0.x, s.0.y), (-6 * ONE, 0));
    assert_eq!((s.2.x, s.2.y), (6 * ONE, 0));
}

#[test]
fn head_on_pair_of_equal_mass_swaps_velocities() {
    // Both move along the line of centres, (3, 4) / 5.
    let mut s = pair((0, 0), (6 * ONE, 8 * ONE), 7, (3 * ONE, 4 * ONE), (-3 * ONE, -4 * ONE), 7);
    resolve(&mut s, 10 * ONE as u32);
    assert_eq!((s.1.vel_x, s.1.vel_y), (-3 * ONE, -4 * ONE));
    assert_eq!((s.3.vel_x, s.3.vel_y), (6 * ONE, 8 * ONE));
}

#[test]
fn equal_masses_keep_momentum_and_energy() {
    let mut s = pair((0, 0), (5 * ONE, ONE), 2, (4 * ONE, 0), (-3 * ONE, 2 * ONE), 2);
    let energy = |s: &(Position, Particle, Position, Particle)| {
        let a = (s.1.vel_x as i128, s.1.vel_y as i128);
        let b = (s.3.vel_x as i128, s.3.vel_y as i128);
        a.0 * a.0 + a.1 * a.1 + b.0 * b.0 + b.1 * b.1
    };
    let before = energy(&s);
    resolve(&mut s, 6 * ONE as u32);
    // Along x the velocities swap; along y, across the line of centres,
    // nothing changes.
    assert_eq!((s.1.vel_x, s.1.vel_y), (-3 * ONE, ONE));
    assert_eq!((s.3.vel_x, s.3.vel_y), (5 * ONE, 2 * ONE));
    assert_eq!(s.1.vel_x + s.3.vel_x, 2 * ONE);
    assert_eq!(s.1.vel_y + s.3.vel_y, 3 * ONE);
    assert_eq!(energy(&s), before);
}

#[test]
fn heavier_particle_moves_less() {
    let mut s = pair((0, 0), (ONE, 0), 3, (8 * ONE, 0), (0, 0), 1);
    resolve(&mut s, 12 * ONE as u32);
    // Overlap 4: the light one is pushed by 3, the heavy one by 1.
    assert_eq!((s.0.x, s.0.y), (-ONE, 0));
    assert_eq!((s.2.x, s.2.y), (11 * ONE, 0));
    // v1' = v1 - 2 m2 / (m1 + m2) * (v1 - v2) = 1 - 0.5; v2' = 1.5.
    assert_eq!((s.1.vel_x, s.1.vel_y), (ONE / 2, 0));
    assert_eq!((s.3.vel_x, s.3.vel_y), (3 * ONE / 2, 0));
    // Momentum: 3 * 1 = 3 * 0.5 + 1 * 1.5.
    assert_eq!(3 * s.1.vel_x + s.3.vel_x, 3 * ONE);
}

#[test]
fn oblique_collision_changes_only_the_normal_component() {
    let mut s = pair((0, 0), (ONE, ONE), 1, (2 * ONE, 0), (-ONE, ONE), 1);
    resolve(&mut s, 4 * ONE as u32);
    assert_eq!((s.1.vel_x, s.1.vel_y), (-ONE, ONE));
    assert_eq!((s.3.vel_x, s.3.vel_y), (ONE, ONE));
    assert_eq!((s.0.x, s.0.y), (-ONE, 0));
    assert_eq!((s.2.x, s.2.y), (3 * ONE, 0));
}

#[test]
fn oblique_collision_of_equal_masses_exchanges_normal_components_up_to_rounding() {
    let mut state: u64 = 7;
    let mut next = |span: i32| {
        state = state.wrapping_mul(6364136223846793005).wrapping_add(1442695040888963407);
        (state >> 40) as i32 % span
    };
    let mut collisions = 0;
    for _ in 0..200 {
        let (px, py) = (next(6 * ONE) - 3 * ONE, next(6 * ONE) - 3 * ONE);
        let vi = (next(4 * ONE) - 2 * ONE, next(4 * ONE) - 2 * ONE);
        let vj = (next(4 * ONE) - 2 * ONE, next(4 * ONE) - 2 * ONE);
        let mut s = pair((px, py), vi, 5, (0, 0), vj, 5);
        let before = state_of(&s);
        resolve(&mut s, 4 * ONE as u32);
        if state_of(&s) == before {
            continue;
        }
        collisions += 1;
        let (dx, dy) = (px as i128, py as i128);
        let slack = dx.abs() + dy.abs();
        let dot = |v: (i32, i32)| v.0 as i128 * dx + v.1 as i128 * dy;
        let cross = |v: (i32, i32)| v.0 as i128 * dy - v.1 as i128 * dx;
        let after_i = (s.1.vel_x, s.1.vel_y);
        let after_j = (s.3.vel_x, s.3.vel_y);
        assert!((dot(after_i) - dot(vj)).abs() < slack);
        assert!((dot(after_j) - dot(vi)).abs() < slack);
        assert!((cross(after_i) - cross(vi)).abs() < slack);
        assert!((cross(after_j) - cross(vj)).abs() < slack);
        assert_eq!(after_i.0 + after_j.0, vi.0 + vj.0);
        assert_eq!(after_i.1 + after_j.1, vi.1 + vj.1);
    }
    assert!(collisions > 20);
}

#[test]
fn separating_pair_is_left_alone() {
    let mut s = pair((-5 * ONE, 0), (-ONE, 0), 1, (5 * ONE, 0), (ONE, 0), 1);
    let before = state(&s);
    resolve(&mut s, 12 * ONE as u32);
    assert_eq!(state(&s), before);
}

#[test]
fn pair_moving_in_parallel_is_left_alone() {
    let mut s = pair((-5 * ONE, 0), (0, ONE), 1, (5 * ONE, 0), (0, ONE), 1);
    let before = state(&s);
    resolve(&mut s, 12 * ONE as u32);
    assert_eq!(state(&s), before);
}

#[test]
fn coincident_pair_is_left_alone() {
    let mut s = pair((7, 7), (ONE, 0), 1, (7, 7), (-ONE, 0), 1);
    let before = state(&s);
    resolve(&mut s, 12 * ONE as u32);
    assert_eq!(state(&s), before);
}

#[test]
fn pair_out_of_reach_is_left_alone() {
    let mut s = pair((-5 * ONE, 0), (ONE, 0), 1, (5 * ONE, 0), (-ONE, 0), 1);
    let before = state(&s);
    resolve(&mut s, 9 * ONE as u32);
    assert_eq!(state(&s), before);
}

#[test]
fn pair_exactly_at_contact_distance_is_left_alone() {
    let mut s = pair((-5 * ONE, 0), (ONE, 0), 1, (5 * ONE, 0), (-ONE, 0), 1);
    let before = state(&s);
    resolve(&mut s, 10 * ONE as u32);
    assert_eq!(state(&s), before);
    resolve(&mut s, 10 * ONE as u32 + 1);
    assert_eq!((s.1.vel_x, s.3.vel_x), (-ONE, ONE));
}

#[test]
fn massless_pair_is_left_alone() {
    let mut s = pair((-5 * ONE, 0), (ONE, 0), 0, (5 * ONE, 0), (-ONE, 0), 0);
    let before = state(&s);
    resolve(&mut s, 12 * ONE as u32);
    assert_eq!(state(&s), before);
}

#[test]
fn collision_at_the_far_ends_of_the_scalar_range() {
    let mut s = pair(
        (i32::MIN + 1, 0),
        (i32::MAX, 0),
        u32::MAX,
        (i32::MAX, 0),
        (i32::MIN, 0),
        u32::MAX,
    );
    resolve(&mut s, u32::MAX);
    assert_eq!((s.1.mass, s.3.mass), (u32::MAX, u32::MAX));
    assert_eq!((s.1.vel_x, s.1.vel_y), (i32::MIN, 0));
    assert_eq!((s.3.vel_x, s.3.vel_y), (i32::MAX, 0));
    // The overlap of one step, halved, rounds to nothing.
    assert_eq!((s.0.x, s.2.x), (i32::MIN + 1, i32::MAX));
}

#[test]
fn a_tick_moves_and_damps() {
    let mut position = Position { x: 10 * ONE, y: -20 * ONE };
    let mut particle = Particle { vel_x: 2000, vel_y: -3000, mass: 5, radius: 2 };
    update_position(&mut position, &mut particle);
    assert_eq!((position.x, position.y), (10 * ONE + 2000, -20 * ONE - 3000));
    assert_eq!((particle.vel_x, particle.vel_y), (1998, -2997));
    assert_eq!((particle.mass, particle.radius), (5, 2));
}

#[test]
fn a_tick_turns_a_particle_back_at_the_edge() {
    let mut position = Position { x: 4000 * ONE, y: -4000 * ONE };
    let mut particle = Particle { vel_x: 1000, vel_y: -1000, mass: 5, radius: 2 };
    update_position(&mut position, &mut particle);
    assert_eq!((position.x, position.y), (4000 * ONE + 1000, -4000 * ONE - 1000));
    assert_eq!((particle.vel_x, particle.vel_y), (-999, 999));
}

#[test]
fn a_tick_on_the_edge_itself_does_not_turn() {
    let mut position = Position { x: 4000 * ONE - 1000, y: 0 };
    let mut particle = Particle { vel_x: 1000, vel_y: 0, mass: 5, radius: 2 };
    update_position(&mut position, &mut particle);
    assert_eq!(position.x, 4000 * ONE);
    assert_eq!(particle.vel_x, 999);
}

#[test]
fn a_tick_damps_toward_zero() {
    let mut position = Position { x: 0, y: 0 };
    let mut particle = Particle { vel_x: -1, vel_y: 1001, mass: 5, radius: 2 };
    update_position(&mut position, &mut particle);
    assert_eq!((particle.vel_x, particle.vel_y), (0, 999));
}

#[test]
fn a_tick_clamps_the_position() {
    let mut position = Position { x: i32::MAX - 5, y: i32::MIN + 5 };
    let mut particle = Particle { vel_x: 1000, vel_y: -1000, mass: 5, radius: 2 };
    update_position(&mut position, &mut particle);
    assert_eq!((position.x, position.y), (i32::MAX, i32::MIN));
}
