use particlebevy::fixed::ONE;
use particlebevy::kd_tree::collision::{collision_pairs, resolve_pairs};
use particlebevy::kd_tree::{build_kd_tree, handle_collision_kd_tree, search_radius, KdNode};
use particlebevy::particle::{Particle, Position};

fn scattered(count: usize, seed: u64, span: i32) -> Vec<(usize, [i32; 2])> {
    let mut state = seed;
    let mut points = Vec::new();
    for i in 0..count {
        state = state.wrapping_mul(6364136223846793005).wrapping_add(1442695040888963407);
        let x = (state >> 40) as i32 % span;
        state = state.wrapping_mul(6364136223846793005).wrapping_add(1442695040888963407);
        let y = (state >> 40) as i32 % span;
        points.push((i, [x, y]));
    }
    points
}

fn scan(points: &[(usize, [i32; 2])], target: [i32; 2], radius: u32) -> Vec<usize> {
    let mut found = Vec::new();
    for (index, p) in points.iter() {
        let dx = p[0] as i128 - target[0] as i128;
        let dy = p[1] as i128 - target[1] as i128;
        if dx * dx + dy * dy <= radius as i128 * radius as i128 {
            found.push(*index);
        }
    }
    found.sort();
    found
}

fn size(t: &Option<Box<KdNode>>) -> usize {
    match t {
        None => 0,
        Some(n) => 1 + size(&n.left) + size(&n.right),
    }
}

fn collect(t: &Option<Box<KdNode>>, out: &mut Vec<(usize, [i32; 2])>) {
    if let Some(n) = t {
        out.push((n.index, n.point));
        collect(&n.left, out);
        collect(&n.right, out);
    }
}

fn check_order(t: &Option<Box<KdNode>>, depth: usize) {
    if let Some(n) = t {
        let axis = depth % 2;
        let mut left = Vec::new();
        collect(&n.left, &mut left);
        let mut right = Vec::new();
        collect(&n.right, &mut right);
        assert!(left.iter().all(|p| p.1[axis] <= n.point[axis]));
        assert!(right.iter().all(|p| p.1[axis] >= n.point[axis]));
        assert_eq!(left.len(), (1 + left.len() + right.len()) / 2);
        check_order(&n.left, depth + 1);
        check_order(&n.right, depth + 1);
    }
}

#[test]
fn empty_input_gives_the_empty_tree() {
    let mut points: Vec<(usize, [i32; 2])> = Vec::new();
    assert!(build_kd_tree(&mut points, 0).is_none());
}

#[test]
fn single_point_gives_a_single_node() {
    let mut points = vec![(4, [7, -3])];
    let tree = build_kd_tree(&mut points, 0).unwrap();
    assert_eq!(tree.index, 4);
    assert_eq!(tree.point, [7, -3]);
    assert!(tree.left.is_none());
    assert!(tree.right.is_none());
}

#[test]
fn root_is_the_median_along_x() {
    let mut points = vec![(0, [50, 1]), (1, [10, 2]), (2, [40, 3]), (3, [20, 4]), (4, [30, 5])];
    let tree = build_kd_tree(&mut points, 0).unwrap();
    assert_eq!(tree.index, 4);
    assert_eq!(tree.point, [30, 5]);
    assert_eq!(size(&tree.left), 2);
    assert_eq!(size(&tree.right), 2);
}

#[test]
fn second_level_splits_along_y() {
    let mut points = vec![(0, [50, 1]), (1, [10, 9]), (2, [40, 3]), (3, [20, 4]), (4, [30, 5])];
    let tree = build_kd_tree(&mut points, 0).unwrap();
    // Left of the root: (10, 9) and (20, 4); by y the median, at index 1 of
    // two, is (10, 9).
    let left = tree.left.unwrap();
    assert_eq!(left.index, 1);
    assert_eq!(left.left.as_ref().unwrap().index, 3);
    assert!(left.right.is_none());
    let right = tree.right.unwrap();
    assert_eq!(right.index, 2);
    assert_eq!(right.left.as_ref().unwrap().index, 0);
}

#[test]
fn depth_one_starts_along_y() {
    let mut points = vec![(0, [1, 30]), (1, [2, 10]), (2, [3, 20])];
    let tree = build_kd_tree(&mut points, 1).unwrap();
    assert_eq!(tree.index, 2);
    assert_eq!(tree.left.as_ref().unwrap().index, 1);
    assert_eq!(tree.right.as_ref().unwrap().index, 0);
}

#[test]
fn points_with_equal_coordinates_keep_their_order() {
    let mut points = vec![(0, [5, 9]), (1, [5, 8]), (2, [5, 7]), (3, [1, 0]), (4, [5, 6])];
    let tree = build_kd_tree(&mut points, 0).unwrap();
    // Sorted along x, the four points at x = 5 follow the one at x = 1 in
    // the order they came in; the median is the third of the five.
    let order: Vec<usize> = points.iter().map(|p| p.0).collect();
    assert_eq!(tree.index, 1);
    assert_eq!(order[2], 1);
    assert_eq!(size(&tree.left), 2);
    let mut left = Vec::new();
    collect(&tree.left, &mut left);
    left.sort();
    assert_eq!(left, vec![(0, [5, 9]), (3, [1, 0])]);
    let mut right = Vec::new();
    collect(&tree.right, &mut right);
    right.sort();
    assert_eq!(right, vec![(2, [5, 7]), (4, [5, 6])]);
}

#[test]
fn build_sorts_the_slice_it_is_given() {
    let mut points = vec![(0, [3, 0]), (1, [1, 0]), (2, [2, 0])];
    let tree = build_kd_tree(&mut points, 0);
    assert_eq!(tree.unwrap().index, 2);
    let mut indices: Vec<usize> = points.iter().map(|p| p.0).collect();
    assert_eq!(indices, vec![1, 2, 0]);
    indices.sort();
    assert_eq!(indices, vec![0, 1, 2]);
}

#[test]
fn tree_holds_every_point_once_and_respects_the_planes() {
    for (count, seed) in [(1usize, 1u64), (2, 2), (3, 3), (10, 4), (64, 5), (257, 6)] {
        let points = scattered(count, seed, 1000);
        let mut working = points.clone();
        let tree = build_kd_tree(&mut working, 0);
        assert_eq!(size(&tree), count);
        let mut held = Vec::new();
        collect(&tree, &mut held);
        held.sort();
        let mut expected = points.clone();
        expected.sort();
        assert_eq!(held, expected);
        check_order(&tree, 0);
    }
}

#[test]
fn search_in_the_empty_tree_finds_nothing() {
    let mut found = vec![9];
    search_radius(&None, [0, 0], 100, 0, &mut found);
    assert_eq!(found, vec![9]);
}

#[test]
fn search_includes_the_boundary() {
    let mut points = vec![(0, [3, 4]), (1, [6, 8])];
    let tree = build_kd_tree(&mut points, 0);
    let mut found = Vec::new();
    search_radius(&tree, [0, 0], 5, 0, &mut found);
    assert_eq!(found, vec![0]);
    found.clear();
    search_radius(&tree, [0, 0], 4, 0, &mut found);
    assert!(found.is_empty());
    found.clear();
    search_radius(&tree, [0, 0], 10, 0, &mut found);
    found.sort();
    assert_eq!(found, vec![0, 1]);
}

#[test]
fn search_finds_the_target_itself() {
    let mut points = scattered(50, 8, 500);
    let target = points[17].1;
    let tree = build_kd_tree(&mut points, 0);
    let mut found = Vec::new();
    search_radius(&tree, target, 0, 0, &mut found);
    assert!(found.contains(&17));
}

#[test]
fn search_reports_node_then_left_then_right() {
    let mut points = vec![(0, [10, 0]), (1, [20, 0]), (2, [30, 0])];
    let tree = build_kd_tree(&mut points, 0);
    let mut found = Vec::new();
    search_radius(&tree, [20, 0], 100, 0, &mut found);
    assert_eq!(found, vec![1, 0, 2]);
}

#[test]
fn search_appends_to_what_is_there() {
    let mut points = vec![(5, [1, 1])];
    let tree = build_kd_tree(&mut points, 0);
    let mut found = vec![42, 43];
    search_radius(&tree, [0, 0], 2, 0, &mut found);
    assert_eq!(found, vec![42, 43, 5]);
}

#[test]
fn search_agrees_with_a_linear_scan() {
    for (count, seed) in [(5usize, 21u64), (40, 22), (300, 23)] {
        let points = scattered(count, seed, 2000);
        let mut working = points.clone();
        let tree = build_kd_tree(&mut working, 0);
        for (k, radius) in [(0usize, 0u32), (1, 50), (2, 300), (3, 1000), (4, 5000)] {
            let target = points[k % count].1;
            let mut found = Vec::new();
            search_radius(&tree, target, radius, 0, &mut found);
            found.sort();
            assert_eq!(found, scan(&points, target, radius));
        }
        let mut found = Vec::new();
        search_radius(&tree, [-700, 900], 1500, 0, &mut found);
        found.sort();
        assert_eq!(found, scan(&points, [-700, 900], 1500));
    }
}

#[test]
fn search_agrees_with_a_linear_scan_among_equal_coordinates() {
    let mut points = Vec::new();
    for i in 0..60usize {
        points.push((i, [(i % 3) as i32 * 10, (i % 5) as i32 * 10]));
    }
    let mut working = points.clone();
    let tree = build_kd_tree(&mut working, 0);
    for radius in [0u32, 9, 10, 14, 15, 100] {
        let mut found = Vec::new();
        search_radius(&tree, [10, 20], radius, 0, &mut found);
        found.sort();
        assert_eq!(found, scan(&points, [10, 20], radius));
    }
}

#[test]
fn search_at_the_far_ends_of_the_scalar_range() {
    let mut points = vec![(0, [i32::MIN, i32::MIN]), (1, [i32::MAX, i32::MAX]), (2, [0, 0])];
    let tree = build_kd_tree(&mut points, 0);
    let mut found = Vec::new();
    search_radius(&tree, [i32::MAX, i32::MAX], u32::MAX, 0, &mut found);
    found.sort();
    assert_eq!(found, vec![1, 2]);
}

fn world() -> (Vec<Position>, Vec<Particle>) {
    let positions = vec![
        Position { x: 0, y: 0 },
        Position { x: 3 * ONE, y: 0 },
        Position { x: 100 * ONE, y: 0 },
        Position { x: 0, y: 5 * ONE },
    ];
    let particles = vec![
        Particle { vel_x: 0, vel_y: 0, mass: 1, radius: 2 },
        Particle { vel_x: 0, vel_y: 0, mass: 1, radius: 1 },
        Particle { vel_x: 0, vel_y: 0, mass: 1, radius: 60 },
        Particle { vel_x: 0, vel_y: 0, mass: 1, radius: 3 },
    ];
    (positions, particles)
}

fn pairs_by_scan(positions: &[Position], particles: &[Particle]) -> Vec<(usize, usize)> {
    let reaches = |from: usize, to: usize| {
        let dx = positions[to].x as i128 - positions[from].x as i128;
        let dy = positions[to].y as i128 - positions[from].y as i128;
        let reach = (particles[from].radius as i128 * 2 * ONE as i128).min(u32::MAX as i128);
        dx * dx + dy * dy <= reach * reach
    };
    let mut pairs = Vec::new();
    for i in 0..positions.len() {
        for j in (i + 1)..positions.len() {
            if reaches(i, j) || reaches(j, i) {
                pairs.push((i, j));
            }
        }
    }
    pairs
}

fn pairs_by_tree(positions: &Vec<Position>, particles: &Vec<Particle>) -> Vec<(usize, usize)> {
    let mut points: Vec<(usize, [i32; 2])> =
        positions.iter().enumerate().map(|(i, p)| (i, [p.x, p.y])).collect();
    let tree = build_kd_tree(&mut points, 0);
    let mut pairs = collision_pairs(&tree, positions, particles);
    pairs.sort();
    pairs
}

#[test]
fn pairs_join_each_particle_with_all_its_neighbours() {
    let (positions, particles) = world();
    // Particle 0 reaches 4 units: particle 1.  Particle 1 reaches 2 units:
    // nobody.  Particle 2 reaches 120 units: everybody.  Particle 3 reaches
    // 6 units: particles 0 and 1.
    assert_eq!(
        pairs_by_tree(&positions, &particles),
        vec![(0, 1), (0, 2), (0, 3), (1, 2), (1, 3), (2, 3)]
    );
}

#[test]
fn a_pair_found_from_both_sides_comes_out_once() {
    let positions = vec![Position { x: 0, y: 0 }, Position { x: ONE, y: 0 }];
    let particles = vec![Particle { vel_x: 0, vel_y: 0, mass: 1, radius: 5 }; 2];
    assert_eq!(pairs_by_tree(&positions, &particles), vec![(0, 1)]);
}

#[test]
fn a_pair_found_only_by_the_larger_index_comes_out_once() {
    let positions = vec![Position { x: 0, y: 0 }, Position { x: 5 * ONE, y: 0 }];
    let particles = vec![
        Particle { vel_x: 0, vel_y: 0, mass: 1, radius: 1 },
        Particle { vel_x: 0, vel_y: 0, mass: 1, radius: 10 },
    ];
    assert_eq!(pairs_by_tree(&positions, &particles), vec![(0, 1)]);
}

#[test]
fn a_pair_found_only_by_the_smaller_index_comes_out_once() {
    let positions = vec![Position { x: 0, y: 0 }, Position { x: 5 * ONE, y: 0 }];
    let particles = vec![
        Particle { vel_x: 0, vel_y: 0, mass: 1, radius: 10 },
        Particle { vel_x: 0, vel_y: 0, mass: 1, radius: 1 },
    ];
    assert_eq!(pairs_by_tree(&positions, &particles), vec![(0, 1)]);
}

#[test]
fn particles_out_of_each_others_reach_form_no_pair() {
    let positions = vec![Position { x: 0, y: 0 }, Position { x: 5 * ONE, y: 0 }];
    let particles = vec![Particle { vel_x: 0, vel_y: 0, mass: 1, radius: 2 }; 2];
    assert!(pairs_by_tree(&positions, &particles).is_empty());
}

#[test]
fn pairs_are_those_of_a_scan_over_all_pairs() {
    let mut state: u64 = 99;
    for count in [1usize, 2, 7, 40, 150] {
        let mut positions = Vec::new();
        let mut particles = Vec::new();
        for _ in 0..count {
            state = state.wrapping_mul(6364136223846793005).wrapping_add(1442695040888963407);
            let x = ((state >> 40) as i32 % 200) * ONE / 4;
            state = state.wrapping_mul(6364136223846793005).wrapping_add(1442695040888963407);
            let y = ((state >> 40) as i32 % 200) * ONE / 4;
            state = state.wrapping_mul(6364136223846793005).wrapping_add(1442695040888963407);
            let radius = ((state >> 40) % 6) as u32;
            positions.push(Position { x, y });
            particles.push(Particle { vel_x: 0, vel_y: 0, mass: 1, radius });
        }
        assert_eq!(pairs_by_tree(&positions, &particles), pairs_by_scan(&positions, &particles));
    }
}

#[test]
fn pairs_never_join_a_particle_with_itself() {
    let positions = vec![Position { x: 0, y: 0 }, Position { x: 0, y: 0 }, Position { x: 1, y: 0 }];
    let particles = vec![Particle { vel_x: 0, vel_y: 0, mass: 1, radius: 1 }; 3];
    let mut points: Vec<(usize, [i32; 2])> =
        positions.iter().enumerate().map(|(i, p)| (i, [p.x, p.y])).collect();
    let tree = build_kd_tree(&mut points, 0);
    let mut pairs = collision_pairs(&tree, &positions, &particles);
    pairs.sort();
    assert_eq!(pairs, vec![(0, 1), (0, 2), (1, 2)]);
}

#[test]
fn resolving_pairs_applies_them_in_order() {
    let mut positions = vec![
        Position { x: -5 * ONE, y: 0 },
        Position { x: 5 * ONE, y: 0 },
        Position { x: 50 * ONE, y: 0 },
    ];
    let mut particles = vec![
        Particle { vel_x: ONE, vel_y: 0, mass: 1, radius: 6 },
        Particle { vel_x: -ONE, vel_y: 0, mass: 1, radius: 6 },
        Particle { vel_x: 0, vel_y: 0, mass: 1, radius: 6 },
    ];
    resolve_pairs(&mut positions, &mut particles, &vec![(0, 1), (1, 2)]);
    assert_eq!((positions[0].x, positions[0].y), (-6 * ONE, 0));
    assert_eq!((positions[1].x, positions[1].y), (6 * ONE, 0));
    assert_eq!((particles[0].vel_x, particles[0].vel_y), (-ONE, 0));
    assert_eq!((particles[1].vel_x, particles[1].vel_y), (ONE, 0));
    assert_eq!((positions[2].x, particles[2].vel_x), (50 * ONE, 0));
}

#[test]
fn resolving_passes_over_pairs_out_of_range() {
    let mut positions = vec![Position { x: 0, y: 0 }, Position { x: ONE, y: 0 }];
    let mut particles = vec![
        Particle { vel_x: ONE, vel_y: 0, mass: 1, radius: 6 },
        Particle { vel_x: -ONE, vel_y: 0, mass: 1, radius: 6 },
    ];
    resolve_pairs(&mut positions, &mut particles, &vec![(0, 2), (7, 1), (1, 1)]);
    assert_eq!((positions[0].x, positions[1].x), (0, ONE));
    assert_eq!((particles[0].vel_x, particles[1].vel_x), (ONE, -ONE));
}

#[test]
fn collision_tick_bounces_an_approaching_pair() {
    let mut positions = vec![
        Position { x: -5 * ONE, y: 0 },
        Position { x: 5 * ONE, y: 0 },
        Position { x: 500 * ONE, y: 500 * ONE },
    ];
    let mut particles = vec![
        Particle { vel_x: ONE, vel_y: 0, mass: 1, radius: 6 },
        Particle { vel_x: -ONE, vel_y: 0, mass: 1, radius: 6 },
        Particle { vel_x: 3, vel_y: 4, mass: 9, radius: 6 },
    ];
    handle_collision_kd_tree(&mut positions, &mut particles);
    assert_eq!((positions[0].x, positions[0].y), (-6 * ONE, 0));
    assert_eq!((positions[1].x, positions[1].y), (6 * ONE, 0));
    assert_eq!((particles[0].vel_x, particles[0].vel_y), (-ONE, 0));
    assert_eq!((particles[1].vel_x, particles[1].vel_y), (ONE, 0));
    assert_eq!((positions[2].x, positions[2].y), (500 * ONE, 500 * ONE));
    assert_eq!((particles[2].vel_x, particles[2].vel_y), (3, 4));
}

#[test]
fn collision_tick_resolves_a_pair_that_only_the_larger_particle_reaches() {
    let mut positions = vec![Position { x: 0, y: 0 }, Position { x: 5 * ONE, y: 0 }];
    let mut particles = vec![
        Particle { vel_x: ONE, vel_y: 0, mass: 3, radius: 1 },
        Particle { vel_x: -ONE, vel_y: 0, mass: 3, radius: 10 },
    ];
    handle_collision_kd_tree(&mut positions, &mut particles);
    // Equal masses head-on: the velocities are exchanged, and the overlap of
    // 11 - 5 = 6 units is shared equally.
    assert_eq!((particles[0].vel_x, particles[0].vel_y), (-ONE, 0));
    assert_eq!((particles[1].vel_x, particles[1].vel_y), (ONE, 0));
    assert_eq!((positions[0].x, positions[0].y), (-3 * ONE, 0));
    assert_eq!((positions[1].x, positions[1].y), (8 * ONE, 0));
}

#[test]
fn collision_tick_resolves_a_mutual_pair_once() {
    let mut positions = vec![Position { x: 0, y: 0 }, Position { x: 8 * ONE, y: 0 }];
    let mut particles = vec![
        Particle { vel_x: ONE, vel_y: 0, mass: 3, radius: 6 },
        Particle { vel_x: -ONE, vel_y: 0, mass: 1, radius: 6 },
    ];
    handle_collision_kd_tree(&mut positions, &mut particles);
    // One elastic impulse: 1 - 2 * 1 / 4 * 2 = 0 and -1 + 2 * 3 / 4 * 2 = 2.
    assert_eq!((particles[0].vel_x, particles[1].vel_x), (0, 2 * ONE));
    assert_eq!((positions[0].x, positions[1].x), (-ONE, 11 * ONE));
}

#[test]
fn collision_tick_without_particles() {
    let mut positions: Vec<Position> = Vec::new();
    let mut particles: Vec<Particle> = Vec::new();
    handle_collision_kd_tree(&mut positions, &mut particles);
    assert!(positions.is_empty());
    assert!(particles.is_empty());
}
