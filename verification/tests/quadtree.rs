use particlebevy::fixed::ONE;
use particlebevy::particle::{Particle, Position};
use particlebevy::quad_tree::{handle_quadtree_gravity, Node, Quad, Quadtree};
use particlebevy::vec2::Vec2;

fn tree_over(points: &[(Vec2, u32)], theta: u32, epsilon: u32) -> Quadtree {
    let positions: Vec<Vec2> = points.iter().map(|p| p.0).collect();
    let mut tree = Quadtree::new(theta, epsilon);
    tree.clear(Quad::new_containing(&positions));
    for (pos, mass) in points.iter() {
        tree.insert(*pos, *mass);
    }
    tree
}

fn isqrt(n: i128) -> i128 {
    let mut r = (n as f64).sqrt() as i128;
    while r * r > n {
        r -= 1;
    }
    while (r + 1) * (r + 1) <= n {
        r += 1;
    }
    r
}

fn pull(at: Vec2, mass: u32, p: Vec2, e_sq: i128) -> (i128, i128) {
    let dx = at.x as i128 - p.x as i128;
    let dy = at.y as i128 - p.y as i128;
    let d_sq = dx * dx + dy * dy;
    if d_sq == 0 {
        return (0, 0);
    }
    let den = (d_sq + e_sq) * isqrt(d_sq);
    let g: i128 = 1 << 62;
    (dx * mass as i128 * g / den, dy * mass as i128 * g / den)
}

fn direct_sum(points: &[(Vec2, u32)], p: Vec2, e_sq: i128) -> Vec2 {
    let mut x: i128 = 0;
    let mut y: i128 = 0;
    for (at, mass) in points.iter() {
        let (px, py) = pull(*at, *mass, p, e_sq);
        x += px;
        y += py;
    }
    Vec2::new((x / 16384) as i32, (y / 16384) as i32)
}

fn scattered(count: usize, seed: u64) -> Vec<(Vec2, u32)> {
    let mut state = seed;
    let mut points = Vec::new();
    for _ in 0..count {
        state = state.wrapping_mul(6364136223846793005).wrapping_add(1442695040888963407);
        let x = ((state >> 40) as i32 % 4000) * ONE / 8 - 250 * ONE;
        state = state.wrapping_mul(6364136223846793005).wrapping_add(1442695040888963407);
        let y = ((state >> 40) as i32 % 4000) * ONE / 8 - 250 * ONE;
        state = state.wrapping_mul(6364136223846793005).wrapping_add(1442695040888963407);
        let mass = 1 + ((state >> 40) % 50) as u32;
        points.push((Vec2::new(x, y), mass));
    }
    points
}

fn occupied_leaves(tree: &Quadtree) -> Vec<(Vec2, u32)> {
    tree.nodes
        .iter()
        .filter(|n| n.is_leaf() && !n.is_empty())
        .map(|n| (n.pos, n.mass))
        .collect()
}

#[test]
fn new_stores_the_squares() {
    let tree = Quadtree::new(ONE as u32 / 2, 3 * ONE as u32);
    assert_eq!(tree.t_sq, 32768 * 32768);
    assert_eq!(tree.e_sq, 196608 * 196608);
    assert!(tree.nodes.is_empty());
    assert!(tree.parents.is_empty());
}

#[test]
fn new_with_the_largest_parameters() {
    let tree = Quadtree::new(u32::MAX, u32::MAX);
    assert_eq!(tree.t_sq, u32::MAX as u64 * u32::MAX as u64);
    assert_eq!(tree.e_sq, u32::MAX as u64 * u32::MAX as u64);
}

#[test]
fn root_is_node_zero() {
    assert_eq!(Quadtree::ROOT, 0);
}

#[test]
fn fresh_node_is_an_empty_leaf() {
    let quad = Quad { center: Vec2::new(1, 2), size: 3 };
    let node = Node::new(7, quad);
    assert_eq!(node.children, 0);
    assert_eq!(node.next, 7);
    assert_eq!(node.pos, Vec2::zero());
    assert_eq!(node.mass, 0);
    assert_eq!(node.quad.center, quad.center);
    assert_eq!(node.quad.size, 3);
    assert!(node.is_leaf());
    assert!(node.is_empty());
}

#[test]
fn node_with_children_is_no_leaf() {
    let mut node = Node::new(0, Quad { center: Vec2::zero(), size: 8 });
    node.children = 1;
    node.mass = 4;
    assert!(!node.is_leaf());
    assert!(!node.is_empty());
}

#[test]
fn clear_leaves_a_single_empty_root() {
    let mut tree = Quadtree::new(ONE as u32, ONE as u32);
    let quad = Quad { center: Vec2::new(5, 6), size: 100 };
    tree.clear(quad);
    tree.insert(Vec2::new(1, 1), 3);
    tree.insert(Vec2::new(40, 40), 4);
    assert!(tree.nodes.len() > 1);
    tree.clear(quad);
    assert_eq!(tree.nodes.len(), 1);
    assert!(tree.parents.is_empty());
    assert!(tree.nodes[0].is_leaf());
    assert!(tree.nodes[0].is_empty());
    assert_eq!(tree.nodes[0].next, 0);
    assert_eq!(tree.nodes[0].quad.center, Vec2::new(5, 6));
    assert_eq!(tree.nodes[0].quad.size, 100);
    assert_eq!(tree.t_sq, ONE as u64 * ONE as u64);
}

#[test]
fn first_point_goes_to_the_root_without_subdivision() {
    let mut tree = Quadtree::new(ONE as u32, 0);
    tree.clear(Quad { center: Vec2::zero(), size: 1000 });
    tree.insert(Vec2::new(10, -20), 7);
    assert_eq!(tree.nodes.len(), 1);
    assert_eq!(tree.nodes[0].pos, Vec2::new(10, -20));
    assert_eq!(tree.nodes[0].mass, 7);
    assert!(tree.parents.is_empty());
}

#[test]
fn same_position_twice_gives_one_leaf_with_the_summed_mass() {
    let mut tree = Quadtree::new(ONE as u32, 0);
    tree.clear(Quad { center: Vec2::zero(), size: 1000 });
    tree.insert(Vec2::new(10, -20), 7);
    tree.insert(Vec2::new(10, -20), 5);
    assert_eq!(tree.nodes.len(), 1);
    assert!(tree.nodes[0].is_leaf());
    assert_eq!(tree.nodes[0].pos, Vec2::new(10, -20));
    assert_eq!(tree.nodes[0].mass, 12);
}

#[test]
fn same_position_twice_deep_in_the_tree() {
    let mut tree = Quadtree::new(ONE as u32, 0);
    tree.clear(Quad { center: Vec2::zero(), size: 1024 });
    tree.insert(Vec2::new(100, 100), 1);
    tree.insert(Vec2::new(-100, -100), 2);
    let nodes_before = tree.nodes.len();
    tree.insert(Vec2::new(100, 100), 10);
    assert_eq!(tree.nodes.len(), nodes_before);
    let leaves = occupied_leaves(&tree);
    assert_eq!(leaves.len(), 2);
    assert!(leaves.contains(&(Vec2::new(100, 100), 11)));
    assert!(leaves.contains(&(Vec2::new(-100, -100), 2)));
}

#[test]
fn two_points_in_different_quadrants_split_the_root_once() {
    let mut tree = Quadtree::new(ONE as u32, 0);
    tree.clear(Quad { center: Vec2::zero(), size: 16 });
    tree.insert(Vec2::new(-5, -5), 1);
    tree.insert(Vec2::new(5, 5), 2);
    assert_eq!(tree.nodes.len(), 5);
    assert_eq!(tree.parents, vec![0]);
    assert_eq!(tree.nodes[0].children, 1);
    assert_eq!((tree.nodes[1].pos, tree.nodes[1].mass), (Vec2::new(-5, -5), 1));
    assert_eq!((tree.nodes[4].pos, tree.nodes[4].mass), (Vec2::new(5, 5), 2));
    assert!(tree.nodes[2].is_empty());
    assert!(tree.nodes[3].is_empty());
    for k in 1..5 {
        assert!(tree.nodes[k].is_leaf());
        assert_eq!(tree.nodes[k].quad.size, 8);
    }
    assert_eq!(tree.nodes[1].quad.center, Vec2::new(-4, -4));
    assert_eq!(tree.nodes[2].quad.center, Vec2::new(4, -4));
    assert_eq!(tree.nodes[3].quad.center, Vec2::new(-4, 4));
    assert_eq!(tree.nodes[4].quad.center, Vec2::new(4, 4));
}

#[test]
fn successor_links_after_one_subdivision() {
    let mut tree = Quadtree::new(ONE as u32, 0);
    tree.clear(Quad { center: Vec2::zero(), size: 16 });
    tree.insert(Vec2::new(-5, -5), 1);
    tree.insert(Vec2::new(5, 5), 2);
    assert_eq!(tree.nodes[0].next, 0);
    assert_eq!(tree.nodes[1].next, 2);
    assert_eq!(tree.nodes[2].next, 3);
    assert_eq!(tree.nodes[3].next, 4);
    assert_eq!(tree.nodes[4].next, 0);
}

#[test]
fn last_child_hands_on_the_successor_of_its_parent() {
    let mut tree = Quadtree::new(ONE as u32, 0);
    tree.clear(Quad { center: Vec2::zero(), size: 64 });
    tree.insert(Vec2::new(-20, -20), 1);
    tree.insert(Vec2::new(20, 20), 1);
    // Both of the next two fall into quadrant 0 of the root, node 1.
    tree.insert(Vec2::new(-5, -5), 1);
    assert_eq!(tree.parents, vec![0, 1]);
    assert_eq!(tree.nodes.len(), 9);
    assert_eq!(tree.nodes[1].children, 5);
    assert_eq!(tree.nodes[5].next, 6);
    assert_eq!(tree.nodes[6].next, 7);
    assert_eq!(tree.nodes[7].next, 8);
    assert_eq!(tree.nodes[8].next, 2);
}

#[test]
fn close_points_subdivide_until_they_separate() {
    let mut tree = Quadtree::new(ONE as u32, 0);
    tree.clear(Quad { center: Vec2::zero(), size: 1024 });
    tree.insert(Vec2::new(300, 300), 1);
    tree.insert(Vec2::new(310, 300), 2);
    assert!(tree.parents.len() > 1);
    assert_eq!(tree.nodes.len(), 1 + 4 * tree.parents.len());
    let leaves = occupied_leaves(&tree);
    assert_eq!(leaves.len(), 2);
    assert!(leaves.contains(&(Vec2::new(300, 300), 1)));
    assert!(leaves.contains(&(Vec2::new(310, 300), 2)));
}

#[test]
fn points_too_close_to_separate_share_the_leaf_of_the_first() {
    let mut tree = Quadtree::new(ONE as u32, 0);
    tree.clear(Quad { center: Vec2::zero(), size: 3 });
    tree.insert(Vec2::new(1, 1), 1);
    tree.insert(Vec2::new(5, 9), 3);
    assert_eq!(tree.nodes.len(), 1);
    assert_eq!(tree.nodes[0].mass, 4);
    assert_eq!(tree.nodes[0].pos, Vec2::new(1, 1));
}

#[test]
fn a_point_taken_in_by_a_neighbour_is_taken_in_again() {
    let mut tree = Quadtree::new(ONE as u32, 0);
    tree.clear(Quad { center: Vec2::zero(), size: 64 });
    tree.insert(Vec2::new(1000, 1000), 1);
    tree.insert(Vec2::new(2000, 2000), 2);
    let nodes = tree.nodes.len();
    tree.insert(Vec2::new(2000, 2000), 4);
    assert_eq!(tree.nodes.len(), nodes);
    assert_eq!(occupied_leaves(&tree), vec![(Vec2::new(1000, 1000), 7)]);
}

#[test]
fn subdivision_stops_where_regions_stop_shrinking() {
    let mut tree = Quadtree::new(ONE as u32, 0);
    tree.clear(Quad { center: Vec2::zero(), size: 64 });
    tree.insert(Vec2::new(1000, 1000), 1);
    tree.insert(Vec2::new(2000, 2000), 1);
    // Both lie far outside, always in quadrant 3: 64, 32, 16, 8 and 4 are
    // split, the region of size 2 is not.
    assert_eq!(tree.parents.len(), 5);
    let leaves = occupied_leaves(&tree);
    assert_eq!(leaves, vec![(Vec2::new(1000, 1000), 2)]);
}

#[test]
fn a_massless_point_leaves_its_leaf_unoccupied() {
    let mut tree = Quadtree::new(ONE as u32, 0);
    tree.clear(Quad { center: Vec2::zero(), size: 64 });
    tree.insert(Vec2::new(3, 3), 0);
    assert!(tree.nodes[0].is_empty());
    tree.insert(Vec2::new(-7, 9), 4);
    assert_eq!(tree.nodes.len(), 1);
    assert_eq!((tree.nodes[0].pos, tree.nodes[0].mass), (Vec2::new(-7, 9), 4));
}

fn descend(tree: &Quadtree, p: Vec2) -> usize {
    let mut node = Quadtree::ROOT;
    while !tree.nodes[node].is_leaf() {
        node = tree.nodes[node].children + tree.nodes[node].quad.find_quadrant(p);
    }
    node
}

#[test]
fn every_inserted_point_has_its_leaf() {
    let points = scattered(200, 11);
    let tree = tree_over(&points, ONE as u32, 0);
    assert_eq!(tree.nodes.len(), 1 + 4 * tree.parents.len());
    let total: u64 = occupied_leaves(&tree).iter().map(|l| l.1 as u64).sum();
    let expected: u64 = points.iter().map(|p| p.1 as u64).sum();
    assert_eq!(total, expected);
    for (pos, mass) in points.iter() {
        let leaf = tree.nodes[descend(&tree, *pos)];
        assert_eq!(leaf.pos, *pos);
        assert!(leaf.mass >= *mass);
    }
}

#[test]
fn every_occupied_leaf_is_where_its_position_leads() {
    let points = scattered(300, 41);
    let tree = tree_over(&points, ONE as u32, 0);
    for (index, node) in tree.nodes.iter().enumerate() {
        if node.is_leaf() && !node.is_empty() {
            assert_eq!(descend(&tree, node.pos), index);
        }
    }
}

#[test]
fn points_one_step_apart_may_share_a_leaf() {
    let points = vec![
        (Vec2::new(-20 * ONE, 3 * ONE), 4),
        (Vec2::new(7 * ONE, 7 * ONE), 9),
        (Vec2::new(7 * ONE, 7 * ONE + 1), 1),
        (Vec2::new(30 * ONE, -12 * ONE), 2),
    ];
    let tree = tree_over(&points, ONE as u32, 0);
    let leaves = occupied_leaves(&tree);
    assert_eq!(leaves.len(), 3);
    assert!(leaves.contains(&(Vec2::new(7 * ONE, 7 * ONE), 10)));
    let total: u32 = leaves.iter().map(|l| l.1).sum();
    assert_eq!(total, 16);
}

#[test]
fn separate_points_all_get_leaves_of_their_own() {
    let points = vec![
        (Vec2::new(-20 * ONE, 3 * ONE), 4),
        (Vec2::new(7 * ONE, 7 * ONE), 9),
        (Vec2::new(7 * ONE, 7 * ONE + 16), 1),
        (Vec2::new(30 * ONE, -12 * ONE), 2),
        (Vec2::new(-ONE, -25 * ONE), 30),
    ];
    let tree = tree_over(&points, ONE as u32, 0);
    let mut leaves = occupied_leaves(&tree);
    leaves.sort_by_key(|l| (l.0.x, l.0.y));
    let mut expected = points.clone();
    expected.sort_by_key(|l| (l.0.x, l.0.y));
    assert_eq!(leaves, expected);
}

#[test]
fn propagate_gives_the_root_the_total_mass() {
    let points = scattered(300, 5);
    let mut tree = tree_over(&points, ONE as u32, 0);
    tree.propagate();
    let expected: u64 = points.iter().map(|p| p.1 as u64).sum();
    assert_eq!(tree.nodes[0].mass as u64, expected);
}

#[test]
fn propagate_gives_the_root_the_centre_of_mass() {
    let points = vec![
        (Vec2::new(-8 * ONE, -8 * ONE), 1),
        (Vec2::new(8 * ONE, -8 * ONE), 1),
        (Vec2::new(-8 * ONE, 8 * ONE), 1),
        (Vec2::new(8 * ONE, 8 * ONE), 5),
    ];
    let mut tree = tree_over(&points, ONE as u32, 0);
    tree.propagate();
    assert_eq!(tree.nodes[0].mass, 8);
    assert_eq!(tree.nodes[0].pos, Vec2::new(4 * ONE, 4 * ONE));
}

#[test]
fn propagate_keeps_the_root_near_the_centre_of_mass() {
    let points = scattered(300, 77);
    let mut tree = tree_over(&points, ONE as u32, 0);
    tree.propagate();
    let mass: i128 = points.iter().map(|p| p.1 as i128).sum();
    let mx: i128 = points.iter().map(|p| p.0.x as i128 * p.1 as i128).sum();
    let my: i128 = points.iter().map(|p| p.0.y as i128 * p.1 as i128).sum();
    let root = tree.nodes[0];
    assert!((root.pos.x as i128 - mx / mass).abs() <= 64);
    assert!((root.pos.y as i128 - my / mass).abs() <= 64);
}

#[test]
fn propagate_aggregates_every_inner_node() {
    let points = scattered(100, 3);
    let mut tree = tree_over(&points, ONE as u32, 0);
    let leaves_before = occupied_leaves(&tree);
    tree.propagate();
    assert_eq!(occupied_leaves(&tree), leaves_before);
    for node in tree.nodes.iter() {
        if !node.is_leaf() {
            let c = node.children;
            let mass: u64 = (0..4).map(|k| tree.nodes[c + k].mass as u64).sum();
            assert_eq!(node.mass as u64, mass);
            if mass > 0 {
                let mx: i128 =
                    (0..4).map(|k| tree.nodes[c + k].pos.x as i128 * tree.nodes[c + k].mass as i128).sum();
                let my: i128 =
                    (0..4).map(|k| tree.nodes[c + k].pos.y as i128 * tree.nodes[c + k].mass as i128).sum();
                assert_eq!(node.pos.x as i128, mx / mass as i128);
                assert_eq!(node.pos.y as i128, my / mass as i128);
            } else {
                assert_eq!(node.pos, Vec2::zero());
            }
        }
    }
}

#[test]
fn propagate_of_an_empty_subdivision_gives_the_origin() {
    let mut tree = Quadtree::new(ONE as u32, 0);
    tree.clear(Quad { center: Vec2::zero(), size: 64 });
    tree.insert(Vec2::new(-20, -20), 1);
    tree.insert(Vec2::new(20, 20), 1);
    // Take the mass out of both leaves again by hand.
    tree.nodes[1].mass = 0;
    tree.nodes[4].mass = 0;
    tree.nodes[0].pos = Vec2::new(9, 9);
    tree.propagate();
    assert_eq!(tree.nodes[0].mass, 0);
    assert_eq!(tree.nodes[0].pos, Vec2::zero());
}

#[test]
fn pull_of_a_single_mass() {
    let mut tree = Quadtree::new(ONE as u32, 0);
    tree.clear(Quad { center: Vec2::zero(), size: 100 * ONE as u32 });
    tree.insert(Vec2::new(10 * ONE, 0), 5);
    tree.propagate();
    // 5 / 10^2 = 0.05, toward the mass.
    assert_eq!(tree.acc(Vec2::zero()), Vec2::new(3276, 0));
    assert_eq!(tree.acc(Vec2::new(20 * ONE, 0)), Vec2::new(-3276, 0));
    assert_eq!(tree.acc(Vec2::new(10 * ONE, 10 * ONE)), Vec2::new(0, -3276));
}

#[test]
fn pull_with_softening() {
    let mut tree = Quadtree::new(ONE as u32, ONE as u32);
    tree.clear(Quad { center: Vec2::zero(), size: 100 * ONE as u32 });
    tree.insert(Vec2::new(10 * ONE, 0), 5);
    tree.propagate();
    // 10 * 5 / ((100 + 1) * 10) = 0.0495...
    assert_eq!(tree.acc(Vec2::zero()), Vec2::new(3244, 0));
}

#[test]
fn pull_along_a_diagonal() {
    let mut tree = Quadtree::new(ONE as u32, 0);
    tree.clear(Quad { center: Vec2::zero(), size: 100 * ONE as u32 });
    tree.insert(Vec2::new(3 * ONE, 4 * ONE), 100);
    tree.propagate();
    // d = (3, 4), |d| = 5: 100 * d / 125 = (2.4, 3.2).
    assert_eq!(tree.acc(Vec2::zero()), Vec2::new(157286, 209715));
}

#[test]
fn no_pull_at_the_position_of_the_mass_itself() {
    let mut tree = Quadtree::new(ONE as u32, ONE as u32);
    tree.clear(Quad { center: Vec2::zero(), size: 100 * ONE as u32 });
    tree.insert(Vec2::new(10 * ONE, 3 * ONE), 5);
    tree.propagate();
    assert_eq!(tree.acc(Vec2::new(10 * ONE, 3 * ONE)), Vec2::zero());
}

#[test]
fn no_pull_from_an_empty_tree() {
    let mut tree = Quadtree::new(ONE as u32, ONE as u32);
    tree.clear(Quad { center: Vec2::zero(), size: 100 });
    tree.propagate();
    assert_eq!(tree.acc(Vec2::new(5, 5)), Vec2::zero());
    assert_eq!(tree.acc(Vec2::zero()), Vec2::zero());
}

#[test]
fn pull_is_clamped_to_the_scalar_range() {
    let mut tree = Quadtree::new(ONE as u32, 0);
    tree.clear(Quad { center: Vec2::zero(), size: 100 });
    tree.insert(Vec2::new(1, 0), u32::MAX);
    tree.propagate();
    assert_eq!(tree.acc(Vec2::zero()), Vec2::new(i32::MAX, 0));
    assert_eq!(tree.acc(Vec2::new(2, 0)), Vec2::new(i32::MIN, 0));
}

#[test]
fn with_theta_zero_the_pull_is_the_direct_sum() {
    let points = scattered(150, 23);
    let mut tree = tree_over(&points, 0, ONE as u32 / 4);
    tree.propagate();
    let e_sq = (ONE as i128 / 4) * (ONE as i128 / 4);
    let leaves = occupied_leaves(&tree);
    for p in [Vec2::zero(), Vec2::new(100 * ONE, -30 * ONE), points[7].0, points[100].0] {
        assert_eq!(tree.acc(p), direct_sum(&leaves, p, e_sq));
    }
}

#[test]
fn with_theta_zero_and_separate_points_the_pull_is_the_sum_over_the_particles() {
    let points = vec![
        (Vec2::new(-20 * ONE, 3 * ONE), 4),
        (Vec2::new(7 * ONE, 7 * ONE), 9),
        (Vec2::new(30 * ONE, -12 * ONE), 2),
        (Vec2::new(-ONE, -25 * ONE), 30),
    ];
    let mut tree = tree_over(&points, 0, 0);
    tree.propagate();
    for p in [Vec2::zero(), Vec2::new(5 * ONE, 5 * ONE), points[1].0] {
        assert_eq!(tree.acc(p), direct_sum(&points, p, 0));
    }
}

fn pull_of_subtree(tree: &Quadtree, node: usize, p: Vec2, visited: &mut Vec<usize>) -> (i128, i128) {
    let n = tree.nodes[node];
    let dx = n.pos.x as i128 - p.x as i128;
    let dy = n.pos.y as i128 - p.y as i128;
    let d_sq = dx * dx + dy * dy;
    let size = n.quad.size as i128;
    if n.is_leaf() || (size * size) << 32 < d_sq * tree.t_sq as i128 {
        visited.push(node);
        pull(n.pos, n.mass, p, tree.e_sq as i128)
    } else {
        let mut x: i128 = 0;
        let mut y: i128 = 0;
        for k in 0..4 {
            let (px, py) = pull_of_subtree(tree, n.children + k, p, visited);
            x += px;
            y += py;
        }
        (x, y)
    }
}

#[test]
fn the_walk_along_successor_links_is_the_recursive_descent() {
    let points = scattered(250, 1234);
    for theta in [0, ONE as u32 / 8, ONE as u32 / 2, ONE as u32, 3 * ONE as u32] {
        let mut tree = tree_over(&points, theta, ONE as u32 / 2);
        tree.propagate();
        for p in [Vec2::zero(), points[3].0, points[200].0, Vec2::new(-900 * ONE, 700 * ONE)] {
            let mut visited = Vec::new();
            let (x, y) = pull_of_subtree(&tree, 0, p, &mut visited);
            assert_eq!(tree.acc(p), Vec2::new((x / 16384) as i32, (y / 16384) as i32));
            let mut sorted = visited.clone();
            sorted.sort();
            sorted.dedup();
            assert_eq!(sorted.len(), visited.len());
        }
    }
}

#[test]
fn with_theta_zero_every_leaf_is_visited_exactly_once() {
    let points = scattered(120, 77);
    let mut tree = tree_over(&points, 0, 0);
    tree.propagate();
    let mut visited = Vec::new();
    pull_of_subtree(&tree, 0, Vec2::zero(), &mut visited);
    let leaves: Vec<usize> = (0..tree.nodes.len()).filter(|k| tree.nodes[*k].is_leaf()).collect();
    visited.sort();
    assert_eq!(visited, leaves);
    // Following the successor links from leaf to leaf gives the same walk.
    let mut walked = Vec::new();
    let mut node = Quadtree::ROOT;
    loop {
        if tree.nodes[node].is_leaf() {
            walked.push(node);
            if tree.nodes[node].next == 0 {
                break;
            }
            node = tree.nodes[node].next;
        } else {
            node = tree.nodes[node].children;
        }
    }
    walked.sort();
    assert_eq!(walked, leaves);
}

#[test]
fn a_far_cluster_counts_as_a_single_mass() {
    let points = vec![
        (Vec2::new(100 * ONE, 100 * ONE), 3),
        (Vec2::new(101 * ONE, 100 * ONE), 5),
        (Vec2::new(100 * ONE, 101 * ONE), 7),
        (Vec2::new(-100 * ONE, -100 * ONE), 1),
    ];
    // With a huge opening angle even the root is taken as a single mass.
    let mut tree = tree_over(&points, 1000 * ONE as u32, 0);
    tree.propagate();
    let root = tree.nodes[0];
    let p = Vec2::new(-100 * ONE, 100 * ONE);
    assert_eq!(tree.acc(p), direct_sum(&[(root.pos, root.mass)], p, 0));
}

#[test]
fn a_small_opening_angle_is_closer_to_the_direct_sum() {
    let points = scattered(200, 99);
    let p = Vec2::new(400 * ONE, 400 * ONE);
    let mut exact = tree_over(&points, 0, ONE as u32);
    exact.propagate();
    let mut fine = tree_over(&points, ONE as u32 / 4, ONE as u32);
    fine.propagate();
    let mut coarse = tree_over(&points, 4 * ONE as u32, ONE as u32);
    coarse.propagate();
    let reference = exact.acc(p);
    let error = |a: Vec2| (a.x - reference.x).abs() as i64 + (a.y - reference.y).abs() as i64;
    assert!(error(fine.acc(p)) <= error(coarse.acc(p)));
    assert!(error(fine.acc(p)) * 100 <= (reference.x.abs() as i64 + reference.y.abs() as i64));
}

#[test]
fn gravity_tick_rebuilds_the_tree_and_accelerates() {
    let positions = vec![
        Position { x: -10 * ONE, y: 0 },
        Position { x: 10 * ONE, y: 0 },
    ];
    let mut particles = vec![
        Particle { vel_x: 0, vel_y: 5, mass: 100, radius: 1 },
        Particle { vel_x: 7, vel_y: 0, mass: 300, radius: 1 },
    ];
    let mut tree = Quadtree::new(0, 0);
    handle_quadtree_gravity(&mut tree, &positions, &mut particles);
    assert_eq!(tree.nodes.len(), 5);
    assert_eq!(tree.nodes[0].mass, 400);
    assert_eq!(tree.nodes[0].pos, Vec2::new(5 * ONE, 0));
    assert_eq!(tree.nodes[0].quad.size, 20 * ONE as u32);
    // 300 / 20^2 = 0.75 and 100 / 20^2 = 0.25; one hundredth of each.
    assert_eq!(particles[0].vel_x, 491);
    assert_eq!(particles[0].vel_y, 5);
    assert_eq!(particles[1].vel_x, 7 - 163);
    assert_eq!(particles[1].vel_y, 0);
    assert_eq!(particles[0].mass, 100);
    assert_eq!(particles[1].radius, 1);
}

#[test]
fn gravity_tick_without_particles() {
    let positions: Vec<Position> = Vec::new();
    let mut particles: Vec<Particle> = Vec::new();
    let mut tree = Quadtree::new(ONE as u32, ONE as u32);
    tree.clear(Quad { center: Vec2::new(3, 3), size: 9 });
    tree.insert(Vec2::new(1, 1), 1);
    handle_quadtree_gravity(&mut tree, &positions, &mut particles);
    assert_eq!(tree.nodes.len(), 1);
    assert!(tree.nodes[0].is_empty());
    assert_eq!(tree.nodes[0].quad.size, 0);
    assert!(particles.is_empty());
}

#[test]
fn gravity_tick_discards_the_tree_of_the_tick_before() {
    let positions = vec![Position { x: 0, y: 0 }, Position { x: ONE, y: ONE }];
    let mut particles = vec![
        Particle { vel_x: 0, vel_y: 0, mass: 1, radius: 1 },
        Particle { vel_x: 0, vel_y: 0, mass: 2, radius: 1 },
    ];
    let mut tree = Quadtree::new(ONE as u32, ONE as u32);
    handle_quadtree_gravity(&mut tree, &positions, &mut particles);
    let nodes = tree.nodes.len();
    handle_quadtree_gravity(&mut tree, &positions, &mut particles);
    assert_eq!(tree.nodes.len(), nodes);
    assert_eq!(tree.nodes[0].mass, 3);
}
