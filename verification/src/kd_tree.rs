//! A kd-tree over indexed points, rebuilt from scratch for every tick, and
//! the radius-bounded neighbour query on it.
pub mod collision;

pub use collision::handle_collision_kd_tree;

use crate::vec2::{length_sq, squared_length};
use vstd::prelude::*;

verus! {

/// A point together with the index of the particle it belongs to.
pub type IndexedPoint = (usize, [i32; 2]);

/// One node of the kd-tree.  A node at depth `d` splits along axis
/// `d mod 2`: nothing in `left` lies beyond it on that axis, and nothing in
/// `right` lies before it.
#[derive(Debug)]
pub struct KdNode {
    pub point: [i32; 2],
    pub index: usize,
    pub left: Option<Box<KdNode>>,
    pub right: Option<Box<KdNode>>,
}

/// Number of nodes of a tree.
pub open spec fn tree_size(t: Option<Box<KdNode>>) -> nat
    decreases t,
{
    match t {
        None => 0,
        Some(n) => 1 + tree_size(n.left) + tree_size(n.right),
    }
}

/// The points of a tree in the order in which a query visits them: a node,
/// then its left subtree, then its right subtree.
pub open spec fn tree_points(t: Option<Box<KdNode>>) -> Seq<IndexedPoint>
    decreases t,
{
    match t {
        None => Seq::empty(),
        Some(n) => seq![(n.index, n.point)] + tree_points(n.left) + tree_points(n.right),
    }
}

/// Every point of `s` has a coordinate of at most `bound` along `axis`.
pub open spec fn all_at_most(s: Seq<IndexedPoint>, axis: int, bound: int) -> bool {
    forall|i: int| 0 <= i < s.len() ==> (#[trigger] s[i]).1[axis] <= bound
}

/// Every point of `s` has a coordinate of at least `bound` along `axis`.
pub open spec fn all_at_least(s: Seq<IndexedPoint>, axis: int, bound: int) -> bool {
    forall|i: int| 0 <= i < s.len() ==> (#[trigger] s[i]).1[axis] >= bound
}

/// The splitting planes are respected throughout a tree rooted at `depth`.
pub open spec fn kd_ordered(t: Option<Box<KdNode>>, depth: nat) -> bool
    decreases t,
{
    match t {
        None => true,
        Some(n) => {
            let axis = (depth % 2) as int;
            &&& all_at_most(tree_points(n.left), axis, n.point[axis] as int)
            &&& all_at_least(tree_points(n.right), axis, n.point[axis] as int)
            &&& kd_ordered(n.left, depth + 1)
            &&& kd_ordered(n.right, depth + 1)
        },
    }
}

/// Every node splits its points at the median: the left subtree holds half
/// of the node's points, rounded down, and the right subtree the rest.
pub open spec fn median_split(t: Option<Box<KdNode>>) -> bool
    decreases t,
{
    match t {
        None => true,
        Some(n) => {
            &&& tree_size(n.left) == tree_size(t) / 2
            &&& median_split(n.left)
            &&& median_split(n.right)
        },
    }
}

/// `point` lies within `radius` of `target`, by squared Euclidean distance.
pub open spec fn within(point: [i32; 2], target: [i32; 2], radius: u32) -> bool {
    length_sq(point[0] - target[0], point[1] - target[1]) <= radius * radius
}

/// The indices of the points of `s` within `radius` of `target`, in the
/// order of `s`.
pub open spec fn matches_in(s: Seq<IndexedPoint>, target: [i32; 2], radius: u32) -> Seq<usize>
    decreases s.len(),
{
    if s.len() == 0 {
        Seq::empty()
    } else if within(s.last().1, target, radius) {
        matches_in(s.drop_last(), target, radius).push(s.last().0)
    } else {
        matches_in(s.drop_last(), target, radius)
    }
}

/// The matches of a concatenation are the matches of its parts, in order.
pub proof fn lemma_matches_concat(
    a: Seq<IndexedPoint>,
    b: Seq<IndexedPoint>,
    target: [i32; 2],
    radius: u32,
)
    ensures
        matches_in(a + b, target, radius) == matches_in(a, target, radius) + matches_in(
            b,
            target,
            radius,
        ),
    decreases b.len(),
{
    if b.len() == 0 {
        assert(a + b =~= a);
        assert(matches_in(a, target, radius) + Seq::<usize>::empty() =~= matches_in(
            a,
            target,
            radius,
        ));
    } else {
        assert((a + b).drop_last() =~= a + b.drop_last());
        lemma_matches_concat(a, b.drop_last(), target, radius);
        let ma = matches_in(a, target, radius);
        let mb = matches_in(b.drop_last(), target, radius);
        assert((ma + mb).push(b.last().0) =~= ma + mb.push(b.last().0));
    }
}

/// A sequence with no point in range has no match.
pub proof fn lemma_no_matches(s: Seq<IndexedPoint>, target: [i32; 2], radius: u32)
    requires
        forall|i: int| 0 <= i < s.len() ==> !within((#[trigger] s[i]).1, target, radius),
    ensures
        matches_in(s, target, radius) == Seq::<usize>::empty(),
    decreases s.len(),
{
    if s.len() > 0 {
        lemma_no_matches(s.drop_last(), target, radius);
    }
}

/// An index is among the matches exactly if it belongs to a point in range.
pub proof fn lemma_match_iff(s: Seq<IndexedPoint>, target: [i32; 2], radius: u32, index: usize)
    ensures
        matches_in(s, target, radius).contains(index) <==> exists|k: int|
            0 <= k < s.len() && (#[trigger] s[k]).0 == index && within(s[k].1, target, radius),
    decreases s.len(),
{
    let found = matches_in(s, target, radius);
    if s.len() > 0 {
        let rest = matches_in(s.drop_last(), target, radius);
        lemma_match_iff(s.drop_last(), target, radius, index);
        if found.contains(index) {
            let i = choose|i: int| 0 <= i < found.len() && found[i] == index;
            if within(s.last().1, target, radius) && i == found.len() - 1 {
                assert(s[s.len() - 1].0 == index);
            } else {
                assert(rest[i] == index);
                assert(rest.contains(index));
                let k = choose|k: int|
                    0 <= k < s.drop_last().len() && (#[trigger] s.drop_last()[k]).0 == index
                        && within(s.drop_last()[k].1, target, radius);
                assert(s[k].0 == index);
            }
        }
        if exists|k: int|
            0 <= k < s.len() && (#[trigger] s[k]).0 == index && within(s[k].1, target, radius) {
            let k = choose|k: int|
                0 <= k < s.len() && (#[trigger] s[k]).0 == index && within(s[k].1, target, radius);
            if k == s.len() - 1 {
                assert(found[found.len() - 1] == index);
            } else {
                assert(s.drop_last()[k].0 == index);
                assert(rest.contains(index));
                let i = choose|i: int| 0 <= i < rest.len() && rest[i] == index;
                assert(found[i] == index);
            }
        }
    }
}

/// Taking one point out of a sequence takes its match, if it is one, out of
/// the matches.
pub proof fn lemma_matches_remove(s: Seq<IndexedPoint>, k: int, target: [i32; 2], radius: u32)
    requires
        0 <= k < s.len(),
    ensures
        matches_in(s, target, radius).to_multiset() == matches_in(
            s.remove(k),
            target,
            radius,
        ).to_multiset().add(matches_in(seq![s[k]], target, radius).to_multiset()),
{
    let before = s.subrange(0, k);
    let one = seq![s[k]];
    let after = s.subrange(k + 1, s.len() as int);
    assert(s =~= before + one + after);
    assert(s.remove(k) =~= before + after);
    lemma_matches_concat(before, one, target, radius);
    lemma_matches_concat(before + one, after, target, radius);
    lemma_matches_concat(before, after, target, radius);
    let mb = matches_in(before, target, radius);
    let mo = matches_in(one, target, radius);
    let ma = matches_in(after, target, radius);
    vstd::seq_lib::lemma_multiset_commutative(mb + mo, ma);
    vstd::seq_lib::lemma_multiset_commutative(mb, mo);
    vstd::seq_lib::lemma_multiset_commutative(mb, ma);
    assert((mb + mo + ma).to_multiset() =~= (mb + ma).to_multiset().add(mo.to_multiset()));
}

/// The matches of a sequence, as a multiset, do not depend on the order of
/// its points.
pub proof fn lemma_matches_of_permutation(
    a: Seq<IndexedPoint>,
    b: Seq<IndexedPoint>,
    target: [i32; 2],
    radius: u32,
)
    requires
        a.to_multiset() == b.to_multiset(),
    ensures
        matches_in(a, target, radius).to_multiset() == matches_in(b, target, radius).to_multiset(),
    decreases a.len(),
{
    a.to_multiset_ensures();
    b.to_multiset_ensures();
    if a.len() == 0 {
        assert(b.len() == 0);
        assert(a =~= b);
    } else {
        let x = a.last();
        let k = a.len() - 1;
        assert(a.contains(x));
        assert(b.to_multiset().count(x) > 0);
        assert(b.contains(x));
        let j = choose|j: int| 0 <= j < b.len() && b[j] == x;
        assert(a.remove(k).to_multiset() =~= b.remove(j).to_multiset());
        lemma_matches_of_permutation(a.remove(k), b.remove(j), target, radius);
        lemma_matches_remove(a, k, target, radius);
        lemma_matches_remove(b, j, target, radius);
    }
}

/// What a query finds is what a scan of all points finds: if `tree` holds
/// exactly the points of `points`, then the matches among its points are, up
/// to their order, the matches among `points`.  Nothing out of range is
/// reported and nothing in range is left out.
pub proof fn lemma_search_is_scan(
    tree: Option<Box<KdNode>>,
    points: Seq<IndexedPoint>,
    target: [i32; 2],
    radius: u32,
)
    requires
        tree_points(tree).to_multiset() == points.to_multiset(),
    ensures
        matches_in(tree_points(tree), target, radius).to_multiset() == matches_in(
            points,
            target,
            radius,
        ).to_multiset(),
        forall|index: usize|
            matches_in(tree_points(tree), target, radius).contains(index) <==> exists|k: int|
                0 <= k < points.len() && (#[trigger] points[k]).0 == index && within(
                    points[k].1,
                    target,
                    radius,
                ),
{
    lemma_matches_of_permutation(tree_points(tree), points, target, radius);
    let found = matches_in(tree_points(tree), target, radius);
    let scanned = matches_in(points, target, radius);
    found.to_multiset_ensures();
    scanned.to_multiset_ensures();
    assert forall|index: usize|
        found.contains(index) <==> exists|k: int|
            0 <= k < points.len() && (#[trigger] points[k]).0 == index && within(
                points[k].1,
                target,
                radius,
            ) by {
        lemma_match_iff(points, target, radius, index);
        assert(found.contains(index) <==> found.to_multiset().count(index) > 0);
        assert(scanned.contains(index) <==> scanned.to_multiset().count(index) > 0);
    }
}

/// The number of points of a tree is its number of nodes.
pub proof fn lemma_tree_points_len(t: Option<Box<KdNode>>)
    ensures
        tree_points(t).len() == tree_size(t),
    decreases t,
{
    match t {
        None => {},
        Some(n) => {
            lemma_tree_points_len(n.left);
            lemma_tree_points_len(n.right);
        },
    }
}

/// A point that is more than `radius` away from `target` along one axis is
/// not within `radius` of it.
pub proof fn lemma_beyond_plane(point: [i32; 2], target: [i32; 2], radius: u32, axis: int)
    requires
        axis == 0 || axis == 1,
        target[axis] - point[axis] > radius || point[axis] - target[axis] > radius,
    ensures
        !within(point, target, radius),
{
    let dx = point[0] - target[0];
    let dy = point[1] - target[1];
    let d = point[axis] - target[axis];
    assert(d * d > radius * radius) by (nonlinear_arith)
        requires
            d > radius || -d > radius,
            radius >= 0,
    ;
    assert(dx * dx >= 0 && dy * dy >= 0) by (nonlinear_arith);
}

/// The coordinates of `s` along `axis` never decrease.
pub open spec fn ascending(s: Seq<IndexedPoint>, axis: int) -> bool {
    forall|i: int, j: int| 0 <= i <= j < s.len() ==> s[i].1[axis] <= s[j].1[axis]
}

/// The points of `s` whose coordinate along `axis` is `key`, in the order
/// of `s`.
pub open spec fn with_key(s: Seq<IndexedPoint>, axis: int, key: i32) -> Seq<IndexedPoint>
    decreases s.len(),
{
    if s.len() == 0 {
        Seq::empty()
    } else if s.last().1[axis] == key {
        with_key(s.drop_last(), axis, key).push(s.last())
    } else {
        with_key(s.drop_last(), axis, key)
    }
}

/// `t` is `s` sorted along `axis` by a stable sort: a rearrangement of `s`
/// in ascending order of the coordinate, in which points with the same
/// coordinate keep the order they have in `s`.
pub open spec fn is_stable_sort(t: Seq<IndexedPoint>, s: Seq<IndexedPoint>, axis: int) -> bool {
    &&& t.to_multiset() == s.to_multiset()
    &&& ascending(t, axis)
    &&& forall|key: i32| #[trigger] with_key(t, axis, key) == with_key(s, axis, key)
}

/// The sequence `s` sorted along `axis` by a stable sort.
pub open spec fn stable_sorted(s: Seq<IndexedPoint>, axis: int) -> Seq<IndexedPoint> {
    choose|t: Seq<IndexedPoint>| is_stable_sort(t, s, axis)
}

/// Where some point of `s` has the coordinate `key`, `s` holds it.
pub proof fn lemma_with_key_member(s: Seq<IndexedPoint>, axis: int, key: i32)
    requires
        with_key(s, axis, key).len() > 0,
    ensures
        exists|i: int| 0 <= i < s.len() && (#[trigger] s[i]).1[axis] == key,
    decreases s.len(),
{
    if s.len() > 0 {
        if s.last().1[axis] == key {
            assert(s[s.len() - 1].1[axis] == key);
        } else {
            lemma_with_key_member(s.drop_last(), axis, key);
            let i = choose|i: int|
                0 <= i < s.drop_last().len() && (#[trigger] s.drop_last()[i]).1[axis] == key;
            assert(s[i].1[axis] == key);
        }
    }
}

/// Two ascending sequences of the same length that agree on the points of
/// every single coordinate are the same sequence.
pub proof fn lemma_groups_determine(a: Seq<IndexedPoint>, b: Seq<IndexedPoint>, axis: int)
    requires
        ascending(a, axis),
        ascending(b, axis),
        a.len() == b.len(),
        forall|key: i32| #[trigger] with_key(a, axis, key) == with_key(b, axis, key),
    ensures
        a =~= b,
    decreases a.len(),
{
    if a.len() > 0 {
        let ka = a.last().1[axis];
        let kb = b.last().1[axis];
        let ga = with_key(a.drop_last(), axis, ka);
        let gb = with_key(b.drop_last(), axis, kb);
        assert(with_key(a, axis, ka) == ga.push(a.last()));
        assert(with_key(b, axis, kb) == gb.push(b.last()));
        assert(with_key(b, axis, ka) == with_key(a, axis, ka));
        assert(with_key(a, axis, kb) == with_key(b, axis, kb));
        lemma_with_key_member(b, axis, ka);
        lemma_with_key_member(a, axis, kb);
        let i = choose|i: int| 0 <= i < b.len() && (#[trigger] b[i]).1[axis] == ka;
        assert(b[i].1[axis] <= b[b.len() - 1].1[axis]);
        let j = choose|j: int| 0 <= j < a.len() && (#[trigger] a[j]).1[axis] == kb;
        assert(a[j].1[axis] <= a[a.len() - 1].1[axis]);
        assert(ka == kb);
        assert(ga.push(a.last()) == gb.push(b.last()));
        assert(ga.push(a.last()).last() == a.last());
        assert(gb.push(b.last()).last() == b.last());
        assert(ga.push(a.last()).drop_last() =~= ga);
        assert(gb.push(b.last()).drop_last() =~= gb);
        assert forall|key: i32| #[trigger] with_key(a.drop_last(), axis, key) == with_key(
            b.drop_last(),
            axis,
            key,
        ) by {
            assert(with_key(a, axis, key) == with_key(b, axis, key));
        }
        assert(ascending(a.drop_last(), axis)) by {
            assert forall|i: int, j: int| 0 <= i <= j < a.drop_last().len() implies a.drop_last()[i].1[axis]
                <= a.drop_last()[j].1[axis] by {
                assert(a[i].1[axis] <= a[j].1[axis]);
            }
        }
        assert(ascending(b.drop_last(), axis)) by {
            assert forall|i: int, j: int| 0 <= i <= j < b.drop_last().len() implies b.drop_last()[i].1[axis]
                <= b.drop_last()[j].1[axis] by {
                assert(b[i].1[axis] <= b[j].1[axis]);
            }
        }
        lemma_groups_determine(a.drop_last(), b.drop_last(), axis);
        assert(a =~= a.drop_last().push(a.last()));
        assert(b =~= b.drop_last().push(b.last()));
    }
}

/// A stable sort has one outcome only: whatever is `s` sorted along `axis`
/// by a stable sort is `stable_sorted(s, axis)`.
pub proof fn lemma_stable_sort_unique(t: Seq<IndexedPoint>, s: Seq<IndexedPoint>, axis: int)
    requires
        is_stable_sort(t, s, axis),
    ensures
        t == stable_sorted(s, axis),
{
    let u = stable_sorted(s, axis);
    assert(is_stable_sort(u, s, axis));
    t.to_multiset_ensures();
    u.to_multiset_ensures();
    assert forall|key: i32| #[trigger] with_key(t, axis, key) == with_key(u, axis, key) by {
        assert(with_key(t, axis, key) == with_key(s, axis, key));
        assert(with_key(u, axis, key) == with_key(s, axis, key));
    }
    lemma_groups_determine(t, u, axis);
}

/// The kd-tree of `points`, whose root splits along axis `depth mod 2`: the
/// points are sorted along the axis by a stable sort; the median becomes the
/// node, and the points before and after it become its left and right
/// subtree, one level deeper.  No points, no tree.
pub open spec fn kd_tree_of(points: Seq<IndexedPoint>, depth: nat) -> Option<Box<KdNode>>
    decreases points.len(),
{
    let sorted = stable_sorted(points, (depth % 2) as int);
    let mid = (points.len() / 2) as int;
    if points.len() == 0 || sorted.len() != points.len() {
        None
    } else {
        Some(
            Box::new(
                KdNode {
                    point: sorted[mid].1,
                    index: sorted[mid].0,
                    left: kd_tree_of(sorted.subrange(0, mid), depth + 1),
                    right: kd_tree_of(sorted.subrange(mid + 1, sorted.len() as int), depth + 1),
                },
            ),
        )
    }
}

/// Sorts `points` by their coordinate along `axis`.
///
/// This is `sort_by_key` of the standard library on slices.  Its
/// documentation promises a stable sort: the slice is rearranged (nothing is
/// added or lost) into ascending order of the key, and elements with equal
/// keys keep their order.
#[verifier::external_body]
fn sort_by_axis(points: &mut [IndexedPoint], axis: usize)
    requires
        axis < 2,
    ensures
        is_stable_sort(final(points)@, old(points)@, axis as int),
{
    points.sort_by_key(|p| p.1[axis]);
}

/// Builds the kd-tree of `points`, whose root splits along axis
/// `depth mod 2`.
///
/// The points are sorted along the axis by a stable sort; the median
/// becomes the node, and the points before and after it become its left and
/// right subtree, one level deeper.  The slice is rearranged in the process.
/// An empty slice gives the empty tree.
pub fn build_kd_tree(points: &mut [IndexedPoint], depth: usize) -> (t: Option<Box<KdNode>>)
    requires
        depth + old(points)@.len() <= usize::MAX,
    ensures
        t == kd_tree_of(old(points)@, depth as nat),
        tree_points(t).to_multiset() == old(points)@.to_multiset(),
        tree_size(t) == old(points)@.len(),
        kd_ordered(t, depth as nat),
        median_split(t),
        final(points)@.to_multiset() == old(points)@.to_multiset(),
    decreases old(points)@.len(),
{
    broadcast use vstd::seq_lib::group_to_multiset_ensures;

    if points.len() == 0 {
        assert(points@ =~= Seq::empty());
        return None;
    }
    let axis: usize = depth % 2;
    sort_by_axis(points, axis);
    let ghost sorted = points@;
    proof {
        old(points)@.to_multiset_ensures();
        sorted.to_multiset_ensures();
        lemma_stable_sort_unique(sorted, old(points)@, axis as int);
    }
    let mid: usize = points.len() / 2;
    let (index, point) = points[mid];
    let (left, rest) = points.split_at_mut(mid);
    let (middle, right) = rest.split_at_mut(1);
    let ghost left_sorted = left@;
    let ghost right_sorted = right@;
    let ghost middle_sorted = middle@;
    let l = build_kd_tree(left, depth + 1);
    let r = build_kd_tree(right, depth + 1);
    let t = Some(Box::new(KdNode { point, index, left: l, right: r }));
    proof {
        assert(sorted =~= left_sorted + middle_sorted + right_sorted);
        assert(middle_sorted =~= seq![(index, point)]);
        lemma_tree_points_len(l);
        lemma_tree_points_len(r);
        // Everything in the left subtree came from before the median.
        assert forall|i: int| 0 <= i < tree_points(l).len() implies (#[trigger] tree_points(
            l,
        )[i]).1[axis as int] <= point[axis as int] by {
            let x = tree_points(l)[i];
            tree_points(l).to_multiset_ensures();
            left_sorted.to_multiset_ensures();
            assert(tree_points(l).contains(x));
            assert(tree_points(l).to_multiset().count(x) > 0);
            assert(left_sorted.to_multiset().count(x) > 0);
            assert(left_sorted.contains(x));
            let j = choose|j: int| 0 <= j < left_sorted.len() && left_sorted[j] == x;
            assert(sorted[j] == x);
        }
        assert forall|i: int| 0 <= i < tree_points(r).len() implies (#[trigger] tree_points(
            r,
        )[i]).1[axis as int] >= point[axis as int] by {
            let x = tree_points(r)[i];
            tree_points(r).to_multiset_ensures();
            right_sorted.to_multiset_ensures();
            assert(tree_points(r).contains(x));
            assert(tree_points(r).to_multiset().count(x) > 0);
            assert(right_sorted.to_multiset().count(x) > 0);
            assert(right_sorted.contains(x));
            let j = choose|j: int| 0 <= j < right_sorted.len() && right_sorted[j] == x;
            assert(sorted[mid + 1 + j] == x);
        }
        vstd::seq_lib::lemma_multiset_commutative(left_sorted + middle_sorted, right_sorted);
        vstd::seq_lib::lemma_multiset_commutative(left_sorted, middle_sorted);
        vstd::seq_lib::lemma_multiset_commutative(
            seq![(index, point)] + tree_points(l),
            tree_points(r),
        );
        vstd::seq_lib::lemma_multiset_commutative(seq![(index, point)], tree_points(l));
        assert(tree_points(t).to_multiset() =~= sorted.to_multiset());
        vstd::seq_lib::lemma_multiset_commutative(left@ + middle@, right@);
        vstd::seq_lib::lemma_multiset_commutative(left@, middle@);
        assert(left@ + (middle@ + right@) =~= left@ + middle@ + right@);
        // The tree is the tree of the points.
        assert(stable_sorted(old(points)@, (depth as nat % 2) as int) == sorted);
        assert(sorted.len() == old(points)@.len());
        assert(left_sorted =~= sorted.subrange(0, mid as int));
        assert(right_sorted =~= sorted.subrange(mid + 1, sorted.len() as int));
        assert(l == kd_tree_of(sorted.subrange(0, mid as int), depth as nat + 1));
        assert(r == kd_tree_of(
            sorted.subrange(mid + 1, sorted.len() as int),
            depth as nat + 1,
        ));
        assert(sorted[mid as int] == (index, point));
    }
    t
}

/// Appends to `results` the indices of all points of the tree within
/// `radius` of `target`, in the order node, left subtree, right subtree.
///
/// A subtree is entered unless its splitting plane is farther than `radius`
/// from `target`; what is skipped holds no point in range, so the outcome is
/// that of testing every point of the tree.
pub fn search_radius(
    node: &Option<Box<KdNode>>,
    target: [i32; 2],
    radius: u32,
    depth: usize,
    results: &mut Vec<usize>,
)
    requires
        kd_ordered(*node, depth as nat),
        depth + tree_size(*node) <= usize::MAX,
    ensures
        final(results)@ == old(results)@ + matches_in(tree_points(*node), target, radius),
    decreases *node,
{
    if let Some(n) = node {
        let axis: usize = depth % 2;
        let dx: i64 = n.point[0] as i64 - target[0] as i64;
        let dy: i64 = n.point[1] as i64 - target[1] as i64;
        let dist_sq: u128 = squared_length(dx, dy);
        assert(radius * radius <= 0xffff_ffff * 0xffff_ffff) by (nonlinear_arith)
            requires
                0 <= radius <= 0xffff_ffff,
        ;
        let reach: u128 = (radius as u128) * (radius as u128);
        let ghost before = results@;
        if dist_sq <= reach {
            results.push(n.index);
        }
        let ghost here = seq![(n.index, n.point)];
        proof {
            assert(here.drop_last() =~= Seq::empty());
            assert(matches_in(here.drop_last(), target, radius) =~= Seq::empty());
            assert(results@ =~= before + matches_in(here, target, radius));
        }
        let diff: i64 = target[axis] as i64 - n.point[axis] as i64;
        if diff <= radius as i64 {
            search_radius(&n.left, target, radius, depth + 1, results);
        } else {
            proof {
                assert forall|i: int| 0 <= i < tree_points(n.left).len() implies !within(
                    (#[trigger] tree_points(n.left)[i]).1,
                    target,
                    radius,
                ) by {
                    lemma_beyond_plane(tree_points(n.left)[i].1, target, radius, axis as int);
                }
                lemma_no_matches(tree_points(n.left), target, radius);
            }
        }
        let ghost after_left = results@;
        assert(after_left =~= before + matches_in(here, target, radius) + matches_in(
            tree_points(n.left),
            target,
            radius,
        ));
        if diff >= -(radius as i64) {
            search_radius(&n.right, target, radius, depth + 1, results);
        } else {
            proof {
                assert forall|i: int| 0 <= i < tree_points(n.right).len() implies !within(
                    (#[trigger] tree_points(n.right)[i]).1,
                    target,
                    radius,
                ) by {
                    lemma_beyond_plane(tree_points(n.right)[i].1, target, radius, axis as int);
                }
                lemma_no_matches(tree_points(n.right), target, radius);
            }
        }
        proof {
            lemma_matches_concat(here, tree_points(n.left), target, radius);
            lemma_matches_concat(here + tree_points(n.left), tree_points(n.right), target, radius);
            assert(results@ =~= before + matches_in(tree_points(*node), target, radius));
        }
    } else {
        assert(results@ =~= old(results)@ + matches_in(tree_points(*node), target, radius));
    }
}

} // verus!
