//! Where an inserted point ends up: in the leaf that its own position leads
//! to, so that inserting the same position again adds to that leaf.
use crate::quad_tree::arena::{lemma_sum_bounds, lemma_sum_nonnegative, Arena};
use crate::vec2::Vec2;
use vstd::prelude::*;

verus! {

impl Arena {
    /// `self` has every node of `before` as it was, except possibly for
    /// node `n`.
    pub open spec fn extends_but_at(self, before: Arena, n: int) -> bool {
        &&& self.nodes.len() >= before.nodes.len()
        &&& forall|i: int|
            0 <= i < before.nodes.len() && i != n ==> #[trigger] self.nodes[i] == before.nodes[i]
    }

    /// A descent ends at a leaf inside the arena.
    pub proof fn lemma_descent_ends_at_leaf(self, start: int, p: Vec2)
        requires
            self.shape_wf(),
            0 <= start < self.nodes.len(),
        ensures
            start <= self.find_leaf(start, p) < self.nodes.len(),
            self.nodes[self.find_leaf(start, p)].children == 0,
        decreases self.nodes.len() - start,
    {
        if self.nodes[start].children != 0 {
            self.lemma_children_in_range(start);
            let next = self.nodes[start].children + self.nodes[start].quad.quadrant_of(p);
            self.lemma_descent_ends_at_leaf(next, p);
        }
    }

    /// A descent that led to node `n` still leads there when only `n` itself
    /// has changed and nodes were appended; from there it goes on as `n` now
    /// says.
    pub proof fn lemma_descent_unchanged(self, after: Arena, start: int, n: int, p: Vec2)
        requires
            self.shape_wf(),
            after.extends_but_at(self, n),
            0 <= start < self.nodes.len(),
            self.find_leaf(start, p) == n,
        ensures
            after.find_leaf(start, p) == after.find_leaf(n, p),
        decreases self.nodes.len() - start,
    {
        if start != n {
            self.lemma_children_in_range(start);
            let next = self.nodes[start].children + self.nodes[start].quad.quadrant_of(p);
            assert(after.nodes[start] == self.nodes[start]);
            self.lemma_descent_unchanged(after, next, n, p);
        }
    }

    /// A descent that led to another leaf than `n` is what it was when only
    /// the leaf `n` has changed and nodes were appended.
    pub proof fn lemma_descent_elsewhere(self, after: Arena, start: int, n: int, p: Vec2)
        requires
            self.shape_wf(),
            after.extends_but_at(self, n),
            0 <= start < self.nodes.len(),
            0 <= n < self.nodes.len(),
            self.nodes[n].children == 0,
            self.find_leaf(start, p) != n,
        ensures
            after.find_leaf(start, p) == self.find_leaf(start, p),
        decreases self.nodes.len() - start,
    {
        assert(after.nodes[start] == self.nodes[start]);
        if self.nodes[start].children != 0 {
            self.lemma_children_in_range(start);
            let next = self.nodes[start].children + self.nodes[start].quad.quadrant_of(p);
            self.lemma_descent_elsewhere(after, next, n, p);
        }
    }

    /// Splitting never removes a node.
    pub proof fn lemma_split_grows(self, n: int, p: Vec2, m: u32, pos: Vec2, mass: u32)
        requires
            0 <= n < self.nodes.len(),
        ensures
            self.split(n, p, m, pos, mass).nodes.len() >= self.nodes.len(),
        decreases self.nodes[n].quad.size,
    {
        let quad = self.nodes[n].quad;
        let q1 = quad.quadrant_of(p);
        let q2 = quad.quadrant_of(pos);
        self.lemma_subdivided_nodes(n);
        if q1 == q2 && !quad.too_small_to_split() {
            self.subdivided(n).lemma_split_grows(self.nodes.len() + q1, p, m, pos, mass);
        }
    }

    /// A split subdivides no more often than the region of the leaf can be
    /// split in a row, and once more where the two points separate at the
    /// very end: the depth of the tree is bounded by the size of the root.
    pub proof fn lemma_split_bounded(self, n: int, p: Vec2, m: u32, pos: Vec2, mass: u32)
        requires
            0 <= n < self.nodes.len(),
        ensures
            self.split(n, p, m, pos, mass).nodes.len() <= self.nodes.len() + 4 * (
            self.nodes[n].quad.splits_left() + 1),
            self.split(n, p, m, pos, mass).nodes.len() <= self.nodes.len() + 124,
        decreases self.nodes[n].quad.size,
    {
        let quad = self.nodes[n].quad;
        let q1 = quad.quadrant_of(p);
        let q2 = quad.quadrant_of(pos);
        self.lemma_subdivided_nodes(n);
        quad.lemma_splits_bounded();
        if q1 == q2 && !quad.too_small_to_split() {
            let a1 = self.subdivided(n);
            let c = self.nodes.len() as int;
            a1.lemma_split_bounded(c + q1, p, m, pos, mass);
            assert(quad.child(q1).splits_left() == quad.child(0).splits_left()) by {
                quad.lemma_children_alike(q1);
            }
        }
    }

    /// An insertion adds at most 124 nodes to the arena.
    pub proof fn lemma_inserted_bounded(self, pos: Vec2, mass: u32)
        requires
            self.shape_wf(),
        ensures
            self.nodes.len() <= self.inserted(pos, mass).nodes.len() <= self.nodes.len() + 124,
    {
        let n = self.find_leaf(0, pos);
        self.lemma_descent_ends_at_leaf(0, pos);
        self.lemma_split_bounded(n, self.nodes[n].pos, self.nodes[n].mass, pos, mass);
        self.lemma_split_grows(n, self.nodes[n].pos, self.nodes[n].mass, pos, mass);
    }

    /// What a split leaves behind.  The arena keeps its shape and every
    /// other node.  Where subdivision separates the two points, each is
    /// found from the split leaf in a leaf of its own; otherwise both lead to
    /// one leaf, too small to split, that holds the old point with both
    /// masses.  Whatever else the split has touched or added holds no mass
    /// as a leaf.
    pub proof fn lemma_split_places(self, n: int, p: Vec2, m: u32, pos: Vec2, mass: u32)
        requires
            self.shape_wf(),
            0 <= n < self.nodes.len(),
            self.nodes[n].children == 0,
            self.split(n, p, m, pos, mass).nodes.len() <= usize::MAX,
        ensures
            ({
                let after = self.split(n, p, m, pos, mass);
                let old_leaf = after.find_leaf(n, p);
                let new_leaf = after.find_leaf(n, pos);
                &&& after.shape_wf()
                &&& after.extends_but_at(self, n)
                &&& 0 <= old_leaf < after.nodes.len()
                &&& 0 <= new_leaf < after.nodes.len()
                &&& old_leaf == n || old_leaf >= self.nodes.len()
                &&& new_leaf == n || new_leaf >= self.nodes.len()
                &&& after.nodes[old_leaf].children == 0
                &&& after.nodes[new_leaf].children == 0
                &&& self.nodes[n].quad.separates(p, pos) ==> {
                    &&& old_leaf != new_leaf
                    &&& after.nodes[old_leaf].pos == p
                    &&& after.nodes[old_leaf].mass == m
                    &&& after.nodes[new_leaf].pos == pos
                    &&& after.nodes[new_leaf].mass == mass
                }
                &&& !self.nodes[n].quad.separates(p, pos) ==> {
                    &&& old_leaf == new_leaf
                    &&& after.nodes[old_leaf].pos == p
                    &&& after.nodes[old_leaf].mass == (m + mass) as u32
                    &&& after.nodes[old_leaf].quad.too_small_to_split()
                    &&& after.nodes[old_leaf].quad.quadrant_of(p)
                        == after.nodes[old_leaf].quad.quadrant_of(pos)
                }
                &&& forall|i: int|
                    (i == n || self.nodes.len() <= i < after.nodes.len()) && i != old_leaf && i
                        != new_leaf ==> (#[trigger] after.nodes[i]).leaf_mass() == 0
            }),
        decreases self.nodes[n].quad.size,
    {
        let quad = self.nodes[n].quad;
        let q1 = quad.quadrant_of(p);
        let q2 = quad.quadrant_of(pos);
        let c = self.nodes.len() as int;
        let after = self.split(n, p, m, pos, mass);
        self.lemma_subdivided_nodes(n);
        if q1 != q2 {
            let a1 = self.subdivided(n);
            let a2 = a1.with_leaf(c + q1, p, m);
            self.lemma_subdivided(n);
            a1.lemma_with_leaf(c + q1, p, m);
            a2.lemma_with_leaf(c + q2, pos, mass);
            assert(after.find_leaf(c + q1, p) == c + q1);
            assert(after.find_leaf(c + q2, pos) == c + q2);
        } else if quad.too_small_to_split() {
            self.lemma_with_leaf(n, p, (m + mass) as u32);
        } else {
            let a1 = self.subdivided(n);
            a1.lemma_split_grows(c + q1, p, m, pos, mass);
            self.lemma_subdivided(n);
            a1.lemma_split_places(c + q1, p, m, pos, mass);
            assert(after.nodes[n] == a1.nodes[n]);
            assert forall|i: int|
                (i == n || self.nodes.len() <= i < after.nodes.len()) && i != after.find_leaf(
                    n,
                    p,
                ) && i != after.find_leaf(n, pos) implies (#[trigger] after.nodes[i]).leaf_mass()
                == 0 by {
                if i < a1.nodes.len() && i != c + q1 {
                    assert(after.nodes[i] == a1.nodes[i]);
                }
            }
            assert forall|i: int| 0 <= i < self.nodes.len() && i != n implies #[trigger] after.nodes[i]
                == self.nodes[i] by {
                assert(after.nodes[i] == a1.nodes[i]);
            }
        }
    }

    /// The leaf that `pos` leads to is unoccupied, or holds another point
    /// from which subdivision separates `pos`: inserting at `pos` gives the
    /// point a leaf of its own.
    pub open spec fn has_room_for(self, pos: Vec2) -> bool {
        let n = self.find_leaf(0, pos);
        self.nodes[n].mass == 0 || (self.nodes[n].pos != pos && self.nodes[n].quad.separates(
            self.nodes[n].pos,
            pos,
        ))
    }

    /// The leaf that `pos` leads to holds a point exactly at `pos`.
    pub open spec fn holds(self, pos: Vec2) -> bool {
        let n = self.find_leaf(0, pos);
        self.nodes[n].mass > 0 && self.nodes[n].pos == pos
    }

    /// After an insertion every occupied leaf is still the leaf that its own
    /// position leads to.
    pub proof fn lemma_inserted_found(self, pos: Vec2, mass: u32)
        requires
            self.shape_wf(),
            self.leaves_found(),
            self.inserted(pos, mass).nodes.len() <= usize::MAX,
        ensures
            self.inserted(pos, mass).shape_wf(),
            self.inserted(pos, mass).leaves_found(),
    {
        let n = self.find_leaf(0, pos);
        let node = self.nodes[n];
        let after = self.inserted(pos, mass);
        self.lemma_descent_ends_at_leaf(0, pos);
        if node.mass == 0 || node.pos == pos {
            let held = if node.mass == 0 {
                mass
            } else {
                (node.mass + mass) as u32
            };
            self.lemma_with_leaf(n, pos, held);
            assert(after == self.with_leaf(n, pos, held));
            assert forall|i: int|
                0 <= i < after.nodes.len() && (#[trigger] after.nodes[i]).children == 0
                    && after.nodes[i].mass > 0 implies after.find_leaf(0, after.nodes[i].pos)
                == i by {
                if i == n {
                    self.lemma_descent_unchanged(after, 0, n, pos);
                } else {
                    assert(self.nodes[i] == after.nodes[i]);
                    self.lemma_descent_elsewhere(after, 0, n, self.nodes[i].pos);
                }
            }
        } else {
            self.lemma_split_places(n, node.pos, node.mass, pos, mass);
            let old_leaf = after.find_leaf(n, node.pos);
            let new_leaf = after.find_leaf(n, pos);
            assert(self.find_leaf(0, node.pos) == n);
            assert forall|i: int|
                0 <= i < after.nodes.len() && (#[trigger] after.nodes[i]).children == 0
                    && after.nodes[i].mass > 0 implies after.find_leaf(0, after.nodes[i].pos)
                == i by {
                if i == old_leaf {
                    self.lemma_descent_unchanged(after, 0, n, node.pos);
                } else if i == new_leaf {
                    self.lemma_descent_unchanged(after, 0, n, pos);
                } else if i < self.nodes.len() && i != n {
                    assert(self.nodes[i] == after.nodes[i]);
                    self.lemma_descent_elsewhere(after, 0, n, self.nodes[i].pos);
                } else {
                    assert(after.nodes[i].leaf_mass() == 0);
                }
            }
        }
    }

    /// A point inserted with some mass is found again: afterwards its
    /// position leads to a leaf that holds mass.  The leaf holds exactly the
    /// inserted point if there was room for it, and the point that was there
    /// with the new mass added if the position was held already.  Otherwise
    /// a neighbour too close to tell apart has taken the mass in: the leaf
    /// holds the neighbour, and is too small to split.
    pub proof fn lemma_inserted_is_found(self, pos: Vec2, mass: u32)
        requires
            self.shape_wf(),
            self.total_mass() + mass <= u32::MAX,
            self.inserted(pos, mass).nodes.len() <= usize::MAX,
        ensures
            ({
                let before = self.nodes[self.find_leaf(0, pos)];
                let after = self.inserted(pos, mass);
                let leaf = after.find_leaf(0, pos);
                &&& 0 <= leaf < after.nodes.len()
                &&& after.nodes[leaf].children == 0
                &&& self.has_room_for(pos) ==> after.nodes[leaf].pos == pos
                    && after.nodes[leaf].mass == mass
                &&& self.holds(pos) ==> after.nodes[leaf].pos == pos && after.nodes[leaf].mass
                    == before.mass + mass
                &&& !self.has_room_for(pos) && !self.holds(pos) ==> {
                    &&& after.nodes[leaf].pos == before.pos
                    &&& after.nodes[leaf].mass == before.mass + mass
                    &&& after.nodes[leaf].quad.too_small_to_split()
                    &&& after.nodes[leaf].quad.quadrant_of(before.pos)
                        == after.nodes[leaf].quad.quadrant_of(pos)
                }
            }),
    {
        let n = self.find_leaf(0, pos);
        let node = self.nodes[n];
        let after = self.inserted(pos, mass);
        self.lemma_descent_ends_at_leaf(0, pos);
        lemma_sum_bounds(self.nodes, n);
        if node.mass == 0 {
            self.lemma_with_leaf(n, pos, mass);
        } else if node.pos == pos {
            self.lemma_with_leaf(n, pos, (node.mass + mass) as u32);
        } else {
            self.lemma_split_places(n, node.pos, node.mass, pos, mass);
        }
        self.lemma_descent_unchanged(after, 0, n, pos);
    }

    /// Inserting the same position twice gives one leaf with both masses,
    /// not two leaves: the second insertion adds its mass to the leaf in
    /// which the first is found, and changes nothing else.
    pub proof fn lemma_same_position_twice(self, pos: Vec2, m1: u32, m2: u32)
        requires
            self.shape_wf(),
            self.total_mass() + m1 + m2 <= u32::MAX,
            self.inserted(pos, m1).nodes.len() <= usize::MAX,
            m1 > 0,
        ensures
            ({
                let once = self.inserted(pos, m1);
                let twice = once.inserted(pos, m2);
                let leaf = once.find_leaf(0, pos);
                &&& once.nodes[leaf].children == 0
                &&& twice == once.with_leaf(
                    leaf,
                    once.nodes[leaf].pos,
                    (once.nodes[leaf].mass + m2) as u32,
                )
                &&& twice.nodes.len() == once.nodes.len()
                &&& self.has_room_for(pos) ==> twice.nodes[leaf].pos == pos
                    && twice.nodes[leaf].mass == m1 + m2
            }),
    {
        let n = self.find_leaf(0, pos);
        lemma_sum_nonnegative(self.nodes);
        self.lemma_descent_ends_at_leaf(0, pos);
        lemma_sum_bounds(self.nodes, n);
        self.lemma_inserted_is_found(pos, m1);
    }

    /// `self` with the mass of the leaf `leaf` grown by `mass` and nothing
    /// else changed.
    pub open spec fn grown_at(self, leaf: int, mass: u32) -> Arena {
        self.with_leaf(leaf, self.nodes[leaf].pos, (self.nodes[leaf].mass + mass) as u32)
    }

    /// Where a leaf holds exactly `pos`, inserting at `pos` again leaves one
    /// leaf for the position, not two: no node is added and none is
    /// subdivided, and the leaf holds the sum of both masses at `pos`.
    pub proof fn lemma_insert_at_held_leaf(self, leaf: int, pos: Vec2, mass: u32)
        requires
            self.shape_wf(),
            self.leaves_found(),
            0 <= leaf < self.nodes.len(),
            self.nodes[leaf].children == 0,
            self.nodes[leaf].mass > 0,
            self.nodes[leaf].pos == pos,
        ensures
            self.inserted(pos, mass) == self.grown_at(leaf, mass),
            self.inserted(pos, mass).nodes.len() == self.nodes.len(),
            self.inserted(pos, mass).parents == self.parents,
            self.inserted(pos, mass).nodes[leaf].children == 0,
            self.inserted(pos, mass).nodes[leaf].pos == pos,
            self.inserted(pos, mass).nodes[leaf].mass == (self.nodes[leaf].mass + mass) as u32,
    {
        assert(self.find_leaf(0, self.nodes[leaf].pos) == leaf);
    }

    /// Inserting at a position that is held already adds the mass to the
    /// leaf that holds it and changes nothing else.
    pub proof fn lemma_held_position_again(self, pos: Vec2, mass: u32)
        requires
            self.shape_wf(),
            self.holds(pos),
        ensures
            self.inserted(pos, mass) == self.with_leaf(
                self.find_leaf(0, pos),
                pos,
                (self.nodes[self.find_leaf(0, pos)].mass + mass) as u32,
            ),
            self.inserted(pos, mass).nodes.len() == self.nodes.len(),
    {
        self.lemma_descent_ends_at_leaf(0, pos);
    }

    /// No two leaves hold the same position.
    pub proof fn lemma_positions_distinct(self, a: int, b: int)
        requires
            self.leaves_found(),
            0 <= a < self.nodes.len(),
            0 <= b < self.nodes.len(),
            self.nodes[a].children == 0,
            self.nodes[b].children == 0,
            self.nodes[a].mass > 0,
            self.nodes[b].mass > 0,
            self.nodes[a].pos == self.nodes[b].pos,
        ensures
            a == b,
    {
    }
}

} // verus!
