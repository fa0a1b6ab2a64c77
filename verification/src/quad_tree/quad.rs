//! Axis-aligned square regions.
use crate::fixed::{clamp_i32, saturate_i32};
use crate::vec2::Vec2;
use vstd::prelude::*;

verus! {

/// A square of side `size` centred at `center`.
#[derive(Clone, Copy, Debug)]
pub struct Quad {
    pub center: Vec2,
    pub size: u32,
}

/// Smallest x coordinate of a non-empty sequence of points.
pub open spec fn min_x(s: Seq<Vec2>) -> int
    decreases s.len(),
{
    if s.len() <= 1 {
        s[0].x as int
    } else if s.last().x < min_x(s.drop_last()) {
        s.last().x as int
    } else {
        min_x(s.drop_last())
    }
}

/// Largest x coordinate of a non-empty sequence of points.
pub open spec fn max_x(s: Seq<Vec2>) -> int
    decreases s.len(),
{
    if s.len() <= 1 {
        s[0].x as int
    } else if s.last().x > max_x(s.drop_last()) {
        s.last().x as int
    } else {
        max_x(s.drop_last())
    }
}

/// Smallest y coordinate of a non-empty sequence of points.
pub open spec fn min_y(s: Seq<Vec2>) -> int
    decreases s.len(),
{
    if s.len() <= 1 {
        s[0].y as int
    } else if s.last().y < min_y(s.drop_last()) {
        s.last().y as int
    } else {
        min_y(s.drop_last())
    }
}

/// Largest y coordinate of a non-empty sequence of points.
pub open spec fn max_y(s: Seq<Vec2>) -> int
    decreases s.len(),
{
    if s.len() <= 1 {
        s[0].y as int
    } else if s.last().y > max_y(s.drop_last()) {
        s.last().y as int
    } else {
        max_y(s.drop_last())
    }
}

/// Every point of a non-empty sequence lies between the extremes, and the
/// extremes are `i32` values.
pub proof fn lemma_extremes(s: Seq<Vec2>, i: int)
    requires
        0 <= i < s.len(),
    ensures
        i32::MIN <= min_x(s) <= s[i].x <= max_x(s) <= i32::MAX,
        i32::MIN <= min_y(s) <= s[i].y <= max_y(s) <= i32::MAX,
    decreases s.len(),
{
    if s.len() > 1 {
        if i < s.len() - 1 {
            lemma_extremes(s.drop_last(), i);
        } else {
            lemma_extremes(s.drop_last(), 0);
        }
    }
}

/// The midpoint of `lo <= hi`, rounded down.
pub open spec fn midpoint(lo: int, hi: int) -> int {
    lo + (hi - lo) / 2
}

/// The larger of two integers.
pub open spec fn larger(a: int, b: int) -> int {
    if a >= b {
        a
    } else {
        b
    }
}

impl Quad {
    /// The bounding square of a non-empty point sequence: centred at the
    /// midpoint of the bounding box, with the larger of the box's width and
    /// height as its side.
    pub open spec fn bounding(s: Seq<Vec2>) -> Quad {
        Quad {
            center: Vec2 {
                x: midpoint(min_x(s), max_x(s)) as i32,
                y: midpoint(min_y(s), max_y(s)) as i32,
            },
            size: larger(max_x(s) - min_x(s), max_y(s) - min_y(s)) as u32,
        }
    }

    /// Half of the side, rounded up to a whole scalar step.
    pub open spec fn half_extent(self) -> int {
        (self.size + 1) / 2
    }

    /// `p` lies in the box that extends `half_extent` from the centre along
    /// each axis.
    pub open spec fn contains(self, p: Vec2) -> bool {
        &&& self.center.x - self.half_extent() <= p.x <= self.center.x + self.half_extent()
        &&& self.center.y - self.half_extent() <= p.y <= self.center.y + self.half_extent()
    }

    /// The quadrant of `p` relative to the centre: bit 0 is set when `p` lies
    /// strictly to the right of the centre, bit 1 when strictly above.  A
    /// point level with the centre on an axis falls to the lower or left side.
    pub open spec fn quadrant_of(self, p: Vec2) -> int {
        (if p.y > self.center.y {
            2int
        } else {
            0int
        }) + (if p.x > self.center.x {
            1int
        } else {
            0int
        })
    }

    /// The child region in quadrant `q`: half the side, the centre moved by a
    /// quarter of the side toward the quadrant (clamped to the scalar range).
    pub open spec fn child(self, q: int) -> Quad {
        let size = self.size / 2;
        let step = (size / 2) as int;
        Quad {
            center: Vec2 {
                x: clamp_i32(
                    self.center.x + (if q % 2 == 1 {
                        step
                    } else {
                        -step
                    }),
                ) as i32,
                y: clamp_i32(
                    self.center.y + (if q / 2 == 1 {
                        step
                    } else {
                        -step
                    }),
                ) as i32,
            },
            size,
        }
    }

    /// A region this narrow has children that all share its centre, so
    /// subdividing it can never separate two points that it does not
    /// separate itself.
    pub open spec fn too_small_to_split(self) -> bool {
        self.size < 4
    }

    /// How many times in a row a region of this size can be split before it
    /// becomes too small.
    pub open spec fn splits_left(self) -> nat
        decreases self.size,
    {
        if self.too_small_to_split() {
            0
        } else {
            1 + self.child(0).splits_left()
        }
    }

    /// Subdividing this region separates `p` from `pos`: the two fall into
    /// different quadrants before the region becomes too small to split.
    pub open spec fn separates(self, p: Vec2, pos: Vec2) -> bool
        decreases self.size,
    {
        if self.quadrant_of(p) != self.quadrant_of(pos) {
            true
        } else if self.too_small_to_split() {
            false
        } else {
            self.child(self.quadrant_of(p)).separates(p, pos)
        }
    }

    /// A region whose side is below `4 * 2^k` can be split at most `k` times
    /// in a row.
    pub proof fn lemma_splits_left(self, k: nat)
        requires
            self.size < 4 * vstd::arithmetic::power2::pow2(k),
        ensures
            self.splits_left() <= k,
        decreases k,
    {
        if !self.too_small_to_split() {
            if k == 0 {
                assert(vstd::arithmetic::power2::pow2(0) == 1) by {
                    vstd::arithmetic::power2::lemma2_to64();
                }
            } else {
                vstd::arithmetic::power2::lemma_pow2_unfold(k);
                self.child(0).lemma_splits_left((k - 1) as nat);
            }
        }
    }

    /// How often a child can be split depends on its size alone, which is
    /// the same for all four children.
    pub proof fn lemma_children_alike(self, q: int)
        ensures
            self.child(q).splits_left() == self.child(0).splits_left(),
    {
        Quad::lemma_splits_by_size(self.child(q), self.child(0));
    }

    /// Regions of the same size can be split equally often.
    pub proof fn lemma_splits_by_size(a: Quad, b: Quad)
        requires
            a.size == b.size,
        ensures
            a.splits_left() == b.splits_left(),
        decreases a.size,
    {
        if !a.too_small_to_split() {
            Quad::lemma_splits_by_size(a.child(0), b.child(0));
        }
    }

    /// No region can be split more than thirty times in a row.
    pub proof fn lemma_splits_bounded(self)
        ensures
            self.splits_left() <= 30,
    {
        vstd::arithmetic::power2::lemma2_to64();
        self.lemma_splits_left(30);
    }

    /// The bounding square of a non-empty sequence of points contains every
    /// one of them.
    pub proof fn lemma_bounding_contains(s: Seq<Vec2>, i: int)
        requires
            0 <= i < s.len(),
        ensures
            Quad::bounding(s).contains(s[i]),
    {
        lemma_extremes(s, i);
    }

    /// The bounding square of `positions`.  The sequence must not be empty:
    /// an empty set of points has no bounding box.
    pub fn new_containing(positions: &[Vec2]) -> (q: Quad)
        requires
            positions@.len() > 0,
        ensures
            q == Quad::bounding(positions@),
            forall|i: int| 0 <= i < positions@.len() ==> q.contains(#[trigger] positions@[i]),
    {
        let mut lo: Vec2 = positions[0];
        let mut hi: Vec2 = positions[0];
        let mut i: usize = 1;
        assert(positions@.take(1).drop_last() =~= positions@.take(0));
        while i < positions.len()
            invariant
                1 <= i <= positions@.len(),
                lo.x == min_x(positions@.take(i as int)),
                hi.x == max_x(positions@.take(i as int)),
                lo.y == min_y(positions@.take(i as int)),
                hi.y == max_y(positions@.take(i as int)),
            decreases positions@.len() - i,
        {
            let p: Vec2 = positions[i];
            assert(positions@.take(i + 1).drop_last() =~= positions@.take(i as int));
            if p.x < lo.x {
                lo.x = p.x;
            }
            if p.x > hi.x {
                hi.x = p.x;
            }
            if p.y < lo.y {
                lo.y = p.y;
            }
            if p.y > hi.y {
                hi.y = p.y;
            }
            i = i + 1;
        }
        assert(positions@.take(i as int) =~= positions@);
        proof {
            lemma_extremes(positions@, 0);
        }
        let width: i64 = hi.x as i64 - lo.x as i64;
        let height: i64 = hi.y as i64 - lo.y as i64;
        let size: i64 = if width >= height {
            width
        } else {
            height
        };
        let q = Quad {
            center: Vec2 {
                x: (lo.x as i64 + width / 2) as i32,
                y: (lo.y as i64 + height / 2) as i32,
            },
            size: size as u32,
        };
        assert forall|i: int| 0 <= i < positions@.len() implies q.contains(
            #[trigger] positions@[i],
        ) by {
            lemma_extremes(positions@, i);
        }
        q
    }

    /// Classifies `pos` relative to the centre.
    pub fn find_quadrant(&self, pos: Vec2) -> (q: usize)
        ensures
            q == self.quadrant_of(pos),
            q < 4,
    {
        let upper: usize = if pos.y > self.center.y {
            2
        } else {
            0
        };
        let right: usize = if pos.x > self.center.x {
            1
        } else {
            0
        };
        upper + right
    }

    /// The child region in `quadrant`, which must be one of 0, 1, 2, 3.
    pub fn into_quadrant(self, quadrant: usize) -> (r: Quad)
        requires
            quadrant < 4,
        ensures
            r == self.child(quadrant as int),
    {
        let size: u32 = self.size / 2;
        let step: i128 = (size / 2) as i128;
        let dx: i128 = if quadrant % 2 == 1 {
            step
        } else {
            -step
        };
        let dy: i128 = if quadrant / 2 == 1 {
            step
        } else {
            -step
        };
        Quad {
            center: Vec2 {
                x: saturate_i32(self.center.x as i128 + dx),
                y: saturate_i32(self.center.y as i128 + dy),
            },
            size,
        }
    }

    /// The four child regions, in quadrant order.
    pub fn subdivide(&self) -> (r: [Quad; 4])
        ensures
            forall|q: int| 0 <= q < 4 ==> #[trigger] r[q] == self.child(q),
    {
        [
            self.into_quadrant(0),
            self.into_quadrant(1),
            self.into_quadrant(2),
            self.into_quadrant(3),
        ]
    }
}

} // verus!
