//! Inclusive integer ranges and axis-aligned cuboids: overlap tests,
//! intersections and sizes, with exact contracts over unbounded integers.

use vstd::prelude::*;

verus! {

/// Mathematical model of a bound: an inclusive integer range.
pub ghost struct BoundV {
    pub begin: int,
    pub end: int,
}

/// A bound is well formed when it is non-empty.
pub open spec fn bwf(b: BoundV) -> bool {
    b.begin <= b.end
}

/// The overlap test, as the implementation states it.
pub open spec fn spec_overlaps(a: BoundV, b: BoundV) -> bool {
    (a.begin <= b.begin && a.end >= b.begin) || (a.begin > b.begin && b.end >= a.begin)
}

/// Number of integers in a bound.
pub open spec fn blen(b: BoundV) -> int {
    b.end - b.begin + 1
}

/// A bound is a range of integer points from `begin` to `end` inclusive.
#[derive(Debug, Copy, Clone, PartialEq, Eq, Structural)]
pub struct Bound {
    pub begin: i64,
    pub end: i64,
}

impl View for Bound {
    type V = BoundV;

    open spec fn view(&self) -> BoundV {
        BoundV { begin: self.begin as int, end: self.end as int }
    }
}

impl Bound {
    /// Build a non-empty bound.
    pub fn new(begin: i64, end: i64) -> (r: Self)
        requires
            begin <= end,
        ensures
            r@ == (BoundV { begin: begin as int, end: end as int }),
            bwf(r@),
    {
        Self { begin, end }
    }

    /// Whether this bound overlaps the other given bound.
    pub fn overlaps(&self, other: &Self) -> (r: bool)
        ensures
            r == spec_overlaps(self@, other@),
    {
        (self.begin <= other.begin && self.end >= other.begin)
            || (self.begin > other.begin && other.end >= self.begin)
    }

    /// Compute the intersection between this and the other given bound, or
    /// `None` if they do not overlap.
    pub fn intersect(&self, other: &Self) -> (r: Option<Self>)
        requires
            bwf(self@),
            bwf(other@),
        ensures
            r is Some <==> spec_overlaps(self@, other@),
            r is Some ==> {
                let c = r->Some_0;
                c@.begin == vstd::math::max(self@.begin, other@.begin)
                    && c@.end == vstd::math::min(self@.end, other@.end)
                    && bwf(c@)
            },
    {
        if self.overlaps(other) {
            let lo = if self.begin >= other.begin { self.begin } else { other.begin };
            let hi = if self.end <= other.end { self.end } else { other.end };
            Some(Bound::new(lo, hi))
        } else {
            None
        }
    }

    /// Number of integers within the bound.
    pub fn len(&self) -> (r: usize)
        requires
            bwf(self@),
            blen(self@) <= usize::MAX,
            blen(self@) <= i64::MAX,
        ensures
            r == blen(self@),
    {
        (self.end - self.begin) as usize + 1
    }
}

/// Whether an integer lies within a bound.
pub open spec fn in_bound(b: BoundV, x: int) -> bool {
    b.begin <= x <= b.end
}

/// Overlap of well-formed bounds means exactly that some integer lies in
/// both ranges.
pub proof fn lemma_overlaps_exact(a: BoundV, b: BoundV)
    requires
        bwf(a),
        bwf(b),
    ensures
        spec_overlaps(a, b) <==> exists|x: int| #[trigger] in_bound(a, x) && in_bound(b, x),
{
    if spec_overlaps(a, b) {
        let x = vstd::math::max(a.begin, b.begin);
        assert(in_bound(a, x) && in_bound(b, x));
    }
}

/// Overlapping is symmetric on well-formed bounds.
pub proof fn lemma_overlaps_sym(a: BoundV, b: BoundV)
    requires
        bwf(a),
        bwf(b),
    ensures
        spec_overlaps(a, b) == spec_overlaps(b, a),
{
}

/// Mathematical model of a cuboid.
pub ghost struct CuboidV {
    pub x: BoundV,
    pub y: BoundV,
    pub z: BoundV,
}

/// A cuboid is well formed when all three of its bounds are.
pub open spec fn cwf(c: CuboidV) -> bool {
    bwf(c.x) && bwf(c.y) && bwf(c.z)
}

/// Cuboids overlap when they overlap on all three axes.
pub open spec fn spec_cuboid_overlaps(a: CuboidV, b: CuboidV) -> bool {
    spec_overlaps(a.x, b.x) && spec_overlaps(a.y, b.y) && spec_overlaps(a.z, b.z)
}

/// Number of integer points in a cuboid.
pub open spec fn clen(c: CuboidV) -> int {
    blen(c.x) * blen(c.y) * blen(c.z)
}

/// A 3D cuboid given by its bounds on each of the X, Y and Z axes.
#[derive(Debug, Copy, Clone, PartialEq, Eq, Structural)]
pub struct Cuboid {
    pub x_bound: Bound,
    pub y_bound: Bound,
    pub z_bound: Bound,
}

impl View for Cuboid {
    type V = CuboidV;

    open spec fn view(&self) -> CuboidV {
        CuboidV { x: self.x_bound@, y: self.y_bound@, z: self.z_bound@ }
    }
}

impl Cuboid {
    /// Whether this cuboid overlaps the other given cuboid.
    pub fn overlaps(&self, other: &Self) -> (r: bool)
        ensures
            r == spec_cuboid_overlaps(self@, other@),
    {
        self.x_bound.overlaps(&other.x_bound) && self.y_bound.overlaps(&other.y_bound)
            && self.z_bound.overlaps(&other.z_bound)
    }

    /// Compute the intersection between this cuboid and the given cuboid,
    /// or `None` if they do not overlap.
    pub fn intersect(&self, other: &Self) -> (r: Option<Self>)
        requires
            cwf(self@),
            cwf(other@),
        ensures
            r is Some <==> spec_cuboid_overlaps(self@, other@),
            r is Some ==> {
                let c = r->Some_0;
                cwf(c@)
                    && c@.x.begin == vstd::math::max(self@.x.begin, other@.x.begin)
                    && c@.x.end == vstd::math::min(self@.x.end, other@.x.end)
                    && c@.y.begin == vstd::math::max(self@.y.begin, other@.y.begin)
                    && c@.y.end == vstd::math::min(self@.y.end, other@.y.end)
                    && c@.z.begin == vstd::math::max(self@.z.begin, other@.z.begin)
                    && c@.z.end == vstd::math::min(self@.z.end, other@.z.end)
            },
    {
        match self.x_bound.intersect(&other.x_bound) {
            None => None,
            Some(x_bound) => match self.y_bound.intersect(&other.y_bound) {
                None => None,
                Some(y_bound) => match self.z_bound.intersect(&other.z_bound) {
                    None => None,
                    Some(z_bound) => Some(Cuboid { x_bound, y_bound, z_bound }),
                },
            },
        }
    }

    /// Number of integer points within the cuboid.
    pub fn len(&self) -> (r: usize)
        requires
            cwf(self@),
            clen(self@) <= usize::MAX,
            clen(self@) <= i64::MAX,
        ensures
            r == clen(self@),
    {
        proof {
            lemma_clen_factors(self@);
        }
        self.x_bound.len() * self.y_bound.len() * self.z_bound.len()
    }
}

/// Every factor and partial product of a cuboid's size is bounded by the
/// full size.
proof fn lemma_clen_factors(c: CuboidV)
    requires
        cwf(c),
    ensures
        1 <= blen(c.x) <= clen(c),
        1 <= blen(c.y) <= clen(c),
        1 <= blen(c.z) <= clen(c),
        blen(c.x) * blen(c.y) <= clen(c),
{
    assert(blen(c.x) <= blen(c.x) * blen(c.y) * blen(c.z)) by (nonlinear_arith)
        requires blen(c.x) >= 1 && blen(c.y) >= 1 && blen(c.z) >= 1,
    ;
    assert(blen(c.y) <= blen(c.x) * blen(c.y) * blen(c.z)) by (nonlinear_arith)
        requires blen(c.x) >= 1 && blen(c.y) >= 1 && blen(c.z) >= 1,
    ;
    assert(blen(c.z) <= blen(c.x) * blen(c.y) * blen(c.z)) by (nonlinear_arith)
        requires blen(c.x) >= 1 && blen(c.y) >= 1 && blen(c.z) >= 1,
    ;
    assert(blen(c.x) * blen(c.y) <= blen(c.x) * blen(c.y) * blen(c.z)) by (nonlinear_arith)
        requires blen(c.x) >= 1 && blen(c.y) >= 1 && blen(c.z) >= 1,
    ;
}

} // verus!
