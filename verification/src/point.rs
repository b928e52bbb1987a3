//! Integer 3D points: component-wise arithmetic, axis rotations and
//! reflections, and Manhattan distance.  The mathematical model of a point
//! is `Vec3`, a triple of unbounded integers.

use vstd::prelude::*;

verus! {

/// Mathematical model of a 3D point: a triple of unbounded integers.
pub ghost struct Vec3 {
    pub x: int,
    pub y: int,
    pub z: int,
}

/// Component-wise sum.
pub open spec fn vadd(a: Vec3, b: Vec3) -> Vec3 {
    Vec3 { x: a.x + b.x, y: a.y + b.y, z: a.z + b.z }
}

/// Component-wise difference.
pub open spec fn vsub(a: Vec3, b: Vec3) -> Vec3 {
    Vec3 { x: a.x - b.x, y: a.y - b.y, z: a.z - b.z }
}

/// Component-wise negation.
pub open spec fn vneg(a: Vec3) -> Vec3 {
    Vec3 { x: -a.x, y: -a.y, z: -a.z }
}

/// The origin.
pub open spec fn vzero() -> Vec3 {
    Vec3 { x: 0, y: 0, z: 0 }
}

/// Scaling by an integer factor.
pub open spec fn vscale(c: int, v: Vec3) -> Vec3 {
    Vec3 { x: c * v.x, y: c * v.y, z: c * v.z }
}

/// Manhattan distance between two points.
pub open spec fn vdist(a: Vec3, b: Vec3) -> int {
    (vstd::math::abs(a.x - b.x) + vstd::math::abs(a.y - b.y) + vstd::math::abs(a.z - b.z)) as int
}

/// Every coordinate lies in `[-b, b]`.
pub open spec fn vbound(v: Vec3, b: int) -> bool {
    -b <= v.x <= b && -b <= v.y <= b && -b <= v.z <= b
}

/// The symmetric range of `i64`: every coordinate can be negated without
/// leaving the type.
pub open spec fn sym(v: Vec3) -> bool {
    vbound(v, i64::MAX as int)
}

/// One of the three coordinate axes of 3D space.
#[derive(Clone, Copy, Debug, PartialEq, Eq, Hash, Structural)]
pub enum Axis {
    X,
    Y,
    Z,
}

/// Model of a quarter turn clockwise around an axis.
pub open spec fn srot(around: Axis, v: Vec3) -> Vec3 {
    match around {
        Axis::X => Vec3 { x: v.x, y: v.z, z: -v.y },
        Axis::Y => Vec3 { x: v.z, y: v.y, z: -v.x },
        Axis::Z => Vec3 { x: v.y, y: -v.x, z: v.z },
    }
}

/// Model of a quarter turn anticlockwise around an axis; inverse of `srot`.
pub open spec fn srot_rev(around: Axis, v: Vec3) -> Vec3 {
    match around {
        Axis::X => Vec3 { x: v.x, y: -v.z, z: v.y },
        Axis::Y => Vec3 { x: -v.z, y: v.y, z: v.x },
        Axis::Z => Vec3 { x: -v.y, y: v.x, z: v.z },
    }
}

/// Model of a reflection: negate the given axis.
pub open spec fn sinv(axis: Axis, v: Vec3) -> Vec3 {
    match axis {
        Axis::X => Vec3 { x: -v.x, y: v.y, z: v.z },
        Axis::Y => Vec3 { x: v.x, y: -v.y, z: v.z },
        Axis::Z => Vec3 { x: v.x, y: v.y, z: -v.z },
    }
}

/// An integer 3D point, the coordinates of a beacon or of a scanner.
#[derive(Clone, Copy, Debug, PartialEq, Eq, Hash, Structural)]
pub struct Point {
    pub x: i64,
    pub y: i64,
    pub z: i64,
}

impl View for Point {
    type V = Vec3;

    open spec fn view(&self) -> Vec3 {
        Vec3 { x: self.x as int, y: self.y as int, z: self.z as int }
    }
}

impl Point {
    /// Build a point from its coordinates.
    pub fn new(x: i64, y: i64, z: i64) -> (r: Self)
        ensures
            r@ == (Vec3 { x: x as int, y: y as int, z: z as int }),
    {
        Point { x, y, z }
    }

    /// Component-wise sum.
    pub fn add(self, rhs: Self) -> (r: Self)
        requires
            i64::MIN <= self@.x + rhs@.x <= i64::MAX,
            i64::MIN <= self@.y + rhs@.y <= i64::MAX,
            i64::MIN <= self@.z + rhs@.z <= i64::MAX,
        ensures
            r@ == vadd(self@, rhs@),
    {
        Point { x: self.x + rhs.x, y: self.y + rhs.y, z: self.z + rhs.z }
    }

    /// Component-wise difference.
    pub fn sub(self, rhs: Self) -> (r: Self)
        requires
            i64::MIN <= self@.x - rhs@.x <= i64::MAX,
            i64::MIN <= self@.y - rhs@.y <= i64::MAX,
            i64::MIN <= self@.z - rhs@.z <= i64::MAX,
        ensures
            r@ == vsub(self@, rhs@),
    {
        Point { x: self.x - rhs.x, y: self.y - rhs.y, z: self.z - rhs.z }
    }

    /// Rotates this point around the given axis 90 degrees clockwise.
    pub fn rotate(&self, around: &Axis) -> (r: Self)
        requires
            sym(self@),
        ensures
            r@ == srot(*around, self@),
            sym(r@),
    {
        match around {
            Axis::X => Point { x: self.x, y: self.z, z: -self.y },
            Axis::Y => Point { x: self.z, y: self.y, z: -self.x },
            Axis::Z => Point { x: self.y, y: -self.x, z: self.z },
        }
    }

    /// Rotates this point around the given axis 90 degrees anticlockwise.
    pub fn reverse_rotate(&self, around: &Axis) -> (r: Self)
        requires
            sym(self@),
        ensures
            r@ == srot_rev(*around, self@),
            sym(r@),
    {
        match around {
            Axis::X => Point { x: self.x, y: -self.z, z: self.y },
            Axis::Y => Point { x: -self.z, y: self.y, z: self.x },
            Axis::Z => Point { x: -self.y, y: self.x, z: self.z },
        }
    }

    /// Reflects this point: negates the given axis.
    pub fn invert(&self, axis: &Axis) -> (r: Self)
        requires
            sym(self@),
        ensures
            r@ == sinv(*axis, self@),
            sym(r@),
    {
        match axis {
            Axis::X => Point { x: -self.x, y: self.y, z: self.z },
            Axis::Y => Point { x: self.x, y: -self.y, z: self.z },
            Axis::Z => Point { x: self.x, y: self.y, z: -self.z },
        }
    }

    /// Negates this point, so that it points in the opposite direction
    /// relative to the origin.
    pub fn negate(&self) -> (r: Self)
        requires
            sym(self@),
        ensures
            r@ == vneg(self@),
            sym(r@),
    {
        Point { x: -self.x, y: -self.y, z: -self.z }
    }

    /// Manhattan distance between the two points.
    pub fn dist(self, other: Self) -> (r: i64)
        requires
            i64::MIN < self@.x - other@.x <= i64::MAX,
            i64::MIN < self@.y - other@.y <= i64::MAX,
            i64::MIN < self@.z - other@.z <= i64::MAX,
            vdist(self@, other@) <= i64::MAX,
        ensures
            r == vdist(self@, other@),
    {
        let dx = self.x - other.x;
        let dy = self.y - other.y;
        let dz = self.z - other.z;
        let ax = if dx < 0 { -dx } else { dx };
        let ay = if dy < 0 { -dy } else { dy };
        let az = if dz < 0 { -dz } else { dz };
        ax + ay + az
    }
}

/// `srot_rev` undoes `srot`, and the other way round.
pub proof fn lemma_rot_roundtrip(around: Axis, v: Vec3)
    ensures
        srot_rev(around, srot(around, v)) == v,
        srot(around, srot_rev(around, v)) == v,
{
}

/// Reflection is an involution.
pub proof fn lemma_inv_roundtrip(axis: Axis, v: Vec3)
    ensures
        sinv(axis, sinv(axis, v)) == v,
{
}

} // verus!
