//! The 24 proper rotations of 3D space that map the integer lattice to
//! itself: the rotation group of the cube.  An orientation is a facing
//! choice (which signed axis the local forward axis points along, 6 ways)
//! combined with a roll around the forward axis (4 ways).
//!
//! The laws proved here: each orientation is undone exactly by its
//! unapplication; the 24 orientations act linearly; they are pairwise
//! distinct as functions; and as functions they are closed under
//! composition and inversion, so they form a group.

use vstd::prelude::*;
use crate::point::{Axis, Point, Vec3, srot, srot_rev, sym, vadd, vscale};

verus! {

/// One of the 24 lattice rotations: `roll` quarter turns around the X axis,
/// followed by one of 6 facing rotations that move the X axis onto a signed
/// coordinate axis.
#[derive(Clone, Copy, Debug, PartialEq, Eq, Hash, Structural)]
pub struct Orientation {
    pub face: u8,
    pub roll: u8,
}

/// Well-formed orientation: a facing in `0..6` and a roll in `0..4`.
pub open spec fn owf(o: Orientation) -> bool {
    o.face < 6 && o.roll < 4
}

/// Model of `roll` quarter turns around the X axis.
pub open spec fn roll_app(r: int, v: Vec3) -> Vec3 {
    if r == 0 {
        v
    } else if r == 1 {
        Vec3 { x: v.x, y: v.z, z: -v.y }
    } else if r == 2 {
        Vec3 { x: v.x, y: -v.y, z: -v.z }
    } else {
        Vec3 { x: v.x, y: -v.z, z: v.y }
    }
}

/// Inverse of `roll_app`.
pub open spec fn roll_unapp(r: int, v: Vec3) -> Vec3 {
    if r == 0 {
        v
    } else if r == 1 {
        Vec3 { x: v.x, y: -v.z, z: v.y }
    } else if r == 2 {
        Vec3 { x: v.x, y: -v.y, z: -v.z }
    } else {
        Vec3 { x: v.x, y: v.z, z: -v.y }
    }
}

/// Model of the facing rotation: the identity, a turn around Z (one, two or
/// three quarters), or a quarter turn around Y either way.
pub open spec fn face_app(f: int, v: Vec3) -> Vec3 {
    if f == 0 {
        v
    } else if f == 1 {
        Vec3 { x: v.y, y: -v.x, z: v.z }
    } else if f == 2 {
        Vec3 { x: -v.x, y: -v.y, z: v.z }
    } else if f == 3 {
        Vec3 { x: -v.y, y: v.x, z: v.z }
    } else if f == 4 {
        Vec3 { x: v.z, y: v.y, z: -v.x }
    } else {
        Vec3 { x: -v.z, y: v.y, z: v.x }
    }
}

/// Inverse of `face_app`.
pub open spec fn face_unapp(f: int, v: Vec3) -> Vec3 {
    if f == 0 {
        v
    } else if f == 1 {
        Vec3 { x: -v.y, y: v.x, z: v.z }
    } else if f == 2 {
        Vec3 { x: -v.x, y: -v.y, z: v.z }
    } else if f == 3 {
        Vec3 { x: v.y, y: -v.x, z: v.z }
    } else if f == 4 {
        Vec3 { x: -v.z, y: v.y, z: v.x }
    } else {
        Vec3 { x: v.z, y: v.y, z: -v.x }
    }
}

/// The action of an orientation on a point: roll, then face.
pub open spec fn orient_apply(o: Orientation, v: Vec3) -> Vec3 {
    face_app(o.face as int, roll_app(o.roll as int, v))
}

/// The inverse action: unface, then unroll.
pub open spec fn orient_unapply(o: Orientation, v: Vec3) -> Vec3 {
    roll_unapp(o.roll as int, face_unapp(o.face as int, v))
}

/// The orientation with index `i` in the canonical enumeration of all 24.
pub open spec fn onum(i: int) -> Orientation {
    Orientation { face: (i / 4) as u8, roll: (i % 4) as u8 }
}

/// Unapplying an orientation undoes applying it, and the other way round.
pub proof fn lemma_orient_roundtrip(o: Orientation, v: Vec3)
    requires
        owf(o),
    ensures
        orient_unapply(o, orient_apply(o, v)) == v,
        orient_apply(o, orient_unapply(o, v)) == v,
{
}

/// First basis vector.
pub open spec fn ex() -> Vec3 {
    Vec3 { x: 1, y: 0, z: 0 }
}

/// Second basis vector.
pub open spec fn ey() -> Vec3 {
    Vec3 { x: 0, y: 1, z: 0 }
}

/// Third basis vector.
pub open spec fn ez() -> Vec3 {
    Vec3 { x: 0, y: 0, z: 1 }
}

/// Linear combination of three column vectors with the coordinates of `v`
/// as coefficients.
pub open spec fn lin3(v: Vec3, cx: Vec3, cy: Vec3, cz: Vec3) -> Vec3 {
    Vec3 {
        x: v.x * cx.x + v.y * cy.x + v.z * cz.x,
        y: v.x * cx.y + v.y * cy.y + v.z * cz.y,
        z: v.x * cx.z + v.y * cy.z + v.z * cz.z,
    }
}

/// An orientation respects component-wise sums.
pub proof fn lemma_orient_add(o: Orientation, u: Vec3, w: Vec3)
    requires
        owf(o),
    ensures
        orient_apply(o, vadd(u, w)) == vadd(orient_apply(o, u), orient_apply(o, w)),
        orient_unapply(o, vadd(u, w)) == vadd(orient_unapply(o, u), orient_unapply(o, w)),
{
}

/// An orientation respects integer scaling.
pub proof fn lemma_orient_scale(o: Orientation, c: int, v: Vec3)
    requires
        owf(o),
    ensures
        orient_apply(o, vscale(c, v)) == vscale(c, orient_apply(o, v)),
        orient_unapply(o, vscale(c, v)) == vscale(c, orient_unapply(o, v)),
{
    assert(c * (-v.x) == -(c * v.x)) by (nonlinear_arith);
    assert(c * (-v.y) == -(c * v.y)) by (nonlinear_arith);
    assert(c * (-v.z) == -(c * v.z)) by (nonlinear_arith);
}

/// An orientation acts linearly: its action is determined by the images of
/// the three basis vectors.
pub proof fn lemma_orient_linear(o: Orientation, v: Vec3)
    requires
        owf(o),
    ensures
        orient_apply(o, v) == lin3(v, orient_apply(o, ex()), orient_apply(o, ey()), orient_apply(o, ez())),
        orient_unapply(o, v) == lin3(v, orient_unapply(o, ex()), orient_unapply(o, ey()), orient_unapply(o, ez())),
{
    let sx = vscale(v.x, ex());
    let sy = vscale(v.y, ey());
    let sz = vscale(v.z, ez());
    assert(v == vadd(sx, vadd(sy, sz)));
    lemma_orient_add(o, sx, vadd(sy, sz));
    lemma_orient_add(o, sy, sz);
    lemma_orient_scale(o, v.x, ex());
    lemma_orient_scale(o, v.y, ey());
    lemma_orient_scale(o, v.z, ez());
}

/// Two well-formed orientations that agree on the three basis vectors agree
/// everywhere.
pub proof fn lemma_orient_ext(a: Orientation, b: Orientation)
    requires
        owf(a),
        owf(b),
        orient_apply(a, ex()) == orient_apply(b, ex()),
        orient_apply(a, ey()) == orient_apply(b, ey()),
        orient_apply(a, ez()) == orient_apply(b, ez()),
    ensures
        forall|v: Vec3| #[trigger] orient_apply(a, v) == orient_apply(b, v),
{
    assert forall|v: Vec3| #[trigger] orient_apply(a, v) == orient_apply(b, v) by {
        lemma_orient_linear(a, v);
        lemma_orient_linear(b, v);
    }
}

/// A probe point whose 24 images distinguish all 24 orientations.
pub open spec fn probe() -> Vec3 {
    Vec3 { x: 1, y: 2, z: 3 }
}

/// The 24 orientations are pairwise distinct as functions: any two of them
/// already differ on the probe point.
pub proof fn lemma_orientations_distinct(i: int, j: int)
    requires
        0 <= i < 24,
        0 <= j < 24,
        i != j,
    ensures
        orient_apply(onum(i), probe()) != orient_apply(onum(j), probe()),
{
}

/// Index of the orientation whose action is a quarter turn around X after
/// the action of orientation `i`.
pub open spec fn after_x(i: int) -> int {
    if i == 0 { 1 } else
    if i == 1 { 2 } else
    if i == 2 { 3 } else
    if i == 3 { 0 } else
    if i == 4 { 21 } else
    if i == 5 { 22 } else
    if i == 6 { 23 } else
    if i == 7 { 20 } else
    if i == 8 { 11 } else
    if i == 9 { 8 } else
    if i == 10 { 9 } else
    if i == 11 { 10 } else
    if i == 12 { 17 } else
    if i == 13 { 18 } else
    if i == 14 { 19 } else
    if i == 15 { 16 } else
    if i == 16 { 5 } else
    if i == 17 { 6 } else
    if i == 18 { 7 } else
    if i == 19 { 4 } else
    if i == 20 { 13 } else
    if i == 21 { 14 } else
    if i == 22 { 15 } else
    { 12 }
}

/// Index of the orientation whose action is a quarter turn around Y after
/// the action of orientation `i`.
pub open spec fn after_y(i: int) -> int {
    if i == 0 { 16 } else
    if i == 1 { 17 } else
    if i == 2 { 18 } else
    if i == 3 { 19 } else
    if i == 4 { 5 } else
    if i == 5 { 6 } else
    if i == 6 { 7 } else
    if i == 7 { 4 } else
    if i == 8 { 22 } else
    if i == 9 { 23 } else
    if i == 10 { 20 } else
    if i == 11 { 21 } else
    if i == 12 { 15 } else
    if i == 13 { 12 } else
    if i == 14 { 13 } else
    if i == 15 { 14 } else
    if i == 16 { 10 } else
    if i == 17 { 11 } else
    if i == 18 { 8 } else
    if i == 19 { 9 } else
    if i == 20 { 0 } else
    if i == 21 { 1 } else
    if i == 22 { 2 } else
    { 3 }
}

/// Index of the orientation whose action is a quarter turn around Z after
/// the action of orientation `i`.
pub open spec fn after_z(i: int) -> int {
    if i == 0 { 4 } else
    if i == 1 { 5 } else
    if i == 2 { 6 } else
    if i == 3 { 7 } else
    if i == 4 { 8 } else
    if i == 5 { 9 } else
    if i == 6 { 10 } else
    if i == 7 { 11 } else
    if i == 8 { 12 } else
    if i == 9 { 13 } else
    if i == 10 { 14 } else
    if i == 11 { 15 } else
    if i == 12 { 0 } else
    if i == 13 { 1 } else
    if i == 14 { 2 } else
    if i == 15 { 3 } else
    if i == 16 { 19 } else
    if i == 17 { 16 } else
    if i == 18 { 17 } else
    if i == 19 { 18 } else
    if i == 20 { 21 } else
    if i == 21 { 22 } else
    if i == 22 { 23 } else
    { 20 }
}

/// Index of the inverse of orientation `i`.
pub open spec fn oinv(i: int) -> int {
    if i == 0 { 0 } else
    if i == 1 { 3 } else
    if i == 2 { 2 } else
    if i == 3 { 1 } else
    if i == 4 { 12 } else
    if i == 5 { 23 } else
    if i == 6 { 6 } else
    if i == 7 { 17 } else
    if i == 8 { 8 } else
    if i == 9 { 9 } else
    if i == 10 { 10 } else
    if i == 11 { 11 } else
    if i == 12 { 4 } else
    if i == 13 { 19 } else
    if i == 14 { 14 } else
    if i == 15 { 21 } else
    if i == 16 { 20 } else
    if i == 17 { 7 } else
    if i == 18 { 18 } else
    if i == 19 { 13 } else
    if i == 20 { 16 } else
    if i == 21 { 15 } else
    if i == 22 { 22 } else
    { 5 }
}

/// A quarter turn around X after orientation `i` is again one of the 24
/// orientations, the one with index `after_x(i)`.
pub proof fn lemma_after_x(i: int, v: Vec3)
    requires
        0 <= i < 24,
    ensures
        0 <= after_x(i) < 24,
        srot(Axis::X, orient_apply(onum(i), v)) == orient_apply(onum(after_x(i)), v),
{
    lemma_orient_linear(onum(i), v);
    lemma_orient_linear(onum(after_x(i)), v);
}

/// A quarter turn around Y after orientation `i` is again one of the 24
/// orientations, the one with index `after_y(i)`.
pub proof fn lemma_after_y(i: int, v: Vec3)
    requires
        0 <= i < 24,
    ensures
        0 <= after_y(i) < 24,
        srot(Axis::Y, orient_apply(onum(i), v)) == orient_apply(onum(after_y(i)), v),
{
    lemma_orient_linear(onum(i), v);
    lemma_orient_linear(onum(after_y(i)), v);
}

/// A quarter turn around Z after orientation `i` is again one of the 24
/// orientations, the one with index `after_z(i)`.
pub proof fn lemma_after_z(i: int, v: Vec3)
    requires
        0 <= i < 24,
    ensures
        0 <= after_z(i) < 24,
        srot(Axis::Z, orient_apply(onum(i), v)) == orient_apply(onum(after_z(i)), v),
{
    lemma_orient_linear(onum(i), v);
    lemma_orient_linear(onum(after_z(i)), v);
}

/// Closure under composition: composing any two of the 24 orientations
/// yields the action of another of the 24.
pub proof fn lemma_orientations_closed(i: int, j: int) -> (k: int)
    requires
        0 <= i < 24,
        0 <= j < 24,
    ensures
        0 <= k < 24,
        forall|v: Vec3| #[trigger] orient_apply(onum(j), orient_apply(onum(i), v))
            == orient_apply(onum(k), v),
{
    let f = j / 4;
    let r = j % 4;
    // index after the roll part of `j`
    let k1: int = if r == 0 {
        i
    } else if r == 1 {
        after_x(i)
    } else if r == 2 {
        after_x(after_x(i))
    } else {
        after_x(after_x(after_x(i)))
    };
    // index after the facing part of `j`
    let k2: int = if f == 0 {
        k1
    } else if f == 1 {
        after_z(k1)
    } else if f == 2 {
        after_z(after_z(k1))
    } else if f == 3 {
        after_z(after_z(after_z(k1)))
    } else if f == 4 {
        after_y(k1)
    } else {
        after_y(after_y(after_y(k1)))
    };
    assert forall|v: Vec3| #[trigger] orient_apply(onum(j), orient_apply(onum(i), v))
        == orient_apply(onum(k2), v) by {
        let w = orient_apply(onum(i), v);
        if r == 1 {
            lemma_after_x(i, v);
        } else if r == 2 {
            lemma_after_x(i, v);
            lemma_after_x(after_x(i), v);
        } else if r == 3 {
            lemma_after_x(i, v);
            lemma_after_x(after_x(i), v);
            lemma_after_x(after_x(after_x(i)), v);
        }
        assert(roll_app(r, w) == orient_apply(onum(k1), v));
        if f == 1 {
            lemma_after_z(k1, v);
        } else if f == 2 {
            lemma_after_z(k1, v);
            lemma_after_z(after_z(k1), v);
        } else if f == 3 {
            lemma_after_z(k1, v);
            lemma_after_z(after_z(k1), v);
            lemma_after_z(after_z(after_z(k1)), v);
        } else if f == 4 {
            lemma_after_y(k1, v);
        } else if f == 5 {
            lemma_after_y(k1, v);
            lemma_after_y(after_y(k1), v);
            lemma_after_y(after_y(after_y(k1)), v);
        }
        assert(face_app(f, roll_app(r, w)) == orient_apply(onum(k2), v));
    }
    k2
}

/// Closure under inversion: the inverse of any of the 24 orientations is
/// again one of the 24, the one with index `oinv(i)`; it both undoes
/// orientation `i` and is undone by it, and it acts exactly as
/// `orient_unapply`.
pub proof fn lemma_orientations_inverse(i: int)
    requires
        0 <= i < 24,
    ensures
        0 <= oinv(i) < 24,
        forall|v: Vec3| #[trigger] orient_apply(onum(oinv(i)), orient_apply(onum(i), v)) == v,
        forall|v: Vec3| #[trigger] orient_apply(onum(oinv(i)), v) == orient_unapply(onum(i), v),
{
    assert forall|v: Vec3| #[trigger] orient_apply(onum(oinv(i)), v) == orient_unapply(onum(i), v) by {
        lemma_orient_linear(onum(oinv(i)), v);
        lemma_orient_linear(onum(i), v);
    }
    assert forall|v: Vec3| #[trigger] orient_apply(onum(oinv(i)), orient_apply(onum(i), v)) == v by {
        lemma_orient_roundtrip(onum(i), v);
    }
}

impl Orientation {
    /// Apply this orientation to a point.
    pub fn apply(&self, p: &Point) -> (r: Point)
        requires
            owf(*self),
            sym(p@),
        ensures
            r@ == orient_apply(*self, p@),
            sym(r@),
    {
        let q = if self.roll == 0 {
            *p
        } else if self.roll == 1 {
            p.rotate(&Axis::X)
        } else if self.roll == 2 {
            p.rotate(&Axis::X).rotate(&Axis::X)
        } else {
            p.reverse_rotate(&Axis::X)
        };
        if self.face == 0 {
            q
        } else if self.face == 1 {
            q.rotate(&Axis::Z)
        } else if self.face == 2 {
            q.rotate(&Axis::Z).rotate(&Axis::Z)
        } else if self.face == 3 {
            q.reverse_rotate(&Axis::Z)
        } else if self.face == 4 {
            q.rotate(&Axis::Y)
        } else {
            q.reverse_rotate(&Axis::Y)
        }
    }

    /// Apply the inverse of this orientation to a point.
    pub fn unapply(&self, p: &Point) -> (r: Point)
        requires
            owf(*self),
            sym(p@),
        ensures
            r@ == orient_unapply(*self, p@),
            sym(r@),
    {
        let q = if self.face == 0 {
            *p
        } else if self.face == 1 {
            p.reverse_rotate(&Axis::Z)
        } else if self.face == 2 {
            p.rotate(&Axis::Z).rotate(&Axis::Z)
        } else if self.face == 3 {
            p.rotate(&Axis::Z)
        } else if self.face == 4 {
            p.reverse_rotate(&Axis::Y)
        } else {
            p.rotate(&Axis::Y)
        };
        if self.roll == 0 {
            q
        } else if self.roll == 1 {
            q.reverse_rotate(&Axis::X)
        } else if self.roll == 2 {
            q.rotate(&Axis::X).rotate(&Axis::X)
        } else {
            q.rotate(&Axis::X)
        }
    }
}

/// Enumerate all 24 orientations, in canonical order.
pub fn orientations() -> (r: Vec<Orientation>)
    ensures
        r@.len() == 24,
        forall|i: int| 0 <= i < 24 ==> r@[i] == onum(i),
        forall|i: int| 0 <= i < 24 ==> owf(#[trigger] r@[i]),
{
    let mut out: Vec<Orientation> = Vec::new();
    let mut f: u8 = 0;
    while f < 6
        invariant
            f <= 6,
            out@.len() == 4 * f,
            forall|i: int| 0 <= i < out@.len() ==> out@[i] == onum(i),
        decreases 6 - f,
    {
        let mut r: u8 = 0;
        while r < 4
            invariant
                f < 6,
                r <= 4,
                out@.len() == 4 * f + r,
                forall|i: int| 0 <= i < out@.len() ==> out@[i] == onum(i),
            decreases 4 - r,
        {
            out.push(Orientation { face: f, roll: r });
            r = r + 1;
        }
        f = f + 1;
    }
    assert forall|i: int| 0 <= i < 24 implies owf(#[trigger] out@[i]) by {
        assert(out@[i] == onum(i));
    }
    out
}

} // verus!
