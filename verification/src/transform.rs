//! Rigid transforms over integer points: a flat, ordered list of primitive
//! steps, each an orientation together with a translation offset, possibly
//! marked as inverted.  `apply` runs the steps left to right, `unapply`
//! runs their inverses right to left, `invert` reverses the list and flips
//! every mark, and `stack` concatenates transforms.
//!
//! The laws proved here: `apply` and `unapply` are mutual inverses for
//! every transform built from well-formed steps; applying a stack equals
//! applying its parts in order; and `invert` turns `apply` into `unapply`.

use vstd::prelude::*;
use crate::point::{Point, Vec3, sym, vadd, vsub, vzero, vbound};
use crate::orient::{Orientation, owf, orient_apply, orient_unapply, lemma_orient_roundtrip, lemma_orient_add};

verus! {

/// One primitive step of a transform: rotate by `orient`, then translate
/// by `offset`; with `inverted` set, undo exactly that instead.
#[derive(Clone, Copy, Debug, PartialEq, Eq, Structural)]
pub struct Step {
    pub orient: Orientation,
    pub offset: Point,
    pub inverted: bool,
}

/// Mathematical model of a step.
pub ghost struct StepV {
    pub orient: Orientation,
    pub offset: Vec3,
    pub inverted: bool,
}

impl View for Step {
    type V = StepV;

    open spec fn view(&self) -> StepV {
        StepV { orient: self.orient, offset: self.offset@, inverted: self.inverted }
    }
}

/// A rigid transform: a chain of primitive steps, applied left to right.
/// The empty chain is the identity.
#[derive(Debug)]
pub struct Transform {
    pub steps: Vec<Step>,
}

impl View for Transform {
    type V = Seq<StepV>;

    open spec fn view(&self) -> Seq<StepV> {
        self.steps@.map_values(|s: Step| s@)
    }
}

/// A step is well formed when its orientation is.
pub open spec fn step_wf(s: StepV) -> bool {
    owf(s.orient)
}

/// A transform is well formed when all its steps are.
pub open spec fn twf(t: Seq<StepV>) -> bool {
    forall|k: int| 0 <= k < t.len() ==> step_wf(#[trigger] t[k])
}

/// A transform is a pure rotation when every offset is zero.
pub open spec fn rot_only(t: Seq<StepV>) -> bool {
    forall|k: int| 0 <= k < t.len() ==> (#[trigger] t[k]).offset == vzero()
}

/// Forward action of one step.
pub open spec fn step_apply(s: StepV, v: Vec3) -> Vec3 {
    if !s.inverted {
        vadd(orient_apply(s.orient, v), s.offset)
    } else {
        orient_unapply(s.orient, vsub(v, s.offset))
    }
}

/// Backward action of one step: the inverse of `step_apply`.
pub open spec fn step_unapply(s: StepV, v: Vec3) -> Vec3 {
    if !s.inverted {
        orient_unapply(s.orient, vsub(v, s.offset))
    } else {
        vadd(orient_apply(s.orient, v), s.offset)
    }
}

/// Apply a whole transform: first step first.
pub open spec fn tapply(t: Seq<StepV>, v: Vec3) -> Vec3
    decreases t.len(),
{
    if t.len() == 0 {
        v
    } else {
        tapply(t.drop_first(), step_apply(t[0], v))
    }
}

/// Unapply a whole transform: last step first.
pub open spec fn tunapply(t: Seq<StepV>, v: Vec3) -> Vec3
    decreases t.len(),
{
    if t.len() == 0 {
        v
    } else {
        step_unapply(t[0], tunapply(t.drop_first(), v))
    }
}

/// A step with its direction flipped.
pub open spec fn flip(s: StepV) -> StepV {
    StepV { orient: s.orient, offset: s.offset, inverted: !s.inverted }
}

/// Model of inversion: reverse the step list and flip every step.
pub open spec fn tinvert(t: Seq<StepV>) -> Seq<StepV>
    decreases t.len(),
{
    if t.len() == 0 {
        Seq::empty()
    } else {
        tinvert(t.drop_first()).push(flip(t[0]))
    }
}

/// One step is undone exactly by its backward action, and the other way
/// round.
pub proof fn lemma_step_roundtrip(s: StepV, v: Vec3)
    requires
        step_wf(s),
    ensures
        step_unapply(s, step_apply(s, v)) == v,
        step_apply(s, step_unapply(s, v)) == v,
{
    lemma_orient_roundtrip(s.orient, v);
    lemma_orient_roundtrip(s.orient, vsub(v, s.offset));
    assert(vsub(vadd(orient_apply(s.orient, v), s.offset), s.offset) == orient_apply(s.orient, v));
    assert(vadd(orient_apply(s.orient, orient_unapply(s.orient, vsub(v, s.offset))), s.offset) == v);
}

/// `unapply` undoes `apply`, and `apply` undoes `unapply`, for every
/// well-formed transform and every point.
pub proof fn lemma_transform_roundtrip(t: Seq<StepV>, v: Vec3)
    requires
        twf(t),
    ensures
        tunapply(t, tapply(t, v)) == v,
        tapply(t, tunapply(t, v)) == v,
    decreases t.len(),
{
    if t.len() > 0 {
        let rest = t.drop_first();
        lemma_transform_roundtrip(rest, step_apply(t[0], v));
        lemma_transform_roundtrip(rest, tunapply(rest, v));
        lemma_step_roundtrip(t[0], v);
        lemma_step_roundtrip(t[0], step_unapply(t[0], tunapply(rest, v)));
        lemma_transform_roundtrip(rest, v);
    }
}

/// Applying a concatenation applies the parts in order.
pub proof fn lemma_tapply_concat(t1: Seq<StepV>, t2: Seq<StepV>, v: Vec3)
    ensures
        tapply(t1 + t2, v) == tapply(t2, tapply(t1, v)),
    decreases t1.len(),
{
    if t1.len() == 0 {
        assert(t1 + t2 =~= t2);
    } else {
        assert((t1 + t2).drop_first() =~= t1.drop_first() + t2);
        lemma_tapply_concat(t1.drop_first(), t2, step_apply(t1[0], v));
    }
}

/// Unapplying a concatenation unapplies the second part first.
pub proof fn lemma_tunapply_concat(t1: Seq<StepV>, t2: Seq<StepV>, v: Vec3)
    ensures
        tunapply(t1 + t2, v) == tunapply(t1, tunapply(t2, v)),
    decreases t1.len(),
{
    if t1.len() == 0 {
        assert(t1 + t2 =~= t2);
    } else {
        assert((t1 + t2).drop_first() =~= t1.drop_first() + t2);
        lemma_tunapply_concat(t1.drop_first(), t2, v);
    }
}

/// Inversion swaps `apply` and `unapply` and preserves well-formedness.
pub proof fn lemma_tinvert(t: Seq<StepV>, v: Vec3)
    requires
        twf(t),
    ensures
        twf(tinvert(t)),
        tinvert(t).len() == t.len(),
        tapply(tinvert(t), v) == tunapply(t, v),
        tunapply(tinvert(t), v) == tapply(t, v),
    decreases t.len(),
{
    if t.len() > 0 {
        let rest = t.drop_first();
        let fs = flip(t[0]);
        let single = seq![fs];
        assert(tinvert(t) =~= tinvert(rest) + single);
        lemma_tinvert(rest, v);
        assert(single[0] == fs);
        assert(single.drop_first() =~= Seq::<StepV>::empty());
        assert forall|k: int| 0 <= k < tinvert(t).len() implies step_wf(#[trigger] tinvert(t)[k]) by {
            if k < tinvert(rest).len() {
                assert(tinvert(t)[k] == tinvert(rest)[k]);
            } else {
                assert(tinvert(t)[k] == fs);
            }
        }
        // apply side
        lemma_tapply_concat(tinvert(rest), single, v);
        let w = tapply(tinvert(rest), v);
        assert(tapply(single.drop_first(), step_apply(fs, w)) == step_apply(fs, w));
        assert(tapply(single, w) == step_apply(fs, w));
        assert(step_apply(fs, tunapply(rest, v)) == step_unapply(t[0], tunapply(rest, v)));
        // unapply side
        lemma_tunapply_concat(tinvert(rest), single, v);
        assert(tunapply(single.drop_first(), v) == v);
        assert(tunapply(single, v) == step_unapply(fs, v));
        assert(step_unapply(fs, v) == step_apply(t[0], v));
        lemma_tinvert(rest, step_apply(t[0], v));
    }
}

/// A zero-offset step acts additively on sums of points.
pub proof fn lemma_step_rot_add(s: StepV, u: Vec3, w: Vec3)
    requires
        step_wf(s),
        s.offset == vzero(),
    ensures
        step_apply(s, vadd(u, w)) == vadd(step_apply(s, u), step_apply(s, w)),
        step_unapply(s, vadd(u, w)) == vadd(step_unapply(s, u), step_unapply(s, w)),
{
    lemma_orient_add(s.orient, u, w);
    assert(vsub(vadd(u, w), vzero()) == vadd(vsub(u, vzero()), vsub(w, vzero())));
    lemma_orient_add(s.orient, vsub(u, vzero()), vsub(w, vzero()));
}

/// A pure rotation acts additively on sums of points.
pub proof fn lemma_rot_only_add(t: Seq<StepV>, u: Vec3, w: Vec3)
    requires
        twf(t),
        rot_only(t),
    ensures
        tapply(t, vadd(u, w)) == vadd(tapply(t, u), tapply(t, w)),
        tunapply(t, vadd(u, w)) == vadd(tunapply(t, u), tunapply(t, w)),
    decreases t.len(),
{
    if t.len() > 0 {
        let rest = t.drop_first();
        lemma_step_rot_add(t[0], u, w);
        lemma_rot_only_add(rest, step_apply(t[0], u), step_apply(t[0], w));
        lemma_rot_only_add(rest, u, w);
        lemma_step_rot_add(t[0], tunapply(rest, u), tunapply(rest, w));
    }
}

/// An orientation keeps every coordinate bound: it only permutes and
/// negates coordinates.
pub proof fn lemma_orient_bound(o: Orientation, v: Vec3, b: int)
    requires
        owf(o),
        vbound(v, b),
    ensures
        vbound(orient_apply(o, v), b),
        vbound(orient_unapply(o, v), b),
{
}

/// A pure rotation keeps every coordinate bound.
pub proof fn lemma_rot_only_bound(t: Seq<StepV>, v: Vec3, b: int)
    requires
        twf(t),
        rot_only(t),
        vbound(v, b),
    ensures
        vbound(tapply(t, v), b),
        vbound(tunapply(t, v), b),
    decreases t.len(),
{
    if t.len() > 0 {
        let rest = t.drop_first();
        lemma_orient_bound(t[0].orient, v, b);
        assert(vsub(v, t[0].offset) == v);
        assert(vbound(step_apply(t[0], v), b));
        lemma_rot_only_bound(rest, step_apply(t[0], v), b);
        lemma_rot_only_bound(rest, v, b);
        let w = tunapply(rest, v);
        lemma_orient_bound(t[0].orient, w, b);
        assert(vsub(w, t[0].offset) == w);
        assert(vbound(step_unapply(t[0], w), b));
    }
}

/// All intermediate values of a forward application stay representable.
pub open spec fn tapply_fits(t: Seq<StepV>, v: Vec3) -> bool
    decreases t.len(),
{
    if t.len() == 0 {
        sym(v)
    } else {
        sym(v) && sym(t[0].offset) && (if t[0].inverted {
            sym(vsub(v, t[0].offset))
        } else {
            sym(step_apply(t[0], v))
        }) && tapply_fits(t.drop_first(), step_apply(t[0], v))
    }
}

/// All intermediate values of a backward application stay representable.
pub open spec fn tunapply_fits(t: Seq<StepV>, v: Vec3) -> bool
    decreases t.len(),
{
    if t.len() == 0 {
        sym(v)
    } else {
        tunapply_fits(t.drop_first(), v) && sym(t[0].offset) && (if t[0].inverted {
            sym(step_unapply(t[0], tunapply(t.drop_first(), v)))
        } else {
            sym(vsub(tunapply(t.drop_first(), v), t[0].offset))
        })
    }
}

/// If the input is bounded by `b` and every offset by `c`, applying a
/// transform of `n` steps keeps all intermediates within `b + n * c`, so
/// everything fits whenever `b + n * c` is representable.
pub proof fn lemma_fits_from_bounds(t: Seq<StepV>, v: Vec3, b: int, c: int)
    requires
        twf(t),
        0 <= b,
        0 <= c,
        vbound(v, b),
        forall|k: int| 0 <= k < t.len() ==> vbound((#[trigger] t[k]).offset, c),
        b + t.len() * c <= i64::MAX as int,
    ensures
        tapply_fits(t, v),
        tunapply_fits(t, v),
        vbound(tapply(t, v), b + t.len() * c),
        vbound(tunapply(t, v), b + t.len() * c),
    decreases t.len(),
{
    if t.len() == 0 {
        assert(t.len() * c == 0);
    } else {
        let rest = t.drop_first();
        let n = t.len() as int;
        assert(n * c == c + (n - 1) * c) by (nonlinear_arith);
        assert((n - 1) * c >= 0) by (nonlinear_arith)
            requires n >= 1 && c >= 0,
        ;
        lemma_orient_bound(t[0].orient, v, b);
        lemma_orient_bound(t[0].orient, vsub(v, t[0].offset), b + c);
        assert(vbound(step_apply(t[0], v), b + c));
        lemma_fits_from_bounds(rest, step_apply(t[0], v), b + c, c);
        // backward direction
        lemma_fits_from_bounds(rest, v, b, c);
        let w = tunapply(rest, v);
        assert(vbound(w, b + (n - 1) * c));
        lemma_orient_bound(t[0].orient, w, b + (n - 1) * c);
        lemma_orient_bound(t[0].orient, vsub(w, t[0].offset), b + n * c);
        assert(vbound(step_unapply(t[0], w), b + n * c));
    }
}

/// Inversion keeps a pure rotation pure.
pub proof fn lemma_tinvert_rot_only(t: Seq<StepV>)
    requires
        rot_only(t),
    ensures
        rot_only(tinvert(t)),
    decreases t.len(),
{
    if t.len() > 0 {
        let rest = t.drop_first();
        lemma_tinvert_rot_only(rest);
        let r = tinvert(t);
        assert forall|k: int| 0 <= k < r.len() implies (#[trigger] r[k]).offset == vzero() by {
            if k < tinvert(rest).len() {
                assert(r[k] == tinvert(rest)[k]);
            } else {
                assert(r[k] == flip(t[0]));
                assert(t[0].offset == vzero());
            }
        }
    }
}

/// A transform keeps the step list length under inversion.
pub proof fn lemma_tinvert_len(t: Seq<StepV>)
    ensures
        tinvert(t).len() == t.len(),
    decreases t.len(),
{
    if t.len() > 0 {
        lemma_tinvert_len(t.drop_first());
    }
}

/// A backward application that fits keeps its input and result
/// representable.
pub proof fn lemma_tunapply_fits_sym(t: Seq<StepV>, v: Vec3)
    requires
        twf(t),
        tunapply_fits(t, v),
    ensures
        sym(v),
        sym(tunapply(t, v)),
    decreases t.len(),
{
    if t.len() > 0 {
        let rest = t.drop_first();
        lemma_tunapply_fits_sym(rest, v);
        let w = tunapply(rest, v);
        if !t[0].inverted {
            lemma_orient_bound(t[0].orient, vsub(w, t[0].offset), i64::MAX as int);
        }
    }
}

/// What a fitting backward application guarantees at one step: the step's
/// offset, its input and its intermediate difference are representable.
pub proof fn lemma_tunapply_fits_parts(t: Seq<StepV>, v: Vec3, j: int)
    requires
        twf(t),
        tunapply_fits(t, v),
        0 <= j < t.len(),
    ensures
        sym(t[j].offset),
        sym(tunapply(t.skip(j + 1), v)),
        sym(step_unapply(t[j], tunapply(t.skip(j + 1), v))),
        !t[j].inverted ==> sym(vsub(tunapply(t.skip(j + 1), v), t[j].offset)),
    decreases j,
{
    let rest = t.drop_first();
    if j == 0 {
        assert(t.skip(1) =~= rest);
        lemma_tunapply_fits_sym(rest, v);
        let w = tunapply(rest, v);
        if !t[0].inverted {
            lemma_orient_bound(t[0].orient, vsub(w, t[0].offset), i64::MAX as int);
        }
    } else {
        assert(rest.skip(j) =~= t.skip(j + 1));
        assert(rest[j - 1] == t[j]);
        lemma_tunapply_fits_parts(rest, v, j - 1);
    }
}

/// Model of stacking: the concatenation of the step lists, in order.
pub open spec fn stack_spec(ts: Seq<Transform>) -> Seq<StepV>
    decreases ts.len(),
{
    if ts.len() == 0 {
        Seq::empty()
    } else {
        ts[0]@ + stack_spec(ts.drop_first())
    }
}

/// Stacking one more transform appends its steps.
pub proof fn lemma_stack_spec_snoc(ts: Seq<Transform>, x: Transform)
    ensures
        stack_spec(ts.push(x)) == stack_spec(ts) + x@,
    decreases ts.len(),
{
    let p = ts.push(x);
    if ts.len() == 0 {
        assert(p.drop_first() =~= Seq::<Transform>::empty());
        assert(p[0] == x);
        assert(stack_spec(p.drop_first()) =~= Seq::<StepV>::empty());
        assert(stack_spec(p) =~= stack_spec(ts) + x@);
    } else {
        assert(p.drop_first() =~= ts.drop_first().push(x));
        lemma_stack_spec_snoc(ts.drop_first(), x);
        assert(p[0] == ts[0]);
        assert(ts[0]@ + (stack_spec(ts.drop_first()) + x@)
            =~= (ts[0]@ + stack_spec(ts.drop_first())) + x@);
    }
}

/// Stacking exactly two transforms concatenates their steps, so applying
/// the stack applies the first and then the second.
pub proof fn lemma_stack_pair(t1: Transform, t2: Transform, v: Vec3)
    ensures
        stack_spec(seq![t1, t2]) == t1@ + t2@,
        tapply(stack_spec(seq![t1, t2]), v) == tapply(t2@, tapply(t1@, v)),
{
    let ts = seq![t1, t2];
    assert(ts[0] == t1);
    assert(ts.drop_first() =~= seq![t2]);
    assert(ts.drop_first()[0] == t2);
    assert(ts.drop_first().drop_first() =~= Seq::<Transform>::empty());
    assert(stack_spec(ts.drop_first().drop_first()) =~= Seq::<StepV>::empty());
    assert(stack_spec(ts.drop_first()) =~= t2@ + Seq::<StepV>::empty());
    assert(stack_spec(ts.drop_first()) =~= t2@);
    assert(stack_spec(ts) =~= t1@ + t2@);
    lemma_tapply_concat(t1@, t2@, v);
}

impl Transform {
    /// The identity transform: the empty chain.
    pub fn identity() -> (r: Self)
        ensures
            r@ == Seq::<StepV>::empty(),
            r@.len() == 0,
    {
        let r = Transform { steps: Vec::new() };
        proof {
            assert(r@ =~= Seq::<StepV>::empty());
        }
        r
    }

    /// Apply this transform to the given point, first step first.
    pub fn apply(&self, p: &Point) -> (r: Point)
        requires
            twf(self@),
            tapply_fits(self@, p@),
        ensures
            r@ == tapply(self@, p@),
            sym(r@),
    {
        let mut cur: Point = *p;
        let mut i: usize = 0;
        proof {
            assert(self@.skip(0) =~= self@);
        }
        while i < self.steps.len()
            invariant
                i <= self.steps.len(),
                self@.len() == self.steps.len(),
                twf(self@),
                tapply_fits(self@.skip(i as int), cur@),
                tapply(self@, p@) == tapply(self@.skip(i as int), cur@),
            decreases self.steps.len() - i,
        {
            let ghost pre = self@.skip(i as int);
            let s = self.steps[i];
            proof {
                assert(self@[i as int] == s@);
                assert(pre[0] == s@);
                assert(pre.drop_first() =~= self@.skip(i as int + 1));
            }
            if !s.inverted {
                cur = s.orient.apply(&cur).add(s.offset);
            } else {
                cur = s.orient.unapply(&cur.sub(s.offset));
            }
            i = i + 1;
        }
        proof {
            assert(self@.skip(self@.len() as int) =~= Seq::<StepV>::empty());
        }
        cur
    }

    /// Unapply this transform from the given point, last step first; the
    /// exact inverse of `apply`.
    pub fn unapply(&self, p: &Point) -> (r: Point)
        requires
            twf(self@),
            tunapply_fits(self@, p@),
        ensures
            r@ == tunapply(self@, p@),
            sym(r@),
    {
        proof {
            assert(self@.skip(self@.len() as int) =~= Seq::<StepV>::empty());
        }
        let mut cur: Point = *p;
        let mut i: usize = self.steps.len();
        while i > 0
            invariant
                i <= self.steps.len(),
                self@.len() == self.steps.len(),
                twf(self@),
                tunapply_fits(self@, p@),
                cur@ == tunapply(self@.skip(i as int), p@),
            decreases i,
        {
            i = i - 1;
            let s = self.steps[i];
            proof {
                assert(self@[i as int] == s@);
                lemma_tunapply_fits_parts(self@, p@, i as int);
                assert(self@.skip(i as int)[0] == s@);
                assert(self@.skip(i as int).drop_first() =~= self@.skip(i as int + 1));
            }
            if !s.inverted {
                cur = s.orient.unapply(&cur.sub(s.offset));
            } else {
                cur = s.orient.apply(&cur).add(s.offset);
            }
        }
        proof {
            assert(self@.skip(0) =~= self@);
            lemma_tunapply_fits_sym(self@, p@);
        }
        cur
    }

    /// Invert this transform: unapplying the result equals applying this
    /// one, and the other way round.
    pub fn invert(&self) -> (r: Transform)
        ensures
            r@ == tinvert(self@),
            r@.len() == self@.len(),
    {
        let mut out: Vec<Step> = Vec::new();
        let mut i: usize = self.steps.len();
        proof {
            assert(self@.skip(i as int) =~= Seq::<StepV>::empty());
            assert(out@.map_values(|s: Step| s@) =~= tinvert(self@.skip(i as int)));
        }
        while i > 0
            invariant
                i <= self.steps.len(),
                self@.len() == self.steps.len(),
                out@.map_values(|s: Step| s@) == tinvert(self@.skip(i as int)),
            decreases i,
        {
            i = i - 1;
            let s = self.steps[i];
            let ghost prev = out@.map_values(|s: Step| s@);
            out.push(Step { orient: s.orient, offset: s.offset, inverted: !s.inverted });
            proof {
                assert(self@[i as int] == s@);
                assert(self@.skip(i as int)[0] == s@);
                assert(self@.skip(i as int).drop_first() =~= self@.skip(i as int + 1));
                assert(out@.map_values(|s: Step| s@) =~= prev.push(flip(s@)));
            }
        }
        proof {
            assert(self@.skip(0) =~= self@);
            lemma_tinvert_len(self@);
        }
        Transform { steps: out }
    }

    /// An exact copy of this transform.
    pub fn duplicate(&self) -> (r: Transform)
        ensures
            r@ == self@,
    {
        let mut steps: Vec<Step> = Vec::new();
        let mut i: usize = 0;
        while i < self.steps.len()
            invariant
                i <= self.steps.len(),
                self@.len() == self.steps.len(),
                steps@.map_values(|s: Step| s@) == self@.take(i as int),
            decreases self.steps.len() - i,
        {
            let ghost prev = steps@.map_values(|s: Step| s@);
            steps.push(self.steps[i]);
            proof {
                assert(self@[i as int] == self.steps@[i as int]@);
                assert(steps@.map_values(|s: Step| s@) =~= prev.push(self@[i as int]));
                assert(self@.take(i as int + 1) =~= self@.take(i as int).push(self@[i as int]));
            }
            i = i + 1;
        }
        proof {
            assert(self@.take(self@.len() as int) =~= self@);
        }
        Transform { steps }
    }

    /// Append another transform behind this one: apply `self` first, then
    /// `other`.
    pub fn chain(&self, other: &Transform) -> (r: Transform)
        ensures
            r@ == self@ + other@,
    {
        let mut steps: Vec<Step> = Vec::new();
        let mut i: usize = 0;
        while i < self.steps.len()
            invariant
                i <= self.steps.len(),
                self@.len() == self.steps.len(),
                steps@.map_values(|s: Step| s@) == self@.take(i as int),
            decreases self.steps.len() - i,
        {
            let ghost prev = steps@.map_values(|s: Step| s@);
            steps.push(self.steps[i]);
            proof {
                assert(self@[i as int] == self.steps@[i as int]@);
                assert(steps@.map_values(|s: Step| s@) =~= prev.push(self@[i as int]));
                assert(self@.take(i as int + 1) =~= self@.take(i as int).push(self@[i as int]));
            }
            i = i + 1;
        }
        let mut j: usize = 0;
        while j < other.steps.len()
            invariant
                j <= other.steps.len(),
                other@.len() == other.steps.len(),
                steps@.map_values(|s: Step| s@) == self@ + other@.take(j as int),
            decreases other.steps.len() - j,
        {
            let ghost prev = steps@.map_values(|s: Step| s@);
            steps.push(other.steps[j]);
            proof {
                assert(other@[j as int] == other.steps@[j as int]@);
                assert(steps@.map_values(|s: Step| s@) =~= prev.push(other@[j as int]));
                assert(self@ + other@.take(j as int + 1)
                    =~= (self@ + other@.take(j as int)).push(other@[j as int]));
            }
            j = j + 1;
        }
        proof {
            assert(self@.take(self@.len() as int) =~= self@);
            assert(self@ + other@.take(other@.len() as int) =~= self@ + other@);
        }
        Transform { steps }
    }

    /// Stack the given transforms together into a single equivalent
    /// transform: the first is applied first.
    pub fn stack(transforms: &[Transform]) -> (r: Self)
        ensures
            r@ == stack_spec(transforms@),
    {
        let mut out = Transform::identity();
        let mut i: usize = 0;
        proof {
            assert(stack_spec(transforms@.take(0)) =~= Seq::<StepV>::empty());
        }
        while i < transforms.len()
            invariant
                i <= transforms@.len(),
                out@ == stack_spec(transforms@.take(i as int)),
            decreases transforms@.len() - i,
        {
            let t = vstd::slice::slice_index_get(transforms, i);
            out = out.chain(t);
            proof {
                assert(transforms@.take(i as int + 1)
                    =~= transforms@.take(i as int).push(transforms@[i as int]));
                lemma_stack_spec_snoc(transforms@.take(i as int), transforms@[i as int]);
            }
            i = i + 1;
        }
        proof {
            assert(transforms@.take(transforms@.len() as int) =~= transforms@);
        }
        out
    }
}

} // verus!
