//! Scanners and the pairwise aligner.  A scanner reports an unordered
//! collection of beacon points in its own local frame.  `pinpoint` tallies
//! the difference vectors between two point clouds and reports a
//! translation as soon as one difference occurs twelve times; `align`
//! tries all 24 orientations of the second scanner and packages a
//! successful match as an edge of the pose graph.

use vstd::prelude::*;
use crate::point::{Point, Vec3, sym, vadd, vsub, vneg, vzero, vbound};
use crate::orient::{onum, orient_apply, owf};
use crate::transform::{
    Step, StepV, Transform, twf, rot_only, tapply, tunapply, tinvert, tapply_fits, step_apply,
    step_unapply, lemma_fits_from_bounds,
};

verus! {

/// The number of coinciding beacons that confirms an alignment.
pub const MATCH_THRESHOLD: usize = 12;

/// Every coordinate of every reported beacon must stay within this bound,
/// which leaves room for the arithmetic of alignment and resolution.
pub const MAX_COORD: i64 = 0x80_0000_0000;

/// All points of a cloud are bounded by `b`.
pub open spec fn pts_bounded(s: Seq<Vec3>, b: int) -> bool {
    forall|k: int| 0 <= k < s.len() ==> vbound(#[trigger] s[k], b)
}

/// How often `p - q == d` as `q` runs over `b`.
pub open spec fn row_count(p: Vec3, b: Seq<Vec3>, d: Vec3) -> nat
    decreases b.len(),
{
    if b.len() == 0 {
        0
    } else {
        (if vsub(p, b[0]) == d {
            1nat
        } else {
            0nat
        }) + row_count(p, b.drop_first(), d)
    }
}

/// How often `a[i] - b[j] == d` over all pairs `(i, j)`.
pub open spec fn count_pairs(a: Seq<Vec3>, b: Seq<Vec3>, d: Vec3) -> nat
    decreases a.len(),
{
    if a.len() == 0 {
        0
    } else {
        row_count(a[0], b, d) + count_pairs(a.drop_first(), b, d)
    }
}

/// Appending one point to a row adds at most one occurrence.
pub proof fn lemma_row_count_snoc(p: Vec3, b: Seq<Vec3>, x: Vec3, d: Vec3)
    ensures
        row_count(p, b.push(x), d) == row_count(p, b, d) + (if vsub(p, x) == d {
            1nat
        } else {
            0nat
        }),
    decreases b.len(),
{
    let s = b.push(x);
    if b.len() == 0 {
        assert(s[0] == x);
        assert(s.drop_first() =~= Seq::<Vec3>::empty());
        assert(row_count(p, s.drop_first(), d) == 0);
        assert(row_count(p, b, d) == 0);
    } else {
        assert(s[0] == b[0]);
        assert(s.drop_first() =~= b.drop_first().push(x));
        lemma_row_count_snoc(p, b.drop_first(), x, d);
    }
}

/// Appending one point to the first cloud adds that point's row count.
pub proof fn lemma_count_pairs_snoc(a: Seq<Vec3>, x: Vec3, b: Seq<Vec3>, d: Vec3)
    ensures
        count_pairs(a.push(x), b, d) == count_pairs(a, b, d) + row_count(x, b, d),
    decreases a.len(),
{
    let s = a.push(x);
    if a.len() == 0 {
        assert(s[0] == x);
        assert(s.drop_first() =~= Seq::<Vec3>::empty());
        assert(count_pairs(s.drop_first(), b, d) == 0);
        assert(count_pairs(a, b, d) == 0);
    } else {
        assert(s[0] == a[0]);
        assert(s.drop_first() =~= a.drop_first().push(x));
        lemma_count_pairs_snoc(a.drop_first(), x, b, d);
    }
}

/// Row counts add over concatenation.
pub proof fn lemma_row_count_concat(p: Vec3, b1: Seq<Vec3>, b2: Seq<Vec3>, d: Vec3)
    ensures
        row_count(p, b1 + b2, d) == row_count(p, b1, d) + row_count(p, b2, d),
    decreases b1.len(),
{
    if b1.len() == 0 {
        assert(b1 + b2 =~= b2);
    } else {
        assert((b1 + b2)[0] == b1[0]);
        assert((b1 + b2).drop_first() =~= b1.drop_first() + b2);
        lemma_row_count_concat(p, b1.drop_first(), b2, d);
    }
}

/// Pair counts add over concatenation of the first cloud.
pub proof fn lemma_count_pairs_concat(a1: Seq<Vec3>, a2: Seq<Vec3>, b: Seq<Vec3>, d: Vec3)
    ensures
        count_pairs(a1 + a2, b, d) == count_pairs(a1, b, d) + count_pairs(a2, b, d),
    decreases a1.len(),
{
    if a1.len() == 0 {
        assert(a1 + a2 =~= a2);
    } else {
        assert((a1 + a2)[0] == a1[0]);
        assert((a1 + a2).drop_first() =~= a1.drop_first() + a2);
        lemma_count_pairs_concat(a1.drop_first(), a2, b, d);
    }
}

/// The tally of `d` after scanning all rows before `i` and, within row
/// `i`, all columns before `j`.
pub open spec fn count_upto(a: Seq<Vec3>, b: Seq<Vec3>, i: int, j: int, d: Vec3) -> nat {
    count_pairs(a.take(i), b, d) + (if 0 <= i < a.len() {
        row_count(a[i], b.take(j), d)
    } else {
        0nat
    })
}

/// Advancing one column inside a row raises the tally of exactly the
/// difference seen there.
pub proof fn lemma_upto_step(a: Seq<Vec3>, b: Seq<Vec3>, i: int, j: int, e: Vec3)
    requires
        0 <= i < a.len(),
        0 <= j < b.len(),
    ensures
        count_upto(a, b, i, j + 1, e) == count_upto(a, b, i, j, e) + (if vsub(a[i], b[j]) == e {
            1nat
        } else {
            0nat
        }),
{
    assert(b.take(j + 1) =~= b.take(j).push(b[j]));
    lemma_row_count_snoc(a[i], b.take(j), b[j], e);
}

/// Finishing a row equals starting the next one.
pub proof fn lemma_upto_row_end(a: Seq<Vec3>, b: Seq<Vec3>, i: int, e: Vec3)
    requires
        0 <= i < a.len(),
    ensures
        count_upto(a, b, i, b.len() as int, e) == count_upto(a, b, i + 1, 0, e),
{
    assert(b.take(b.len() as int) =~= b);
    assert(a.take(i + 1) =~= a.take(i).push(a[i]));
    lemma_count_pairs_snoc(a.take(i), a[i], b, e);
    if i + 1 < a.len() {
        assert(b.take(0) =~= Seq::<Vec3>::empty());
        assert(row_count(a[i + 1], b.take(0), e) == 0);
    }
}

/// A partial tally never exceeds the total pair count.
pub proof fn lemma_upto_le_total(a: Seq<Vec3>, b: Seq<Vec3>, i: int, j: int, e: Vec3)
    requires
        0 <= i <= a.len(),
        0 <= j <= b.len(),
    ensures
        count_upto(a, b, i, j, e) <= count_pairs(a, b, e),
{
    assert(a =~= a.take(i) + a.skip(i));
    lemma_count_pairs_concat(a.take(i), a.skip(i), b, e);
    if i < a.len() {
        assert(b =~= b.take(j) + b.skip(j));
        lemma_row_count_concat(a[i], b.take(j), b.skip(j), e);
        assert(a.skip(i)[0] == a[i]);
        assert(count_pairs(a.skip(i), b, e) >= row_count(a[i], b, e));
    }
}

/// The tally after the last row is the total pair count.
pub proof fn lemma_upto_total(a: Seq<Vec3>, b: Seq<Vec3>, e: Vec3)
    ensures
        count_upto(a, b, a.len() as int, 0, e) == count_pairs(a, b, e),
{
    assert(a.take(a.len() as int) =~= a);
}

/// The pair differences of two bounded clouds stay representable.
pub open spec fn deltas_fit(a: Seq<Vec3>, b: Seq<Vec3>) -> bool {
    forall|i: int, j: int| 0 <= i < a.len() && 0 <= j < b.len() ==> sym(#[trigger] vsub(a[i], b[j]))
}

/// Whether some tally entry already carries difference `d`.
pub open spec fn in_tally(t: Seq<(Point, usize)>, d: Vec3) -> bool {
    exists|k: int| 0 <= k < t.len() && (#[trigger] t[k]).0@ == d
}

/// The tally invariant: entries have distinct keys, each entry carries the
/// exact running count of its key, every count is below the threshold, and
/// a difference without an entry has not occurred yet.
pub open spec fn tally_inv(t: Seq<(Point, usize)>, a: Seq<Vec3>, b: Seq<Vec3>, i: int, j: int) -> bool {
    &&& forall|k1: int, k2: int| 0 <= k1 < k2 < t.len() ==> (#[trigger] t[k1]).0@ != (#[trigger] t[k2]).0@
    &&& forall|k: int| 0 <= k < t.len() ==> (#[trigger] t[k]).1 == count_upto(a, b, i, j, t[k].0@)
    &&& forall|k: int| 0 <= k < t.len() ==> (#[trigger] t[k]).1 <= 11
    &&& forall|d: Vec3| !in_tally(t, d) ==> #[trigger] count_upto(a, b, i, j, d) == 0
}

/// Find the tally entry for a difference, if any.
fn tally_find(t: &Vec<(Point, usize)>, d: &Point) -> (r: Option<usize>)
    ensures
        r is Some ==> r->Some_0 < t@.len() && t@[r->Some_0 as int].0@ == d@,
        r is None ==> !in_tally(t@, d@),
{
    let mut k: usize = 0;
    while k < t.len()
        invariant
            k <= t@.len(),
            forall|m: int| 0 <= m < k ==> (#[trigger] t@[m]).0@ != d@,
        decreases t@.len() - k,
    {
        if t[k].0 == *d {
            return Some(k);
        }
        k = k + 1;
    }
    None
}

/// A scanner: a stable identifier and the beacons it reports, in its own
/// local frame.
#[derive(Debug)]
pub struct Scanner {
    pub id: usize,
    pub beacon_pts: Vec<Point>,
}

impl View for Scanner {
    type V = Seq<Vec3>;

    open spec fn view(&self) -> Seq<Vec3> {
        self.beacon_pts@.map_values(|p: Point| p@)
    }
}

impl Scanner {
    /// Build a scanner from its identifier and reported beacons.
    pub fn new(id: usize, beacon_pts: Vec<Point>) -> (r: Scanner)
        ensures
            r.id == id,
            r@ == beacon_pts@.map_values(|p: Point| p@),
    {
        Scanner { id, beacon_pts }
    }

    /// Apply a transform to every beacon of this scanner.
    pub fn map(&self, t: &Transform) -> (r: Scanner)
        requires
            twf(t@),
            forall|k: int| 0 <= k < self@.len() ==> tapply_fits(t@, #[trigger] self@[k]),
        ensures
            r.id == self.id,
            r@.len() == self@.len(),
            forall|k: int| 0 <= k < self@.len() ==> r@[k] == tapply(t@, #[trigger] self@[k]),
    {
        let mut pts: Vec<Point> = Vec::new();
        let mut k: usize = 0;
        while k < self.beacon_pts.len()
            invariant
                k <= self.beacon_pts.len(),
                self@.len() == self.beacon_pts.len(),
                twf(t@),
                forall|m: int| 0 <= m < self@.len() ==> tapply_fits(t@, #[trigger] self@[m]),
                pts@.len() == k,
                forall|m: int| 0 <= m < k ==> pts@.map_values(|p: Point| p@)[m]
                    == tapply(t@, #[trigger] self@[m]),
            decreases self.beacon_pts.len() - k,
        {
            proof {
                assert(self@[k as int] == self.beacon_pts@[k as int]@);
            }
            let q = t.apply(&self.beacon_pts[k]);
            pts.push(q);
            k = k + 1;
        }
        Scanner { id: self.id, beacon_pts: pts }
    }

    /// Attempt to pinpoint the other scanner relative to this scanner,
    /// assuming both are already in the same orientation: tally the
    /// differences between beacon pairs and return one the moment it has
    /// occurred twelve times; return nothing when no difference ever does.
    pub fn pinpoint(&self, other: &Scanner) -> (r: Option<Point>)
        requires
            deltas_fit(self@, other@),
        ensures
            r is Some ==> count_pairs(self@, other@, r->Some_0@) >= MATCH_THRESHOLD,
            r is None ==> forall|d: Vec3| count_pairs(self@, other@, d) < MATCH_THRESHOLD,
    {
        let ghost a = self@;
        let ghost b = other@;
        let mut tally: Vec<(Point, usize)> = Vec::new();
        let mut i: usize = 0;
        proof {
            assert(a.take(0) =~= Seq::<Vec3>::empty());
            assert(b.take(0) =~= Seq::<Vec3>::empty());
        }
        while i < self.beacon_pts.len()
            invariant
                i <= self.beacon_pts.len(),
                a == self@,
                b == other@,
                a.len() == self.beacon_pts.len(),
                b.len() == other.beacon_pts.len(),
                deltas_fit(a, b),
                tally_inv(tally@, a, b, i as int, 0),
            decreases self.beacon_pts.len() - i,
        {
            let mut j: usize = 0;
            proof {
                assert(b.take(0) =~= Seq::<Vec3>::empty());
            }
            while j < other.beacon_pts.len()
                invariant
                    i < self.beacon_pts.len(),
                    j <= other.beacon_pts.len(),
                    a == self@,
                    b == other@,
                    a.len() == self.beacon_pts.len(),
                    b.len() == other.beacon_pts.len(),
                    deltas_fit(a, b),
                    tally_inv(tally@, a, b, i as int, j as int),
                decreases other.beacon_pts.len() - j,
            {
                proof {
                    assert(a[i as int] == self.beacon_pts@[i as int]@);
                    assert(b[j as int] == other.beacon_pts@[j as int]@);
                    assert(sym(vsub(a[i as int], b[j as int])));
                }
                let d = self.beacon_pts[i].sub(other.beacon_pts[j]);
                let ghost dv = d@;
                proof {
                    assert(dv == vsub(a[i as int], b[j as int]));
                }
                match tally_find(&tally, &d) {
                    Some(ix) => {
                        let c = tally[ix].1;
                        let c1 = c + 1;
                        proof {
                            lemma_upto_step(a, b, i as int, j as int, dv);
                            assert(c1 == count_upto(a, b, i as int, j as int + 1, dv));
                        }
                        if c1 >= MATCH_THRESHOLD {
                            proof {
                                lemma_upto_le_total(a, b, i as int, j as int + 1, dv);
                            }
                            return Some(d);
                        }
                        let ghost told = tally@;
                        tally[ix] = (d, c1);
                        proof {
                            let tnew = tally@;
                            assert(tnew =~= told.update(ix as int, (d, c1)));
                            assert(told[ix as int].0@ == dv);
                            assert forall|k1: int, k2: int| 0 <= k1 < k2 < tnew.len()
                                implies (#[trigger] tnew[k1]).0@ != (#[trigger] tnew[k2]).0@ by {
                                assert(told[k1].0@ != told[k2].0@);
                            }
                            assert forall|k: int| 0 <= k < tnew.len()
                                implies (#[trigger] tnew[k]).1
                                    == count_upto(a, b, i as int, j as int + 1, tnew[k].0@)
                                    && tnew[k].1 <= 11 by {
                                if k != ix {
                                    lemma_upto_step(a, b, i as int, j as int, told[k].0@);
                                    if k < ix {
                                        assert(told[k].0@ != told[ix as int].0@);
                                    } else {
                                        assert(told[ix as int].0@ != told[k].0@);
                                    }
                                }
                            }
                            assert forall|e: Vec3| !in_tally(tnew, e)
                                implies #[trigger] count_upto(a, b, i as int, j as int + 1, e) == 0 by {
                                assert forall|k: int| 0 <= k < told.len()
                                    implies (#[trigger] told[k]).0@ != e by {
                                    if k == ix {
                                        assert(tnew[k].0@ == dv);
                                        assert(tnew[k].0@ != e);
                                    } else {
                                        assert(tnew[k].0@ != e);
                                    }
                                }
                                assert(!in_tally(told, e));
                                assert(e != dv);
                                lemma_upto_step(a, b, i as int, j as int, e);
                            }
                        }
                    }
                    None => {
                        let ghost told = tally@;
                        proof {
                            assert(count_upto(a, b, i as int, j as int, dv) == 0);
                        }
                        tally.push((d, 1));
                        proof {
                            let tnew = tally@;
                            assert(tnew =~= told.push((d, 1)));
                            assert(forall|k: int| 0 <= k < told.len()
                                ==> (#[trigger] told[k]).0@ != dv);
                            assert forall|k1: int, k2: int| 0 <= k1 < k2 < tnew.len()
                                implies (#[trigger] tnew[k1]).0@ != (#[trigger] tnew[k2]).0@ by {
                                if k2 < told.len() {
                                    assert(told[k1].0@ != told[k2].0@);
                                } else {
                                    assert(tnew[k2].0@ == dv);
                                    assert(told[k1].0@ != dv);
                                }
                            }
                            assert forall|k: int| 0 <= k < tnew.len()
                                implies (#[trigger] tnew[k]).1
                                    == count_upto(a, b, i as int, j as int + 1, tnew[k].0@)
                                    && tnew[k].1 <= 11 by {
                                lemma_upto_step(a, b, i as int, j as int, tnew[k].0@);
                                if k < told.len() {
                                    assert(told[k].0@ != dv);
                                } else {
                                    assert(tnew[k] == (d, 1usize));
                                }
                            }
                            assert forall|e: Vec3| !in_tally(tnew, e)
                                implies #[trigger] count_upto(a, b, i as int, j as int + 1, e) == 0 by {
                                assert(tnew[told.len() as int].0@ == dv);
                                assert(e != dv);
                                assert forall|k: int| 0 <= k < told.len()
                                    implies (#[trigger] told[k]).0@ != e by {
                                    assert(tnew[k].0@ != e);
                                }
                                assert(!in_tally(told, e));
                                lemma_upto_step(a, b, i as int, j as int, e);
                            }
                        }
                    }
                }
                j = j + 1;
            }
            proof {
                assert forall|e: Vec3| #[trigger] count_upto(a, b, i as int + 1, 0, e)
                    == count_upto(a, b, i as int, b.len() as int, e) by {
                    lemma_upto_row_end(a, b, i as int, e);
                }
                assert forall|k: int| 0 <= k < tally@.len() implies (#[trigger] tally@[k]).1
                    == count_upto(a, b, i as int + 1, 0, tally@[k].0@) by {
                    lemma_upto_row_end(a, b, i as int, tally@[k].0@);
                }
            }
            i = i + 1;
        }
        proof {
            assert forall|d: Vec3| count_pairs(a, b, d) < MATCH_THRESHOLD by {
                lemma_upto_total(a, b, d);
                if in_tally(tally@, d) {
                    let k = choose|k: int| 0 <= k < tally@.len() && (#[trigger] tally@[k]).0@ == d;
                    assert(tally@[k].1 == count_upto(a, b, a.len() as int, 0, d));
                } else {
                    assert(count_upto(a, b, a.len() as int, 0, d) == 0);
                }
            }
        }
        None
    }
}

/// A positive pair count exhibits a pair.
pub proof fn lemma_count_pairs_pos(a: Seq<Vec3>, b: Seq<Vec3>, d: Vec3)
    requires
        count_pairs(a, b, d) > 0,
    ensures
        exists|i: int, j: int| 0 <= i < a.len() && 0 <= j < b.len()
            && vsub(#[trigger] a[i], #[trigger] b[j]) == d,
    decreases a.len(),
{
    if row_count(a[0], b, d) > 0 {
        lemma_row_count_pos(a[0], b, d);
        let j = choose|j: int| 0 <= j < b.len() && vsub(a[0], b[j]) == d;
        assert(0 <= 0 < a.len() && 0 <= j < b.len() && vsub(a[0], b[j]) == d);
    } else {
        lemma_count_pairs_pos(a.drop_first(), b, d);
        let (i0, j0) = choose|i0: int, j0: int| 0 <= i0 < a.drop_first().len() && 0 <= j0 < b.len()
            && vsub(a.drop_first()[i0], b[j0]) == d;
        assert(a.drop_first()[i0] == a[i0 + 1]);
        assert(0 <= i0 + 1 < a.len() && 0 <= j0 < b.len() && vsub(a[i0 + 1], b[j0]) == d);
    }
}

/// A positive row count exhibits a column.
pub proof fn lemma_row_count_pos(p: Vec3, b: Seq<Vec3>, d: Vec3)
    requires
        row_count(p, b, d) > 0,
    ensures
        exists|j: int| 0 <= j < b.len() && vsub(p, #[trigger] b[j]) == d,
    decreases b.len(),
{
    if vsub(p, b[0]) == d {
        assert(0 <= 0 < b.len() && vsub(p, b[0]) == d);
    } else {
        lemma_row_count_pos(p, b.drop_first(), d);
        let j0 = choose|j0: int| 0 <= j0 < b.drop_first().len() && vsub(p, b.drop_first()[j0]) == d;
        assert(b.drop_first()[j0] == b[j0 + 1]);
        assert(0 <= j0 + 1 < b.len() && vsub(p, b[j0 + 1]) == d);
    }
}

/// Rows with pointwise-equivalent matching conditions count the same.
pub proof fn lemma_row_count_pointwise(p1: Vec3, b1: Seq<Vec3>, d1: Vec3, p2: Vec3, b2: Seq<Vec3>, d2: Vec3)
    requires
        b1.len() == b2.len(),
        forall|j: int| 0 <= j < b1.len()
            ==> ((vsub(p1, #[trigger] b1[j]) == d1) <==> (vsub(p2, #[trigger] b2[j]) == d2)),
    ensures
        row_count(p1, b1, d1) == row_count(p2, b2, d2),
    decreases b1.len(),
{
    if b1.len() > 0 {
        assert forall|j: int| 0 <= j < b1.drop_first().len()
            implies ((vsub(p1, #[trigger] b1.drop_first()[j]) == d1)
                <==> (vsub(p2, #[trigger] b2.drop_first()[j]) == d2)) by {
            assert(b1.drop_first()[j] == b1[j + 1]);
            assert(b2.drop_first()[j] == b2[j + 1]);
        }
        lemma_row_count_pointwise(p1, b1.drop_first(), d1, p2, b2.drop_first(), d2);
    }
}

/// Clouds with pointwise-equivalent matching conditions count the same.
pub proof fn lemma_count_pairs_pointwise(
    a1: Seq<Vec3>,
    b1: Seq<Vec3>,
    d1: Vec3,
    a2: Seq<Vec3>,
    b2: Seq<Vec3>,
    d2: Vec3,
)
    requires
        a1.len() == a2.len(),
        b1.len() == b2.len(),
        forall|i: int, j: int| 0 <= i < a1.len() && 0 <= j < b1.len()
            ==> ((vsub(#[trigger] a1[i], #[trigger] b1[j]) == d1)
                <==> (vsub(#[trigger] a2[i], #[trigger] b2[j]) == d2)),
    ensures
        count_pairs(a1, b1, d1) == count_pairs(a2, b2, d2),
    decreases a1.len(),
{
    if a1.len() > 0 {
        lemma_row_count_pointwise(a1[0], b1, d1, a2[0], b2, d2);
        assert forall|i: int, j: int| 0 <= i < a1.drop_first().len() && 0 <= j < b1.len()
            implies ((vsub(#[trigger] a1.drop_first()[i], #[trigger] b1[j]) == d1)
                <==> (vsub(#[trigger] a2.drop_first()[i], #[trigger] b2[j]) == d2)) by {
            assert(a1.drop_first()[i] == a1[i + 1]);
            assert(a2.drop_first()[i] == a2[i + 1]);
        }
        lemma_count_pairs_pointwise(a1.drop_first(), b1, d1, a2.drop_first(), b2, d2);
    }
}

/// With no columns there is nothing to count.
pub proof fn lemma_count_pairs_empty_cols(b: Seq<Vec3>, e: Vec3)
    ensures
        count_pairs(b, Seq::<Vec3>::empty(), e) == 0,
    decreases b.len(),
{
    if b.len() > 0 {
        lemma_count_pairs_empty_cols(b.drop_first(), e);
    }
}

/// Prepending a column counts that column once per matching row.
proof fn lemma_count_pairs_first_col(b: Seq<Vec3>, p: Vec3, a2: Seq<Vec3>, d: Vec3)
    ensures
        count_pairs(b, seq![p] + a2, vneg(d)) == row_count(p, b, d) + count_pairs(b, a2, vneg(d)),
    decreases b.len(),
{
    let cols = seq![p] + a2;
    if b.len() == 0 {
    } else {
        assert(cols[0] == p);
        assert(cols.drop_first() =~= a2);
        lemma_count_pairs_first_col(b.drop_first(), p, a2, d);
        assert(row_count(b[0], cols, vneg(d)) == (if vsub(b[0], p) == vneg(d) {
            1nat
        } else {
            0nat
        }) + row_count(b[0], a2, vneg(d)));
        assert((vsub(b[0], p) == vneg(d)) <==> (vsub(p, b[0]) == d));
    }
}

/// Counting pairs is symmetric: swap the clouds and negate the difference.
pub proof fn lemma_count_pairs_transpose(a: Seq<Vec3>, b: Seq<Vec3>, d: Vec3)
    ensures
        count_pairs(a, b, d) == count_pairs(b, a, vneg(d)),
    decreases a.len(),
{
    if a.len() == 0 {
        lemma_count_pairs_empty_cols(b, vneg(d));
        assert(a =~= Seq::<Vec3>::empty());
    } else {
        lemma_count_pairs_transpose(a.drop_first(), b, d);
        lemma_count_pairs_first_col(b, a[0], a.drop_first(), d);
        assert(seq![a[0]] + a.drop_first() =~= a);
    }
}

/// Apply orientation number `k` to every point of a cloud.
pub open spec fn oriented(s: Seq<Vec3>, k: int) -> Seq<Vec3> {
    s.map_values(|v: Vec3| orient_apply(onum(k), v))
}

/// A resolved relationship between two scanners: the translation offset of
/// scanner `dst` relative to scanner `src`, and the transform that maps
/// `dst`'s local points into `src`'s local frame via
/// `transform.unapply(p) + offset`.
#[derive(Debug)]
pub struct Edge {
    pub src: usize,
    pub dst: usize,
    pub offset: Point,
    pub transform: Transform,
}

/// Mathematical model of an edge.
pub ghost struct EdgeV {
    pub src: int,
    pub dst: int,
    pub offset: Vec3,
    pub t: Seq<StepV>,
}

impl View for Edge {
    type V = EdgeV;

    open spec fn view(&self) -> EdgeV {
        EdgeV {
            src: self.src as int,
            dst: self.dst as int,
            offset: self.offset@,
            t: self.transform@,
        }
    }
}

/// Semantic validity of an edge between the point clouds `sa` (frame of
/// `src`) and `sb` (frame of `dst`): a pure, well-formed rotation `t` and
/// an offset under which at least twelve beacon pairs coincide, i.e.
/// `sa[i] == t.unapply(sb[j]) + off` for twelve distinct pairs.
pub open spec fn edge_ok(sa: Seq<Vec3>, sb: Seq<Vec3>, off: Vec3, t: Seq<StepV>) -> bool {
    &&& twf(t)
    &&& rot_only(t)
    &&& count_pairs(sa, sb.map_values(|v: Vec3| tunapply(t, v)), off) >= MATCH_THRESHOLD
}

/// Two clouds can be aligned: some orientation and some translation make
/// at least twelve beacon pairs coincide.
pub open spec fn can_align_spec(sa: Seq<Vec3>, sb: Seq<Vec3>) -> bool {
    exists|k: int, d: Vec3| 0 <= k < 24
        && #[trigger] count_pairs(sa, oriented(sb, k), d) >= MATCH_THRESHOLD
}

/// A valid edge read backwards is again a valid edge: invert the
/// transform and map the offset through the forward transform, negated.
pub proof fn lemma_edge_ok_reverse(sa: Seq<Vec3>, sb: Seq<Vec3>, off: Vec3, t: Seq<StepV>)
    requires
        edge_ok(sa, sb, off, t),
    ensures
        edge_ok(sb, sa, vneg(tapply(t, off)), tinvert(t)),
{
    crate::transform::lemma_tinvert(t, vzero());
    crate::transform::lemma_tinvert_rot_only(t);
    let off2 = vneg(tapply(t, off));
    let sa_fwd = sa.map_values(|v: Vec3| tapply(t, v));
    let sa_inv = sa.map_values(|v: Vec3| tunapply(tinvert(t), v));
    assert forall|i: int| 0 <= i < sa.len() implies #[trigger] sa_inv[i] == sa_fwd[i] by {
        crate::transform::lemma_tinvert(t, sa[i]);
    }
    assert(sa_inv =~= sa_fwd);
    let sb_un = sb.map_values(|v: Vec3| tunapply(t, v));
    // transpose: counting (j, i) pairs instead of (i, j) pairs
    lemma_count_pairs_transpose(sb, sa_fwd, off2);
    assert(vneg(off2) == tapply(t, off));
    // pointwise: the forward and backward coincidence conditions agree
    assert forall|i: int, j: int| 0 <= i < sa_fwd.len() && 0 <= j < sb.len()
        implies ((vsub(#[trigger] sa_fwd[i], #[trigger] sb[j]) == tapply(t, off))
            <==> (vsub(sa[i], sb_un[j]) == off)) by {
        let pa = sa[i];
        let pb = sb[j];
        crate::transform::lemma_transform_roundtrip(t, pa);
        crate::transform::lemma_transform_roundtrip(t, pb);
        if vsub(sa_fwd[i], sb[j]) == tapply(t, off) {
            assert(tapply(t, pa) == vadd(pb, tapply(t, off)));
            lemma_rot_only_add_un(t, pb, tapply(t, off));
            assert(tunapply(t, tapply(t, pa))
                == vadd(tunapply(t, pb), tunapply(t, tapply(t, off))));
            crate::transform::lemma_transform_roundtrip(t, off);
            assert(pa == vadd(tunapply(t, pb), off));
        }
        if vsub(sa[i], sb_un[j]) == off {
            assert(pa == vadd(tunapply(t, pb), off));
            lemma_rot_only_add_ap(t, tunapply(t, pb), off);
            assert(tapply(t, pa) == vadd(tapply(t, tunapply(t, pb)), tapply(t, off)));
            assert(tapply(t, pa) == vadd(pb, tapply(t, off)));
        }
    }
    lemma_count_pairs_pointwise(sa_fwd, sb, tapply(t, off), sa, sb_un, off);
}

/// Unapplying a pure rotation distributes over sums (wrapper for use on
/// both operands at once).
proof fn lemma_rot_only_add_un(t: Seq<StepV>, u: Vec3, w: Vec3)
    requires
        twf(t),
        rot_only(t),
    ensures
        tunapply(t, vadd(u, w)) == vadd(tunapply(t, u), tunapply(t, w)),
{
    crate::transform::lemma_rot_only_add(t, u, w);
}

/// Applying a pure rotation distributes over sums.
proof fn lemma_rot_only_add_ap(t: Seq<StepV>, u: Vec3, w: Vec3)
    requires
        twf(t),
        rot_only(t),
    ensures
        tapply(t, vadd(u, w)) == vadd(tapply(t, u), tapply(t, w)),
{
    crate::transform::lemma_rot_only_add(t, u, w);
}

/// Attempt to align two scanners: for each of the 24 orientations applied
/// to `b`'s points, tally translation candidates against `a`'s points;
/// the first candidate confirmed by twelve coinciding beacons becomes an
/// edge.  Returns nothing exactly when no orientation and no translation
/// reach the threshold.
pub fn align(a: &Scanner, b: &Scanner) -> (r: Option<Edge>)
    requires
        pts_bounded(a@, MAX_COORD as int),
        pts_bounded(b@, MAX_COORD as int),
    ensures
        r is Some ==> {
            let e = r->Some_0;
            &&& e.src == a.id
            &&& e.dst == b.id
            &&& edge_ok(a@, b@, e.offset@, e.transform@)
            &&& vbound(e.offset@, 2 * (MAX_COORD as int))
            &&& e.transform@.len() == 1
            &&& exists|k: int| 0 <= k < 24 && e.transform@[0]
                == (StepV { orient: onum(k), offset: vzero(), inverted: true })
                && count_pairs(a@, oriented(b@, k), e.offset@) >= MATCH_THRESHOLD
        },
        r is None ==> forall|k: int, d: Vec3| 0 <= k < 24
            ==> #[trigger] count_pairs(a@, oriented(b@, k), d) < MATCH_THRESHOLD,
{
    let ors = crate::orient::orientations();
    let mut k: usize = 0;
    while k < 24
        invariant
            k <= 24,
            ors@.len() == 24,
            forall|m: int| 0 <= m < 24 ==> ors@[m] == onum(m),
            pts_bounded(a@, MAX_COORD as int),
            pts_bounded(b@, MAX_COORD as int),
            forall|kk: int, d: Vec3| 0 <= kk < k
                ==> #[trigger] count_pairs(a@, oriented(b@, kk), d) < MATCH_THRESHOLD,
        decreases 24 - k,
    {
        let o = ors[k];
        let fwd = Transform {
            steps: vec![Step { orient: o, offset: Point::new(0, 0, 0), inverted: false }],
        };
        proof {
            assert(fwd@.len() == 1);
            assert(fwd@[0] == fwd.steps@[0]@);
            assert(fwd@[0].orient == onum(k as int) && fwd@[0].offset == vzero()
                && !fwd@[0].inverted);
            assert(owf(onum(k as int)));
            assert forall|m: int| 0 <= m < b@.len() implies tapply_fits(fwd@, #[trigger] b@[m]) by {
                assert(vbound(fwd@[0].offset, 0));
                lemma_fits_from_bounds(fwd@, b@[m], MAX_COORD as int, 0);
            }
        }
        let rotated = b.map(&fwd);
        proof {
            assert forall|m: int| 0 <= m < b@.len()
                implies rotated@[m] == orient_apply(onum(k as int), #[trigger] b@[m]) by {
                assert(rotated@[m] == tapply(fwd@, b@[m]));
                assert(fwd@.drop_first() =~= Seq::<StepV>::empty());
                assert(tapply(fwd@.drop_first(), step_apply(fwd@[0], b@[m]))
                    == step_apply(fwd@[0], b@[m]));
                assert(step_apply(fwd@[0], b@[m]) == vadd(orient_apply(onum(k as int), b@[m]), vzero()));
                assert(vadd(orient_apply(onum(k as int), b@[m]), vzero())
                    == orient_apply(onum(k as int), b@[m]));
            }
            assert(rotated@ =~= oriented(b@, k as int));
            assert forall|m: int| 0 <= m < rotated@.len()
                implies vbound(#[trigger] rotated@[m], MAX_COORD as int) by {
                crate::transform::lemma_orient_bound(onum(k as int), b@[m], MAX_COORD as int);
            }
            assert forall|i: int, j: int| 0 <= i < a@.len() && 0 <= j < rotated@.len()
                implies sym(#[trigger] vsub(a@[i], rotated@[j])) by {
                assert(vbound(a@[i], MAX_COORD as int));
                assert(vbound(rotated@[j], MAX_COORD as int));
            }
        }
        match a.pinpoint(&rotated) {
            Some(off) => {
                let et = Transform {
                    steps: vec![Step { orient: o, offset: Point::new(0, 0, 0), inverted: true }],
                };
                proof {
                    assert(et@.len() == 1);
                    assert(et@[0] == et.steps@[0]@);
                    assert(et@[0].orient == onum(k as int) && et@[0].offset == vzero()
                        && et@[0].inverted);
                    assert(twf(et@));
                    assert(rot_only(et@));
                    let mapped = b@.map_values(|v: Vec3| tunapply(et@, v));
                    assert forall|m: int| 0 <= m < b@.len()
                        implies #[trigger] mapped[m] == rotated@[m] by {
                        assert(mapped[m] == tunapply(et@, b@[m]));
                        assert(et@.drop_first() =~= Seq::<StepV>::empty());
                        assert(tunapply(et@.drop_first(), b@[m]) == b@[m]);
                        assert(tunapply(et@, b@[m]) == step_unapply(et@[0], b@[m]));
                        assert(step_unapply(et@[0], b@[m])
                            == vadd(orient_apply(onum(k as int), b@[m]), vzero()));
                    }
                    assert(mapped =~= rotated@);
                    assert(count_pairs(a@, mapped, off@) >= MATCH_THRESHOLD);
                    // the offset is an actual pair difference, hence bounded
                    lemma_count_pairs_pos(a@, rotated@, off@);
                    let (pi, pj) = choose|pi: int, pj: int| 0 <= pi < a@.len()
                        && 0 <= pj < rotated@.len() && vsub(a@[pi], rotated@[pj]) == off@;
                    assert(vbound(off@, 2 * (MAX_COORD as int)));
                }
                return Some(Edge { src: a.id, dst: b.id, offset: off, transform: et });
            }
            None => {
            }
        }
        k = k + 1;
    }
    None
}

} // verus!
