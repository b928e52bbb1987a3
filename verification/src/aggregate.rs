//! Edge discovery over all scanner pairs, and the global aggregator: map
//! every beacon into the frame of the origin scanner through its
//! scanner's resolved pose, count the distinct beacons, and compute the
//! greatest Manhattan distance between any two scanner positions.

use vstd::prelude::*;
use vstd::seq_lib::seq_to_set_is_finite;
use crate::point::{Point, Vec3, vadd, vbound, vdist};
use crate::scanner::{
    Edge, EdgeV, Scanner, MAX_COORD, align, can_align_spec, edge_ok, pts_bounded,
    lemma_edge_ok_reverse,
};
use crate::graph::{
    MAX_SCANNERS, PoseV, edges_wf, eview, pose_ok, reachable, resolve_all,
};
use crate::transform::{
    Transform, twf, rot_only, tapply, tunapply, tinvert, lemma_tinvert, lemma_tinvert_rot_only,
    lemma_fits_from_bounds,
};

verus! {

/// Every composed pose offset stays within this bound.
pub const POSE_BOUND: i64 = 0x1000_0000_0000_0000;

/// The views of a list of scanners: their point clouds.
pub open spec fn sviews(s: Seq<Scanner>) -> Seq<Seq<Vec3>> {
    s.map_values(|x: Scanner| x@)
}

/// The views of a list of poses.
pub open spec fn pviews(s: Seq<(Point, Transform)>) -> Seq<PoseV> {
    s.map_values(|p: (Point, Transform)| PoseV { off: p.0@, t: p.1@ })
}

/// Beacon `b` of scanner `a`, mapped into the global frame.
pub open spec fn gpt(svs: Seq<Seq<Vec3>>, ps: Seq<PoseV>, a: int, b: int) -> Vec3 {
    vadd(tunapply(ps[a].t, svs[a][b]), ps[a].off)
}

/// The set of all beacons in the global frame.
pub open spec fn global_pts(svs: Seq<Seq<Vec3>>, ps: Seq<PoseV>) -> Set<Vec3> {
    Set::new(|q: Vec3| exists|a: int, b: int| 0 <= a < svs.len()
        && 0 <= b < svs[a].len() && q == #[trigger] gpt(svs, ps, a, b))
}

/// The global beacons contributed by the scanners before `i` and, within
/// scanner `i`, by the beacons before `j`.
pub open spec fn gpts_prefix(svs: Seq<Seq<Vec3>>, ps: Seq<PoseV>, i: int, j: int) -> Set<Vec3> {
    Set::new(|q: Vec3| exists|a: int, b: int| 0 <= a < svs.len()
        && 0 <= b < svs[a].len() && (a < i || (a == i && b < j))
        && q == #[trigger] gpt(svs, ps, a, b))
}

/// One more beacon extends the prefix set by exactly its global point.
proof fn lemma_gpts_prefix_step(svs: Seq<Seq<Vec3>>, ps: Seq<PoseV>, i: int, j: int)
    requires
        0 <= i < svs.len(),
        0 <= j < svs[i].len(),
    ensures
        gpts_prefix(svs, ps, i, j + 1) =~= gpts_prefix(svs, ps, i, j).insert(gpt(svs, ps, i, j)),
{
    assert forall|q: Vec3| gpts_prefix(svs, ps, i, j + 1).contains(q)
        implies gpts_prefix(svs, ps, i, j).insert(gpt(svs, ps, i, j)).contains(q) by {
        let (a, b) = choose|a: int, b: int| 0 <= a < svs.len() && 0 <= b < svs[a].len()
            && (a < i || (a == i && b < j + 1)) && q == #[trigger] gpt(svs, ps, a, b);
        if a == i && b == j {
        } else {
            assert(gpts_prefix(svs, ps, i, j).contains(q));
        }
    }
    assert forall|q: Vec3| gpts_prefix(svs, ps, i, j).insert(gpt(svs, ps, i, j)).contains(q)
        implies gpts_prefix(svs, ps, i, j + 1).contains(q) by {
        if gpts_prefix(svs, ps, i, j).contains(q) {
            let (a, b) = choose|a: int, b: int| 0 <= a < svs.len() && 0 <= b < svs[a].len()
                && (a < i || (a == i && b < j)) && q == #[trigger] gpt(svs, ps, a, b);
            assert(q == gpt(svs, ps, a, b));
        } else {
            assert(q == gpt(svs, ps, i, j));
        }
    }
}

/// Finishing a scanner's beacons equals starting the next scanner.
proof fn lemma_gpts_prefix_row(svs: Seq<Seq<Vec3>>, ps: Seq<PoseV>, i: int)
    requires
        0 <= i < svs.len(),
    ensures
        gpts_prefix(svs, ps, i, svs[i].len() as int) =~= gpts_prefix(svs, ps, i + 1, 0),
{
}

/// The full prefix is the whole set.
proof fn lemma_gpts_prefix_all(svs: Seq<Seq<Vec3>>, ps: Seq<PoseV>)
    ensures
        gpts_prefix(svs, ps, svs.len() as int, 0) =~= global_pts(svs, ps),
{
}

/// Whether the collection already holds this point.
fn contains_point(v: &Vec<Point>, p: &Point) -> (r: bool)
    ensures
        r == v@.map_values(|q: Point| q@).contains(p@),
{
    let ghost seen = v@.map_values(|q: Point| q@);
    let mut k: usize = 0;
    while k < v.len()
        invariant
            k <= v@.len(),
            seen == v@.map_values(|q: Point| q@),
            forall|m: int| 0 <= m < k ==> #[trigger] seen[m] != p@,
        decreases v@.len() - k,
    {
        if v[k] == *p {
            proof {
                assert(seen[k as int] == p@);
            }
            return true;
        }
        k = k + 1;
    }
    false
}

/// The greatest Manhattan distance between any two pose offsets.
pub open spec fn is_max_dist(ps: Seq<PoseV>, m: int) -> bool {
    &&& exists|i: int, j: int| 0 <= i < ps.len() && 0 <= j < ps.len()
        && m == vdist((#[trigger] ps[i]).off, (#[trigger] ps[j]).off)
    &&& forall|i: int, j: int| 0 <= i < ps.len() && 0 <= j < ps.len()
        ==> vdist((#[trigger] ps[i]).off, (#[trigger] ps[j]).off) <= m
}

/// Apply every scanner's resolved pose to its beacons, count the distinct
/// global beacons, and compute the maximum Manhattan distance between any
/// two scanner positions.
pub fn aggregate(scanners: &Vec<Scanner>, poses: &Vec<(Point, Transform)>) -> (r: (usize, i64))
    requires
        scanners@.len() == poses@.len(),
        scanners@.len() >= 1,
        forall|i: int| 0 <= i < scanners@.len()
            ==> pts_bounded((#[trigger] scanners@[i])@, MAX_COORD as int),
        forall|i: int| 0 <= i < poses@.len() ==> {
            let p = #[trigger] poses@[i];
            &&& twf(p.1@)
            &&& rot_only(p.1@)
            &&& vbound(p.0@, POSE_BOUND as int)
        },
    ensures
        ({
            let svs = sviews(scanners@);
            let ps = pviews(poses@);
            &&& global_pts(svs, ps).finite()
            &&& r.0 == global_pts(svs, ps).len()
            &&& is_max_dist(ps, r.1 as int)
        }),
{
    let ghost svs = sviews(scanners@);
    let ghost ps = pviews(poses@);
    let n = scanners.len();
    let mut uniq: Vec<Point> = Vec::new();
    let mut i: usize = 0;
    while i < n
        invariant
            i <= n,
            n == scanners@.len(),
            n == poses@.len(),
            svs == sviews(scanners@),
            ps == pviews(poses@),
            forall|m: int| 0 <= m < n
                ==> pts_bounded((#[trigger] scanners@[m])@, MAX_COORD as int),
            forall|m: int| 0 <= m < n ==> {
                let p = #[trigger] poses@[m];
                &&& twf(p.1@)
                &&& rot_only(p.1@)
                &&& vbound(p.0@, POSE_BOUND as int)
            },
            uniq@.map_values(|q: Point| q@).no_duplicates(),
            uniq@.map_values(|q: Point| q@).to_set() == gpts_prefix(svs, ps, i as int, 0),
        decreases n - i,
    {
        let sc = &scanners[i];
        let pose_off = poses[i].0;
        let mut j: usize = 0;
        while j < sc.beacon_pts.len()
            invariant
                i < n,
                j <= sc.beacon_pts.len(),
                n == scanners@.len(),
                n == poses@.len(),
                svs == sviews(scanners@),
                ps == pviews(poses@),
                sc == scanners@[i as int],
                pose_off == poses@[i as int].0,
                svs[i as int].len() == sc.beacon_pts@.len(),
                forall|m: int| 0 <= m < n
                    ==> pts_bounded((#[trigger] scanners@[m])@, MAX_COORD as int),
                forall|m: int| 0 <= m < n ==> {
                    let p = #[trigger] poses@[m];
                    &&& twf(p.1@)
                    &&& rot_only(p.1@)
                    &&& vbound(p.0@, POSE_BOUND as int)
                },
                uniq@.map_values(|q: Point| q@).no_duplicates(),
                uniq@.map_values(|q: Point| q@).to_set() == gpts_prefix(svs, ps, i as int, j as int),
            decreases sc.beacon_pts.len() - j,
        {
            let pt = sc.beacon_pts[j];
            proof {
                assert(svs[i as int] == scanners@[i as int]@);
                assert(svs[i as int][j as int] == pt@);
                assert(pts_bounded(svs[i as int], MAX_COORD as int));
                assert(vbound(pt@, MAX_COORD as int));
                assert(ps[i as int].t == poses@[i as int].1@);
                assert forall|k: int| 0 <= k < poses@[i as int].1@.len()
                    implies vbound((#[trigger] poses@[i as int].1@[k]).offset, 0) by {
                    assert(poses@[i as int].1@[k].offset == crate::point::vzero());
                }
                lemma_fits_from_bounds(poses@[i as int].1@, pt@, MAX_COORD as int, 0);
                assert(poses@[i as int].1@.len() * 0 == 0) by (nonlinear_arith);
            }
            let moved = poses[i].1.unapply(&pt);
            let g = moved.add(pose_off);
            proof {
                assert(g@ == gpt(svs, ps, i as int, j as int));
                lemma_gpts_prefix_step(svs, ps, i as int, j as int);
            }
            let ghost seen = uniq@.map_values(|q: Point| q@);
            if !contains_point(&uniq, &g) {
                uniq.push(g);
                proof {
                    let seen2 = uniq@.map_values(|q: Point| q@);
                    assert(seen2 =~= seen.push(g@));
                    assert forall|k1: int, k2: int| 0 <= k1 < k2 < seen2.len()
                        implies seen2[k1] != seen2[k2] by {
                        if k2 < seen.len() {
                            assert(seen[k1] != seen[k2]);
                        } else {
                            assert(seen2[k2] == g@);
                            assert(seen.contains(seen[k1]));
                        }
                    }
                    assert(seen2.no_duplicates());
                    assert forall|q: Vec3| #[trigger] seen2.to_set().contains(q)
                        <==> gpts_prefix(svs, ps, i as int, j as int + 1).contains(q) by {
                        if seen2.contains(q) {
                            let idx = choose|idx: int| 0 <= idx < seen2.len() && seen2[idx] == q;
                            if idx < seen.len() {
                                assert(seen[idx] == q);
                                assert(seen.contains(q));
                            } else {
                                assert(q == g@);
                            }
                        }
                        if seen.contains(q) {
                            let idx = choose|idx: int| 0 <= idx < seen.len() && seen[idx] == q;
                            assert(seen2[idx] == q);
                            assert(seen2.contains(q));
                        }
                        if q == g@ {
                            assert(seen2[seen.len() as int] == q);
                            assert(seen2.contains(q));
                        }
                    }
                    assert(seen2.to_set() =~= gpts_prefix(svs, ps, i as int, j as int + 1));
                }
            } else {
                proof {
                    assert(seen.to_set().contains(g@));
                    assert(gpts_prefix(svs, ps, i as int, j as int).contains(g@));
                    assert(seen.to_set() =~= gpts_prefix(svs, ps, i as int, j as int + 1));
                }
            }
            j = j + 1;
        }
        proof {
            lemma_gpts_prefix_row(svs, ps, i as int);
        }
        i = i + 1;
    }
    proof {
        lemma_gpts_prefix_all(svs, ps);
        let seen = uniq@.map_values(|q: Point| q@);
        seen.unique_seq_to_set();
        seq_to_set_is_finite(seen);
        assert(global_pts(svs, ps).finite());
        assert(global_pts(svs, ps).len() == uniq@.len());
    }
    let count = uniq.len();
    // maximum pairwise Manhattan distance between scanner positions
    let mut best: i64 = 0;
    proof {
        assert(ps[0].off == poses@[0].0@);
        assert(vdist(ps[0].off, ps[0].off) == 0);
    }
    let ghost mut bi: int = 0;
    let ghost mut bj: int = 0;
    let mut a: usize = 0;
    while a < n
        invariant
            a <= n,
            n == poses@.len(),
            n >= 1,
            ps == pviews(poses@),
            forall|m: int| 0 <= m < n ==> vbound((#[trigger] ps[m]).off, POSE_BOUND as int),
            0 <= bi < n,
            0 <= bj < n,
            best as int == vdist(ps[bi].off, ps[bj].off),
            forall|x: int, y: int| 0 <= x < a && 0 <= y < n
                ==> vdist((#[trigger] ps[x]).off, (#[trigger] ps[y]).off) <= best as int,
        decreases n - a,
    {
        let pa = poses[a].0;
        let mut b: usize = 0;
        while b < n
            invariant
                a < n,
                b <= n,
                n == poses@.len(),
                ps == pviews(poses@),
                pa == poses@[a as int].0,
                forall|m: int| 0 <= m < n ==> vbound((#[trigger] ps[m]).off, POSE_BOUND as int),
                0 <= bi < n,
                0 <= bj < n,
                best as int == vdist(ps[bi].off, ps[bj].off),
                forall|x: int, y: int| 0 <= x < a && 0 <= y < n
                    ==> vdist((#[trigger] ps[x]).off, (#[trigger] ps[y]).off) <= best as int,
                forall|y: int| 0 <= y < b
                    ==> vdist(ps[a as int].off, (#[trigger] ps[y]).off) <= best as int,
            decreases n - b,
        {
            let pb = poses[b].0;
            proof {
                assert(ps[a as int].off == pa@);
                assert(ps[b as int].off == pb@);
                assert(vbound(pa@, POSE_BOUND as int));
                assert(vbound(pb@, POSE_BOUND as int));
            }
            let d = pa.dist(pb);
            if d > best {
                best = d;
                proof {
                    bi = a as int;
                    bj = b as int;
                }
            }
            b = b + 1;
        }
        a = a + 1;
    }
    (count, best)
}

/// Every listed edge is semantically valid between the clouds of its two
/// endpoint scanners.
pub open spec fn edge_set_sound(svs: Seq<Seq<Vec3>>, ev: Seq<EdgeV>) -> bool {
    forall|k: int| 0 <= k < ev.len() ==> {
        let e = #[trigger] ev[k];
        &&& 0 <= e.src < svs.len()
        &&& 0 <= e.dst < svs.len()
        &&& edge_ok(svs[e.src], svs[e.dst], e.offset, e.t)
    }
}

/// There is an edge from `x` to `y`.
pub open spec fn has_edge(ev: Seq<EdgeV>, x: int, y: int) -> bool {
    exists|k: int| 0 <= k < ev.len() && (#[trigger] ev[k]).src == x && ev[k].dst == y
}

/// Every alignable pair of scanners is connected by edges both ways.
pub open spec fn edge_set_complete(svs: Seq<Seq<Vec3>>, ev: Seq<EdgeV>) -> bool {
    forall|i: int, j: int| 0 <= i < j < svs.len() && #[trigger] can_align_spec(svs[i], svs[j])
        ==> has_edge(ev, i, j) && has_edge(ev, j, i)
}

/// The edge read backwards: swap the endpoints, invert the transform, and
/// map the offset through the forward transform, negated.
fn reverse_edge(e: &Edge) -> (r: Edge)
    requires
        twf(e.transform@),
        rot_only(e.transform@),
        vbound(e.offset@, 2 * (MAX_COORD as int)),
    ensures
        r.src == e.dst,
        r.dst == e.src,
        r.transform@ == tinvert(e.transform@),
        r.offset@ == crate::point::vneg(tapply(e.transform@, e.offset@)),
        vbound(r.offset@, 2 * (MAX_COORD as int)),
{
    proof {
        assert forall|k: int| 0 <= k < e.transform@.len()
            implies vbound((#[trigger] e.transform@[k]).offset, 0) by {
            assert(e.transform@[k].offset == crate::point::vzero());
        }
        lemma_fits_from_bounds(e.transform@, e.offset@, 2 * (MAX_COORD as int), 0);
        assert(e.transform@.len() * 0 == 0) by (nonlinear_arith);
        crate::transform::lemma_rot_only_bound(e.transform@, e.offset@, 2 * (MAX_COORD as int));
    }
    let moved = e.transform.apply(&e.offset);
    Edge { src: e.dst, dst: e.src, offset: moved.negate(), transform: e.transform.invert() }
}

/// Try to align every pair of scanners; each success contributes the
/// confirmed edge and its reverse.  The result connects exactly the
/// alignable pairs.
pub fn build_edges(scanners: &Vec<Scanner>) -> (r: Vec<Edge>)
    requires
        scanners@.len() <= MAX_SCANNERS,
        forall|i: int| 0 <= i < scanners@.len() ==> (#[trigger] scanners@[i]).id == i,
        forall|i: int| 0 <= i < scanners@.len()
            ==> pts_bounded((#[trigger] scanners@[i])@, MAX_COORD as int),
    ensures
        edges_wf(eview(r@), scanners@.len() as int),
        edge_set_sound(sviews(scanners@), eview(r@)),
        edge_set_complete(sviews(scanners@), eview(r@)),
{
    let ghost svs = sviews(scanners@);
    let n = scanners.len();
    let mut out: Vec<Edge> = Vec::new();
    let mut i: usize = 0;
    while i < n
        invariant
            i <= n,
            n == scanners@.len(),
            n <= MAX_SCANNERS,
            svs == sviews(scanners@),
            forall|m: int| 0 <= m < n ==> (#[trigger] scanners@[m]).id == m,
            forall|m: int| 0 <= m < n
                ==> pts_bounded((#[trigger] scanners@[m])@, MAX_COORD as int),
            edges_wf(eview(out@), n as int),
            edge_set_sound(svs, eview(out@)),
            forall|x: int, y: int| 0 <= x < y < n && x < i && #[trigger] can_align_spec(svs[x], svs[y])
                ==> has_edge(eview(out@), x, y) && has_edge(eview(out@), y, x),
        decreases n - i,
    {
        let mut j: usize = i + 1;
        while j < n
            invariant
                i < n,
                i < j,
                j <= n,
                n == scanners@.len(),
                n <= MAX_SCANNERS,
                svs == sviews(scanners@),
                forall|m: int| 0 <= m < n ==> (#[trigger] scanners@[m]).id == m,
                forall|m: int| 0 <= m < n
                    ==> pts_bounded((#[trigger] scanners@[m])@, MAX_COORD as int),
                edges_wf(eview(out@), n as int),
                edge_set_sound(svs, eview(out@)),
                forall|x: int, y: int| 0 <= x < y < n && x < i && #[trigger] can_align_spec(svs[x], svs[y])
                    ==> has_edge(eview(out@), x, y) && has_edge(eview(out@), y, x),
                forall|y: int| i < y < j && #[trigger] can_align_spec(svs[i as int], svs[y])
                    ==> has_edge(eview(out@), i as int, y) && has_edge(eview(out@), y, i as int),
            decreases n - j,
        {
            let sa = &scanners[i];
            let sb = &scanners[j];
            proof {
                assert(svs[i as int] == scanners@[i as int]@);
                assert(svs[j as int] == scanners@[j as int]@);
            }
            match align(sa, sb) {
                Some(e) => {
                    proof {
                        lemma_edge_ok_reverse(svs[i as int], svs[j as int], e.offset@, e.transform@);
                        lemma_tinvert(e.transform@, crate::point::vzero());
                        lemma_tinvert_rot_only(e.transform@);
                    }
                    let rev = reverse_edge(&e);
                    let ghost out_old = eview(out@);
                    out.push(e);
                    out.push(rev);
                    proof {
                        let out_new = eview(out@);
                        assert(out_new =~= out_old.push(out_new[out_old.len() as int])
                            .push(out_new[out_old.len() as int + 1]));
                        assert(out_new[out_old.len() as int] == out@[out_old.len() as int]@);
                        assert(out_new[out_old.len() as int + 1] == out@[out_old.len() as int + 1]@);
                        assert(out_new[out_old.len() as int].src == i as int);
                        assert(out_new[out_old.len() as int].dst == j as int);
                        assert(out_new[out_old.len() as int + 1].src == j as int);
                        assert(out_new[out_old.len() as int + 1].dst == i as int);
                        assert forall|k: int| 0 <= k < out_new.len() implies {
                            let ed = #[trigger] out_new[k];
                            &&& 0 <= ed.src < n
                            &&& 0 <= ed.dst < n
                            &&& twf(ed.t)
                            &&& rot_only(ed.t)
                            &&& vbound(ed.offset, 2 * (MAX_COORD as int))
                            &&& edge_ok(svs[ed.src], svs[ed.dst], ed.offset, ed.t)
                        } by {
                            if k < out_old.len() {
                                assert(out_new[k] == out_old[k]);
                            }
                        }
                        assert(has_edge(eview(out@), i as int, j as int));
                        assert(has_edge(eview(out@), j as int, i as int));
                        assert forall|x: int, y: int| 0 <= x < y < n
                            && (x < i as int || (x == i as int && y < j as int + 1))
                            && #[trigger] can_align_spec(svs[x], svs[y])
                            implies has_edge(out_new, x, y) && has_edge(out_new, y, x) by {
                            if x == i as int && y == j as int {
                            } else {
                                let k1 = choose|k1: int| 0 <= k1 < out_old.len()
                                    && (#[trigger] out_old[k1]).src == x && out_old[k1].dst == y;
                                assert(out_new[k1] == out_old[k1]);
                                let k2 = choose|k2: int| 0 <= k2 < out_old.len()
                                    && (#[trigger] out_old[k2]).src == y && out_old[k2].dst == x;
                                assert(out_new[k2] == out_old[k2]);
                            }
                        }
                    }
                }
                None => {
                    proof {
                        if can_align_spec(svs[i as int], svs[j as int]) {
                            let (kk, d) = choose|kk: int, d: Vec3| 0 <= kk < 24
                                && #[trigger] crate::scanner::count_pairs(
                                    svs[i as int],
                                    crate::scanner::oriented(svs[j as int], kk),
                                    d,
                                ) >= crate::scanner::MATCH_THRESHOLD;
                            assert(false);
                        }
                    }
                }
            }
            j = j + 1;
        }
        i = i + 1;
    }
    out
}

/// The resolution failure: the scanner that no chain of confirmed edges
/// connects to the origin scanner.
#[derive(Debug, Clone, Copy, PartialEq, Eq, Structural)]
pub enum SolveError {
    Unresolved { id: usize },
}

/// Poses assigned to all scanners, each composed along some path of the
/// edge graph from the origin scanner.
pub open spec fn poses_resolved(ev: Seq<EdgeV>, svs: Seq<Seq<Vec3>>, ps: Seq<PoseV>) -> bool {
    &&& ps.len() == svs.len()
    &&& forall|id: int| 0 <= id < ps.len()
        ==> pose_ok(ev, 0, id, (#[trigger] ps[id]).off, ps[id].t)
}

/// The whole pipeline: find the edges between all scanner pairs, resolve
/// every scanner's pose relative to scanner 0, and aggregate.  Fails with
/// the first unresolved scanner when the overlap graph is not connected;
/// otherwise returns the distinct beacon count and the maximum scanner
/// distance, both taken over poses composed along the confirmed edges.
pub fn solve(scanners: &Vec<Scanner>) -> (r: Result<(usize, i64), SolveError>)
    requires
        1 <= scanners@.len(),
        scanners@.len() <= MAX_SCANNERS,
        forall|i: int| 0 <= i < scanners@.len() ==> (#[trigger] scanners@[i]).id == i,
        forall|i: int| 0 <= i < scanners@.len()
            ==> pts_bounded((#[trigger] scanners@[i])@, MAX_COORD as int),
    ensures
        ({
            let svs = sviews(scanners@);
            exists|ev: Seq<EdgeV>| {
                &&& #[trigger] edge_set_sound(svs, ev)
                &&& edge_set_complete(svs, ev)
                &&& (r is Err ==> (r->Err_0 matches SolveError::Unresolved { id }
                    && id < scanners@.len() && !reachable(ev, 0, id as int)))
                &&& (r is Ok ==> exists|ps: Seq<PoseV>| {
                    &&& #[trigger] poses_resolved(ev, svs, ps)
                    &&& global_pts(svs, ps).finite()
                    &&& r->Ok_0.0 == global_pts(svs, ps).len()
                    &&& is_max_dist(ps, r->Ok_0.1 as int)
                })
            }
        }),
{
    let ghost svs = sviews(scanners@);
    let n = scanners.len();
    let edges = build_edges(scanners);
    let ghost ev = eview(edges@);
    let memo = resolve_all(n, 0, &edges);
    let mut poses: Vec<(Point, Transform)> = Vec::new();
    let mut id: usize = 0;
    while id < n
        invariant
            id <= n,
            n == scanners@.len(),
            n <= MAX_SCANNERS,
            ev == eview(edges@),
            svs == sviews(scanners@),
            edge_set_sound(svs, ev),
            edge_set_complete(svs, ev),
            memo@.len() == n,
            forall|m: int| 0 <= m < n
                ==> ((#[trigger] memo@[m]) is Some <==> reachable(ev, 0, m)),
            forall|m: int| 0 <= m < n && (#[trigger] memo@[m]) is Some ==> {
                let p = memo@[m]->Some_0;
                &&& pose_ok(ev, 0, m, p.0@, p.1@)
                &&& twf(p.1@)
                &&& rot_only(p.1@)
                &&& vbound(p.0@, (n as int) * (2 * (MAX_COORD as int)))
            },
            forall|m: int| 0 <= m < id ==> (#[trigger] memo@[m]) is Some,
            poses@.len() == id,
            forall|m: int| 0 <= m < id ==> {
                let p = #[trigger] poses@[m];
                &&& p.0@ == memo@[m]->Some_0.0@
                &&& p.1@ == memo@[m]->Some_0.1@
            },
        decreases n - id,
    {
        match &memo[id] {
            Some(p) => {
                let off = p.0;
                let t = p.1.duplicate();
                poses.push((off, t));
            },
            None => {
                proof {
                    assert(!reachable(ev, 0, id as int));
                }
                return Err(SolveError::Unresolved { id });
            },
        }
        id = id + 1;
    }
    proof {
        assert forall|m: int| 0 <= m < n implies {
            let p = #[trigger] poses@[m];
            &&& twf(p.1@)
            &&& rot_only(p.1@)
            &&& vbound(p.0@, POSE_BOUND as int)
        } by {
            assert(memo@[m] is Some);
            assert((n as int) * (2 * (MAX_COORD as int)) <= POSE_BOUND as int) by (nonlinear_arith)
                requires n <= 0x10_0000int,
            ;
        }
    }
    let out = aggregate(scanners, &poses);
    proof {
        let ps = pviews(poses@);
        assert forall|m: int| 0 <= m < ps.len()
            implies pose_ok(ev, 0, m, (#[trigger] ps[m]).off, ps[m].t) by {
            assert(ps[m].off == poses@[m].0@);
            assert(ps[m].t == poses@[m].1@);
            assert(memo@[m] is Some);
        }
        assert(poses_resolved(ev, svs, ps));
    }
    Ok(out)
}

} // verus!
