//! The scanner pose graph resolver.  Nodes are scanner identifiers, edges
//! are the confirmed pairwise relationships found by alignment, and a pose
//! is the composition of edge transforms along a path from the origin
//! scanner.  Resolution walks the graph once with an explicit worklist and
//! a memo table, so every scanner's pose is computed at most once.

use vstd::prelude::*;
use crate::point::{Point, Vec3, vadd, vbound, vzero};
use crate::scanner::{Edge, EdgeV, MAX_COORD};
use crate::transform::{
    StepV, Transform, twf, rot_only, tunapply, lemma_tunapply_concat, lemma_rot_only_add,
    lemma_rot_only_bound, lemma_fits_from_bounds,
};

verus! {

/// The resolver accepts at most this many scanners, which keeps all
/// composed offsets representable.
pub const MAX_SCANNERS: usize = 0x10_0000;

/// The views of a list of edges.
pub open spec fn eview(s: Seq<Edge>) -> Seq<EdgeV> {
    s.map_values(|e: Edge| e@)
}

/// Edges fit a graph of `n` nodes: endpoints in range, transforms pure
/// well-formed rotations, offsets bounded by twice the coordinate bound.
pub open spec fn edges_wf(ev: Seq<EdgeV>, n: int) -> bool {
    forall|k: int| 0 <= k < ev.len() ==> {
        let e = #[trigger] ev[k];
        &&& 0 <= e.src < n
        &&& 0 <= e.dst < n
        &&& twf(e.t)
        &&& rot_only(e.t)
        &&& vbound(e.offset, 2 * (MAX_COORD as int))
    }
}

/// A pose: the offset and transform that map a scanner's local points
/// into the origin frame via `t.unapply(p) + off`.
pub ghost struct PoseV {
    pub off: Vec3,
    pub t: Seq<StepV>,
}

/// `path` is a chain of edge indices leading from node `a` to node `b`.
pub open spec fn path_connects(ev: Seq<EdgeV>, a: int, b: int, path: Seq<int>) -> bool
    decreases path.len(),
{
    if path.len() == 0 {
        a == b
    } else {
        &&& 0 <= path[0] < ev.len()
        &&& ev[path[0]].src == a
        &&& path_connects(ev, ev[path[0]].dst, b, path.drop_first())
    }
}

/// Node `b` can be reached from node `a` along the edges.
pub open spec fn reachable(ev: Seq<EdgeV>, a: int, b: int) -> bool {
    exists|path: Seq<int>| #[trigger] path_connects(ev, a, b, path)
}

/// The pose obtained by composing the edges along a path: an empty path
/// is the identity pose, and each edge contributes its transform and its
/// offset mapped through everything before it.
pub open spec fn pose_along(ev: Seq<EdgeV>, path: Seq<int>) -> PoseV
    decreases path.len(),
{
    if path.len() == 0 {
        PoseV { off: vzero(), t: Seq::empty() }
    } else {
        let e = ev[path[0]];
        let rest = pose_along(ev, path.drop_first());
        PoseV { off: vadd(e.offset, tunapply(e.t, rest.off)), t: e.t + rest.t }
    }
}

/// The pose that resolution may assign to node `id`: the composition
/// along some path from the origin.
pub open spec fn pose_ok(ev: Seq<EdgeV>, origin: int, id: int, off: Vec3, t: Seq<StepV>) -> bool {
    exists|path: Seq<int>| #[trigger] path_connects(ev, origin, id, path)
        && pose_along(ev, path).off == off && pose_along(ev, path).t == t
}

/// All transforms named by the edges are pure well-formed rotations.
pub open spec fn edges_rot(ev: Seq<EdgeV>) -> bool {
    forall|k: int| 0 <= k < ev.len()
        ==> twf((#[trigger] ev[k]).t) && rot_only(ev[k].t)
}

/// A pure rotation maps the origin to the origin.
pub proof fn lemma_rot_only_zero(t: Seq<StepV>)
    requires
        twf(t),
        rot_only(t),
    ensures
        tunapply(t, vzero()) == vzero(),
{
    lemma_rot_only_bound(t, vzero(), 0);
    assert(tunapply(t, vzero()) == vzero());
}

/// Extending a path by one edge extends the connection.
pub proof fn lemma_path_connects_snoc(ev: Seq<EdgeV>, a: int, m: int, path: Seq<int>, ei: int)
    requires
        path_connects(ev, a, m, path),
        0 <= ei < ev.len(),
        ev[ei].src == m,
    ensures
        path_connects(ev, a, ev[ei].dst, path.push(ei)),
    decreases path.len(),
{
    let p = path.push(ei);
    if path.len() == 0 {
        assert(p[0] == ei);
        assert(p.drop_first() =~= Seq::<int>::empty());
        assert(path_connects(ev, ev[ei].dst, ev[ei].dst, p.drop_first()));
    } else {
        assert(p[0] == path[0]);
        assert(p.drop_first() =~= path.drop_first().push(ei));
        lemma_path_connects_snoc(ev, ev[path[0]].dst, m, path.drop_first(), ei);
    }
}

/// Every index on a connecting path is a valid edge index.
pub proof fn lemma_path_indices(ev: Seq<EdgeV>, a: int, b: int, path: Seq<int>)
    requires
        path_connects(ev, a, b, path),
    ensures
        forall|k: int| 0 <= k < path.len() ==> 0 <= #[trigger] path[k] < ev.len(),
    decreases path.len(),
{
    if path.len() > 0 {
        lemma_path_indices(ev, ev[path[0]].dst, b, path.drop_first());
        assert forall|k: int| 0 <= k < path.len() implies 0 <= #[trigger] path[k] < ev.len() by {
            if k > 0 {
                assert(path.drop_first()[k - 1] == path[k]);
            }
        }
    }
}

/// The pose along a valid path is a pure well-formed rotation with a
/// translation.
pub proof fn lemma_pose_along_wf(ev: Seq<EdgeV>, path: Seq<int>)
    requires
        edges_rot(ev),
        forall|k: int| 0 <= k < path.len() ==> 0 <= #[trigger] path[k] < ev.len(),
    ensures
        twf(pose_along(ev, path).t),
        rot_only(pose_along(ev, path).t),
    decreases path.len(),
{
    if path.len() > 0 {
        assert forall|k: int| 0 <= k < path.drop_first().len()
            implies 0 <= #[trigger] path.drop_first()[k] < ev.len() by {
            assert(path.drop_first()[k] == path[k + 1]);
        }
        lemma_pose_along_wf(ev, path.drop_first());
        let e = ev[path[0]];
        let rest = pose_along(ev, path.drop_first());
        assert forall|k: int| 0 <= k < (e.t + rest.t).len()
            implies crate::transform::step_wf(#[trigger] (e.t + rest.t)[k])
                && ((e.t + rest.t)[k]).offset == vzero() by {
            let s = (e.t + rest.t)[k];
            if k < e.t.len() {
                assert(s == e.t[k]);
            } else {
                assert(s == rest.t[k - e.t.len()]);
            }
        }
    }
}

/// Composing one more edge onto the pose along a path.
pub proof fn lemma_pose_along_snoc(ev: Seq<EdgeV>, path: Seq<int>, ei: int)
    requires
        edges_rot(ev),
        forall|k: int| 0 <= k < path.len() ==> 0 <= #[trigger] path[k] < ev.len(),
        0 <= ei < ev.len(),
    ensures
        pose_along(ev, path.push(ei)).off == vadd(
            pose_along(ev, path).off,
            tunapply(pose_along(ev, path).t, ev[ei].offset),
        ),
        pose_along(ev, path.push(ei)).t == pose_along(ev, path).t + ev[ei].t,
    decreases path.len(),
{
    let p = path.push(ei);
    let e = ev[ei];
    if path.len() == 0 {
        assert(p[0] == ei);
        assert(p.drop_first() =~= Seq::<int>::empty());
        assert(pose_along(ev, p.drop_first()).off == vzero());
        assert(pose_along(ev, p).off == vadd(e.offset, tunapply(e.t, vzero())));
        lemma_rot_only_zero(e.t);
        assert(vadd(e.offset, vzero()) == e.offset);
        assert(pose_along(ev, path).off == vzero());
        assert(pose_along(ev, path).t == Seq::<StepV>::empty());
        assert(tunapply(Seq::<StepV>::empty(), e.offset) == e.offset);
        assert(vadd(vzero(), e.offset) == e.offset);
        assert(pose_along(ev, p).t =~= Seq::<StepV>::empty() + e.t);
    } else {
        assert(p[0] == path[0]);
        assert(p.drop_first() =~= path.drop_first().push(ei));
        assert forall|k: int| 0 <= k < path.drop_first().len()
            implies 0 <= #[trigger] path.drop_first()[k] < ev.len() by {
            assert(path.drop_first()[k] == path[k + 1]);
        }
        lemma_pose_along_snoc(ev, path.drop_first(), ei);
        let e0 = ev[path[0]];
        let rest = pose_along(ev, path.drop_first());
        let whole = pose_along(ev, path);
        // whole = (e0.off + e0.t⁻(rest.off), e0.t + rest.t)
        lemma_pose_along_wf(ev, path.drop_first());
        // offset of the extended path
        assert(pose_along(ev, p).off == vadd(
            e0.offset,
            tunapply(e0.t, vadd(rest.off, tunapply(rest.t, e.offset))),
        ));
        lemma_rot_only_add(e0.t, rest.off, tunapply(rest.t, e.offset));
        lemma_tunapply_concat(e0.t, rest.t, e.offset);
        assert(vadd(e0.offset, vadd(tunapply(e0.t, rest.off), tunapply(e0.t, tunapply(rest.t, e.offset))))
            == vadd(vadd(e0.offset, tunapply(e0.t, rest.off)), tunapply(e0.t + rest.t, e.offset)));
        // transform of the extended path
        assert(pose_along(ev, p).t =~= (e0.t + rest.t) + e.t);
        assert(e0.t + (rest.t + e.t) =~= (e0.t + rest.t) + e.t);
    }
}

/// Whatever is memoized stays memoized; a closed memo covers everything a
/// path can reach.
pub proof fn lemma_closed_reach(
    ev: Seq<EdgeV>,
    memo: Seq<Option<(Point, Transform)>>,
    a: int,
    b: int,
    path: Seq<int>,
)
    requires
        path_connects(ev, a, b, path),
        0 <= a < memo.len(),
        memo[a] is Some,
        forall|k: int| 0 <= k < ev.len() && memo[(#[trigger] ev[k]).src] is Some
            ==> memo[ev[k].dst] is Some,
        forall|k: int| 0 <= k < ev.len()
            ==> 0 <= (#[trigger] ev[k]).src < memo.len() && 0 <= ev[k].dst < memo.len(),
    ensures
        0 <= b < memo.len(),
        memo[b] is Some,
    decreases path.len(),
{
    if path.len() == 0 {
    } else {
        let e = ev[path[0]];
        assert(memo[e.dst] is Some);
        lemma_closed_reach(ev, memo, e.dst, b, path.drop_first());
    }
}

/// How many nodes are memoized.
pub open spec fn count_some(m: Seq<Option<(Point, Transform)>>) -> nat
    decreases m.len(),
{
    if m.len() == 0 {
        0
    } else {
        (if m[0] is Some {
            1nat
        } else {
            0nat
        }) + count_some(m.drop_first())
    }
}

/// Memoizing a fresh node raises the count by one.
pub proof fn lemma_count_some_update(m: Seq<Option<(Point, Transform)>>, i: int, x: (Point, Transform))
    requires
        0 <= i < m.len(),
        m[i] is None,
    ensures
        count_some(m.update(i, Some(x))) == count_some(m) + 1,
    decreases m.len(),
{
    let u = m.update(i, Some(x));
    if i == 0 {
        assert(u[0] is Some);
        assert(u.drop_first() =~= m.drop_first());
    } else {
        assert(u[0] == m[0]);
        assert(u.drop_first() =~= m.drop_first().update(i - 1, Some(x)));
        assert(m.drop_first()[i - 1] == m[i]);
        lemma_count_some_update(m.drop_first(), i - 1, x);
    }
}

/// Never more memoized nodes than nodes.
pub proof fn lemma_count_some_le(m: Seq<Option<(Point, Transform)>>)
    ensures
        count_some(m) <= m.len(),
    decreases m.len(),
{
    if m.len() > 0 {
        lemma_count_some_le(m.drop_first());
    }
}

/// Whether a node identifier still waits on the worklist.
pub open spec fn in_stack(st: Seq<usize>, id: int) -> bool {
    exists|k: int| 0 <= k < st.len() && (#[trigger] st[k]) as int == id
}

/// Every edge leaving a closed node points at a memoized node.
pub open spec fn node_closed(ev: Seq<EdgeV>, memo: Seq<Option<(Point, Transform)>>, id: int) -> bool {
    forall|k: int| 0 <= k < ev.len() && (#[trigger] ev[k]).src == id ==> memo[ev[k].dst] is Some
}

/// The memo invariant: a memoized node carries a pose composed along some
/// path from the origin, with a pure well-formed rotation and an offset
/// bounded in proportion to its discovery depth.
pub open spec fn memo_inv(
    ev: Seq<EdgeV>,
    memo: Seq<Option<(Point, Transform)>>,
    dep: Map<int, int>,
    origin: int,
    n: int,
) -> bool {
    forall|id: int| 0 <= id < n && (#[trigger] memo[id]) is Some ==> {
        let p = memo[id]->Some_0;
        &&& pose_ok(ev, origin, id, p.0@, p.1@)
        &&& twf(p.1@)
        &&& rot_only(p.1@)
        &&& dep.contains_key(id)
        &&& 0 <= dep[id]
        &&& dep[id] + 1 <= count_some(memo)
        &&& vbound(p.0@, dep[id] * (2 * (MAX_COORD as int)))
    }
}

/// Resolve every scanner's pose relative to the origin scanner: walk the
/// edge graph once with an explicit worklist and a memo table.  A node
/// ends up memoized exactly when a path connects it to the origin, and
/// its pose is the composition of the edge transforms along such a path.
pub fn resolve_all(n: usize, origin: usize, edges: &Vec<Edge>) -> (r: Vec<Option<(Point, Transform)>>)
    requires
        origin < n,
        n <= MAX_SCANNERS,
        edges_wf(eview(edges@), n as int),
    ensures
        r@.len() == n,
        forall|id: int| 0 <= id < n
            ==> ((#[trigger] r@[id]) is Some <==> reachable(eview(edges@), origin as int, id)),
        forall|id: int| 0 <= id < n && (#[trigger] r@[id]) is Some ==> {
            let p = r@[id]->Some_0;
            &&& pose_ok(eview(edges@), origin as int, id, p.0@, p.1@)
            &&& twf(p.1@)
            &&& rot_only(p.1@)
            &&& vbound(p.0@, (n as int) * (2 * (MAX_COORD as int)))
        },
{
    let ghost ev = eview(edges@);
    let ghost bb = 2 * (MAX_COORD as int);
    proof {
        assert forall|k: int| 0 <= k < ev.len()
            implies twf((#[trigger] ev[k]).t) && rot_only(ev[k].t) by {
            assert(ev[k] == edges@[k]@);
        }
        assert(edges_rot(ev));
    }
    let mut memo: Vec<Option<(Point, Transform)>> = Vec::new();
    let mut filled: usize = 0;
    while filled < n
        invariant
            filled <= n,
            memo@.len() == filled,
            forall|id: int| 0 <= id < filled ==> (#[trigger] memo@[id]) is None,
        decreases n - filled,
    {
        memo.push(None);
        filled = filled + 1;
    }
    proof {
        lemma_count_none(memo@);
    }
    let ghost mut dep: Map<int, int> = Map::empty().insert(origin as int, 0);
    let ghost memo_before = memo@;
    memo[origin] = Some((Point::new(0, 0, 0), Transform::identity()));
    let mut stack: Vec<usize> = Vec::new();
    stack.push(origin);
    proof {
        lemma_count_none(memo_before);
        let x = memo@[origin as int]->Some_0;
        assert(memo@ =~= memo_before.update(origin as int, Some(x)));
        lemma_count_some_update(memo_before, origin as int, x);
        assert(count_some(memo@) == 1);
        let empty_path = Seq::<int>::empty();
        assert(path_connects(ev, origin as int, origin as int, empty_path));
        assert(pose_along(ev, empty_path).off == vzero());
        assert(pose_along(ev, empty_path).t =~= Seq::<StepV>::empty());
        let p0 = memo@[origin as int]->Some_0;
        assert(p0.0@ == vzero());
        assert(p0.1@ =~= Seq::<StepV>::empty());
        assert(pose_ok(ev, origin as int, origin as int, p0.0@, p0.1@));
        assert(vbound(p0.0@, 0 * bb));
        assert(stack@.len() == 1 && stack@[0] == origin);
        assert(in_stack(stack@, origin as int));
        assert forall|id: int| 0 <= id < n && (#[trigger] memo@[id]) is Some
            && !in_stack(stack@, id) implies node_closed(ev, memo@, id) by {
            if id != origin as int {
                assert(memo@[id] is None);
            }
        }
    }
    while stack.len() > 0
        invariant
            n <= MAX_SCANNERS,
            origin < n,
            edges_wf(ev, n as int),
            edges_rot(ev),
            ev == eview(edges@),
            bb == 2 * (MAX_COORD as int),
            memo@.len() == n,
            count_some(memo@) <= n,
            memo@[origin as int] is Some,
            forall|k: int| 0 <= k < stack@.len()
                ==> (#[trigger] stack@[k]) < n && memo@[stack@[k] as int] is Some,
            memo_inv(ev, memo@, dep, origin as int, n as int),
            forall|id: int| 0 <= id < n && (#[trigger] memo@[id]) is Some
                && !in_stack(stack@, id) ==> node_closed(ev, memo@, id),
        decreases n - count_some(memo@), stack@.len(),
    {
        let ghost stack_old = stack@;
        let u = match stack.pop() {
            Some(x) => x,
            None => {
                proof {
                    assert(false);
                }
                0
            },
        };
        let (u_off, u_t): (Point, Transform) = match &memo[u] {
            Some(p) => (p.0, p.1.duplicate()),
            None => {
                proof {
                    assert(false);
                }
                (Point::new(0, 0, 0), Transform::identity())
            },
        };
        let ghost dep_u = dep[u as int];
        let ghost count0 = count_some(memo@);
        let ghost stack0_len = stack@.len();
        proof {
            let p = memo@[u as int]->Some_0;
            assert(u_off == p.0 && u_t@ == p.1@);
            assert(stack_old =~= stack@.push(u));
            assert forall|id: int| 0 <= id < n && (#[trigger] memo@[id]) is Some
                && !in_stack(stack@, id) && id != u as int
                implies node_closed(ev, memo@, id) by {
                if in_stack(stack_old, id) {
                    let k = choose|k: int| 0 <= k < stack_old.len() && (#[trigger] stack_old[k]) as int == id;
                    if k < stack_old.len() - 1 {
                        assert(stack_old[k] == stack@[k]);
                        assert(in_stack(stack@, id));
                    } else {
                        assert(stack_old[k] == u);
                    }
                    assert(false);
                }
            }
        }
        let mut ei: usize = 0;
        while ei < edges.len()
            invariant
                n <= MAX_SCANNERS,
                origin < n,
                u < n,
                edges_wf(ev, n as int),
                edges_rot(ev),
                ev == eview(edges@),
                bb == 2 * (MAX_COORD as int),
                ei <= edges@.len(),
                memo@.len() == n,
                count_some(memo@) <= n,
                memo@[origin as int] is Some,
                memo@[u as int] is Some,
                forall|k: int| 0 <= k < stack@.len()
                    ==> (#[trigger] stack@[k]) < n && memo@[stack@[k] as int] is Some,
                memo_inv(ev, memo@, dep, origin as int, n as int),
                forall|id: int| 0 <= id < n && (#[trigger] memo@[id]) is Some
                    && !in_stack(stack@, id) && id != u as int ==> node_closed(ev, memo@, id),
                forall|k: int| 0 <= k < ei && (#[trigger] ev[k]).src == u as int
                    ==> memo@[ev[k].dst] is Some,
                count0 <= count_some(memo@),
                stack@.len() == stack0_len + count_some(memo@) - count0,
                pose_ok(ev, origin as int, u as int, u_off@, u_t@),
                twf(u_t@),
                rot_only(u_t@),
                0 <= dep_u,
                dep_u + 1 <= count_some(memo@),
                vbound(u_off@, dep_u * bb),
            decreases edges@.len() - ei,
        {
            let e = &edges[ei];
            proof {
                assert(ev[ei as int] == edges@[ei as int]@);
            }
            if e.src == u {
                if memo[e.dst].is_none() {
                    proof {
                        assert forall|k: int| 0 <= k < u_t@.len()
                            implies vbound((#[trigger] u_t@[k]).offset, 0) by {
                            assert(u_t@[k].offset == vzero());
                        }
                        lemma_fits_from_bounds(u_t@, e.offset@, bb, 0);
                        assert(u_t@.len() * 0 == 0) by (nonlinear_arith);
                        assert((dep_u + 1) * bb == dep_u * bb + bb) by (nonlinear_arith);
                        assert(dep_u + 1 <= n);
                        assert((dep_u + 1) * bb <= (n as int) * bb);
                        assert((n as int) * bb <= i64::MAX as int) by (nonlinear_arith)
                            requires n <= 0x10_0000int && bb == 0x100_0000_0000int,
                        ;
                    }
                    let moved = u_t.unapply(&e.offset);
                    let new_off = u_off.add(moved);
                    let new_t = u_t.chain(&e.transform);
                    let ghost memo_old = memo@;
                    let ghost stack_mid = stack@;
                    proof {
                        // pose of the newly discovered node
                        let path_u = choose|path: Seq<int>| #[trigger] path_connects(ev, origin as int, u as int, path)
                            && pose_along(ev, path).off == u_off@ && pose_along(ev, path).t == u_t@;
                        lemma_path_indices(ev, origin as int, u as int, path_u);
                        lemma_path_connects_snoc(ev, origin as int, u as int, path_u, ei as int);
                        lemma_pose_along_snoc(ev, path_u, ei as int);
                        assert(pose_along(ev, path_u.push(ei as int)).off == new_off@);
                        assert(pose_along(ev, path_u.push(ei as int)).t == new_t@);
                        assert(pose_ok(ev, origin as int, ev[ei as int].dst, new_off@, new_t@));
                        lemma_count_some_update(memo@, e.dst as int, (new_off, new_t));
                        dep = dep.insert(e.dst as int, dep_u + 1);
                    }
                    memo[e.dst] = Some((new_off, new_t));
                    stack.push(e.dst);
                    proof {
                        lemma_count_some_le(memo@);
                        assert forall|k: int| 0 <= k < new_t@.len()
                            implies crate::transform::step_wf(#[trigger] new_t@[k])
                                && new_t@[k].offset == vzero() by {
                            if k < u_t@.len() {
                                assert(new_t@[k] == u_t@[k]);
                            } else {
                                assert(new_t@[k] == e.transform@[k - u_t@.len()]);
                                assert(ev[ei as int].t == e.transform@);
                            }
                        }
                        assert(vbound(new_off@, (dep_u + 1) * bb));
                        assert forall|id: int| 0 <= id < n && (#[trigger] memo@[id]) is Some
                            implies {
                            let p = memo@[id]->Some_0;
                            &&& pose_ok(ev, origin as int, id, p.0@, p.1@)
                            &&& twf(p.1@)
                            &&& rot_only(p.1@)
                            &&& dep.contains_key(id)
                            &&& 0 <= dep[id]
                            &&& dep[id] + 1 <= count_some(memo@)
                            &&& vbound(p.0@, dep[id] * bb)
                        } by {
                            if id != e.dst as int {
                                assert(memo@[id] == memo_old[id]);
                            }
                        }
                        assert(memo_inv(ev, memo@, dep, origin as int, n as int));
                        assert forall|id: int| 0 <= id < n && (#[trigger] memo@[id]) is Some
                            && !in_stack(stack@, id) && id != u as int
                            implies node_closed(ev, memo@, id) by {
                            assert(stack@[stack@.len() - 1] == e.dst);
                            assert(in_stack(stack@, e.dst as int));
                            assert(id != e.dst as int);
                            assert(memo_old[id] is Some);
                            if in_stack(stack_mid, id) {
                                let k = choose|k: int| 0 <= k < stack_mid.len()
                                    && (#[trigger] stack_mid[k]) as int == id;
                                assert(stack@[k] == stack_mid[k]);
                                assert(in_stack(stack@, id));
                                assert(false);
                            }
                            assert(node_closed(ev, memo_old, id));
                            assert forall|k: int| 0 <= k < ev.len() && (#[trigger] ev[k]).src == id
                                implies memo@[ev[k].dst] is Some by {
                                assert(memo_old[ev[k].dst] is Some);
                                if ev[k].dst != e.dst as int {
                                    assert(memo@[ev[k].dst] == memo_old[ev[k].dst]);
                                }
                            }
                        }
                    }
                }
            }
            ei = ei + 1;
        }
        proof {
            assert(node_closed(ev, memo@, u as int));
            assert forall|id: int| 0 <= id < n && (#[trigger] memo@[id]) is Some
                && !in_stack(stack@, id) implies node_closed(ev, memo@, id) by {
                if id != u as int {
                    assert(!in_stack(stack@, id));
                }
            }
        }
    }
    proof {
        assert forall|id: int| 0 <= id < n
            implies ((#[trigger] memo@[id]) is Some <==> reachable(ev, origin as int, id)) by {
            if memo@[id] is Some {
                let p = memo@[id]->Some_0;
                assert(pose_ok(ev, origin as int, id, p.0@, p.1@));
                let path = choose|path: Seq<int>| #[trigger] path_connects(ev, origin as int, id, path)
                    && pose_along(ev, path).off == p.0@ && pose_along(ev, path).t == p.1@;
                assert(path_connects(ev, origin as int, id, path));
                assert(reachable(ev, origin as int, id));
            }
            if reachable(ev, origin as int, id) {
                let path = choose|path: Seq<int>| #[trigger] path_connects(ev, origin as int, id, path);
                assert forall|k: int| 0 <= k < ev.len() && memo@[(#[trigger] ev[k]).src] is Some
                    implies memo@[ev[k].dst] is Some by {
                    assert(!in_stack(stack@, ev[k].src));
                    assert(node_closed(ev, memo@, ev[k].src));
                }
                lemma_closed_reach(ev, memo@, origin as int, id, path);
            }
        }
        assert forall|id: int| 0 <= id < n && (#[trigger] memo@[id]) is Some implies {
            let p = memo@[id]->Some_0;
            vbound(p.0@, (n as int) * (2 * (MAX_COORD as int)))
        } by {
            let p = memo@[id]->Some_0;
            assert(vbound(p.0@, dep[id] * bb));
            assert(dep[id] <= n);
            assert(dep[id] * bb <= (n as int) * bb) by (nonlinear_arith)
                requires dep[id] <= n as int && bb >= 0,
            ;
        }
    }
    memo
}

/// Every slot of a freshly filled memo is empty.
proof fn lemma_count_none(m: Seq<Option<(Point, Transform)>>)
    requires
        forall|id: int| 0 <= id < m.len() ==> (#[trigger] m[id]) is None,
    ensures
        count_some(m) == 0,
    decreases m.len(),
{
    if m.len() > 0 {
        assert forall|id: int| 0 <= id < m.drop_first().len()
            implies (#[trigger] m.drop_first()[id]) is None by {
            assert(m.drop_first()[id] == m[id + 1]);
        }
        lemma_count_none(m.drop_first());
    }
}

/// Resolve one scanner relative to the origin scanner: the memoized walk
/// of `resolve_all`, read off at the target.  Returns a pose exactly when
/// a chain of confirmed edges connects the origin to the target.
pub fn resolve(origin: usize, target: usize, n: usize, edges: &Vec<Edge>) -> (r: Option<(Point, Transform)>)
    requires
        origin < n,
        target < n,
        n <= MAX_SCANNERS,
        edges_wf(eview(edges@), n as int),
    ensures
        r is Some <==> reachable(eview(edges@), origin as int, target as int),
        r is Some ==> {
            let p = r->Some_0;
            &&& pose_ok(eview(edges@), origin as int, target as int, p.0@, p.1@)
            &&& twf(p.1@)
            &&& rot_only(p.1@)
            &&& vbound(p.0@, (n as int) * (2 * (MAX_COORD as int)))
        },
{
    let memo = resolve_all(n, origin, edges);
    match &memo[target] {
        Some(p) => Some((p.0, p.1.duplicate())),
        None => None,
    }
}

} // verus!
