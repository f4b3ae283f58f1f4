use vstd::prelude::*;

use crate::geometry::{dist_sq, eps_sq_of};
use crate::index::{contains_usize, in_radius, is_core, SpatialIndex};
use crate::points::{DbscanError, PointSet};

verus! {

/// Whether point `i` lies within `eps` of some core point.
pub open spec fn near_core(points: Seq<Seq<i32>>, eps: i64, min_points: usize, i: int) -> bool {
    exists|p: int|
        0 <= p < points.len() && #[trigger] is_core(points, eps, min_points, p) && dist_sq(
            points[i],
            points[p],
        ) <= eps_sq_of(eps)
}

/// Every labeled point is either core or, when borders are colored, within
/// `eps` of a core point.
pub open spec fn labels_sound(
    points: Seq<Seq<i32>>,
    eps: i64,
    min_points: usize,
    borders: bool,
    labels: Seq<usize>,
) -> bool {
    forall|i: int|
        0 <= i < points.len() && (#[trigger] labels[i]) != 0 ==> is_core(points, eps, min_points, i)
            || (borders && near_core(points, eps, min_points, i))
}

/// Every visited core point carries a cluster label.
pub open spec fn visited_cores_labeled(
    points: Seq<Seq<i32>>,
    eps: i64,
    min_points: usize,
    visited: Seq<bool>,
    labels: Seq<usize>,
) -> bool {
    forall|i: int|
        0 <= i < points.len() && (#[trigger] visited[i]) && is_core(points, eps, min_points, i)
            ==> labels[i] != 0
}

/// Every eps-neighbor of a visited core point is labeled already or still
/// waiting in the working set.
pub open spec fn cores_covered(
    points: Seq<Seq<i32>>,
    eps: i64,
    min_points: usize,
    visited: Seq<bool>,
    labels: Seq<usize>,
    ws: Seq<usize>,
) -> bool {
    forall|p: int, x: int|
        0 <= p < points.len() && visited[p] && is_core(points, eps, min_points, p) && 0 <= x
            < points.len() && #[trigger] in_radius(points, points[p], eps, x) ==> labels[x] != 0
            || ws.contains(x as usize)
}

/// What `fit` guarantees of a label assignment, whatever traversal order was
/// used: labels are sound, every core point belongs to some cluster, and with
/// borders colored so does every point within `eps` of a core point.
pub open spec fn fit_post(
    points: Seq<Seq<i32>>,
    eps: i64,
    min_points: usize,
    borders: bool,
    labels: Seq<usize>,
) -> bool {
    &&& labels.len() == points.len()
    &&& labels_sound(points, eps, min_points, borders, labels)
    &&& forall|i: int|
        0 <= i < points.len() && #[trigger] is_core(points, eps, min_points, i) ==> labels[i] != 0
    &&& borders ==> forall|i: int|
        0 <= i < points.len() && #[trigger] near_core(points, eps, min_points, i) ==> labels[i]
            != 0
    &&& exists|m: nat| #[trigger] labels_span(labels, m)
    &&& forall|g: Set<int>|
        #[trigger] isolated_dense_group(points, eps, min_points, g) ==> exists|id: usize|
            id != 0 && #[trigger] group_claimed(g, labels, id) && group_exclusive(g, labels, id)
}

pub proof fn lemma_push_keeps(s: Seq<usize>, x: usize, y: usize)
    requires
        s.contains(y) || x == y,
    ensures
        s.push(x).contains(y),
{
    if s.contains(y) {
        let idx = choose|idx: int| 0 <= idx < s.len() && s[idx] == y;
        assert(s.push(x)[idx] == y);
    } else {
        assert(s.push(x)[s.len() as int] == y);
    }
}

pub proof fn lemma_pop_contains(ws: Seq<usize>, x: usize)
    requires
        ws.len() > 0,
        ws.contains(x),
        x != ws.last(),
    ensures
        ws.drop_last().contains(x),
{
    let idx = choose|idx: int| 0 <= idx < ws.len() && ws[idx] == x;
    assert(ws.drop_last()[idx] == x);
}

/// Every entry of `order` is a valid index and every index occurs in `order`.
pub open spec fn covers_all(order: Seq<usize>, n: nat) -> bool {
    &&& forall|k: int| 0 <= k < order.len() ==> (#[trigger] order[k]) < n
    &&& forall|j: int| 0 <= j < n ==> #[trigger] order.contains(j as usize)
}

/// Every working-set entry is a valid index within `eps` of some core point.
pub open spec fn ws_ok(points: Seq<Seq<i32>>, eps: i64, min_points: usize, ws: Seq<usize>) -> bool {
    forall|k: int|
        0 <= k < ws.len() ==> (#[trigger] ws[k]) < points.len() && near_core(
            points,
            eps,
            min_points,
            ws[k] as int,
        )
}

/// Cluster id `id` appears somewhere in `labels`.
pub open spec fn id_used(labels: Seq<usize>, id: int) -> bool {
    exists|w: int| 0 <= w < labels.len() && (#[trigger] labels[w]) == id
}

/// The cluster ids used are exactly 1 up to `m`: none is larger, each appears.
pub open spec fn labels_span(labels: Seq<usize>, m: nat) -> bool {
    &&& forall|i: int| 0 <= i < labels.len() ==> (#[trigger] labels[i]) <= m
    &&& forall|id: int| 1 <= id <= m ==> #[trigger] id_used(labels, id)
}

/// Cluster id `id` is anchored at a core point that carries it and that was
/// visited, together with its whole eps-neighborhood, by the time of the
/// snapshot `visited0`.
pub open spec fn id_anchored(
    points: Seq<Seq<i32>>,
    eps: i64,
    min_points: usize,
    visited0: Seq<bool>,
    labels: Seq<usize>,
    id: int,
) -> bool {
    exists|w: int|
        0 <= w < points.len() && (#[trigger] labels[w]) == id && is_core(points, eps, min_points, w)
            && visited0[w] && (forall|x: int|
            0 <= x < points.len() && #[trigger] in_radius(points, points[w], eps, x)
                ==> visited0[x])
}

/// Point `x` lies within `eps` of a core point that was not yet visited at
/// the snapshot `visited0`.
pub open spec fn fresh_reachable(
    points: Seq<Seq<i32>>,
    eps: i64,
    min_points: usize,
    visited0: Seq<bool>,
    x: int,
) -> bool {
    exists|p: int|
        0 <= p < points.len() && #[trigger] is_core(points, eps, min_points, p) && !visited0[p]
            && in_radius(points, points[p], eps, x)
}

/// Every working-set entry lies within `eps` of a core point that was not
/// yet visited at the snapshot `visited0`.
pub open spec fn ws_fresh(
    points: Seq<Seq<i32>>,
    eps: i64,
    min_points: usize,
    visited0: Seq<bool>,
    ws: Seq<usize>,
) -> bool {
    forall|k: int|
        0 <= k < ws.len() ==> fresh_reachable(
            points,
            eps,
            min_points,
            visited0,
            (#[trigger] ws[k]) as int,
        )
}

/// A dense, isolated group: at least `min_points` points, pairwise within
/// `eps` of each other, with every other point farther than `eps` from every
/// member.
pub open spec fn isolated_dense_group(
    points: Seq<Seq<i32>>,
    eps: i64,
    min_points: usize,
    g: Set<int>,
) -> bool {
    &&& g.finite()
    &&& min_points <= g.len()
    &&& forall|m: int| #[trigger] g.contains(m) ==> 0 <= m < points.len()
    &&& forall|m: int, m2: int|
        #[trigger] g.contains(m) && #[trigger] g.contains(m2) ==> dist_sq(points[m2], points[m])
            <= eps_sq_of(eps)
    &&& forall|m: int, o: int|
        g.contains(m) && 0 <= o < points.len() && !g.contains(o) ==> #[trigger] dist_sq(
            points[o],
            points[m],
        ) > eps_sq_of(eps)
}

/// Every member of `g` carries label `id`.
pub open spec fn group_claimed(g: Set<int>, labels: Seq<usize>, id: usize) -> bool {
    forall|m: int| #[trigger] g.contains(m) ==> labels[m] == id
}

/// No member of `g` has been visited or labeled yet.
pub open spec fn group_untouched(g: Set<int>, visited: Seq<bool>, labels: Seq<usize>) -> bool {
    forall|m: int| #[trigger] g.contains(m) ==> !visited[m] && labels[m] == 0
}

/// Every member of `g` is visited and carries label `id`.
pub open spec fn group_done(g: Set<int>, visited: Seq<bool>, labels: Seq<usize>, id: usize) -> bool {
    forall|m: int| #[trigger] g.contains(m) ==> visited[m] && labels[m] == id
}

/// Mid-expansion state of the group that owns the current seed: members are
/// labeled `id` as soon as they are visited, and each one is labeled already
/// or still waiting in the working set.
pub open spec fn group_active(
    g: Set<int>,
    visited: Seq<bool>,
    labels: Seq<usize>,
    ws: Seq<usize>,
    id: usize,
) -> bool {
    forall|m: int|
        #[trigger] g.contains(m) ==> (visited[m] ==> labels[m] == id) && (labels[m] == id
            || ws.contains(m as usize))
}

/// No working-set entry belongs to `g`.
pub open spec fn ws_avoids(g: Set<int>, ws: Seq<usize>) -> bool {
    forall|k: int| 0 <= k < ws.len() ==> !g.contains((#[trigger] ws[k]) as int)
}

/// Every working-set entry belongs to `g`.
pub open spec fn ws_inside(g: Set<int>, ws: Seq<usize>) -> bool {
    forall|k: int| 0 <= k < ws.len() ==> g.contains((#[trigger] ws[k]) as int)
}

/// Label `id` occurs only on members of `g`.
pub open spec fn group_exclusive(g: Set<int>, labels: Seq<usize>, id: usize) -> bool {
    forall|x: int| 0 <= x < labels.len() && (#[trigger] labels[x]) == id ==> g.contains(x)
}

/// How an isolated dense group stands while the clustering pass runs: either
/// nothing has happened to it, or it is wholly claimed and visited, or the
/// current expansion, working under cluster id `id`, owns it.
pub open spec fn group_state(
    points: Seq<Seq<i32>>,
    eps: i64,
    min_points: usize,
    g: Set<int>,
    seed: int,
    visited: Seq<bool>,
    labels: Seq<usize>,
    ws: Seq<usize>,
    id: usize,
) -> bool {
    ||| (g.contains(seed) && group_active(g, visited, labels, ws, id) && ws_inside(g, ws)
        && group_exclusive(g, labels, id))
    ||| (!g.contains(seed) && ws_avoids(g, ws) && (group_untouched(g, visited, labels) || exists|
        did: usize,
    |
        did != 0 && did < id && #[trigger] group_done(g, visited, labels, did) && group_exclusive(
            g,
            labels,
            did,
        )))
}

proof fn lemma_member_within(
    points: Seq<Seq<i32>>,
    eps: i64,
    min_points: usize,
    g: Set<int>,
    m: int,
    o: int,
)
    requires
        isolated_dense_group(points, eps, min_points, g),
        g.contains(m),
        0 <= o < points.len(),
        dist_sq(points[o], points[m]) <= eps_sq_of(eps) || dist_sq(points[m], points[o])
            <= eps_sq_of(eps),
        forall|a: int| 0 <= a < points.len() ==> (#[trigger] points[a]).len() == points[0].len(),
    ensures
        g.contains(o),
{
    crate::geometry::lemma_dist_sq_sym(points[o], points[m], points[o].len());
    if !g.contains(o) {
        assert(dist_sq(points[o], points[m]) > eps_sq_of(eps));
        assert(false);
    }
}

proof fn lemma_member_is_core(
    points: Seq<Seq<i32>>,
    eps: i64,
    min_points: usize,
    g: Set<int>,
    m: int,
)
    requires
        isolated_dense_group(points, eps, min_points, g),
        g.contains(m),
    ensures
        is_core(points, eps, min_points, m),
        forall|m2: int| #[trigger] g.contains(m2) ==> in_radius(points, points[m], eps, m2),
{
    assert forall|m2: int| #[trigger] g.contains(m2) implies 0 <= m2 < points.len() && in_radius(
        points,
        points[m],
        eps,
        m2,
    ) by {
        assert(dist_sq(points[m2], points[m]) <= eps_sq_of(eps));
    }
    crate::index::lemma_count_at_least(points, points[m], eps, points.len(), g);
}

proof fn lemma_anchored_monotone(
    points: Seq<Seq<i32>>,
    eps: i64,
    min_points: usize,
    v0: Seq<bool>,
    v1: Seq<bool>,
    labels: Seq<usize>,
    id: int,
)
    requires
        id_anchored(points, eps, min_points, v0, labels, id),
        forall|x: int| 0 <= x < points.len() ==> (v0[x] ==> #[trigger] v1[x]),
    ensures
        id_anchored(points, eps, min_points, v1, labels, id),
{
    let w = choose|w: int|
        0 <= w < points.len() && (#[trigger] labels[w]) == id && is_core(points, eps, min_points, w)
            && v0[w] && (forall|x: int|
            0 <= x < points.len() && #[trigger] in_radius(points, points[w], eps, x) ==> v0[x]);
    assert(v1[w]);
    assert forall|x: int|
        0 <= x < points.len() && #[trigger] in_radius(points, points[w], eps, x) implies v1[x] by {
        assert(v0[x]);
    }
    assert(0 <= w < points.len() && labels[w] == id && is_core(points, eps, min_points, w) && v1[w]
        && (forall|x: int|
        0 <= x < points.len() && #[trigger] in_radius(points, points[w], eps, x) ==> v1[x]));
}

proof fn lemma_anchored_update_fresh(
    points: Seq<Seq<i32>>,
    eps: i64,
    min_points: usize,
    v0: Seq<bool>,
    labels: Seq<usize>,
    id: int,
    j: int,
    val: usize,
)
    requires
        id_anchored(points, eps, min_points, v0, labels, id),
        0 <= j < labels.len(),
        labels.len() == points.len(),
        !v0[j],
    ensures
        id_anchored(points, eps, min_points, v0, labels.update(j, val), id),
{
    let w = choose|w: int|
        0 <= w < points.len() && (#[trigger] labels[w]) == id && is_core(points, eps, min_points, w)
            && v0[w] && (forall|x: int|
            0 <= x < points.len() && #[trigger] in_radius(points, points[w], eps, x) ==> v0[x]);
    assert(w != j);
    assert(labels.update(j, val)[w] == id);
}

proof fn lemma_anchored_update_reached(
    points: Seq<Seq<i32>>,
    eps: i64,
    min_points: usize,
    v0: Seq<bool>,
    labels: Seq<usize>,
    id: int,
    j: int,
    val: usize,
)
    requires
        id_anchored(points, eps, min_points, v0, labels, id),
        0 <= j < labels.len(),
        labels.len() == points.len(),
        fresh_reachable(points, eps, min_points, v0, j),
        forall|a: int| 0 <= a < points.len() ==> (#[trigger] points[a]).len() == points[0].len(),
    ensures
        id_anchored(points, eps, min_points, v0, labels.update(j, val), id),
{
    let w = choose|w: int|
        0 <= w < points.len() && (#[trigger] labels[w]) == id && is_core(points, eps, min_points, w)
            && v0[w] && (forall|x: int|
            0 <= x < points.len() && #[trigger] in_radius(points, points[w], eps, x) ==> v0[x]);
    let p = choose|p: int|
        0 <= p < points.len() && #[trigger] is_core(points, eps, min_points, p) && !v0[p]
            && in_radius(points, points[p], eps, j);
    if w == j {
        crate::geometry::lemma_dist_sq_sym(points[j], points[p], points[j].len());
        assert(dist_sq(points[p], points[w]) == dist_sq(points[j], points[p]));
        assert(in_radius(points, points[w], eps, p));
        assert(v0[p]);
        assert(false);
    }
    assert(labels.update(j, val)[w] == id);
}

/// How many entries of `s` are set.
pub open spec fn count_trues(s: Seq<bool>) -> nat
    decreases s.len(),
{
    if s.len() == 0 {
        0
    } else {
        count_trues(s.drop_last()) + if s.last() {
            1nat
        } else {
            0nat
        }
    }
}

pub proof fn lemma_count_trues_le(s: Seq<bool>)
    ensures
        count_trues(s) <= s.len(),
    decreases s.len(),
{
    if s.len() > 0 {
        lemma_count_trues_le(s.drop_last());
    }
}

pub proof fn lemma_count_trues_set(s: Seq<bool>, k: int)
    requires
        0 <= k < s.len(),
        !s[k],
    ensures
        count_trues(s.update(k, true)) == count_trues(s) + 1,
    decreases s.len(),
{
    let s2 = s.update(k, true);
    if k == s.len() - 1 {
        assert(s2.drop_last() =~= s.drop_last());
    } else {
        assert(s2.drop_last() =~= s.drop_last().update(k, true));
        lemma_count_trues_set(s.drop_last(), k);
    }
}

proof fn lemma_measure_dec(n: int, c0: nat, c1: nat, w0: int, w1: int)
    requires
        c1 == c0 + 1,
        c1 <= n,
        0 <= w0,
        w1 <= w0 - 1 + n,
    ensures
        (n - c1) * (n + 1) + w1 < (n - c0) * (n + 1) + w0,
{
    assert((n - c1) * (n + 1) == (n - c0) * (n + 1) - (n + 1)) by (nonlinear_arith)
        requires
            c1 == c0 + 1,
    ;
}

/// A vector of `n` copies of `x`.
#[verifier::loop_isolation(false)]
fn filled<T: Copy>(n: usize, x: T) -> (v: Vec<T>)
    ensures
        v@.len() == n,
        forall|i: int| 0 <= i < n ==> v@[i] == x,
{
    let mut v: Vec<T> = Vec::new();
    let mut i: usize = 0;
    while i < n
        invariant
            0 <= i <= n,
            v@.len() == i,
            forall|t: int| 0 <= t < i ==> v@[t] == x,
        decreases n - i,
    {
        v.push(x);
        i = i + 1;
    }
    v
}

/// Relies on rand::seq::index::sample: with `amount == length` it returns
/// every index of `0..length` exactly once, in uniformly random order.
#[verifier::external_body]
fn random_order(n: usize) -> (r: Vec<usize>)
    ensures
        r@.len() == n,
        covers_all(r@, n as nat),
{
    rand::seq::index::sample(&mut rand::thread_rng(), n, n).into_vec()
}

/// Run one clustering pass over `data`, visiting seed points in the order
/// given by `order`. Labels are cluster ids from 1 up in discovery order;
/// 0 marks noise. With `borders` set, border points are absorbed into the
/// cluster that discovers them; without it only core points are labeled.
#[verifier::loop_isolation(false)]
pub fn fit_labels(
    data: &PointSet,
    eps: i64,
    min_points: usize,
    borders: bool,
    order: &Vec<usize>,
) -> (labels: Vec<usize>)
    requires
        data.wf(),
        eps > 0,
        min_points >= 1,
        order@.len() == data@.len(),
        covers_all(order@, data@.len()),
    ensures
        fit_post(data@, eps, min_points, borders, labels@),
{
    let ghost pts = data@;
    let n: usize = data.len();
    let index = SpatialIndex::build(data);
    let mut visited: Vec<bool> = filled(n, false);
    let mut clusters: Vec<usize> = filled(n, 0);
    let mut c: usize = 0;
    let mut neighbours: Vec<usize> = Vec::new();
    let mut sub_neighbours: Vec<usize> = Vec::new();

    proof {
        lemma_count_trues_le(visited@);
    }
    let mut t: usize = 0;
    while t < n
        invariant
            visited@.len() == n,
            clusters@.len() == n,
            c <= count_trues(visited@),
            count_trues(visited@) <= n,
            forall|k: int| 0 <= k < t ==> visited@[order@[k] as int],
            labels_sound(pts, eps, min_points, borders, clusters@),
            visited_cores_labeled(pts, eps, min_points, visited@, clusters@),
            borders ==> cores_covered(
                pts,
                eps,
                min_points,
                visited@,
                clusters@,
                Seq::<usize>::empty(),
            ),
            forall|ii: int| 0 <= ii < n ==> (#[trigger] clusters@[ii]) <= c,
            forall|id: int|
                1 <= id <= c ==> #[trigger] id_anchored(
                    pts,
                    eps,
                    min_points,
                    visited@,
                    clusters@,
                    id,
                ),
            forall|g: Set<int>|
                #[trigger] isolated_dense_group(pts, eps, min_points, g) ==> group_untouched(
                    g,
                    visited@,
                    clusters@,
                ) || exists|did: usize|
                    did != 0 && (did as int) <= c && #[trigger] group_done(
                        g,
                        visited@,
                        clusters@,
                        did,
                    ) && group_exclusive(g, clusters@, did),
        decreases n - t,
    {
        let i: usize = order[t];
        if !visited[i] {
            let ghost visited_pre = visited@;
            let ghost clusters_outer = clusters@;
            visited.set(i, true);
            proof {
                lemma_count_trues_set(visited_pre, i as int);
                lemma_count_trues_le(visited@);
            }
            index.query_at(i, eps, &mut neighbours);
            if neighbours.len() >= min_points {
                proof {
                    assert(is_core(pts, eps, min_points, i as int));
                }
                clusters.set(i, c + 1);
                proof {
                    assert forall|k: int|
                        0 <= k < neighbours@.len() implies (#[trigger] neighbours@[k]) < pts.len()
                        && near_core(pts, eps, min_points, neighbours@[k] as int) by {
                        assert(in_radius(pts, pts[i as int], eps, neighbours@[k] as int));
                    }
                    assert forall|id: int|
                        1 <= id <= c implies #[trigger] id_anchored(
                        pts,
                        eps,
                        min_points,
                        visited_pre,
                        clusters@,
                        id,
                    ) by {
                        lemma_anchored_update_fresh(
                            pts,
                            eps,
                            min_points,
                            visited_pre,
                            clusters_outer,
                            id,
                            i as int,
                            (c + 1) as usize,
                        );
                    }
                    assert forall|k: int|
                        0 <= k < neighbours@.len() implies fresh_reachable(
                        pts,
                        eps,
                        min_points,
                        visited_pre,
                        (#[trigger] neighbours@[k]) as int,
                    ) by {
                        assert(0 <= (i as int) < pts.len() && is_core(pts, eps, min_points, i as int)
                            && !visited_pre[i as int] && in_radius(
                            pts,
                            pts[i as int],
                            eps,
                            neighbours@[k] as int,
                        ));
                    }
                    assert forall|g: Set<int>|
                        #[trigger] isolated_dense_group(pts, eps, min_points, g) implies group_state(
                        pts,
                        eps,
                        min_points,
                        g,
                        i as int,
                        visited@,
                        clusters@,
                        neighbours@,
                        (c + 1) as usize,
                    ) by {
                        if g.contains(i as int) {
                            if exists|did: usize|
                                did != 0 && #[trigger] group_done(g, visited_pre, clusters_outer, did) {
                                let did = choose|did: usize|
                                    did != 0 && #[trigger] group_done(g, visited_pre, clusters_outer, did);
                                assert(visited_pre[i as int]);
                            }
                            assert(group_untouched(g, visited_pre, clusters_outer));
                            lemma_member_is_core(pts, eps, min_points, g, i as int);
                            assert forall|m: int| #[trigger] g.contains(m) implies (visited@[m]
                                ==> clusters@[m] == (c + 1) as usize) && (clusters@[m] == (c + 1) as usize
                                || neighbours@.contains(m as usize)) by {
                                if m != i as int {
                                    assert(!visited_pre[m] && clusters_outer[m] == 0);
                                    assert(in_radius(pts, pts[i as int], eps, m));
                                    assert(neighbours@.contains(m as usize));
                                }
                            }
                            assert forall|k: int|
                                0 <= k < neighbours@.len() implies g.contains(
                                (#[trigger] neighbours@[k]) as int,
                            ) by {
                                assert(in_radius(pts, pts[i as int], eps, neighbours@[k] as int));
                                lemma_member_within(
                                    pts,
                                    eps,
                                    min_points,
                                    g,
                                    i as int,
                                    neighbours@[k] as int,
                                );
                            }
                            assert forall|x2: int|
                                0 <= x2 < n && (#[trigger] clusters@[x2]) == (c + 1) as usize
                                implies g.contains(x2) by {
                                if x2 != i as int {
                                    assert(clusters_outer[x2] <= c);
                                }
                            }
                        } else {
                            assert forall|k: int|
                                0 <= k < neighbours@.len() implies !g.contains(
                                (#[trigger] neighbours@[k]) as int,
                            ) by {
                                if g.contains(neighbours@[k] as int) {
                                    assert(in_radius(pts, pts[i as int], eps, neighbours@[k] as int));
                                    lemma_member_within(
                                        pts,
                                        eps,
                                        min_points,
                                        g,
                                        neighbours@[k] as int,
                                        i as int,
                                    );
                                }
                            }
                            if group_untouched(g, visited_pre, clusters_outer) {
                                assert forall|m: int| #[trigger] g.contains(m) implies !visited@[m]
                                    && clusters@[m] == 0 by {
                                    assert(m != i as int);
                                }
                            } else {
                                let did = choose|did: usize|
                                    did != 0 && (did as int) <= c && #[trigger] group_done(
                                        g,
                                        visited_pre,
                                        clusters_outer,
                                        did,
                                    ) && group_exclusive(g, clusters_outer, did);
                                assert forall|m: int| #[trigger] g.contains(m) implies visited@[m]
                                    && clusters@[m] == did by {
                                    assert(m != i as int);
                                }
                                assert forall|x2: int|
                                    0 <= x2 < n && (#[trigger] clusters@[x2]) == did
                                    implies g.contains(x2) by {
                                    if x2 != i as int {
                                        assert(clusters_outer[x2] == did);
                                    }
                                }
                                assert(did != 0 && did < (c + 1) as usize && group_done(
                                    g,
                                    visited@,
                                    clusters@,
                                    did,
                                ) && group_exclusive(g, clusters@, did));
                            }
                        }
                    }
                    if borders {
                        assert forall|p: int, x: int|
                            0 <= p < pts.len() && visited@[p] && is_core(pts, eps, min_points, p)
                                && 0 <= x < pts.len() && #[trigger] in_radius(
                                pts,
                                pts[p],
                                eps,
                                x,
                            ) implies clusters@[x] != 0 || neighbours@.contains(x as usize) by {
                            if p == i {
                                assert(neighbours@.contains(x as usize));
                            } else {
                                assert(visited_pre[p]);
                                assert(clusters_outer[x] != 0);
                            }
                        }
                    }
                }
                while neighbours.len() > 0
                    invariant
                        visited@.len() == n,
                        clusters@.len() == n,
                        c < count_trues(visited@),
                        count_trues(visited@) <= n,
                        forall|k: int| 0 <= k <= t ==> visited@[order@[k] as int],
                        labels_sound(pts, eps, min_points, borders, clusters@),
                        visited_cores_labeled(pts, eps, min_points, visited@, clusters@),
                        ws_ok(pts, eps, min_points, neighbours@),
                        borders ==> cores_covered(
                            pts,
                            eps,
                            min_points,
                            visited@,
                            clusters@,
                            neighbours@,
                        ),
                        forall|ii: int| 0 <= ii < n ==> (#[trigger] clusters@[ii]) <= c + 1,
                        clusters@[i as int] == c + 1,
                        visited@[i as int],
                        forall|x2: int|
                            0 <= x2 < n ==> (visited_pre[x2] ==> #[trigger] visited@[x2]),
                        forall|id: int|
                            1 <= id <= c ==> #[trigger] id_anchored(
                                pts,
                                eps,
                                min_points,
                                visited_pre,
                                clusters@,
                                id,
                            ),
                        ws_fresh(pts, eps, min_points, visited_pre, neighbours@),
                        forall|x2: int|
                            0 <= x2 < n && #[trigger] in_radius(pts, pts[i as int], eps, x2)
                                ==> visited@[x2] || neighbours@.contains(x2 as usize),
                        forall|g: Set<int>|
                            #[trigger] isolated_dense_group(pts, eps, min_points, g)
                                ==> group_state(
                                pts,
                                eps,
                                min_points,
                                g,
                                i as int,
                                visited@,
                                clusters@,
                                neighbours@,
                                (c + 1) as usize,
                            ),
                    decreases (n - count_trues(visited@)) * (n + 1) + neighbours@.len(),
                {
                    let ghost count0 = count_trues(visited@);
                    let ghost w0 = neighbours@.len() as int;
                    let ghost ws_pre = neighbours@;
                    let ghost clusters_head = clusters@;
                    let ghost visited_head = visited@;
                    let j: usize = neighbours.pop().unwrap();
                    let ghost ws_pop = neighbours@;
                    proof {
                        assert(near_core(pts, eps, min_points, j as int));
                        assert(ws_pop =~= ws_pre.drop_last());
                        assert(fresh_reachable(pts, eps, min_points, visited_pre, j as int));
                        assert forall|k: int|
                            0 <= k < ws_pop.len() implies fresh_reachable(
                            pts,
                            eps,
                            min_points,
                            visited_pre,
                            (#[trigger] ws_pop[k]) as int,
                        ) by {
                            assert(ws_pop[k] == ws_pre[k]);
                        }
                    }
                    if borders {
                        clusters.set(j, c + 1);
                        proof {
                            assert forall|id: int|
                                1 <= id <= c implies #[trigger] id_anchored(
                                pts,
                                eps,
                                min_points,
                                visited_pre,
                                clusters@,
                                id,
                            ) by {
                                lemma_anchored_update_reached(
                                    pts,
                                    eps,
                                    min_points,
                                    visited_pre,
                                    clusters_head,
                                    id,
                                    j as int,
                                    (c + 1) as usize,
                                );
                            }
                        }
                    }
                    if !visited[j] {
                        let ghost visited_pre2 = visited@;
                        visited.set(j, true);
                        proof {
                            lemma_count_trues_set(visited_pre2, j as int);
                            lemma_count_trues_le(visited@);
                        }
                        index.query_at(j, eps, &mut sub_neighbours);
                        if sub_neighbours.len() >= min_points {
                            proof {
                                assert(is_core(pts, eps, min_points, j as int));
                            }
                            if !borders {
                                clusters.set(j, c + 1);
                                proof {
                                    assert(!visited_pre[j as int]);
                                    assert forall|id: int|
                                        1 <= id <= c implies #[trigger] id_anchored(
                                        pts,
                                        eps,
                                        min_points,
                                        visited_pre,
                                        clusters@,
                                        id,
                                    ) by {
                                        lemma_anchored_update_fresh(
                                            pts,
                                            eps,
                                            min_points,
                                            visited_pre,
                                            clusters_head,
                                            id,
                                            j as int,
                                            (c + 1) as usize,
                                        );
                                    }
                                }
                            }
                            let ghost wm = neighbours@.len() as int;
                            proof {
                            assert forall|g: Set<int>|
                                #[trigger] isolated_dense_group(pts, eps, min_points, g) implies group_state(
                                pts,
                                eps,
                                min_points,
                                g,
                                i as int,
                                visited@,
                                clusters@,
                                neighbours@,
                                (c + 1) as usize,
                            ) by {
                                if g.contains(i as int) {
                                    assert(group_active(g, visited_head, clusters_head, ws_pre, (c + 1) as usize));
                                    assert(group_exclusive(g, clusters_head, (c + 1) as usize));
                                    assert(ws_pre[ws_pre.len() - 1] == j);
                                    assert(g.contains(j as int));
                                    assert forall|m: int| #[trigger] g.contains(m) implies (
                                        visited@[m] ==> clusters@[m] == (c + 1) as usize) && (
                                        clusters@[m] == (c + 1) as usize || neighbours@.contains(m as usize)) by {
                                        if m == j as int {
                                            if !visited_head[m] {
                                                lemma_member_is_core(pts, eps, min_points, g, m);
                                            }
                                        } else {
                                            if clusters_head[m] != (c + 1) as usize {
                                                assert(ws_pre.contains(m as usize));
                                                lemma_pop_contains(ws_pre, m as usize);
                                                assert(ws_pop.contains(m as usize));
                                            }
                                        }
                                    }
                                    assert forall|k: int|
                                        0 <= k < neighbours@.len() implies g.contains(
                                        (#[trigger] neighbours@[k]) as int,
                                    ) by {
                                        assert(neighbours@[k] == ws_pre[k]);
                                    }
                                    assert forall|x2: int|
                                        0 <= x2 < n && (#[trigger] clusters@[x2]) == (c + 1) as usize
                                        implies g.contains(x2) by {
                                        if x2 != j as int {
                                            assert(clusters_head[x2] == (c + 1) as usize);
                                        }
                                    }
                                } else {
                                    assert(ws_avoids(g, ws_pre));
                                    assert(!g.contains(j as int));
                                    assert forall|k: int|
                                        0 <= k < neighbours@.len() implies !g.contains(
                                        (#[trigger] neighbours@[k]) as int,
                                    ) by {
                                        assert(neighbours@[k] == ws_pre[k]);
                                    }
                                    if group_untouched(g, visited_head, clusters_head) {
                                        assert forall|m: int| #[trigger] g.contains(m) implies !visited@[m]
                                            && clusters@[m] == 0 by {
                                            assert(m != j as int);
                                        }
                                    } else {
                                        let did = choose|did: usize|
                                            did != 0 && did < (c + 1) as usize && #[trigger] group_done(
                                                g,
                                                visited_head,
                                                clusters_head,
                                                did,
                                            ) && group_exclusive(g, clusters_head, did);
                                        assert forall|m: int| #[trigger] g.contains(m) implies visited@[m]
                                            && clusters@[m] == did by {
                                            assert(m != j as int);
                                        }
                                        assert forall|x2: int|
                                            0 <= x2 < n && (#[trigger] clusters@[x2]) == did
                                            implies g.contains(x2) by {
                                            if x2 != j as int {
                                                assert(clusters_head[x2] == did);
                                            }
                                        }
                                        assert(did != 0 && did < (c + 1) as usize && group_done(
                                            g,
                                            visited@,
                                            clusters@,
                                            did,
                                        ) && group_exclusive(g, clusters@, did));
                                    }
                                }
                            }
                            }
                            let mut k2: usize = 0;
                            while k2 < sub_neighbours.len()
                                invariant
                                    0 <= k2 <= sub_neighbours@.len(),
                                    ws_ok(pts, eps, min_points, neighbours@),
                                    neighbours@.len() <= wm + k2,
                                    forall|y: usize|
                                        #[trigger] ws_pop.contains(y) ==> neighbours@.contains(y),
                                    forall|tt: int|
                                        0 <= tt < k2 ==> neighbours@.contains(
                                            #[trigger] sub_neighbours@[tt],
                                        ),
                                    ws_fresh(pts, eps, min_points, visited_pre, neighbours@),
                                    forall|g: Set<int>|
                                        #[trigger] isolated_dense_group(pts, eps, min_points, g)
                                            ==> group_state(
                                            pts,
                                            eps,
                                            min_points,
                                            g,
                                            i as int,
                                            visited@,
                                            clusters@,
                                            neighbours@,
                                            (c + 1) as usize,
                                        ),
                                decreases sub_neighbours@.len() - k2,
                            {
                                let x: usize = sub_neighbours[k2];
                                proof {
                                    assert(in_radius(pts, pts[j as int], eps, x as int));
                                    assert(0 <= j < pts.len() && is_core(pts, eps, min_points, j as int)
                                        && dist_sq(pts[x as int], pts[j as int]) <= eps_sq_of(eps));
                                    assert(near_core(pts, eps, min_points, x as int));
                                }
                                if !contains_usize(&neighbours, x) {
                                    let ghost ws_mid = neighbours@;
                                    neighbours.push(x);
                                    proof {
                                        assert forall|y: usize|
                                            #[trigger] ws_pop.contains(y) implies neighbours@.contains(
                                            y,
                                        ) by {
                                            lemma_push_keeps(ws_mid, x, y);
                                        }
                                        assert forall|tt: int|
                                            0 <= tt <= k2 implies neighbours@.contains(
                                            #[trigger] sub_neighbours@[tt],
                                        ) by {
                                            lemma_push_keeps(ws_mid, x, sub_neighbours@[tt]);
                                        }
                                        assert(!visited_pre[j as int]);
                                        assert forall|k3: int|
                                            0 <= k3 < neighbours@.len() implies fresh_reachable(
                                            pts,
                                            eps,
                                            min_points,
                                            visited_pre,
                                            (#[trigger] neighbours@[k3]) as int,
                                        ) by {
                                            if k3 < ws_mid.len() {
                                                assert(neighbours@[k3] == ws_mid[k3]);
                                            } else {
                                                assert(neighbours@[k3] == x);
                                                assert(0 <= (j as int) < pts.len() && is_core(
                                                    pts,
                                                    eps,
                                                    min_points,
                                                    j as int,
                                                ) && !visited_pre[j as int] && in_radius(
                                                    pts,
                                                    pts[j as int],
                                                    eps,
                                                    x as int,
                                                ));
                                            }
                                        }
                                    }
                                        assert forall|g: Set<int>|
                                            #[trigger] isolated_dense_group(pts, eps, min_points, g) implies group_state(
                                            pts,
                                            eps,
                                            min_points,
                                            g,
                                            i as int,
                                            visited@,
                                            clusters@,
                                            neighbours@,
                                            (c + 1) as usize,
                                        ) by {
                                            if g.contains(i as int) {
                                                assert(group_active(g, visited@, clusters@, ws_mid, (c + 1) as usize));
                                                assert forall|m: int| #[trigger] g.contains(m) implies (
                                                    visited@[m] ==> clusters@[m] == (c + 1) as usize) && (
                                                    clusters@[m] == (c + 1) as usize || neighbours@.contains(m as usize)) by {
                                                    if clusters@[m] != (c + 1) as usize {
                                                        lemma_push_keeps(ws_mid, x, m as usize);
                                                    }
                                                }
                                                assert(ws_inside(g, ws_pre));
                                                assert(ws_pre[ws_pre.len() - 1] == j);
                                                assert(g.contains(j as int));
                                                assert forall|k3: int|
                                                    0 <= k3 < neighbours@.len() implies g.contains(
                                                    (#[trigger] neighbours@[k3]) as int,
                                                ) by {
                                                    if k3 < ws_mid.len() {
                                                        assert(neighbours@[k3] == ws_mid[k3]);
                                                        assert(ws_inside(g, ws_mid));
                                                    } else {
                                                        assert(neighbours@[k3] == x);
                                                        assert(in_radius(pts, pts[j as int], eps, x as int));
                                                        lemma_member_within(
                                                            pts,
                                                            eps,
                                                            min_points,
                                                            g,
                                                            j as int,
                                                            x as int,
                                                        );
                                                    }
                                                }
                                            } else {
                                                assert(group_state(pts, eps, min_points, g, i as int, visited_head, clusters_head, ws_pre, (c + 1) as usize));
                                                assert(ws_avoids(g, ws_pre));
                                                assert(ws_pre[ws_pre.len() - 1] == j);
                                                assert(!g.contains(j as int));
                                                assert(ws_avoids(g, ws_mid));
                                                assert forall|k3: int|
                                                    0 <= k3 < neighbours@.len() implies !g.contains(
                                                    (#[trigger] neighbours@[k3]) as int,
                                                ) by {
                                                    if k3 < ws_mid.len() {
                                                        assert(neighbours@[k3] == ws_mid[k3]);
                                                    } else {
                                                        assert(neighbours@[k3] == x);
                                                        if g.contains(x as int) {
                                                            assert(in_radius(pts, pts[j as int], eps, x as int));
                                                            lemma_member_within(
                                                                pts,
                                                                eps,
                                                                min_points,
                                                                g,
                                                                x as int,
                                                                j as int,
                                                            );
                                                        }
                                                    }
                                                }
                                            }
                                        }
                                } else {
                                    proof {
                                        assert(neighbours@.contains(sub_neighbours@[k2 as int]));
                                    }
                                }
                                k2 = k2 + 1;
                            }
                            proof {
                                lemma_measure_dec(
                                    n as int,
                                    count0,
                                    count_trues(visited@),
                                    w0,
                                    neighbours@.len() as int,
                                );
                                assert forall|x2: int|
                                    0 <= x2 < n && #[trigger] in_radius(pts, pts[i as int], eps, x2)
                                    implies visited@[x2] || neighbours@.contains(x2 as usize) by {
                                    if !visited_head[x2] {
                                        assert(ws_pre.contains(x2 as usize));
                                        if x2 != j {
                                            lemma_pop_contains(ws_pre, x2 as usize);
                                            assert(ws_pop.contains(x2 as usize));
                                        }
                                    }
                                }
                                if borders {
                                    assert forall|p: int, x: int|
                                        0 <= p < pts.len() && visited@[p] && is_core(
                                            pts,
                                            eps,
                                            min_points,
                                            p,
                                        ) && 0 <= x < pts.len() && #[trigger] in_radius(
                                            pts,
                                            pts[p],
                                            eps,
                                            x,
                                        ) implies clusters@[x] != 0 || neighbours@.contains(
                                        x as usize,
                                    ) by {
                                        if p == j {
                                            assert(sub_neighbours@.contains(x as usize));
                                            let tt = choose|tt: int|
                                                0 <= tt < sub_neighbours@.len()
                                                    && sub_neighbours@[tt] == x as usize;
                                            assert(neighbours@.contains(sub_neighbours@[tt]));
                                        } else {
                                            assert(visited_head[p]);
                                            assert(clusters_head[x] != 0 || ws_pre.contains(
                                                x as usize,
                                            ));
                                            if clusters_head[x] == 0 {
                                                if x == j {
                                                } else {
                                                    lemma_pop_contains(ws_pre, x as usize);
                                                }
                                            }
                                        }
                                    }
                                }
                            }
                        } else {
                            proof {
                                lemma_measure_dec(
                                    n as int,
                                    count0,
                                    count_trues(visited@),
                                    w0,
                                    neighbours@.len() as int,
                                );
                                assert(!is_core(pts, eps, min_points, j as int));
                            assert forall|g: Set<int>|
                                #[trigger] isolated_dense_group(pts, eps, min_points, g) implies group_state(
                                pts,
                                eps,
                                min_points,
                                g,
                                i as int,
                                visited@,
                                clusters@,
                                neighbours@,
                                (c + 1) as usize,
                            ) by {
                                if g.contains(i as int) {
                                    assert(group_active(g, visited_head, clusters_head, ws_pre, (c + 1) as usize));
                                    assert(group_exclusive(g, clusters_head, (c + 1) as usize));
                                    assert(ws_pre[ws_pre.len() - 1] == j);
                                    assert(g.contains(j as int));
                                    assert forall|m: int| #[trigger] g.contains(m) implies (
                                        visited@[m] ==> clusters@[m] == (c + 1) as usize) && (
                                        clusters@[m] == (c + 1) as usize || neighbours@.contains(m as usize)) by {
                                        if m == j as int {
                                            if !visited_head[m] {
                                                lemma_member_is_core(pts, eps, min_points, g, m);
                                            }
                                        } else {
                                            if clusters_head[m] != (c + 1) as usize {
                                                assert(ws_pre.contains(m as usize));
                                                lemma_pop_contains(ws_pre, m as usize);
                                                assert(ws_pop.contains(m as usize));
                                            }
                                        }
                                    }
                                    assert forall|k: int|
                                        0 <= k < neighbours@.len() implies g.contains(
                                        (#[trigger] neighbours@[k]) as int,
                                    ) by {
                                        assert(neighbours@[k] == ws_pre[k]);
                                    }
                                    assert forall|x2: int|
                                        0 <= x2 < n && (#[trigger] clusters@[x2]) == (c + 1) as usize
                                        implies g.contains(x2) by {
                                        if x2 != j as int {
                                            assert(clusters_head[x2] == (c + 1) as usize);
                                        }
                                    }
                                } else {
                                    assert(ws_avoids(g, ws_pre));
                                    assert(!g.contains(j as int));
                                    assert forall|k: int|
                                        0 <= k < neighbours@.len() implies !g.contains(
                                        (#[trigger] neighbours@[k]) as int,
                                    ) by {
                                        assert(neighbours@[k] == ws_pre[k]);
                                    }
                                    if group_untouched(g, visited_head, clusters_head) {
                                        assert forall|m: int| #[trigger] g.contains(m) implies !visited@[m]
                                            && clusters@[m] == 0 by {
                                            assert(m != j as int);
                                        }
                                    } else {
                                        let did = choose|did: usize|
                                            did != 0 && did < (c + 1) as usize && #[trigger] group_done(
                                                g,
                                                visited_head,
                                                clusters_head,
                                                did,
                                            ) && group_exclusive(g, clusters_head, did);
                                        assert forall|m: int| #[trigger] g.contains(m) implies visited@[m]
                                            && clusters@[m] == did by {
                                            assert(m != j as int);
                                        }
                                        assert forall|x2: int|
                                            0 <= x2 < n && (#[trigger] clusters@[x2]) == did
                                            implies g.contains(x2) by {
                                            if x2 != j as int {
                                                assert(clusters_head[x2] == did);
                                            }
                                        }
                                        assert(did != 0 && did < (c + 1) as usize && group_done(
                                            g,
                                            visited@,
                                            clusters@,
                                            did,
                                        ) && group_exclusive(g, clusters@, did));
                                    }
                                }
                            }
                                assert forall|x2: int|
                                    0 <= x2 < n && #[trigger] in_radius(pts, pts[i as int], eps, x2)
                                    implies visited@[x2] || neighbours@.contains(x2 as usize) by {
                                    if !visited_head[x2] {
                                        assert(ws_pre.contains(x2 as usize));
                                        if x2 != j {
                                            lemma_pop_contains(ws_pre, x2 as usize);
                                            assert(ws_pop.contains(x2 as usize));
                                        }
                                    }
                                }
                                if borders {
                                    assert(!is_core(pts, eps, min_points, j as int));
                                    assert forall|p: int, x: int|
                                        0 <= p < pts.len() && visited@[p] && is_core(
                                            pts,
                                            eps,
                                            min_points,
                                            p,
                                        ) && 0 <= x < pts.len() && #[trigger] in_radius(
                                            pts,
                                            pts[p],
                                            eps,
                                            x,
                                        ) implies clusters@[x] != 0 || neighbours@.contains(
                                        x as usize,
                                    ) by {
                                        assert(p != j);
                                        assert(visited_head[p]);
                                        assert(clusters_head[x] != 0 || ws_pre.contains(
                                            x as usize,
                                        ));
                                        if clusters_head[x] == 0 {
                                            if x == j {
                                            } else {
                                                lemma_pop_contains(ws_pre, x as usize);
                                            }
                                        }
                                    }
                                }
                            }
                        }
                    } else {
                        proof {
                            assert(visited_head[j as int]);
                            assert forall|g: Set<int>|
                                #[trigger] isolated_dense_group(pts, eps, min_points, g) implies group_state(
                                pts,
                                eps,
                                min_points,
                                g,
                                i as int,
                                visited@,
                                clusters@,
                                neighbours@,
                                (c + 1) as usize,
                            ) by {
                                if g.contains(i as int) {
                                    assert(group_active(g, visited_head, clusters_head, ws_pre, (c + 1) as usize));
                                    assert(group_exclusive(g, clusters_head, (c + 1) as usize));
                                    assert(ws_pre[ws_pre.len() - 1] == j);
                                    assert(g.contains(j as int));
                                    assert forall|m: int| #[trigger] g.contains(m) implies (
                                        visited@[m] ==> clusters@[m] == (c + 1) as usize) && (
                                        clusters@[m] == (c + 1) as usize || neighbours@.contains(m as usize)) by {
                                        if m == j as int {
                                            if !visited_head[m] {
                                                lemma_member_is_core(pts, eps, min_points, g, m);
                                            }
                                        } else {
                                            if clusters_head[m] != (c + 1) as usize {
                                                assert(ws_pre.contains(m as usize));
                                                lemma_pop_contains(ws_pre, m as usize);
                                                assert(ws_pop.contains(m as usize));
                                            }
                                        }
                                    }
                                    assert forall|k: int|
                                        0 <= k < neighbours@.len() implies g.contains(
                                        (#[trigger] neighbours@[k]) as int,
                                    ) by {
                                        assert(neighbours@[k] == ws_pre[k]);
                                    }
                                    assert forall|x2: int|
                                        0 <= x2 < n && (#[trigger] clusters@[x2]) == (c + 1) as usize
                                        implies g.contains(x2) by {
                                        if x2 != j as int {
                                            assert(clusters_head[x2] == (c + 1) as usize);
                                        }
                                    }
                                } else {
                                    assert(ws_avoids(g, ws_pre));
                                    assert(!g.contains(j as int));
                                    assert forall|k: int|
                                        0 <= k < neighbours@.len() implies !g.contains(
                                        (#[trigger] neighbours@[k]) as int,
                                    ) by {
                                        assert(neighbours@[k] == ws_pre[k]);
                                    }
                                    if group_untouched(g, visited_head, clusters_head) {
                                        assert forall|m: int| #[trigger] g.contains(m) implies !visited@[m]
                                            && clusters@[m] == 0 by {
                                            assert(m != j as int);
                                        }
                                    } else {
                                        let did = choose|did: usize|
                                            did != 0 && did < (c + 1) as usize && #[trigger] group_done(
                                                g,
                                                visited_head,
                                                clusters_head,
                                                did,
                                            ) && group_exclusive(g, clusters_head, did);
                                        assert forall|m: int| #[trigger] g.contains(m) implies visited@[m]
                                            && clusters@[m] == did by {
                                            assert(m != j as int);
                                        }
                                        assert forall|x2: int|
                                            0 <= x2 < n && (#[trigger] clusters@[x2]) == did
                                            implies g.contains(x2) by {
                                            if x2 != j as int {
                                                assert(clusters_head[x2] == did);
                                            }
                                        }
                                        assert(did != 0 && did < (c + 1) as usize && group_done(
                                            g,
                                            visited@,
                                            clusters@,
                                            did,
                                        ) && group_exclusive(g, clusters@, did));
                                    }
                                }
                            }
                            assert forall|x2: int|
                                0 <= x2 < n && #[trigger] in_radius(pts, pts[i as int], eps, x2)
                                implies visited@[x2] || neighbours@.contains(x2 as usize) by {
                                if !visited_head[x2] {
                                    assert(ws_pre.contains(x2 as usize));
                                    if x2 != j {
                                        lemma_pop_contains(ws_pre, x2 as usize);
                                        assert(ws_pop.contains(x2 as usize));
                                    }
                                }
                            }
                            if borders {
                                assert forall|p: int, x: int|
                                    0 <= p < pts.len() && visited@[p] && is_core(
                                        pts,
                                        eps,
                                        min_points,
                                        p,
                                    ) && 0 <= x < pts.len() && #[trigger] in_radius(
                                        pts,
                                        pts[p],
                                        eps,
                                        x,
                                    ) implies clusters@[x] != 0 || neighbours@.contains(
                                    x as usize,
                                ) by {
                                    assert(clusters_head[x] != 0 || ws_pre.contains(x as usize));
                                    if clusters_head[x] == 0 {
                                        if x == j {
                                        } else {
                                            lemma_pop_contains(ws_pre, x as usize);
                                        }
                                    }
                                }
                            }
                        }
                    }
                }
                proof {
                    assert forall|id: int|
                        1 <= id <= c + 1 implies #[trigger] id_anchored(
                        pts,
                        eps,
                        min_points,
                        visited@,
                        clusters@,
                        id,
                    ) by {
                        if id == c + 1 {
                            assert forall|x2: int|
                                0 <= x2 < pts.len() && #[trigger] in_radius(
                                pts,
                                pts[i as int],
                                eps,
                                x2,
                            ) implies visited@[x2] by {
                                assert(visited@[x2] || neighbours@.contains(x2 as usize));
                            }
                            assert(0 <= (i as int) < pts.len() && clusters@[i as int] == id
                                && is_core(pts, eps, min_points, i as int) && visited@[i as int] && (
                            forall|x: int|
                                0 <= x < pts.len() && #[trigger] in_radius(pts, pts[i as int], eps, x)
                                    ==> visited@[x]));
                        } else {
                            lemma_anchored_monotone(
                                pts,
                                eps,
                                min_points,
                                visited_pre,
                                visited@,
                                clusters@,
                                id,
                            );
                        }
                    }
                    assert forall|g: Set<int>|
                        #[trigger] isolated_dense_group(pts, eps, min_points, g) implies group_untouched(
                        g,
                        visited@,
                        clusters@,
                    ) || exists|did: usize|
                        did != 0 && (did as int) <= c + 1 && #[trigger] group_done(
                            g,
                            visited@,
                            clusters@,
                            did,
                        ) && group_exclusive(g, clusters@, did) by {
                        if g.contains(i as int) {
                            lemma_member_is_core(pts, eps, min_points, g, i as int);
                            assert forall|m: int| #[trigger] g.contains(m) implies visited@[m]
                                && clusters@[m] == (c + 1) as usize by {
                                assert(in_radius(pts, pts[i as int], eps, m));
                                assert(visited@[m] || neighbours@.contains(m as usize));
                                assert(clusters@[m] == (c + 1) as usize || neighbours@.contains(
                                    m as usize,
                                ));
                            }
                            let did: usize = (c + 1) as usize;
                            assert(did != 0 && (did as int) <= c + 1 && group_done(
                                g,
                                visited@,
                                clusters@,
                                did,
                            ) && group_exclusive(g, clusters@, did));
                        } else {
                            if !group_untouched(g, visited@, clusters@) {
                                let did = choose|did: usize|
                                    did != 0 && did < (c + 1) as usize && #[trigger] group_done(
                                        g,
                                        visited@,
                                        clusters@,
                                        did,
                                    ) && group_exclusive(g, clusters@, did);
                                assert(did != 0 && (did as int) <= c + 1 && group_done(
                                    g,
                                    visited@,
                                    clusters@,
                                    did,
                                ) && group_exclusive(g, clusters@, did));
                            }
                        }
                    }
                }
                c = c + 1;
            } else {
                proof {
                    assert forall|id: int|
                        1 <= id <= c implies #[trigger] id_anchored(
                        pts,
                        eps,
                        min_points,
                        visited@,
                        clusters@,
                        id,
                    ) by {
                        lemma_anchored_monotone(
                            pts,
                            eps,
                            min_points,
                            visited_pre,
                            visited@,
                            clusters@,
                            id,
                        );
                    }
                    assert forall|g: Set<int>|
                        #[trigger] isolated_dense_group(pts, eps, min_points, g) implies group_untouched(
                        g,
                        visited@,
                        clusters@,
                    ) || exists|did: usize|
                        did != 0 && (did as int) <= c && #[trigger] group_done(
                            g,
                            visited@,
                            clusters@,
                            did,
                        ) && group_exclusive(g, clusters@, did) by {
                        if g.contains(i as int) {
                            lemma_member_is_core(pts, eps, min_points, g, i as int);
                        }
                        if group_untouched(g, visited_pre, clusters_outer) {
                            assert forall|m: int| #[trigger] g.contains(m) implies !visited@[m]
                                && clusters@[m] == 0 by {
                                assert(m != i as int);
                            }
                        } else {
                            let did = choose|did: usize|
                                did != 0 && (did as int) <= c && #[trigger] group_done(
                                    g,
                                    visited_pre,
                                    clusters_outer,
                                    did,
                                ) && group_exclusive(g, clusters_outer, did);
                            assert(did != 0 && (did as int) <= c && group_done(
                                g,
                                visited@,
                                clusters@,
                                did,
                            ) && group_exclusive(g, clusters@, did));
                        }
                    }
                }
            }
        }
        t = t + 1;
    }
    proof {
        assert forall|i2: int|
            0 <= i2 < pts.len() && #[trigger] is_core(pts, eps, min_points, i2) implies clusters@[i2]
            != 0 by {
            assert(order@.contains(i2 as usize));
            let k = choose|k: int| 0 <= k < order@.len() && order@[k] == i2 as usize;
            assert(visited@[order@[k] as int]);
        }
        if borders {
            assert forall|i2: int|
                0 <= i2 < pts.len() && #[trigger] near_core(pts, eps, min_points, i2) implies clusters@[i2]
                != 0 by {
                let p = choose|p: int|
                    0 <= p < pts.len() && #[trigger] is_core(pts, eps, min_points, p) && dist_sq(
                        pts[i2],
                        pts[p],
                    ) <= eps_sq_of(eps);
                assert(order@.contains(p as usize));
                let k = choose|k: int| 0 <= k < order@.len() && order@[k] == p as usize;
                assert(visited@[order@[k] as int]);
                assert(in_radius(pts, pts[p], eps, i2));
            }
        }
        assert forall|id: int| 1 <= id <= c implies #[trigger] id_used(clusters@, id) by {
            assert(id_anchored(pts, eps, min_points, visited@, clusters@, id));
            let w = choose|w: int|
                0 <= w < pts.len() && (#[trigger] clusters@[w]) == id && is_core(
                    pts,
                    eps,
                    min_points,
                    w,
                ) && visited@[w] && (forall|x: int|
                0 <= x < pts.len() && #[trigger] in_radius(pts, pts[w], eps, x) ==> visited@[x]);
            assert(clusters@[w] == id);
        }
        assert(labels_span(clusters@, c as nat));
        assert forall|jj: int| 0 <= jj < n implies visited@[jj] by {
            assert(order@.contains(jj as usize));
            let k2 = choose|k2: int| 0 <= k2 < order@.len() && order@[k2] == jj as usize;
            assert(visited@[order@[k2] as int]);
        }
        assert forall|g: Set<int>|
            #[trigger] isolated_dense_group(pts, eps, min_points, g) implies exists|id: usize|
            id != 0 && #[trigger] group_claimed(g, clusters@, id) && group_exclusive(
                g,
                clusters@,
                id,
            ) by {
            if group_untouched(g, visited@, clusters@) {
                if forall|m: int| !(#[trigger] g.contains(m)) {
                    assert(g =~= Set::<int>::empty());
                    assert(g.len() == 0);
                }
                let m = choose|m: int| g.contains(m);
                assert(0 <= m < pts.len());
                assert(visited@[m]);
                assert(false);
            }
            let did = choose|did: usize|
                did != 0 && (did as int) <= c && #[trigger] group_done(
                    g,
                    visited@,
                    clusters@,
                    did,
                ) && group_exclusive(g, clusters@, did);
            assert(did != 0 && group_claimed(g, clusters@, did) && group_exclusive(
                g,
                clusters@,
                did,
            ));
        }
    }
    clusters
}

/// The distinct nonzero labels among the first `k` reference points that lie
/// within `eps` of `p`, in order of first appearance.
pub open spec fn predict_row(
    points: Seq<Seq<i32>>,
    labels: Seq<usize>,
    eps: i64,
    p: Seq<i32>,
    k: nat,
) -> Seq<usize>
    decreases k,
{
    if k == 0 {
        Seq::empty()
    } else {
        let rest = predict_row(points, labels, eps, p, (k - 1) as nat);
        if in_radius(points, p, eps, k - 1) && labels[k - 1] != 0 && !rest.contains(labels[k - 1]) {
            rest.push(labels[k - 1])
        } else {
            rest
        }
    }
}

/// The labels `predict` reports for one new point: the distinct nonzero
/// labels of its eps-neighbors, or the singleton noise label 0 if none.
pub open spec fn predict_one(
    points: Seq<Seq<i32>>,
    labels: Seq<usize>,
    eps: i64,
    p: Seq<i32>,
) -> Seq<usize> {
    let s = predict_row(points, labels, eps, p, points.len());
    if s.len() == 0 {
        seq![0usize]
    } else {
        s
    }
}

/// Over a stretch with no eps-neighbor the reported labels do not change.
pub proof fn lemma_predict_row_gap(
    points: Seq<Seq<i32>>,
    labels: Seq<usize>,
    eps: i64,
    p: Seq<i32>,
    a: nat,
    b: nat,
)
    requires
        a <= b,
        forall|j: int| a <= j < b ==> !in_radius(points, p, eps, j),
    ensures
        predict_row(points, labels, eps, p, b) == predict_row(points, labels, eps, p, a),
    decreases b,
{
    if a < b {
        lemma_predict_row_gap(points, labels, eps, p, a, (b - 1) as nat);
    }
}

/// A classification of a new point against a fitted model.
#[derive(Debug, Clone, PartialEq)]
pub enum ClusterPrediction {
    Core(Vec<usize>),
    Border(Vec<usize>),
    Noise,
}

/// A fitted density-based clustering model.
#[derive(Debug)]
pub struct Dbscan {
    /// Neighborhood radius, in the same fixed-point unit as the coordinates.
    pub eps: i64,
    /// Minimum neighborhood size, the point itself included, for a core point.
    pub min_points: usize,
    /// Cluster id per point: 0 is noise; ids from 1 up are clusters in discovery order.
    pub clusters: Vec<usize>,
}

impl Dbscan {
    /// Fit a model over `data`, visiting points in a uniformly random order.
    /// The result is sound for any order: every cluster member is core or,
    /// with `borders`, within `eps` of a core point, and every core point is
    /// in some cluster. Only the cluster attribution of border points that
    /// are reachable from two clusters depends on the order drawn.
    pub fn new(data: &PointSet, eps: i64, min_points: usize, borders: bool) -> (model: Dbscan)
        requires
            data.wf(),
            eps > 0,
            min_points >= 1,
        ensures
            model.eps == eps,
            model.min_points == min_points,
            fit_post(data@, eps, min_points, borders, model.clusters@),
    {
        let order = random_order(data.len());
        let clusters = fit_labels(data, eps, min_points, borders, &order);
        Dbscan { eps, min_points, clusters }
    }

    /// Classify each point of `new_data` against the fitted labels, using
    /// `data`, the reference point set the model was fitted on. Each new
    /// point is mapped to the distinct nonzero labels of its eps-neighbors,
    /// or to the singleton noise label 0 if it has none.
    #[verifier::loop_isolation(false)]
    pub fn predict(&self, data: &PointSet, new_data: &PointSet) -> (r: Result<
        Vec<Vec<usize>>,
        DbscanError,
    >)
        requires
            data.wf(),
            new_data.wf(),
            self.clusters@.len() == data@.len(),
        ensures
            match r {
                Ok(out) => {
                    &&& data@[0].len() == new_data@[0].len()
                    &&& out@.len() == new_data@.len()
                    &&& forall|k: int|
                        0 <= k < new_data@.len() ==> (#[trigger] out@[k])@ == predict_one(
                            data@,
                            self.clusters@,
                            self.eps,
                            new_data@[k],
                        )
                },
                Err(e) => e == DbscanError::DimensionMismatch && data@[0].len()
                    != new_data@[0].len(),
            },
    {
        let d: usize = data.dim();
        if new_data.dim() != d {
            return Err(DbscanError::DimensionMismatch);
        }
        let ghost pts = data@;
        let n_ref: usize = data.len();
        let index = SpatialIndex::build(data);
        let mut out: Vec<Vec<usize>> = Vec::new();
        let mut neighbours: Vec<usize> = Vec::new();
        let n_new: usize = new_data.len();
        let mut k: usize = 0;
        while k < n_new
            invariant
                0 <= k <= n_new,
                out@.len() == k,
                forall|kk: int|
                    0 <= kk < k ==> (#[trigger] out@[kk])@ == predict_one(
                        pts,
                        self.clusters@,
                        self.eps,
                        new_data@[kk],
                    ),
            decreases n_new - k,
        {
            let q: &Vec<i32> = new_data.row(k);
            index.query_point(q, self.eps, &mut neighbours);
            let ghost qv = new_data@[k as int];
            let mut row_labels: Vec<usize> = Vec::new();
            proof {
                let b0: nat = if neighbours@.len() > 0 {
                    neighbours@[0] as nat
                } else {
                    pts.len()
                };
                assert forall|jj: int| 0 <= jj < b0 implies !in_radius(pts, qv, self.eps, jj) by {
                    if in_radius(pts, qv, self.eps, jj) {
                        assert(neighbours@.contains(jj as usize));
                        let idx = choose|idx: int|
                            0 <= idx < neighbours@.len() && neighbours@[idx] == jj as usize;
                        if idx > 0 {
                            assert(neighbours@[0] < neighbours@[idx]);
                        }
                    }
                }
                lemma_predict_row_gap(pts, self.clusters@, self.eps, qv, 0, b0);
            }
            let mut t2: usize = 0;
            while t2 < neighbours.len()
                invariant
                    0 <= t2 <= neighbours@.len(),
                    row_labels@ == predict_row(
                        pts,
                        self.clusters@,
                        self.eps,
                        qv,
                        if t2 < neighbours@.len() {
                            neighbours@[t2 as int] as nat
                        } else {
                            pts.len()
                        },
                    ),
                decreases neighbours@.len() - t2,
            {
                let j: usize = neighbours[t2];
                let lab: usize = self.clusters[j];
                if lab != 0 && !contains_usize(&row_labels, lab) {
                    row_labels.push(lab);
                }
                proof {
                    assert(row_labels@ == predict_row(
                        pts,
                        self.clusters@,
                        self.eps,
                        qv,
                        (j + 1) as nat,
                    ));
                    let nxt: nat = if t2 + 1 < neighbours@.len() {
                        neighbours@[t2 as int + 1] as nat
                    } else {
                        pts.len()
                    };
                    assert forall|jj: int|
                        j + 1 <= jj < nxt implies !in_radius(pts, qv, self.eps, jj) by {
                        if t2 + 1 < neighbours@.len() {
                            assert(neighbours@[t2 as int + 1] < pts.len());
                        }
                        assert(0 <= jj < pts.len());
                        if in_radius(pts, qv, self.eps, jj) {
                            assert(neighbours@.contains(jj as usize));
                            let idx = choose|idx: int|
                                0 <= idx < neighbours@.len() && neighbours@[idx] == jj as usize;
                            if idx < t2 {
                                assert(neighbours@[idx] < neighbours@[t2 as int]);
                            } else if idx > t2 {
                                if t2 + 1 < idx {
                                    assert(neighbours@[t2 as int + 1] < neighbours@[idx]);
                                }
                            }
                        }
                    }
                    lemma_predict_row_gap(pts, self.clusters@, self.eps, qv, (j + 1) as nat, nxt);
                }
                t2 = t2 + 1;
            }
            if row_labels.len() == 0 {
                row_labels.push(0);
                proof {
                    assert(row_labels@ =~= seq![0usize]);
                }
            }
            out.push(row_labels);
            k = k + 1;
        }
        Ok(out)
    }
}

} // verus!
