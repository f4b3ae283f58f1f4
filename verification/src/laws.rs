use vstd::prelude::*;

use crate::cluster::{
    fit_post, group_claimed, group_exclusive, isolated_dense_group, labels_sound,
    lemma_predict_row_gap, lemma_push_keeps, near_core, predict_one, predict_row,
};
use crate::geometry::{dist_sq, eps_sq_of, lemma_dist_sq_self, lemma_eps_sq_nonneg};
use crate::index::{count_in_radius, in_radius, is_core, lemma_count_at_least};

verus! {

/// Whether a point is a core point depends only on the data, `eps` and
/// `min_points` — never on the order points were visited in. Hence any two
/// label assignments a borderless fit can produce agree on which points are
/// noise, and a point escapes noise exactly when it is core.
pub proof fn lemma_core_noise_order_independent(
    points: Seq<Seq<i32>>,
    eps: i64,
    min_points: usize,
    labels1: Seq<usize>,
    labels2: Seq<usize>,
)
    requires
        fit_post(points, eps, min_points, false, labels1),
        fit_post(points, eps, min_points, false, labels2),
    ensures
        forall|i: int|
            0 <= i < points.len() ==> ((labels1[i] != 0) <==> is_core(points, eps, min_points, i)),
        forall|i: int| 0 <= i < points.len() ==> ((labels1[i] != 0) <==> (labels2[i] != 0)),
{
    assert forall|i: int|
        0 <= i < points.len() implies ((labels1[i] != 0) <==> is_core(points, eps, min_points, i))
        && ((labels2[i] != 0) <==> is_core(points, eps, min_points, i)) by {
        if labels1[i] != 0 {
            assert(is_core(points, eps, min_points, i));
        }
        if labels2[i] != 0 {
            assert(is_core(points, eps, min_points, i));
        }
    }
}

/// With borders colored, whether a point joins some cluster is order
/// independent as well: it does exactly when it is core or lies within `eps`
/// of a core point; only which adjacent cluster colors it can vary.
pub proof fn lemma_membership_order_independent(
    points: Seq<Seq<i32>>,
    eps: i64,
    min_points: usize,
    labels1: Seq<usize>,
    labels2: Seq<usize>,
)
    requires
        fit_post(points, eps, min_points, true, labels1),
        fit_post(points, eps, min_points, true, labels2),
    ensures
        forall|i: int|
            0 <= i < points.len() ==> ((labels1[i] != 0) <==> (is_core(points, eps, min_points, i)
                || near_core(points, eps, min_points, i))),
        forall|i: int| 0 <= i < points.len() ==> ((labels1[i] != 0) <==> (labels2[i] != 0)),
{
    assert forall|i: int|
        0 <= i < points.len() implies ((labels1[i] != 0) <==> (is_core(points, eps, min_points, i)
        || near_core(points, eps, min_points, i))) && ((labels2[i] != 0) <==> (is_core(
        points,
        eps,
        min_points,
        i,
    ) || near_core(points, eps, min_points, i))) by {
        if is_core(points, eps, min_points, i) {
            assert(labels1[i] != 0 && labels2[i] != 0);
        } else if near_core(points, eps, min_points, i) {
            assert(labels1[i] != 0 && labels2[i] != 0);
        } else {
            if labels1[i] != 0 {
                assert(false);
            }
            if labels2[i] != 0 {
                assert(false);
            }
        }
    }
}

/// Every member of a dense group — at least `min_points` points, pairwise
/// within `eps` of each other — is a core point, and any fit assigns each of
/// them to some cluster.
pub proof fn lemma_dense_group_labeled(
    points: Seq<Seq<i32>>,
    eps: i64,
    min_points: usize,
    borders: bool,
    labels: Seq<usize>,
    g: Set<int>,
)
    requires
        fit_post(points, eps, min_points, borders, labels),
        g.finite(),
        min_points <= g.len(),
        forall|i: int| #[trigger] g.contains(i) ==> 0 <= i < points.len(),
        forall|i: int, j: int|
            #[trigger] g.contains(i) && #[trigger] g.contains(j) ==> dist_sq(points[j], points[i])
                <= eps_sq_of(eps),
    ensures
        forall|i: int|
            #[trigger] g.contains(i) ==> is_core(points, eps, min_points, i) && labels[i] != 0,
{
    assert forall|i: int|
        #[trigger] g.contains(i) implies is_core(points, eps, min_points, i) && labels[i] != 0 by {
        assert forall|j: int| #[trigger] g.contains(j) implies 0 <= j < points.len() && in_radius(
            points,
            points[i],
            eps,
            j,
        ) by {
            assert(dist_sq(points[j], points[i]) <= eps_sq_of(eps));
        }
        lemma_count_at_least(points, points[i], eps, points.len(), g);
        assert(is_core(points, eps, min_points, i));
    }
}

/// A dense group separated from every other point by more than `eps` is
/// absorbed whole: any fit gives all of its members one shared nonzero
/// cluster label, and that label appears nowhere outside the group.
pub proof fn lemma_separated_group_one_label(
    points: Seq<Seq<i32>>,
    eps: i64,
    min_points: usize,
    borders: bool,
    labels: Seq<usize>,
    g: Set<int>,
)
    requires
        fit_post(points, eps, min_points, borders, labels),
        isolated_dense_group(points, eps, min_points, g),
    ensures
        exists|id: usize|
            id != 0 && #[trigger] group_claimed(g, labels, id) && group_exclusive(g, labels, id),
{
}

/// Two disjoint dense groups, each separated from every other point by more
/// than `eps`, are told apart: a member of one never shares its cluster
/// label with a member of the other.
pub proof fn lemma_separated_groups_distinct(
    points: Seq<Seq<i32>>,
    eps: i64,
    min_points: usize,
    borders: bool,
    labels: Seq<usize>,
    g1: Set<int>,
    g2: Set<int>,
)
    requires
        fit_post(points, eps, min_points, borders, labels),
        isolated_dense_group(points, eps, min_points, g1),
        isolated_dense_group(points, eps, min_points, g2),
        g1.disjoint(g2),
    ensures
        forall|m1: int, m2: int|
            #[trigger] g1.contains(m1) && #[trigger] g2.contains(m2) ==> labels[m1] != labels[m2],
{
    let id1 = choose|id: usize|
        id != 0 && #[trigger] group_claimed(g1, labels, id) && group_exclusive(g1, labels, id);
    let id2 = choose|id: usize|
        id != 0 && #[trigger] group_claimed(g2, labels, id) && group_exclusive(g2, labels, id);
    assert forall|m1: int, m2: int|
        #[trigger] g1.contains(m1) && #[trigger] g2.contains(m2) implies labels[m1]
        != labels[m2] by {
        assert(labels[m1] == id1);
        assert(labels[m2] == id2);
        if id1 == id2 {
            assert(0 <= m2 < points.len());
            assert(g1.contains(m2));
            assert(!(g1.contains(m2) && g2.contains(m2)));
        }
    }
}

/// A point that is neither core nor within `eps` of any core point is noise
/// under any fit, whichever way the borders flag was set.
pub proof fn lemma_outlier_is_noise(
    points: Seq<Seq<i32>>,
    eps: i64,
    min_points: usize,
    borders: bool,
    labels: Seq<usize>,
    i: int,
)
    requires
        fit_post(points, eps, min_points, borders, labels),
        0 <= i < points.len(),
        !is_core(points, eps, min_points, i),
        !near_core(points, eps, min_points, i),
    ensures
        labels[i] == 0,
{
    assert(labels_sound(points, eps, min_points, borders, labels));
    if labels[i] != 0 {
        assert(is_core(points, eps, min_points, i) || (borders && near_core(
            points,
            eps,
            min_points,
            i,
        )));
    }
}

proof fn lemma_predict_row_keeps(
    points: Seq<Seq<i32>>,
    labels: Seq<usize>,
    eps: i64,
    p: Seq<i32>,
    j: int,
    k: nat,
)
    requires
        0 <= j < k,
        in_radius(points, p, eps, j),
        labels[j] != 0,
    ensures
        predict_row(points, labels, eps, p, k).contains(labels[j]),
    decreases k,
{
    let rest = predict_row(points, labels, eps, p, (k - 1) as nat);
    if j == k - 1 {
        lemma_push_keeps(rest, labels[j], labels[j]);
    } else {
        lemma_predict_row_keeps(points, labels, eps, p, j, (k - 1) as nat);
        if in_radius(points, p, eps, k - 1) && labels[k - 1] != 0 && !rest.contains(
            labels[k - 1],
        ) {
            lemma_push_keeps(rest, labels[k - 1], labels[j]);
        }
    }
}

/// A new point coincident with a clustered reference point is assigned a
/// label set that holds that point's fitted label.
pub proof fn lemma_predict_coincident(
    points: Seq<Seq<i32>>,
    labels: Seq<usize>,
    eps: i64,
    j: int,
)
    requires
        0 <= j < points.len(),
        labels[j] != 0,
    ensures
        predict_one(points, labels, eps, points[j]).contains(labels[j]),
{
    lemma_dist_sq_self(points[j], points[j].len());
    lemma_eps_sq_nonneg(eps);
    assert(in_radius(points, points[j], eps, j));
    lemma_predict_row_keeps(points, labels, eps, points[j], j, points.len());
    let s = predict_row(points, labels, eps, points[j], points.len());
    let idx = choose|idx: int| 0 <= idx < s.len() && s[idx] == labels[j];
    assert(s.len() > 0);
}

/// A new point farther than `eps` from every reference point is classified
/// as noise only.
pub proof fn lemma_predict_far_is_noise(
    points: Seq<Seq<i32>>,
    labels: Seq<usize>,
    eps: i64,
    p: Seq<i32>,
)
    requires
        forall|j: int|
            0 <= j < points.len() ==> dist_sq(#[trigger] points[j], p) > eps_sq_of(eps),
    ensures
        predict_one(points, labels, eps, p) == seq![0usize],
{
    assert forall|j: int| 0 <= j < points.len() implies !in_radius(points, p, eps, j) by {
        assert(dist_sq(points[j], p) > eps_sq_of(eps));
    }
    lemma_predict_row_gap(points, labels, eps, p, 0, points.len());
}

/// Classification is a pure function of the fitted labels, the reference
/// points and the new points: two classifications of identical arguments are
/// identical.
pub proof fn lemma_predict_deterministic(
    points: Seq<Seq<i32>>,
    labels: Seq<usize>,
    eps: i64,
    new_points: Seq<Seq<i32>>,
    r1: Seq<Seq<usize>>,
    r2: Seq<Seq<usize>>,
)
    requires
        r1.len() == new_points.len(),
        r2.len() == new_points.len(),
        forall|k: int|
            0 <= k < new_points.len() ==> (#[trigger] r1[k]) == predict_one(
                points,
                labels,
                eps,
                new_points[k],
            ),
        forall|k: int|
            0 <= k < new_points.len() ==> (#[trigger] r2[k]) == predict_one(
                points,
                labels,
                eps,
                new_points[k],
            ),
    ensures
        r1 == r2,
{
    assert(r1 =~= r2);
}

} // verus!
