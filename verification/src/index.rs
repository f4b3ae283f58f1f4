use vstd::prelude::*;

use crate::geometry::{dist_sq, eps_sq_of, within_radius};
use crate::points::{DbscanError, PointSet};

verus! {

/// Whether stored point `j` lies within squared distance `eps * eps` of query point `q`.
pub open spec fn in_radius(points: Seq<Seq<i32>>, q: Seq<i32>, eps: i64, j: int) -> bool {
    dist_sq(points[j], q) <= eps_sq_of(eps)
}

/// How many of the first `k` stored points lie within `eps` of `q`.
pub open spec fn count_in_radius(points: Seq<Seq<i32>>, q: Seq<i32>, eps: i64, k: nat) -> nat
    decreases k,
{
    if k == 0 {
        0
    } else {
        count_in_radius(points, q, eps, (k - 1) as nat) + if in_radius(points, q, eps, k - 1) {
            1nat
        } else {
            0nat
        }
    }
}

pub proof fn lemma_count_in_radius_le(points: Seq<Seq<i32>>, q: Seq<i32>, eps: i64, k: nat)
    ensures
        count_in_radius(points, q, eps, k) <= k,
    decreases k,
{
    if k > 0 {
        lemma_count_in_radius_le(points, q, eps, (k - 1) as nat);
    }
}

/// A subset of the eps-neighborhood of `q` among the first `k` points is no
/// larger than the neighborhood count itself.
pub proof fn lemma_count_at_least(
    points: Seq<Seq<i32>>,
    q: Seq<i32>,
    eps: i64,
    k: nat,
    s: Set<int>,
)
    requires
        s.finite(),
        forall|j: int| #[trigger] s.contains(j) ==> 0 <= j < k && in_radius(points, q, eps, j),
    ensures
        s.len() <= count_in_radius(points, q, eps, k),
    decreases k,
{
    if k == 0 {
        assert(s =~= Set::<int>::empty());
    } else {
        let s1 = s.remove(k - 1);
        lemma_count_at_least(points, q, eps, (k - 1) as nat, s1);
        if s.contains(k - 1) {
            assert(in_radius(points, q, eps, k - 1));
        } else {
            assert(s1 =~= s);
        }
    }
}

/// A point is core when its eps-neighborhood, the point itself included,
/// holds at least `min_points` points.
pub open spec fn is_core(points: Seq<Seq<i32>>, eps: i64, min_points: usize, i: int) -> bool {
    count_in_radius(points, points[i], eps, points.len()) >= min_points
}

/// What a radius query reports: exactly the indices whose squared distance to
/// `q` is at most `eps * eps`, in increasing order and without duplicates.
pub open spec fn rq_post(points: Seq<Seq<i32>>, q: Seq<i32>, eps: i64, out: Seq<usize>) -> bool {
    &&& out.len() == count_in_radius(points, q, eps, points.len())
    &&& out.len() <= points.len()
    &&& forall|k: int|
        0 <= k < out.len() ==> (#[trigger] out[k]) < points.len() && in_radius(
            points,
            q,
            eps,
            out[k] as int,
        )
    &&& forall|j: int|
        0 <= j < points.len() && in_radius(points, q, eps, j) ==> out.contains(j as usize)
    &&& forall|k1: int, k2: int| 0 <= k1 < k2 < out.len() ==> out[k1] < out[k2]
}

/// A build-once nearest-neighbor structure over an immutable point set,
/// answering exact radius queries; linear scan, so linear worst case.
pub struct SpatialIndex {
    points: Vec<Vec<i32>>,
    dim: usize,
}

impl View for SpatialIndex {
    type V = Seq<Seq<i32>>;

    closed spec fn view(&self) -> Seq<Seq<i32>> {
        self.points@.map(|_i: int, r: Vec<i32>| r@)
    }
}

impl SpatialIndex {
    /// Dimensionality the index was built with.
    pub closed spec fn dim_spec(&self) -> int {
        self.dim as int
    }

    pub open spec fn wf(&self) -> bool {
        &&& self@.len() > 0
        &&& forall|i: int| 0 <= i < self@.len() ==> (#[trigger] self@[i]).len() == self.dim_spec()
    }

    /// Build the index by storing a copy of every point under its original index.
    #[verifier::loop_isolation(false)]
    pub fn build(data: &PointSet) -> (idx: SpatialIndex)
        requires
            data.wf(),
        ensures
            idx.wf(),
            idx@ == data@,
            idx.dim_spec() == data@[0].len(),
    {
        let n: usize = data.len();
        let d: usize = data.dim();
        let mut pts: Vec<Vec<i32>> = Vec::new();
        let mut i: usize = 0;
        while i < n
            invariant
                0 <= i <= n,
                pts@.len() == i,
                forall|t: int| 0 <= t < i ==> (#[trigger] pts@[t])@ == data@[t],
            decreases n - i,
        {
            let row: &Vec<i32> = data.row(i);
            let mut cp: Vec<i32> = Vec::new();
            let mut k: usize = 0;
            while k < row.len()
                invariant
                    0 <= k <= row@.len(),
                    cp@.len() == k,
                    forall|t: int| 0 <= t < k ==> cp@[t] == row@[t],
                decreases row@.len() - k,
            {
                cp.push(row[k]);
                k = k + 1;
            }
            proof {
                assert(cp@ =~= data@[i as int]);
            }
            pts.push(cp);
            i = i + 1;
        }
        let idx = SpatialIndex { points: pts, dim: d };
        proof {
            assert forall|t: int| 0 <= t < idx@.len() implies idx@[t] == data@[t] by {
                assert(idx@[t] == pts@[t]@);
            }
            assert(idx@ =~= data@);
        }
        idx
    }

    /// All stored indices within squared distance `eps * eps` of `q`, in
    /// ascending order and duplicate-free; rejects a query point whose
    /// dimensionality does not match the index.
    #[verifier::loop_isolation(false)]
    pub fn radius_query(&self, q: &Vec<i32>, eps: i64, out: &mut Vec<usize>) -> (r: Result<
        (),
        DbscanError,
    >)
        requires
            self.wf(),
        ensures
            match r {
                Ok(()) => q@.len() == self.dim_spec() && rq_post(self@, q@, eps, final(out)@),
                Err(e) => e == DbscanError::QueryError && q@.len() != self.dim_spec(),
            },
    {
        if q.len() != self.dim {
            return Err(DbscanError::QueryError);
        }
        out.clear();
        let n: usize = self.points.len();
        let mut j: usize = 0;
        while j < n
            invariant
                0 <= j <= n,
                out@.len() == count_in_radius(self@, q@, eps, j as nat),
                out@.len() <= j,
                forall|k: int|
                    0 <= k < out@.len() ==> (#[trigger] out@[k]) < j && in_radius(
                        self@,
                        q@,
                        eps,
                        out@[k] as int,
                    ),
                forall|t: int|
                    0 <= t < j && in_radius(self@, q@, eps, t) ==> out@.contains(t as usize),
                forall|k1: int, k2: int| 0 <= k1 < k2 < out@.len() ==> out@[k1] < out@[k2],
            decreases n - j,
        {
            proof {
                assert(self@[j as int] == self.points@[j as int]@);
            }
            let hit: bool = within_radius(&self.points[j], q, eps);
            if hit {
                let ghost prev = out@;
                out.push(j);
                proof {
                    assert forall|t: int|
                        0 <= t < j + 1 && in_radius(self@, q@, eps, t) implies out@.contains(
                        t as usize,
                    ) by {
                        if t == j {
                            assert(out@[prev.len() as int] == j as usize);
                        } else {
                            assert(prev.contains(t as usize));
                            let idx = choose|idx: int|
                                0 <= idx < prev.len() && prev[idx] == t as usize;
                            assert(out@[idx] == t as usize);
                        }
                    }
                }
            }
            j = j + 1;
        }
        proof {
            lemma_count_in_radius_le(self@, q@, eps, n as nat);
        }
        Ok(())
    }

    /// Radius query for an arbitrary query point of matching dimensionality.
    pub fn query_point(&self, q: &Vec<i32>, eps: i64, out: &mut Vec<usize>)
        requires
            self.wf(),
            q@.len() == self.dim_spec(),
        ensures
            rq_post(self@, q@, eps, final(out)@),
    {
        match self.radius_query(q, eps, out) {
            Ok(()) => {},
            Err(_) => {
                proof {
                    assert(false);
                }
            },
        }
    }

    /// Radius query centered at stored point `i`.
    pub fn query_at(&self, i: usize, eps: i64, out: &mut Vec<usize>)
        requires
            self.wf(),
            i < self@.len(),
        ensures
            rq_post(self@, self@[i as int], eps, final(out)@),
    {
        proof {
            assert(self@[i as int] == self.points@[i as int]@);
        }
        self.query_point(&self.points[i], eps, out)
    }
}

/// Whether `v` holds `x`.
#[verifier::loop_isolation(false)]
pub fn contains_usize(v: &Vec<usize>, x: usize) -> (r: bool)
    ensures
        r == v@.contains(x),
{
    let mut k: usize = 0;
    while k < v.len()
        invariant
            0 <= k <= v@.len(),
            forall|t: int| 0 <= t < k ==> v@[t] != x,
        decreases v@.len() - k,
    {
        if v[k] == x {
            proof {
                assert(v@[k as int] == x);
            }
            return true;
        }
        k = k + 1;
    }
    proof {
        if v@.contains(x) {
            let idx = choose|idx: int| 0 <= idx < v@.len() && v@[idx] == x;
            assert(false);
        }
    }
    false
}

} // verus!
