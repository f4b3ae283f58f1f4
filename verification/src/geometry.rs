use vstd::prelude::*;

verus! {

/// Squared difference of two coordinates, as a mathematical integer.
pub open spec fn sq_diff(a: i32, b: i32) -> int {
    (a - b) * (a - b)
}

/// Squared Euclidean distance over the first `k` coordinates of `p` and `q`.
pub open spec fn dist_sq_prefix(p: Seq<i32>, q: Seq<i32>, k: nat) -> int
    decreases k,
{
    if k == 0 {
        0
    } else {
        dist_sq_prefix(p, q, (k - 1) as nat) + sq_diff(p[k - 1], q[k - 1])
    }
}

/// Squared Euclidean distance between points `p` and `q`.
pub open spec fn dist_sq(p: Seq<i32>, q: Seq<i32>) -> int {
    dist_sq_prefix(p, q, p.len())
}

/// The squared radius denoted by the scalar radius `eps`.
pub open spec fn eps_sq_of(eps: i64) -> int {
    (eps as int) * (eps as int)
}

pub proof fn lemma_sq_diff_nonneg(a: i32, b: i32)
    ensures
        sq_diff(a, b) >= 0,
{
    assert((a - b) * (a - b) >= 0) by (nonlinear_arith);
}

pub proof fn lemma_dist_sq_prefix_mono(p: Seq<i32>, q: Seq<i32>, k1: nat, k2: nat)
    requires
        k1 <= k2,
    ensures
        dist_sq_prefix(p, q, k1) <= dist_sq_prefix(p, q, k2),
    decreases k2,
{
    if k1 < k2 {
        lemma_dist_sq_prefix_mono(p, q, k1, (k2 - 1) as nat);
        lemma_sq_diff_nonneg(p[k2 - 1], q[k2 - 1]);
    }
}

pub proof fn lemma_dist_sq_self(p: Seq<i32>, k: nat)
    ensures
        dist_sq_prefix(p, p, k) == 0,
    decreases k,
{
    if k > 0 {
        lemma_dist_sq_self(p, (k - 1) as nat);
    }
}

pub proof fn lemma_dist_sq_sym(p: Seq<i32>, q: Seq<i32>, k: nat)
    ensures
        dist_sq_prefix(p, q, k) == dist_sq_prefix(q, p, k),
    decreases k,
{
    if k > 0 {
        lemma_dist_sq_sym(p, q, (k - 1) as nat);
        assert(sq_diff(p[k - 1], q[k - 1]) == sq_diff(q[k - 1], p[k - 1])) by (nonlinear_arith);
    }
}

pub proof fn lemma_eps_sq_nonneg(eps: i64)
    ensures
        eps_sq_of(eps) >= 0,
{
    assert((eps as int) * (eps as int) >= 0) by (nonlinear_arith);
}

/// Decide whether `p` lies within Euclidean distance `eps` of `q`, comparing
/// squared distances so that no square root is needed.
#[verifier::loop_isolation(false)]
pub fn within_radius(p: &Vec<i32>, q: &Vec<i32>, eps: i64) -> (r: bool)
    requires
        p@.len() == q@.len(),
    ensures
        r == (dist_sq(p@, q@) <= eps_sq_of(eps)),
{
    let e: i128 = eps as i128;
    proof {
        assert(e * e <= 0x40000000000000000000000000000000) by (nonlinear_arith)
            requires
                -0x8000000000000000 <= e <= 0x7fffffffffffffff,
        ;
        assert(e * e >= 0) by (nonlinear_arith);
    }
    let eps_sq: i128 = e * e;
    let n: usize = p.len();
    let mut acc: i128 = 0;
    let mut k: usize = 0;
    proof {
        lemma_eps_sq_nonneg(eps);
    }
    while k < n
        invariant
            0 <= k <= n,
            acc == dist_sq_prefix(p@, q@, k as nat),
            0 <= acc <= eps_sq,
        decreases n - k,
    {
        let a: i128 = p[k] as i128;
        let b: i128 = q[k] as i128;
        let d: i128 = a - b;
        proof {
            assert(d * d <= 0x10000000000000000) by (nonlinear_arith)
                requires
                    -0x100000000 <= d <= 0x100000000,
            ;
            assert(d * d >= 0) by (nonlinear_arith);
        }
        let term: i128 = d * d;
        proof {
            assert(term == sq_diff(p@[k as int], q@[k as int]));
        }
        acc = acc + term;
        proof {
            assert(acc == dist_sq_prefix(p@, q@, (k + 1) as nat));
        }
        if acc > eps_sq {
            proof {
                lemma_dist_sq_prefix_mono(p@, q@, (k + 1) as nat, p@.len());
            }
            return false;
        }
        k = k + 1;
    }
    true
}

} // verus!
