use vstd::prelude::*;

verus! {

/// The failures that building a point set or querying the spatial index can report.
#[derive(Clone, Copy, Debug, PartialEq, Eq, Structural)]
pub enum DbscanError {
    /// A point's coordinate count disagrees with the established dimensionality.
    DimensionMismatch,
    /// The spatial index rejected a query point.
    QueryError,
}

/// An ordered, immutable collection of points, each a fixed-length vector of
/// fixed-point coordinates. Index identity is the sole point identifier.
pub struct PointSet {
    rows: Vec<Vec<i32>>,
}

impl View for PointSet {
    type V = Seq<Seq<i32>>;

    closed spec fn view(&self) -> Seq<Seq<i32>> {
        self.rows@.map(|_i: int, r: Vec<i32>| r@)
    }
}

impl PointSet {
    /// There is at least one point, and all points share the dimensionality of the first.
    pub open spec fn wf(&self) -> bool {
        &&& self@.len() > 0
        &&& forall|i: int| 0 <= i < self@.len() ==> (#[trigger] self@[i]).len() == self@[0].len()
    }

    /// Build a point set, rejecting an empty input or rows of unequal length.
    #[verifier::loop_isolation(false)]
    pub fn new(rows: Vec<Vec<i32>>) -> (r: Result<PointSet, DbscanError>)
        ensures
            match r {
                Ok(ps) => {
                    &&& ps.wf()
                    &&& ps@.len() == rows@.len()
                    &&& forall|i: int| 0 <= i < rows@.len() ==> ps@[i] == (#[trigger] rows@[i])@
                },
                Err(e) => {
                    &&& e == DbscanError::DimensionMismatch
                    &&& (rows@.len() == 0 || exists|i: int|
                        0 <= i < rows@.len() && (#[trigger] rows@[i])@.len() != rows@[0]@.len())
                },
            },
    {
        if rows.len() == 0 {
            return Err(DbscanError::DimensionMismatch);
        }
        let d: usize = rows[0].len();
        let mut i: usize = 1;
        while i < rows.len()
            invariant
                1 <= i <= rows@.len(),
                forall|j: int| 0 <= j < i ==> (#[trigger] rows@[j])@.len() == d,
            decreases rows@.len() - i,
        {
            if rows[i].len() != d {
                proof {
                    assert(0 <= i < rows@.len() && rows@[i as int]@.len() != rows@[0]@.len());
                }
                return Err(DbscanError::DimensionMismatch);
            }
            i = i + 1;
        }
        let ps = PointSet { rows };
        proof {
            assert forall|t: int| 0 <= t < ps@.len() implies (#[trigger] ps@[t]).len()
                == ps@[0].len() by {
                assert(ps@[t] == ps.rows@[t]@);
            }
        }
        Ok(ps)
    }

    /// Number of points.
    pub fn len(&self) -> (n: usize)
        ensures
            n == self@.len(),
    {
        self.rows.len()
    }

    /// Dimensionality: the coordinate count of the first point.
    pub fn dim(&self) -> (d: usize)
        requires
            self.wf(),
        ensures
            d == self@[0].len(),
    {
        proof {
            assert(self@[0] == self.rows@[0]@);
        }
        self.rows[0].len()
    }

    /// Borrow point `i`.
    pub fn row(&self, i: usize) -> (r: &Vec<i32>)
        requires
            i < self@.len(),
        ensures
            r@ == self@[i as int],
    {
        proof {
            assert(self@[i as int] == self.rows@[i as int]@);
        }
        &self.rows[i]
    }
}

} // verus!
