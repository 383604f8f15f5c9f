//! The sampling vocabulary: the dependence assumption used when summing
//! per-segment realization vectors, and how many totals such a sum has.

use vstd::prelude::*;

verus! {

/// The dependence assumption used when summing segment realizations.
#[derive(Debug, Clone, Copy, PartialEq, Eq, Structural)]
#[non_exhaustive]
pub enum Correlation {
    /// Independent segments: sum index-wise.
    Independent,
    /// Comonotonic (perfect positive rank dependence): each segment sorted
    /// ascending, then summed rank for rank.
    Comonotonic,
}

/// How many totals an aggregation of segments produces: segments combine
/// index-wise, so a shorter segment truncates the result to the common
/// prefix. No segments, or any empty segment, give no totals.
pub fn common_len(lens: &[usize]) -> (r: usize)
    ensures
        lens@.len() == 0 ==> r == 0,
        lens@.len() > 0 ==> exists|i: int| 0 <= i < lens@.len() && r == lens@[i],
        forall|i: int| 0 <= i < lens@.len() ==> r <= lens@[i],
{
    if lens.len() == 0 {
        return 0;
    }
    let mut n = lens[0];
    let mut i: usize = 1;
    while i < lens.len()
        invariant
            1 <= i <= lens@.len(),
            exists|k: int| 0 <= k < i && n == lens@[k],
            forall|k: int| 0 <= k < i ==> n <= lens@[k],
        decreases lens.len() - i,
    {
        if lens[i] < n {
            n = lens[i];
        }
        i = i + 1;
    }
    n
}

} // verus!
