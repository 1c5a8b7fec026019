//! A list of selectors together with the change of rank that it causes.

use vstd::prelude::*;
use crate::array_index::ArrayIndex;

verus! {

/// By how much one selector changes the rank: an index removes an axis, a new
/// axis adds one.
pub open spec fn rank_change(index: ArrayIndex) -> int {
    match index {
        ArrayIndex::Index(_) => -1,
        ArrayIndex::Slice(_) => 0,
        ArrayIndex::NewAxis => 1,
    }
}

/// By how much a list of selectors changes the rank.
pub open spec fn dim_diff_of(indices: Seq<ArrayIndex>) -> int
    decreases indices.len(),
{
    if indices.len() == 0 {
        0
    } else {
        dim_diff_of(indices.drop_last()) + rank_change(indices.last())
    }
}

/// How many axes of the array a list of selectors consumes: one for every
/// index and every slice.
pub open spec fn consumed_axes(indices: Seq<ArrayIndex>) -> int
    decreases indices.len(),
{
    if indices.len() == 0 {
        0
    } else {
        consumed_axes(indices.drop_last()) + if indices.last() is NewAxis {
            0int
        } else {
            1int
        }
    }
}

/// How many axes of the result a list of selectors produces: one for every
/// slice and every new axis.
pub open spec fn produced_axes(indices: Seq<ArrayIndex>) -> int
    decreases indices.len(),
{
    if indices.len() == 0 {
        0
    } else {
        produced_axes(indices.drop_last()) + if indices.last() is Index {
            0int
        } else {
            1int
        }
    }
}

/// The counts of a list of selectors: none is negative, together they are at
/// most twice the number of selectors, and their difference is the change of
/// rank.
pub proof fn lemma_selector_counts(indices: Seq<ArrayIndex>)
    ensures
        0 <= consumed_axes(indices) <= indices.len(),
        0 <= produced_axes(indices) <= indices.len(),
        dim_diff_of(indices) == produced_axes(indices) - consumed_axes(indices),
    decreases indices.len(),
{
    if indices.len() > 0 {
        lemma_selector_counts(indices.drop_last());
    }
}

/// A list of selectors and the change of rank that it causes.
#[derive(Clone, Debug)]
pub struct SliceInfo {
    pub dim_diff: isize,
    pub indices: Vec<ArrayIndex>,
}

impl SliceInfo {
    /// The change of rank is the one that the selectors cause.
    pub open spec fn wf(self) -> bool {
        self.dim_diff == dim_diff_of(self.indices@)
    }

    /// The selectors with the change of rank they cause.
    pub fn from(indices: Vec<ArrayIndex>) -> (info: Self)
        requires
            indices@.len() <= isize::MAX,
        ensures
            info.indices == indices,
            info.wf(),
    {
        let n: usize = indices.len();
        let mut dim_diff: isize = 0;
        let mut i: usize = 0;
        while i < n
            invariant
                i <= n,
                n == indices@.len(),
                n <= isize::MAX,
                dim_diff == dim_diff_of(indices@.take(i as int)),
                -i <= dim_diff <= i,
            decreases n - i,
        {
            proof {
                assert(indices@.take(i + 1).drop_last() =~= indices@.take(i as int));
            }
            match indices[i] {
                ArrayIndex::Index(_) => {
                    dim_diff = dim_diff - 1;
                },
                ArrayIndex::Slice(_) => {},
                ArrayIndex::NewAxis => {
                    dim_diff = dim_diff + 1;
                },
            }
            i = i + 1;
        }
        proof {
            assert(indices@.take(n as int) =~= indices@);
        }
        SliceInfo { dim_diff, indices }
    }

    /// The selectors.
    pub fn as_ref(&self) -> (r: &[ArrayIndex])
        ensures
            r@ == self.indices@,
    {
        self.indices.as_slice()
    }
}

} // verus!
