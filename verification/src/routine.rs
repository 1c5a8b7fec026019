//! Shape routines shared by the array operations: axis normalisation and
//! broadcasting of two shapes.

use vstd::prelude::*;
use crate::dimension::max;
use crate::error::{Error, ShapeError};

verus! {

/// Whether `axis` names an axis of an array of `n_dims` dimensions, counting
/// from the front or, where negative, from the back.
pub open spec fn axis_in_range(axis: int, n_dims: int) -> bool {
    -n_dims <= axis < n_dims
}

/// The axis that `axis` names, counted from the front.
pub open spec fn normalized_axis(axis: int, n_dims: int) -> int {
    if axis < 0 {
        axis + n_dims
    } else {
        axis
    }
}

/// Counts `axis` from the front of an array of `n_dims` dimensions. An axis
/// outside `-n_dims .. n_dims` is an error.
pub fn normalize_axis(axis: isize, n_dims: usize) -> (r: Result<usize, Error>)
    ensures
        r is Ok <==> axis_in_range(axis as int, n_dims as int),
        r matches Ok(a) ==> a == normalized_axis(axis as int, n_dims as int) && a < n_dims,
        r matches Err(e) ==> e.is_axis(),
{
    let a: i128 = axis as i128;
    let n: i128 = n_dims as i128;
    if a < -n || a >= n {
        return Err(
            Error::Shape(
                ShapeError::IncompatibleAxis(crate::message::axis_out_of_bounds(a, n_dims)),
            ),
        );
    }
    let ret: usize = if a < 0 {
        (a + n) as usize
    } else {
        a as usize
    };
    Ok(ret)
}

/// The size that axis `k` of the broadcast of two shapes takes from the two
/// operands, the shorter shape aligned with the trailing axes of the longer.
/// `None` where the two sizes differ and neither is 1.
pub open spec fn broadcast_dim(lhs: Seq<usize>, rhs: Seq<usize>, k: int) -> Option<usize> {
    let n = if lhs.len() > rhs.len() { lhs.len() } else { rhs.len() };
    let i = k - (n - lhs.len());
    let j = k - (n - rhs.len());
    if i < 0 {
        Some(rhs[j])
    } else if j < 0 {
        Some(lhs[i])
    } else if lhs[i] == rhs[j] {
        Some(lhs[i])
    } else if lhs[i] == 1 {
        Some(rhs[j])
    } else if rhs[j] == 1 {
        Some(lhs[i])
    } else {
        None
    }
}

/// Whether two shapes can be broadcast to one.
pub open spec fn broadcast_compatible(lhs: Seq<usize>, rhs: Seq<usize>) -> bool {
    forall|k: int|
        0 <= k < (if lhs.len() > rhs.len() { lhs.len() } else { rhs.len() })
            ==> (#[trigger] broadcast_dim(lhs, rhs, k)) is Some
}

/// `out` is the broadcast of the two shapes.
pub open spec fn is_broadcast_of(out: Seq<usize>, lhs: Seq<usize>, rhs: Seq<usize>) -> bool {
    &&& out.len() == (if lhs.len() > rhs.len() { lhs.len() } else { rhs.len() })
    &&& forall|k: int| 0 <= k < out.len() ==> broadcast_dim(lhs, rhs, k) == Some(#[trigger] out[k])
}

/// The shape to which two shapes broadcast: the shorter is aligned with the
/// trailing axes of the longer; where both have an axis, equal sizes stay and
/// a size of 1 gives way to the other. Any other pair of sizes is an error.
pub fn broadcast_shape(lhs_shape: &[usize], rhs_shape: &[usize]) -> (r: Result<Vec<usize>, Error>)
    ensures
        r is Ok <==> broadcast_compatible(lhs_shape@, rhs_shape@),
        r matches Ok(out) ==> is_broadcast_of(out@, lhs_shape@, rhs_shape@),
        r matches Err(e) ==> e.is_shape(),
{
    let lhs_n_dims: usize = lhs_shape.len();
    let rhs_n_dims: usize = rhs_shape.len();
    let n: usize = max(lhs_n_dims, rhs_n_dims);
    let lhs_pad: usize = n - lhs_n_dims;
    let rhs_pad: usize = n - rhs_n_dims;
    let mut ret: Vec<usize> = Vec::new();
    ret.reserve(n);
    let mut k: usize = 0;
    while k < n
        invariant
            k <= n,
            n == (if lhs_shape@.len() > rhs_shape@.len() {
                lhs_shape@.len()
            } else {
                rhs_shape@.len()
            }),
            lhs_pad == n - lhs_shape@.len(),
            rhs_pad == n - rhs_shape@.len(),
            ret@.len() == k,
            forall|j: int|
                0 <= j < k ==> broadcast_dim(lhs_shape@, rhs_shape@, j) == Some(#[trigger] ret@[j]),
        decreases n - k,
    {
        let dim: usize = if k < lhs_pad {
            rhs_shape[k - rhs_pad]
        } else if k < rhs_pad {
            lhs_shape[k - lhs_pad]
        } else {
            let l: usize = lhs_shape[k - lhs_pad];
            let s: usize = rhs_shape[k - rhs_pad];
            if l == s {
                l
            } else if l == 1 {
                s
            } else if s == 1 {
                l
            } else {
                assert(broadcast_dim(lhs_shape@, rhs_shape@, k as int) is None);
                return Err(
                    Error::Shape(
                        ShapeError::IncompatibleShape(
                            "operands cannot be broadcast to a single shape".to_owned(),
                        ),
                    ),
                );
            }
        };
        ret.push(dim);
        k = k + 1;
    }
    proof {
        assert forall|j: int| 0 <= j < n implies (#[trigger] broadcast_dim(
            lhs_shape@,
            rhs_shape@,
            j,
        )) is Some by {
            assert(broadcast_dim(lhs_shape@, rhs_shape@, j) == Some(ret@[j]));
        }
    }
    Ok(ret)
}

} // verus!
