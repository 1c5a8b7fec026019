//! The texts of error messages that name the offending values.

use vstd::prelude::*;

verus! {

/// Formats, with `format!` of std, the message for an axis that an array of
/// `n_dims` dimensions does not have. Nothing is claimed of the text.
#[verifier::external_body]
pub(crate) fn axis_out_of_bounds(axis: i128, n_dims: usize) -> String {
    format!("axis {axis} is out of bounds for array of dimension {n_dims}")
}

/// Formats, with `format!` of std, the message for a shape that an array of
/// `len` elements cannot take. Nothing is claimed of the text.
#[verifier::external_body]
pub(crate) fn cannot_transform(len: usize, shape: &[isize]) -> String {
    format!("cannot transform array of length {} into shape {:?}", len, shape)
}

} // verus!
