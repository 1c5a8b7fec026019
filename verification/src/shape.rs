//! Shapes: the sizes of the axes of an array, as a vector or as a
//! fixed-length array, with their element count and canonical strides.

use vstd::prelude::*;
use crate::arith::mul_count;
use crate::dimension::{Dimensionality, DynDim};
use crate::layout::{array_len, lemma_array_len_split, lemma_span_part, span, widened};
use crate::order::{is_default_strides, strides_fit, Order};

verus! {

/// The number of elements of an array of the given shape, where it is a
/// machine integer.
pub fn checked_array_len(shape: &[usize]) -> (r: Option<usize>)
    ensures
        r matches Some(n) ==> n == array_len(shape@),
        r is None <==> array_len(shape@) > usize::MAX,
{
    if crate::dimension::has_empty_axis(shape) {
        return Some(0);
    }
    let n: usize = shape.len();
    let mut acc: usize = 1;
    let mut k: usize = 0;
    proof {
        assert(shape@.take(0) =~= Seq::<usize>::empty());
    }
    while k < n
        invariant
            k <= n,
            n == shape@.len(),
            array_len(shape@) > 0,
            acc == array_len(shape@.take(k as int)),
        decreases n - k,
    {
        proof {
            assert(shape@.take(k + 1).drop_last() =~= shape@.take(k as int));
            lemma_array_len_split(shape@, k + 1);
            let head = array_len(shape@.take(k + 1));
            let tail = array_len(shape@.skip(k + 1));
            assert(tail >= 1 && head <= head * tail) by (nonlinear_arith)
                requires
                    head * tail > 0,
            ;
        }
        match acc.checked_mul(shape[k]) {
            Some(next) => {
                acc = next;
            },
            None => {
                return None;
            },
        }
        k = k + 1;
    }
    proof {
        assert(shape@.take(n as int) =~= shape@);
    }
    Some(acc)
}

/// The number of elements of an array of the given shape.
pub fn array_len_of(shape: &[usize]) -> (n: usize)
    requires
        array_len(shape@) <= usize::MAX,
    ensures
        n == array_len(shape@),
{
    match checked_array_len(shape) {
        Some(n) => n,
        None => 0,
    }
}

/// Whether the span of a shape is small enough for its canonical strides to
/// be machine integers.
pub fn span_fits(shape: &[usize]) -> (b: bool)
    ensures
        b == (span(shape@) <= isize::MAX),
{
    let n: usize = shape.len();
    let mut acc: i128 = 1;
    let mut k: usize = 0;
    proof {
        assert(shape@.take(0) =~= Seq::<usize>::empty());
        assert(widened(Seq::<usize>::empty()) =~= Seq::<usize>::empty());
    }
    while k < n
        invariant
            k <= n,
            n == shape@.len(),
            acc == span(shape@.take(k as int)),
            1 <= acc <= isize::MAX,
        decreases n - k,
    {
        let dim: usize = shape[k];
        let wide: usize = if dim == 0 {
            1
        } else {
            dim
        };
        proof {
            assert(widened(shape@.take(k + 1)).drop_last() =~= widened(shape@.take(k as int)));
            lemma_span_part(shape@, 0, k + 1);
            assert(shape@.subrange(0, k + 1) =~= shape@.take(k + 1));
            assert(acc * wide >= 1) by (nonlinear_arith)
                requires
                    acc >= 1,
                    wide >= 1,
            ;
        }
        acc = mul_count(acc, wide);
        if acc > isize::MAX as i128 {
            return false;
        }
        k = k + 1;
    }
    proof {
        assert(shape@.take(n as int) =~= shape@);
    }
    true
}

/// The canonical strides of a shape under the order `O`.
pub fn default_strides<O: Order>(shape: &[usize]) -> (strides: Vec<isize>)
    requires
        strides_fit(shape@, 1),
    ensures
        is_default_strides(O::row_major(), shape@, 1, strides@),
{
    let mut strides = DynDim::strides_zeroed(shape.len());
    O::convert_shape_to_default_strides(shape, strides.as_mut_slice());
    strides
}

/// The sizes of the axes of an array.
pub trait Shape {
    /// The sizes, axis by axis.
    spec fn dims(&self) -> Seq<usize>;

    /// The sizes, axis by axis.
    fn as_slice(&self) -> (s: &[usize])
        ensures
            s@ == self.dims(),
    ;

    /// The number of elements: the product of the sizes.
    fn array_len(&self) -> (n: usize)
        requires
            array_len(self.dims()) <= usize::MAX,
        ensures
            n == array_len(self.dims()),
    {
        array_len_of(self.as_slice())
    }

    /// The number of axes.
    fn n_dims(&self) -> (n: usize)
        ensures
            n == self.dims().len(),
    {
        self.as_slice().len()
    }

    /// The canonical strides under the order `O`.
    fn to_default_strides<O: Order>(&self) -> (strides: Vec<isize>)
        requires
            strides_fit(self.dims(), 1),
        ensures
            is_default_strides(O::row_major(), self.dims(), 1, strides@),
    {
        default_strides::<O>(self.as_slice())
    }
}

impl Shape for Vec<usize> {
    open spec fn dims(&self) -> Seq<usize> {
        self@
    }

    fn as_slice(&self) -> (s: &[usize]) {
        Vec::as_slice(self)
    }
}

impl<const N: usize> Shape for [usize; N] {
    open spec fn dims(&self) -> Seq<usize> {
        self@
    }

    fn as_slice(&self) -> (s: &[usize]) {
        vstd::array::array_as_slice(self)
    }
}

/// The sizes asked of a reshaped array, where a negative size stands for
/// "whatever makes the element count come out".
pub trait SignedShape {
    /// The sizes, axis by axis.
    spec fn dims(&self) -> Seq<isize>;

    /// The sizes, axis by axis.
    fn as_slice(&self) -> (s: &[isize])
        ensures
            s@ == self.dims(),
    ;

    /// The number of axes.
    fn ndims(&self) -> (n: usize)
        ensures
            n == self.dims().len(),
    {
        self.as_slice().len()
    }
}

impl SignedShape for Vec<isize> {
    open spec fn dims(&self) -> Seq<isize> {
        self@
    }

    fn as_slice(&self) -> (s: &[isize]) {
        Vec::as_slice(self)
    }
}

impl<const N: usize> SignedShape for [isize; N] {
    open spec fn dims(&self) -> Seq<isize> {
        self@
    }

    fn as_slice(&self) -> (s: &[isize]) {
        vstd::array::array_as_slice(self)
    }
}

} // verus!
