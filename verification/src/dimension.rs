//! Ranks: a rank fixed in the type, or one known only at run time, and the
//! zeroed shapes, strides and first multi-indices of either.

use vstd::prelude::*;
use crate::layout::{array_len, lemma_array_len_zero};

verus! {

/// A sequence of `n` times `value`.
pub open spec fn repeated<T>(n: nat, value: T) -> Seq<T> {
    Seq::new(n, |k: int| value)
}

/// A vector of `n` copies of a value.
pub(crate) fn filled<T: Copy>(n: usize, value: T) -> (v: Vec<T>)
    ensures
        v@ == repeated(n as nat, value),
{
    let mut v: Vec<T> = Vec::new();
    v.reserve(n);
    let mut i: usize = 0;
    while i < n
        invariant
            i <= n,
            v@ == repeated(i as nat, value),
        decreases n - i,
    {
        v.push(value);
        assert(v@ =~= repeated((i + 1) as nat, value));
        i = i + 1;
    }
    v
}

/// A vector with the elements of a slice.
pub(crate) fn copy_of<T: Copy>(data: &[T]) -> (v: Vec<T>)
    ensures
        v@ == data@,
{
    let n: usize = data.len();
    let mut v: Vec<T> = Vec::new();
    v.reserve(n);
    let mut i: usize = 0;
    while i < n
        invariant
            i <= n,
            n == data@.len(),
            v@ == data@.take(i as int),
        decreases n - i,
    {
        v.push(data[i]);
        assert(v@ =~= data@.take(i + 1));
        i = i + 1;
    }
    assert(data@.take(n as int) =~= data@);
    v
}

/// Whether a shape has an empty axis.
pub fn has_empty_axis(shape: &[usize]) -> (b: bool)
    ensures
        b == (array_len(shape@) == 0),
{
    let n: usize = shape.len();
    let mut k: usize = 0;
    while k < n
        invariant
            k <= n,
            n == shape@.len(),
            forall|j: int| 0 <= j < k ==> shape@[j] != 0,
        decreases n - k,
    {
        if shape[k] == 0 {
            proof {
                lemma_array_len_zero(shape@);
            }
            return true;
        }
        k = k + 1;
    }
    proof {
        lemma_array_len_zero(shape@);
    }
    false
}

/// A rank, fixed or dynamic.
pub trait Dimensionality {
    /// Whether arrays of this dimensionality can have `n_dims` axes.
    spec fn admits(n_dims: nat) -> bool;

    /// Whether arrays of this dimensionality can have `n_dims` axes.
    fn has_rank(n_dims: usize) -> (b: bool)
        ensures
            b == Self::admits(n_dims as nat),
    ;

    /// A shape of `n_dims` axes, each of size 0.
    fn shape_zeroed(n_dims: usize) -> (shape: Vec<usize>)
        requires
            Self::admits(n_dims as nat),
        ensures
            shape@ == repeated(n_dims as nat, 0usize),
    ;

    /// Strides of `n_dims` axes, each 0.
    fn strides_zeroed(n_dims: usize) -> (strides: Vec<isize>)
        requires
            Self::admits(n_dims as nat),
        ensures
            strides@ == repeated(n_dims as nat, 0isize),
    ;

    /// The first multi-index of an array of the given shape: all zeros, or
    /// none where the array is empty.
    fn first_indices(shape: &[usize]) -> (first: Option<Vec<usize>>)
        requires
            Self::admits(shape@.len()),
        ensures
            first is None <==> array_len(shape@) == 0,
            first matches Some(idx) ==> idx@ == repeated(shape@.len(), 0usize),
    {
        if has_empty_axis(shape) {
            None
        } else {
            Some(Self::shape_zeroed(shape.len()))
        }
    }
}

/// The rank `N`, fixed in the type.
#[derive(Clone, Copy, Debug, PartialEq, Eq, Hash)]
pub struct NDims<const N: usize>;

/// A rank known only at run time.
#[derive(Clone, Debug, PartialEq, Eq, Hash)]
pub struct DynDim;

impl<const N: usize> Dimensionality for NDims<N> {
    open spec fn admits(n_dims: nat) -> bool {
        n_dims == N
    }

    fn has_rank(n_dims: usize) -> (b: bool) {
        n_dims == N
    }

    fn shape_zeroed(n_dims: usize) -> (shape: Vec<usize>) {
        filled(N, 0usize)
    }

    fn strides_zeroed(n_dims: usize) -> (strides: Vec<isize>) {
        filled(N, 0isize)
    }
}

impl Dimensionality for DynDim {
    open spec fn admits(n_dims: nat) -> bool {
        true
    }

    fn has_rank(n_dims: usize) -> (b: bool) {
        true
    }

    fn shape_zeroed(n_dims: usize) -> (shape: Vec<usize>) {
        filled(n_dims, 0usize)
    }

    fn strides_zeroed(n_dims: usize) -> (strides: Vec<isize>) {
        filled(n_dims, 0isize)
    }
}

/// The larger of two ranks.
pub fn max(v1: usize, v2: usize) -> (m: usize)
    ensures
        m >= v1,
        m >= v2,
        m == v1 || m == v2,
{
    if v1 > v2 {
        v1
    } else {
        v2
    }
}

} // verus!
