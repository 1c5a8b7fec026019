//! Views that rearrange the axes of an array without touching its buffer.

use vstd::prelude::*;
use core::marker::PhantomData;
use crate::array::ArrayBase;
use crate::layout::{
    array_len, high_terms, highest, lemma_array_len_reverse, lemma_sum_le, lemma_sum_reverse,
    lemma_sum_split, lemma_sum_update, lemma_sum_zeros, low_terms, lowest, reach, span, widened,
    Layout,
};
use crate::error::{Error, ShapeError};
use crate::permutation::{
    is_permutation, lemma_array_len_permuted, lemma_sum_permuted, permuted,
};
use crate::routine::{axis_in_range, normalize_axis, normalized_axis};
use crate::order::Order;
use crate::storage::{Storage, StorageBase};

verus! {

/// A vector with the elements of a slice in reverse order.
pub(crate) fn reversed<T: Copy>(data: &[T]) -> (v: Vec<T>)
    ensures
        v@ == data@.reverse(),
{
    let n: usize = data.len();
    let mut v: Vec<T> = Vec::new();
    v.reserve(n);
    let mut i: usize = 0;
    while i < n
        invariant
            i <= n,
            n == data@.len(),
            v@.len() == i,
            forall|j: int| 0 <= j < i ==> v@[j] == data@[n - 1 - j],
        decreases n - i,
    {
        v.push(data[n - 1 - i]);
        i = i + 1;
    }
    assert(v@ =~= data@.reverse());
    v
}

/// Reading the axes backwards changes neither the span nor the extremes of a
/// layout.
pub proof fn lemma_reverse_layout(shape: Seq<usize>, strides: Seq<isize>)
    requires
        shape.len() == strides.len(),
    ensures
        array_len(shape.reverse()) == array_len(shape),
        span(shape.reverse()) == span(shape),
        lowest(shape.reverse(), strides.reverse()) == lowest(shape, strides),
        highest(shape.reverse(), strides.reverse()) == highest(shape, strides),
{
    lemma_array_len_reverse(shape);
    lemma_array_len_reverse(widened(shape));
    assert(widened(shape.reverse()) =~= widened(shape).reverse());
    assert(low_terms(shape.reverse(), strides.reverse()) =~= low_terms(shape, strides).reverse());
    assert(high_terms(shape.reverse(), strides.reverse()) =~= high_terms(
        shape,
        strides,
    ).reverse());
    lemma_sum_reverse(low_terms(shape, strides));
    lemma_sum_reverse(high_terms(shape, strides));
}

impl Layout {
    /// The layout with its axes in reverse order.
    pub open spec fn transposed(self) -> Layout {
        Layout {
            shape: self.shape.reverse(),
            strides: self.strides.reverse(),
            offset: self.offset,
        }
    }
}

impl Layout {
    /// The layout with its axes rearranged: axis `i` of the result is axis
    /// `axes[i]` of `self`.
    pub open spec fn permuted(self, axes: Seq<int>) -> Layout {
        Layout {
            shape: permuted(self.shape, axes),
            strides: permuted(self.strides, axes),
            offset: self.offset,
        }
    }
}

/// Rearranging its axes keeps a layout well formed and of the same size.
pub proof fn lemma_permuted_wf(layout: Layout, limit: int, axes: Seq<int>)
    requires
        layout.wf(limit),
        is_permutation(axes, layout.shape.len() as int),
    ensures
        layout.permuted(axes).wf(limit),
        layout.permuted(axes).len() == layout.len(),
{
    let p = layout.permuted(axes);
    lemma_array_len_permuted(layout.shape, axes);
    lemma_array_len_permuted(widened(layout.shape), axes);
    assert(widened(p.shape) =~= permuted(widened(layout.shape), axes));
    assert(low_terms(p.shape, p.strides) =~= permuted(
        low_terms(layout.shape, layout.strides),
        axes,
    ));
    assert(high_terms(p.shape, p.strides) =~= permuted(
        high_terms(layout.shape, layout.strides),
        axes,
    ));
    lemma_sum_permuted(low_terms(layout.shape, layout.strides), axes);
    lemma_sum_permuted(high_terms(layout.shape, layout.strides), axes);
}

/// The negative of a stride; the one stride that has none keeps its value.
pub open spec fn negated(stride: isize) -> isize {
    if stride == isize::MIN {
        stride
    } else {
        (-stride) as isize
    }
}

impl Layout {
    /// The layout with one axis walked backwards: its stride is negated and
    /// the offset moves to what was its last index. An empty axis is left as
    /// it is.
    pub open spec fn flipped(self, axis: int) -> Layout {
        Layout {
            shape: self.shape,
            strides: if self.shape[axis] != 0 {
                self.strides.update(axis, negated(self.strides[axis]))
            } else {
                self.strides
            },
            offset: if self.shape[axis] == 0 {
                self.offset
            } else {
                self.offset + reach(self.shape[axis], self.strides[axis])
            },
        }
    }

    /// Whether the axes can be walked backwards one after the other: the
    /// offset that each moves to is a machine integer.
    pub open spec fn flips(self, axes: Seq<int>) -> bool
        decreases axes.len(),
    {
        axes.len() == 0 || (self.flips(axes.drop_last()) && 0 <= self.flipped_along(axes).offset
            <= usize::MAX)
    }

    /// The layout with each of the given axes walked backwards, one after
    /// the other.
    pub open spec fn flipped_along(self, axes: Seq<int>) -> Layout
        decreases axes.len(),
    {
        if axes.len() == 0 {
            self
        } else {
            self.flipped_along(axes.drop_last()).flipped(axes.last())
        }
    }

    /// The layout stretched to a larger shape: the axes are aligned at the
    /// back; an axis that has the size of the axis it meets keeps its stride;
    /// new axes, and axes of size 1 that are stretched to a larger size, get
    /// stride 0.
    pub open spec fn broadcast(self, target: Seq<usize>) -> Layout {
        let pad = target.len() - self.shape.len();
        Layout {
            shape: target,
            strides: Seq::new(
                target.len(),
                |k: int|
                    if k < pad || self.shape[k - pad] != target[k] {
                        0isize
                    } else {
                        self.strides[k - pad]
                    },
            ),
            offset: self.offset,
        }
    }

    /// Whether the layout can be stretched to the shape: it has no more axes,
    /// and each of its axes has size 1 or the size of the axis it meets.
    pub open spec fn broadcasts_to(self, target: Seq<usize>) -> bool {
        &&& self.shape.len() <= target.len()
        &&& forall|k: int|
            0 <= k < self.shape.len() ==> #[trigger] self.shape[k] == 1 || self.shape[k]
                == target[k + target.len() - self.shape.len()]
    }
}

/// Walking one axis backwards keeps a layout well formed.
pub proof fn lemma_flipped_wf(layout: Layout, limit: int, axis: int)
    requires
        layout.wf(limit),
        0 <= axis < layout.shape.len(),
    ensures
        layout.flipped(axis).wf(limit),
        layout.flipped(axis).shape == layout.shape,
{
    let f = layout.flipped(axis);
    if layout.len() > 0 {
        crate::layout::lemma_array_len_zero(layout.shape);
        let d = layout.shape[axis];
        let s = layout.strides[axis];
        assert(d != 0);
        let lo = low_terms(layout.shape, layout.strides);
        let hi = high_terms(layout.shape, layout.strides);
        lemma_sum_update(lo, axis, lo[axis]);
        lemma_sum_update(hi, axis, hi[axis]);
        // The reach of the axis is smaller than the buffer.
        lemma_sum_update(lo, axis, 0);
        lemma_sum_update(hi, axis, 0);
        let lo0 = lo.update(axis, 0);
        let hi0 = hi.update(axis, 0);
        lemma_sum_le(lo0, Seq::new(lo.len(), |k: int| 0int));
        lemma_sum_le(Seq::new(hi.len(), |k: int| 0int), hi0);
        lemma_sum_zeros(Seq::new(hi.len(), |k: int| 0int));
        let r = reach(d, s);
        assert(-limit < r < limit);
        if d >= 2 {
            assert(-limit < s < limit) by (nonlinear_arith)
                requires
                    -limit < (d - 1) * s < limit,
                    d >= 2,
            ;
        }
        if s != isize::MIN {
            assert((d - 1) * (-s) == -((d - 1) * s)) by (nonlinear_arith);
            assert(reach(d, negated(s)) == -r);
        } else {
            assert(d == 1);
            assert(reach(d, negated(s)) == 0 && r == 0) by (nonlinear_arith)
                requires
                    d == 1,
                    reach(d, negated(s)) == (d - 1) * negated(s),
                    r == (d - 1) * s,
            ;
        }
        let flo = low_terms(f.shape, f.strides);
        let fhi = high_terms(f.shape, f.strides);
        assert(flo =~= lo.update(axis, flo[axis]));
        assert(fhi =~= hi.update(axis, fhi[axis]));
        lemma_sum_update(lo, axis, flo[axis]);
        lemma_sum_update(hi, axis, fhi[axis]);
    }
}

/// Walking axes backwards keeps a layout well formed.
pub proof fn lemma_flipped_along_wf(layout: Layout, limit: int, axes: Seq<int>)
    requires
        layout.wf(limit),
        forall|i: int| 0 <= i < axes.len() ==> 0 <= #[trigger] axes[i] < layout.shape.len(),
    ensures
        layout.flipped_along(axes).wf(limit),
        layout.flipped_along(axes).shape == layout.shape,
    decreases axes.len(),
{
    if axes.len() > 0 {
        assert forall|i: int| 0 <= i < axes.drop_last().len() implies 0
            <= #[trigger] axes.drop_last()[i] < layout.shape.len() by {
            assert(axes.drop_last()[i] == axes[i]);
        }
        lemma_flipped_along_wf(layout, limit, axes.drop_last());
        assert(0 <= axes[axes.len() - 1] < layout.shape.len());
        lemma_flipped_wf(layout.flipped_along(axes.drop_last()), limit, axes.last());
    }
}

/// Where axes can be walked backwards one after the other, any number of the
/// first of them can.
pub proof fn lemma_flips_prefix(layout: Layout, axes: Seq<int>, t: int)
    requires
        layout.flips(axes),
        0 <= t <= axes.len(),
    ensures
        layout.flips(axes.take(t)),
    decreases axes.len(),
{
    if t == axes.len() {
        assert(axes.take(t) =~= axes);
    } else {
        lemma_flips_prefix(layout, axes.drop_last(), t);
        assert(axes.drop_last().take(t) =~= axes.take(t));
    }
}

/// The axes of a well-formed layout that has elements can be walked
/// backwards: every offset on the way is a position inside the buffer.
pub proof fn lemma_flips_nonempty(layout: Layout, limit: int, axes: Seq<int>)
    requires
        layout.wf(limit),
        layout.len() > 0,
        forall|i: int| 0 <= i < axes.len() ==> 0 <= #[trigger] axes[i] < layout.shape.len(),
    ensures
        layout.flips(axes),
    decreases axes.len(),
{
    if axes.len() > 0 {
        assert forall|i: int| 0 <= i < axes.drop_last().len() implies 0
            <= #[trigger] axes.drop_last()[i] < layout.shape.len() by {
            assert(axes.drop_last()[i] == axes[i]);
        }
        lemma_flips_nonempty(layout, limit, axes.drop_last());
        lemma_flipped_along_wf(layout, limit, axes);
        crate::layout::lemma_extremes_in_bounds(layout.flipped_along(axes), limit);
    }
}

/// The axes that a list of axes names, each counted from the front.
pub open spec fn normalized_axes(axes: Seq<isize>, n_dims: int) -> Seq<int> {
    Seq::new(axes.len(), |i: int| normalized_axis(axes[i] as int, n_dims))
}

/// Stretching a layout to a shape that it broadcasts to, and whose span is a
/// machine integer, keeps it well formed.
pub proof fn lemma_broadcast_wf(layout: Layout, limit: int, target: Seq<usize>)
    requires
        layout.wf(limit),
        layout.broadcasts_to(target),
        span(target) <= isize::MAX,
    ensures
        layout.broadcast(target).wf(limit),
{
    let b = layout.broadcast(target);
    if array_len(target) > 0 {
        let pad = target.len() - layout.shape.len();
        crate::layout::lemma_array_len_zero(target);
        crate::layout::lemma_array_len_zero(layout.shape);
        assert forall|k: int| 0 <= k < layout.shape.len() implies layout.shape[k] != 0 by {
            assert(layout.shape[k] == 1 || layout.shape[k] == target[k + pad]);
        }
        assert(layout.len() > 0);
        let lo = low_terms(layout.shape, layout.strides);
        let hi = high_terms(layout.shape, layout.strides);
        let blo = low_terms(b.shape, b.strides);
        let bhi = high_terms(b.shape, b.strides);
        lemma_sum_split(blo, pad);
        lemma_sum_split(bhi, pad);
        assert forall|k: int| 0 <= k < pad implies blo.take(pad)[k] == 0 && bhi.take(pad)[k]
            == 0 by {
            assert(b.strides[k] == 0);
            assert(reach(b.shape[k], b.strides[k]) == 0) by (nonlinear_arith)
                requires
                    b.strides[k] == 0,
                    reach(b.shape[k], b.strides[k]) == (b.shape[k] - 1) * b.strides[k],
            ;
        }
        lemma_sum_zeros(blo.take(pad));
        lemma_sum_zeros(bhi.take(pad));
        assert forall|k: int| 0 <= k < lo.len() implies blo.skip(pad)[k] == lo[k] && bhi.skip(
            pad,
        )[k] == hi[k] by {
            assert(layout.shape[k] == 1 || layout.shape[k] == target[k + pad]);
            if layout.shape[k] != target[k + pad] {
                assert(b.strides[k + pad] == 0);
                assert(reach(b.shape[k + pad], b.strides[k + pad]) == 0 && reach(
                    layout.shape[k],
                    layout.strides[k],
                ) == 0) by (nonlinear_arith)
                    requires
                        b.strides[k + pad] == 0,
                        layout.shape[k] == 1,
                        reach(b.shape[k + pad], b.strides[k + pad]) == (b.shape[k + pad] - 1)
                            * b.strides[k + pad],
                        reach(layout.shape[k], layout.strides[k]) == (layout.shape[k] - 1)
                            * layout.strides[k],
                ;
            } else {
                assert(b.strides[k + pad] == layout.strides[k]);
                assert(b.shape[k + pad] == layout.shape[k]);
            }
        }
        assert(blo.skip(pad) =~= lo);
        assert(bhi.skip(pad) =~= hi);
    }
}

impl<S: Storage, O: Order> ArrayBase<S, O> {
    /// The array with its axes in reverse order: a view, no element moves.
    pub fn transpose(&self) -> (t: ArrayBase<StorageBase<&[S::Elem]>, O>)
        requires
            self.wf(),
        ensures
            t.wf(),
            t.layout() == self.layout().transposed(),
            t.buffer() == self.buffer(),
    {
        proof {
            lemma_reverse_layout(self.dims(), self.steps());
        }
        ArrayBase {
            shape: reversed(self.shape.as_slice()),
            strides: reversed(self.strides.as_slice()),
            storage: self.storage.view(),
            offset: self.offset,
            phantom: PhantomData,
        }
    }

    /// The layout with each of the given axes walked backwards.
    fn flipped_parts(&self, axes: &[usize]) -> (r: (Vec<isize>, usize))
        requires
            self.wf(),
            forall|i: int| 0 <= i < axes@.len() ==> #[trigger] axes@[i] < self.dims().len(),
            self.layout().len() == 0 ==> self.layout().flips(crate::layout::ints(axes@)),
        ensures
            self.layout().flipped_along(crate::layout::ints(axes@)) == (Layout {
                shape: self.dims(),
                strides: r.0@,
                offset: r.1 as int,
            }),
            self.layout().flipped_along(crate::layout::ints(axes@)).wf(self.buffer().len() as int),
    {
        let ghost all = crate::layout::ints(axes@);
        let mut out_strides: Vec<isize> = self.strides.clone();
        let mut out_offset: usize = self.offset;
        let n: usize = axes.len();
        let mut i: usize = 0;
        proof {
            assert(all.take(0) =~= Seq::<int>::empty());
            if self.layout().len() > 0 {
                lemma_flips_nonempty(self.layout(), self.buffer().len() as int, all);
            }
        }
        while i < n
            invariant
                i <= n,
                n == axes@.len(),
                all == crate::layout::ints(axes@),
                self.wf(),
                self.layout().flips(all),
                out_strides@.len() == self.dims().len(),
                forall|j: int| 0 <= j < n ==> 0 <= #[trigger] all[j] < self.dims().len(),
                self.layout().flipped_along(all.take(i as int)) == (Layout {
                    shape: self.dims(),
                    strides: out_strides@,
                    offset: out_offset as int,
                }),
            decreases n - i,
        {
            let ghost before = self.layout().flipped_along(all.take(i as int));
            let axis: usize = axes[i];
            proof {
                assert(all.take(i + 1).drop_last() =~= all.take(i as int));
                assert(all.take(i + 1).last() == axis);
                assert(0 <= all[i as int] < self.dims().len());
                assert(self.layout().flipped_along(all.take(i + 1)) == before.flipped(axis as int));
                lemma_flips_prefix(self.layout(), all, i + 1);
                crate::array::slicing::lemma_dim_le_span(self.dims(), axis as int);
            }
            let dim: usize = self.shape[axis];
            let stride: isize = out_strides[axis];
            if dim != 0 {
                let delta: i128 = crate::arith::mul_index(stride, dim - 1);
                proof {
                    assert(stride * (dim - 1) == reach(dim, stride)) by (nonlinear_arith)
                        requires
                            reach(dim, stride) == (dim - 1) * stride,
                    ;
                }
                let moved: i128 = out_offset as i128 + delta;
                out_offset = moved as usize;
                out_strides[axis] = if stride == isize::MIN {
                    stride
                } else {
                    -stride
                };
            }
            proof {
                assert(out_strides@ =~= before.flipped(axis as int).strides);
            }
            i = i + 1;
        }
        proof {
            assert(all.take(n as int) =~= all);
            lemma_flipped_along_wf(self.layout(), self.buffer().len() as int, all);
        }
        (out_strides, out_offset)
    }

    /// The array with each of the given axes walked backwards: a view. Axes
    /// count from the back where negative; an axis that the array does not
    /// have is an error. The offset moves for an empty array as for any
    /// other; there, where nothing bounds it, it has to stay a machine
    /// integer.
    pub fn flip_along_axes(&self, axes: &[isize]) -> (r: Result<
        ArrayBase<StorageBase<&[S::Elem]>, O>,
        Error,
    >)
        requires
            self.wf(),
            self.layout().len() == 0 && (forall|i: int|
                0 <= i < axes@.len() ==> axis_in_range(
                    #[trigger] axes@[i] as int,
                    self.dims().len() as int,
                )) ==> self.layout().flips(normalized_axes(axes@, self.dims().len() as int)),
        ensures
            r is Ok <==> forall|i: int|
                0 <= i < axes@.len() ==> axis_in_range(
                    #[trigger] axes@[i] as int,
                    self.dims().len() as int,
                ),
            r matches Ok(v) ==> v.wf() && v.layout() == self.layout().flipped_along(
                normalized_axes(axes@, self.dims().len() as int),
            ) && v.buffer() == self.buffer(),
            r matches Err(e) ==> e.is_axis(),
    {
        let n_dims: usize = self.shape.len();
        let n: usize = axes.len();
        let mut normalized: Vec<usize> = Vec::new();
        let mut i: usize = 0;
        while i < n
            invariant
                i <= n,
                n == axes@.len(),
                n_dims == self.dims().len(),
                normalized@.len() == i,
                forall|j: int|
                    0 <= j < i ==> axis_in_range(#[trigger] axes@[j] as int, n_dims as int),
                forall|j: int|
                    0 <= j < i ==> #[trigger] normalized@[j] == normalized_axis(
                        axes@[j] as int,
                        n_dims as int,
                    ) && normalized@[j] < n_dims,
            decreases n - i,
        {
            match normalize_axis(axes[i], n_dims) {
                Ok(axis) => {
                    normalized.push(axis);
                },
                Err(e) => {
                    return Err(e);
                },
            }
            i = i + 1;
        }
        proof {
            assert(crate::layout::ints(normalized@) =~= normalized_axes(axes@, n_dims as int));
        }
        let (strides, offset) = self.flipped_parts(normalized.as_slice());
        Ok(
            ArrayBase {
                shape: self.shape.clone(),
                strides,
                storage: self.storage.view(),
                offset,
                phantom: PhantomData,
            },
        )
    }

    /// The array with every axis walked backwards: a view. The offset moves
    /// for an empty array as for any other; there, where nothing bounds it,
    /// it has to stay a machine integer.
    pub fn flip(&self) -> (v: ArrayBase<StorageBase<&[S::Elem]>, O>)
        requires
            self.wf(),
            self.layout().len() == 0 ==> self.layout().flips(
                Seq::new(self.dims().len(), |i: int| i),
            ),
        ensures
            v.wf(),
            v.layout() == self.layout().flipped_along(
                Seq::new(self.dims().len(), |i: int| i),
            ),
            v.buffer() == self.buffer(),
    {
        let n_dims: usize = self.shape.len();
        let mut axes: Vec<usize> = Vec::new();
        let mut i: usize = 0;
        while i < n_dims
            invariant
                i <= n_dims,
                axes@.len() == i,
                forall|j: int| 0 <= j < i ==> #[trigger] axes@[j] == j,
            decreases n_dims - i,
        {
            axes.push(i);
            i = i + 1;
        }
        proof {
            assert(crate::layout::ints(axes@) =~= Seq::new(self.dims().len(), |i: int| i));
        }
        let (strides, offset) = self.flipped_parts(axes.as_slice());
        ArrayBase {
            shape: self.shape.clone(),
            strides,
            storage: self.storage.view(),
            offset,
            phantom: PhantomData,
        }
    }

    /// The array with its axes rearranged: axis `i` of the view is axis
    /// `axes[i]` of the array. Axes that do not list every axis of the array
    /// exactly once are an error.
    pub fn permute(&self, axes: &[usize]) -> (r: Result<
        ArrayBase<StorageBase<&[S::Elem]>, O>,
        Error,
    >)
        requires
            self.wf(),
        ensures
            r is Ok <==> is_permutation(crate::layout::ints(axes@), self.dims().len() as int),
            r matches Ok(v) ==> v.wf() && v.layout() == self.layout().permuted(
                crate::layout::ints(axes@),
            ) && v.buffer() == self.buffer(),
            r matches Err(e) ==> e.is_axis(),
    {
        let ghost sigma = crate::layout::ints(axes@);
        let n: usize = self.shape.len();
        if axes.len() != n {
            return Err(
                Error::Shape(
                    ShapeError::IncompatibleAxis("axes do not match array".to_owned()),
                ),
            );
        }
        let mut seen: Vec<bool> = crate::dimension::filled(n, false);
        let mut out_shape: Vec<usize> = Vec::new();
        let mut out_strides: Vec<isize> = Vec::new();
        let mut i: usize = 0;
        while i < n
            invariant
                i <= n,
                n == axes@.len(),
                n == self.dims().len(),
                n == self.steps().len(),
                sigma == crate::layout::ints(axes@),
                seen@.len() == n,
                out_shape@.len() == i,
                out_strides@.len() == i,
                forall|j: int| 0 <= j < i ==> 0 <= #[trigger] sigma[j] < n,
                forall|j: int, k: int| 0 <= j < k < i ==> #[trigger] sigma[j] != #[trigger] sigma[k],
                forall|a: int|
                    0 <= a < n ==> (#[trigger] seen@[a] <==> exists|j: int|
                        0 <= j < i && sigma[j] == a),
                forall|j: int| 0 <= j < i ==> #[trigger] out_shape@[j] == self.dims()[sigma[j]],
                forall|j: int| 0 <= j < i ==> #[trigger] out_strides@[j] == self.steps()[sigma[j]],
            decreases n - i,
        {
            let axis: usize = axes[i];
            assert(sigma[i as int] == axis);
            if axis >= n {
                return Err(
                    Error::Shape(
                        ShapeError::IncompatibleAxis(
                            crate::message::axis_out_of_bounds(axis as i128, n),
                        ),
                    ),
                );
            }
            if seen[axis] {
                proof {
                    let j = choose|j: int| 0 <= j < i && sigma[j] == axis;
                    assert(sigma[j] == sigma[i as int]);
                }
                return Err(
                    Error::Shape(
                        ShapeError::IncompatibleAxis("repeated axis in permutation".to_owned()),
                    ),
                );
            }
            let ghost seen_before = seen@;
            seen[axis] = true;
            out_shape.push(self.shape[axis]);
            out_strides.push(self.strides[axis]);
            proof {
                assert forall|a: int| 0 <= a < n implies (#[trigger] seen@[a] <==> exists|j: int|
                    0 <= j < i + 1 && sigma[j] == a) by {
                    if a == axis {
                        assert(sigma[i as int] == a);
                    } else {
                        assert(seen@[a] == seen_before[a]);
                        if seen_before[a] {
                            let j = choose|j: int| 0 <= j < i && sigma[j] == a;
                            assert(0 <= j < i + 1 && sigma[j] == a);
                        }
                        if exists|j: int| 0 <= j < i + 1 && sigma[j] == a {
                            let j = choose|j: int| 0 <= j < i + 1 && sigma[j] == a;
                            assert(j != i);
                            assert(0 <= j < i && sigma[j] == a);
                        }
                    }
                }
                assert forall|j: int, k: int| 0 <= j < k < i + 1 implies #[trigger] sigma[j]
                    != #[trigger] sigma[k] by {
                    if k == i {
                        if sigma[j] == axis {
                            assert(seen_before[axis as int]);
                        }
                    }
                }
            }
            i = i + 1;
        }
        proof {
            assert(out_shape@ =~= self.layout().permuted(sigma).shape);
            assert(out_strides@ =~= self.layout().permuted(sigma).strides);
            lemma_permuted_wf(self.layout(), self.buffer().len() as int, sigma);
        }
        Ok(
            ArrayBase {
                shape: out_shape,
                strides: out_strides,
                storage: self.storage.view(),
                offset: self.offset,
                phantom: PhantomData,
            },
        )
    }

    /// The strides under which the buffer is read in a larger shape: an axis
    /// that has the size of the axis it meets keeps its stride; new axes, and
    /// axes of size 1 that are stretched to a larger size, get stride 0. A
    /// shape of fewer axes, or one that the array does not broadcast to, is
    /// an error.
    pub fn compute_strides_broadcasted(&self, shape: &[usize]) -> (r: Result<Vec<isize>, Error>)
        requires
            self.dims().len() == self.steps().len(),
        ensures
            r is Ok <==> self.layout().broadcasts_to(shape@),
            r matches Ok(strides) ==> strides@ == self.layout().broadcast(shape@).strides,
            r matches Err(e) ==> e.is_dimension(),
    {
        let n: usize = shape.len();
        let m: usize = self.shape.len();
        if n < m {
            return Err(
                Error::Shape(
                    ShapeError::IncompatibleDimension(
                        "cannot broadcast to smaller dimensions".to_owned(),
                    ),
                ),
            );
        }
        let pad: usize = n - m;
        let mut strides: Vec<isize> = crate::dimension::filled(n, 0isize);
        let mut k: usize = n;
        while k > pad
            invariant
                pad <= k <= n,
                n == shape@.len(),
                m == self.dims().len(),
                m == self.steps().len(),
                pad == n - m,
                strides@.len() == n,
                forall|j: int| 0 <= j < k ==> strides@[j] == 0,
                forall|j: int|
                    k <= j < n ==> (#[trigger] self.dims()[j - pad] == 1 || self.dims()[j - pad]
                        == shape@[j]) && strides@[j] == self.layout().broadcast(shape@).strides[j],
            decreases k,
        {
            k = k - 1;
            let in_dim: usize = self.shape[k - pad];
            if in_dim == shape[k] {
                strides[k] = self.strides[k - pad];
            } else if in_dim == 1 {
            } else {
                proof {
                    let w = k - pad;
                    assert(!(self.dims()[w] == 1 || self.dims()[w] == shape@[w + n - m]));
                }
                return Err(
                    Error::Shape(ShapeError::IncompatibleDimension("invalid broadcast".to_owned())),
                );
            }
        }
        proof {
            assert forall|j: int| 0 <= j < m implies #[trigger] self.dims()[j] == 1
                || self.dims()[j] == shape@[j + n - m] by {
                let w = j + pad;
                assert(self.dims()[w - pad] == 1 || self.dims()[w - pad] == shape@[w]);
            }
            assert(strides@ =~= self.layout().broadcast(shape@).strides);
        }
        Ok(strides)
    }

    /// The array stretched to a larger shape: a view in which new axes, and
    /// axes of size 1 that are stretched, repeat their element. A shape of
    /// fewer axes, or one that the array does not broadcast to, is an error.
    pub fn broadcast_to(&self, shape: &[usize]) -> (r: Result<
        ArrayBase<StorageBase<&[S::Elem]>, O>,
        Error,
    >)
        requires
            self.wf(),
            span(shape@) <= isize::MAX,
        ensures
            r is Ok <==> self.layout().broadcasts_to(shape@),
            r matches Ok(v) ==> v.wf() && v.layout() == self.layout().broadcast(shape@)
                && v.buffer() == self.buffer(),
            r matches Err(e) ==> e.is_dimension(),
    {
        let strides: Vec<isize> = match self.compute_strides_broadcasted(shape) {
            Ok(strides) => strides,
            Err(e) => {
                return Err(e);
            },
        };
        proof {
            lemma_broadcast_wf(self.layout(), self.buffer().len() as int, shape@);
        }
        Ok(
            ArrayBase {
                shape: crate::dimension::copy_of(shape),
                strides,
                storage: self.storage.view(),
                offset: self.offset,
                phantom: PhantomData,
            },
        )
    }
}

/// Transposing is its own inverse: the transpose of the transpose of a
/// layout is the layout.
pub proof fn lemma_transposed_twice(layout: Layout)
    ensures
        layout.transposed().transposed() == layout,
{
    assert(layout.shape.reverse().reverse() =~= layout.shape);
    assert(layout.strides.reverse().reverse() =~= layout.strides);
}

/// The transpose of the transpose of an array is the array: it has the same
/// shape, strides and offset, over the same buffer.
pub proof fn lemma_transpose_involution<S1: Storage, S2: Storage, S3: Storage, O: Order>(
    a: ArrayBase<S1, O>,
    once: ArrayBase<S2, O>,
    twice: ArrayBase<S3, O>,
) where S2: Storage<Elem = S1::Elem>, S3: Storage<Elem = S1::Elem>
    requires
        once.layout() == a.layout().transposed(),
        once.buffer() == a.buffer(),
        twice.layout() == once.layout().transposed(),
        twice.buffer() == once.buffer(),
    ensures
        twice.layout() == a.layout(),
        twice.buffer() == a.buffer(),
        twice.elements() == a.elements(),
{
    lemma_transposed_twice(a.layout());
    assert(twice.dims() == a.dims());
    assert(twice.elements() =~= a.elements());
}

/// A broadcast view reads the buffer of its source: every element of the
/// view is the element of the source at the multi-index with the new axes
/// dropped and zero on the axes that are repeated.
pub proof fn lemma_broadcast_reads_source(layout: Layout, target: Seq<usize>, idx: Seq<int>)
    requires
        layout.shape.len() == layout.strides.len(),
        layout.broadcasts_to(target),
        crate::layout::is_index(idx, target),
    ensures
        crate::layout::is_index(broadcast_source(layout.shape, target, idx), layout.shape),
        layout.broadcast(target).position_at(idx) == layout.position_at(
            broadcast_source(layout.shape, target, idx),
        ),
{
    let pad = target.len() - layout.shape.len();
    let b = layout.broadcast(target);
    let src = broadcast_source(layout.shape, target, idx);
    assert forall|k: int| 0 <= k < src.len() implies 0 <= #[trigger] src[k] < layout.shape[k] by {
        assert(layout.shape[k] == 1 || layout.shape[k] == target[k + pad]);
        assert(0 <= idx[k + pad] < target[k + pad]);
    }
    let wide = crate::layout::dot_terms(idx, b.strides);
    let narrow = crate::layout::dot_terms(src, layout.strides);
    lemma_sum_split(wide, pad);
    assert forall|k: int| 0 <= k < pad implies wide.take(pad)[k] == 0 by {
        assert(b.strides[k] == 0);
        assert(idx[k] * 0 == 0);
    }
    lemma_sum_zeros(wide.take(pad));
    assert forall|k: int| 0 <= k < narrow.len() implies wide.skip(pad)[k] == narrow[k] by {
        assert(layout.shape[k] == 1 || layout.shape[k] == target[k + pad]);
        assert(0 <= idx[k + pad] < target[k + pad]);
        if layout.shape[k] != target[k + pad] {
            assert(b.strides[k + pad] == 0);
            assert(idx[k + pad] * 0 == 0);
            assert(src[k] == 0);
            assert(0 * layout.strides[k] == 0);
        } else if layout.shape[k] == 1 {
            assert(idx[k + pad] == 0);
            assert(src[k] == 0);
        }
    }
    assert(wide.skip(pad) =~= narrow);
}

/// The multi-index of the source that a multi-index of a broadcast view
/// reads: without the new axes, and zero on the axes that are repeated.
pub open spec fn broadcast_source(shape: Seq<usize>, target: Seq<usize>, idx: Seq<int>) -> Seq<
    int,
> {
    Seq::new(
        shape.len(),
        |k: int|
            if shape[k] == 1 {
                0
            } else {
                idx[k + target.len() - shape.len()]
            },
    )
}

} // verus!
