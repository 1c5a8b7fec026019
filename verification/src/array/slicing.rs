//! The slicing engine: from a list of selectors to the layout of the
//! selected part of an array, over the same buffer.

use vstd::prelude::*;
use core::marker::PhantomData;
use crate::arith::{mul_index, mul_signed};
use crate::array::ArrayBase;
use crate::array_index::ArrayIndex;
use crate::layout::{
    array_len, high_terms, highest, lemma_array_len_split, lemma_array_len_zero, lemma_span_part,
    lemma_span_split, lemma_sum_le, lemma_sum_split, lemma_sum_zeros, low_terms,
    lowest, reach, span, sum, widened, Layout,
};
use crate::order::Order;
use crate::slice::{lemma_stepped_len_bounds, Slice};
use crate::slice_info::{consumed_axes, produced_axes, SliceInfo};
use crate::storage::{Storage, StorageBase, StorageMut};

verus! {

/// What a list of selectors has made of a layout so far: how many axes of
/// the layout it has consumed, the axes it has produced, and the offset it
/// has moved to.
pub struct Selection {
    pub consumed: int,
    pub shape: Seq<usize>,
    pub strides: Seq<isize>,
    pub offset: int,
}

/// The index that `i` names on an axis of size `dim`, counted from the front.
pub open spec fn normalized_index(i: int, dim: int) -> int {
    if i < 0 {
        i + dim
    } else {
        i
    }
}

impl Layout {
    /// Whether a selector can be applied when `consumed` axes are used up:
    /// an index or a slice needs an axis that is left, an index must lie on
    /// it, and the stride of a slice must be a machine integer.
    pub open spec fn admits_one(self, consumed: int, index: ArrayIndex) -> bool {
        match index {
            ArrayIndex::Index(i) => 0 <= consumed < self.shape.len() && -self.shape[consumed] <= i
                < self.shape[consumed],
            ArrayIndex::Slice(s) => 0 <= consumed < self.shape.len() && s.well_formed()
                && isize::MIN <= self.strides[consumed] * s.step_value() <= isize::MAX,
            ArrayIndex::NewAxis => true,
        }
    }

    /// What one more selector makes of a selection: an index moves the
    /// offset to the indexed position and drops the axis; a slice moves it to
    /// the first selected index and keeps the axis, with the stride scaled by
    /// the step; a new axis has size 1 and stride 0.
    pub open spec fn select_one(self, before: Selection, index: ArrayIndex) -> Selection {
        let dim = self.shape[before.consumed];
        let stride = self.strides[before.consumed];
        match index {
            ArrayIndex::Index(i) => Selection {
                consumed: before.consumed + 1,
                shape: before.shape,
                strides: before.strides,
                offset: before.offset + stride * normalized_index(i as int, dim as int),
            },
            ArrayIndex::Slice(s) => Selection {
                consumed: before.consumed + 1,
                shape: before.shape.push(s.len_at(dim as int) as usize),
                strides: before.strides.push((stride * s.step_value()) as isize),
                offset: before.offset + if s.start_at(dim as int) > 0 {
                    stride * s.start_at(dim as int)
                } else {
                    0
                },
            },
            ArrayIndex::NewAxis => Selection {
                consumed: before.consumed,
                shape: before.shape.push(1),
                strides: before.strides.push(0),
                offset: before.offset,
            },
        }
    }

    /// What a list of selectors makes of the layout, selector by selector.
    pub open spec fn select(self, indices: Seq<ArrayIndex>) -> Selection
        decreases indices.len(),
    {
        if indices.len() == 0 {
            Selection {
                consumed: 0,
                shape: Seq::empty(),
                strides: Seq::empty(),
                offset: self.offset,
            }
        } else {
            self.select_one(self.select(indices.drop_last()), indices.last())
        }
    }

    /// Whether the axes of the layout allow a list of selectors: each of the
    /// selectors can be applied, in its turn.
    pub open spec fn admits_axes(self, indices: Seq<ArrayIndex>) -> bool
        decreases indices.len(),
    {
        indices.len() == 0 || (self.admits_axes(indices.drop_last()) && self.admits_one(
            self.select(indices.drop_last()).consumed,
            indices.last(),
        ))
    }

    /// Whether a list of selectors can be applied to the layout: each of them
    /// can, in its turn, and the offset that each moves to is a machine
    /// integer.
    pub open spec fn admits(self, indices: Seq<ArrayIndex>) -> bool
        decreases indices.len(),
    {
        indices.len() == 0 || (self.admits(indices.drop_last()) && self.admits_one(
            self.select(indices.drop_last()).consumed,
            indices.last(),
        ) && 0 <= self.select(indices).offset <= usize::MAX)
    }

    /// The layout of the part that a list of selectors selects: the axes that
    /// the selectors produce, followed by the axes that they leave untouched,
    /// at the offset that the selectors move to.
    pub open spec fn sliced(self, indices: Seq<ArrayIndex>) -> Layout {
        let s = self.select(indices);
        Layout {
            shape: s.shape + self.shape.skip(s.consumed),
            strides: s.strides + self.strides.skip(s.consumed),
            offset: s.offset,
        }
    }
}

/// Between the first and the last index of an axis, the displacement lies
/// between zero and the reach of the axis.
pub proof fn lemma_within_reach(a: int, size: usize, stride: isize)
    requires
        0 <= a < size,
    ensures
        (if reach(size, stride) < 0 { reach(size, stride) } else { 0 }) <= stride * a <= (if reach(
            size,
            stride,
        ) > 0 {
            reach(size, stride)
        } else {
            0
        }),
{
    let d = size as int;
    let s = stride as int;
    assert((if (d - 1) * s < 0 { (d - 1) * s } else { 0 }) <= s * a <= (if (d - 1) * s > 0 {
        (d - 1) * s
    } else {
        0
    })) by (nonlinear_arith)
        requires
            0 <= a < d,
    ;
}

/// The first and the last index that a non-empty slice selects lie on the
/// axis.
pub proof fn lemma_slice_on_axis(s: Slice, dim: int)
    requires
        s.well_formed(),
        0 <= dim,
        s.len_at(dim) > 0,
    ensures
        0 <= s.start_at(dim) < dim,
        0 <= s.start_at(dim) + (s.len_at(dim) - 1) * s.step_value() < dim,
        s.len_at(dim) <= dim,
{
    s.lemma_parts();
    lemma_stepped_len_bounds(s.start_at(dim), s.end_at(dim), s.step_value());
    let n = s.len_at(dim);
    let step = s.step_value();
    if step > 0 {
        assert((n - 1) * step >= 0) by (nonlinear_arith)
            requires
                n >= 1,
                step > 0,
        ;
    } else {
        assert((n - 1) * step <= 0) by (nonlinear_arith)
            requires
                n >= 1,
                step < 0,
        ;
    }
}

/// No slice selects more indices than its axis has.
pub proof fn lemma_slice_len_bounds(s: Slice, dim: int)
    requires
        s.well_formed(),
        0 <= dim,
    ensures
        0 <= s.len_at(dim) <= dim,
{
    s.lemma_parts();
    lemma_stepped_len_bounds(s.start_at(dim), s.end_at(dim), s.step_value());
}

/// Every axis of a shape is at most as large as the span of the shape.
pub proof fn lemma_dim_le_span(shape: Seq<usize>, k: int)
    requires
        0 <= k < shape.len(),
    ensures
        shape[k] <= span(shape),
        span(shape.take(k + 1)) == span(shape.take(k)) * (if shape[k] == 0 {
            1nat
        } else {
            shape[k] as nat
        }),
        span(shape.take(k)) <= span(shape.take(k + 1)) <= span(shape),
{
    lemma_span_part(shape, k, k + 1);
    crate::layout::lemma_one_axis(shape[k], 0);
    assert(shape.subrange(k, k + 1) =~= seq![shape[k]]);
    assert(widened(shape.take(k + 1)).drop_last() =~= widened(shape.take(k)));
    lemma_span_part(shape, 0, k + 1);
    assert(shape.subrange(0, k + 1) =~= shape.take(k + 1));
    lemma_span_part(shape, 0, k);
    assert(shape.subrange(0, k) =~= shape.take(k));
    let a = span(shape.take(k));
    let w = if shape[k] == 0 { 1nat } else { shape[k] as nat };
    assert(a <= a * w) by (nonlinear_arith)
        requires
            w >= 1,
    ;
}

/// A selection stays within the layout it is made from: it has consumed no
/// more axes than there are, its span is no larger than that of the axes
/// consumed, and, while it is not empty, it stays within the reach of the
/// axes consumed.
pub open spec fn selection_within(layout: Layout, s: Selection) -> bool {
    &&& 0 <= s.consumed <= layout.shape.len()
    &&& s.shape.len() == s.strides.len()
    &&& span(s.shape) <= span(layout.shape.take(s.consumed))
    &&& layout.len() > 0 && array_len(s.shape) > 0 ==> {
        &&& s.offset + lowest(s.shape, s.strides) >= layout.offset + sum(
            low_terms(layout.shape, layout.strides).take(s.consumed),
        )
        &&& s.offset + highest(s.shape, s.strides) <= layout.offset + sum(
            high_terms(layout.shape, layout.strides).take(s.consumed),
        )
    }
}

/// An index keeps a selection within its layout.
proof fn lemma_select_index(layout: Layout, before: Selection, i: isize)
    requires
        layout.shape.len() == layout.strides.len(),
        selection_within(layout, before),
        layout.admits_one(before.consumed, ArrayIndex::Index(i)),
    ensures
        selection_within(layout, layout.select_one(before, ArrayIndex::Index(i))),
{
    let after = layout.select_one(before, ArrayIndex::Index(i));
    let k = before.consumed;
    let lo = low_terms(layout.shape, layout.strides);
    let hi = high_terms(layout.shape, layout.strides);
    let dim = layout.shape[k];
    let stride = layout.strides[k];
    lemma_dim_le_span(layout.shape, k);
    assert(lo.take(k + 1).drop_last() =~= lo.take(k));
    assert(hi.take(k + 1).drop_last() =~= hi.take(k));
    assert(sum(lo.take(k + 1)) == sum(lo.take(k)) + lo[k]);
    assert(sum(hi.take(k + 1)) == sum(hi.take(k)) + hi[k]);
    lemma_within_reach(normalized_index(i as int, dim as int), dim, stride);
}

/// A new axis keeps a selection within its layout.
proof fn lemma_select_new_axis(layout: Layout, before: Selection)
    requires
        layout.shape.len() == layout.strides.len(),
        selection_within(layout, before),
    ensures
        selection_within(layout, layout.select_one(before, ArrayIndex::NewAxis)),
        array_len(layout.select_one(before, ArrayIndex::NewAxis).shape) == array_len(
            before.shape,
        ),
{
    let after = layout.select_one(before, ArrayIndex::NewAxis);
    let blo = low_terms(before.shape, before.strides);
    let bhi = high_terms(before.shape, before.strides);
    let alo = low_terms(after.shape, after.strides);
    let ahi = high_terms(after.shape, after.strides);
    crate::layout::lemma_array_len_push(before.shape, 1);
    assert(span(after.shape) == span(before.shape) * 1);
    assert(array_len(after.shape) == array_len(before.shape) * 1);
    assert(alo.drop_last() =~= blo);
    assert(ahi.drop_last() =~= bhi);
    assert(sum(alo) == sum(alo.drop_last()) + alo.last());
    assert(sum(ahi) == sum(ahi.drop_last()) + ahi.last());
    assert(reach(1, 0) == 0);
    assert(alo.last() == 0);
    assert(ahi.last() == 0);
}

/// A slice keeps a selection within its layout.
proof fn lemma_select_slice(layout: Layout, before: Selection, s: Slice)
    requires
        layout.shape.len() == layout.strides.len(),
        selection_within(layout, before),
        layout.admits_one(before.consumed, ArrayIndex::Slice(s)),
    ensures
        selection_within(layout, layout.select_one(before, ArrayIndex::Slice(s))),
{
    let after = layout.select_one(before, ArrayIndex::Slice(s));
    let k = before.consumed;
    let lo = low_terms(layout.shape, layout.strides);
    let hi = high_terms(layout.shape, layout.strides);
    let blo = low_terms(before.shape, before.strides);
    let bhi = high_terms(before.shape, before.strides);
    let alo = low_terms(after.shape, after.strides);
    let ahi = high_terms(after.shape, after.strides);
    let dim = layout.shape[k];
    let stride = layout.strides[k];
    let len = s.len_at(dim as int);
    lemma_dim_le_span(layout.shape, k);
    lemma_slice_len_bounds(s, dim as int);
    crate::layout::lemma_array_len_push(before.shape, len as usize);
    let a = span(before.shape);
    let b = span(layout.shape.take(k));
    let wl = if len == 0 { 1nat } else { len as nat };
    let wd = if dim == 0 { 1nat } else { dim as nat };
    assert(a * wl <= b * wd) by (nonlinear_arith)
        requires
            a <= b,
            wl <= wd,
    ;
    assert(lo.take(k + 1).drop_last() =~= lo.take(k));
    assert(hi.take(k + 1).drop_last() =~= hi.take(k));
    assert(sum(lo.take(k + 1)) == sum(lo.take(k)) + lo[k]);
    assert(sum(hi.take(k + 1)) == sum(hi.take(k)) + hi[k]);
    if layout.len() > 0 && array_len(after.shape) > 0 {
        assert(array_len(before.shape) > 0 && len > 0) by (nonlinear_arith)
            requires
                array_len(before.shape) * (len as nat) > 0,
                len >= 0,
        ;
        lemma_slice_on_axis(s, dim as int);
        let start = s.start_at(dim as int);
        let step = s.step_value();
        let last = start + (len - 1) * step;
        lemma_within_reach(start, dim, stride);
        lemma_within_reach(last, dim, stride);
        let new_stride = (stride * step) as isize;
        assert(reach(len as usize, new_stride) == stride * last - stride * start)
            by (nonlinear_arith)
            requires
                reach(len as usize, new_stride) == (len - 1) * (stride * step),
                last == start + (len - 1) * step,
        ;
        assert(alo.drop_last() =~= blo);
        assert(ahi.drop_last() =~= bhi);
        assert(sum(alo) == sum(blo) + alo.last());
        assert(sum(ahi) == sum(bhi) + ahi.last());
        let r = reach(len as usize, new_stride);
        assert(alo.last() == (if r < 0 { r } else { 0 }));
        assert(ahi.last() == (if r > 0 { r } else { 0 }));
        assert(stride * start == 0 || start > 0) by (nonlinear_arith)
            requires
                start >= 0,
        ;
        assert(after.offset == before.offset + stride * start);
    }
}

/// What holds of a selection made from a well-formed layout: it consumes
/// and produces as many axes as its selectors say, and stays within the
/// layout.
pub proof fn lemma_select(layout: Layout, limit: int, indices: Seq<ArrayIndex>)
    requires
        layout.wf(limit),
        layout.admits_axes(indices),
    ensures
        layout.select(indices).consumed == consumed_axes(indices),
        0 <= layout.select(indices).consumed <= layout.shape.len(),
        layout.select(indices).shape.len() == produced_axes(indices),
        layout.select(indices).strides.len() == produced_axes(indices),
        selection_within(layout, layout.select(indices)),
    decreases indices.len(),
{
    if indices.len() == 0 {
        let lo = low_terms(layout.shape, layout.strides);
        let hi = high_terms(layout.shape, layout.strides);
        assert(lo.take(0) =~= Seq::<int>::empty());
        assert(hi.take(0) =~= Seq::<int>::empty());
        assert(layout.shape.take(0) =~= Seq::<usize>::empty());
        assert(widened(Seq::<usize>::empty()) =~= Seq::<usize>::empty());
        assert(low_terms(Seq::<usize>::empty(), Seq::<isize>::empty()) =~= Seq::<int>::empty());
        assert(high_terms(Seq::<usize>::empty(), Seq::<isize>::empty()) =~= Seq::<int>::empty());
    } else {
        let before = layout.select(indices.drop_last());
        lemma_select(layout, limit, indices.drop_last());
        match indices.last() {
            ArrayIndex::Index(i) => {
                lemma_select_index(layout, before, i);
            },
            ArrayIndex::Slice(s) => {
                lemma_select_slice(layout, before, s);
            },
            ArrayIndex::NewAxis => {
                lemma_select_new_axis(layout, before);
            },
        }
    }
}

/// While a selection from a well-formed, non-empty layout is not empty, its
/// offset is a position inside the buffer.
pub proof fn lemma_select_offset(layout: Layout, limit: int, indices: Seq<ArrayIndex>)
    requires
        layout.wf(limit),
        layout.admits_axes(indices),
        layout.len() > 0,
        array_len(layout.select(indices).shape) > 0,
    ensures
        0 <= layout.select(indices).offset < limit,
{
    lemma_select(layout, limit, indices);
    let s = layout.select(indices);
    let lo = low_terms(layout.shape, layout.strides);
    let hi = high_terms(layout.shape, layout.strides);
    let zero_s = Seq::new(s.shape.len(), |k: int| 0int);
    lemma_sum_le(low_terms(s.shape, s.strides), zero_s);
    lemma_sum_le(zero_s, high_terms(s.shape, s.strides));
    lemma_sum_zeros(zero_s);
    lemma_sum_split(lo, s.consumed);
    lemma_sum_split(hi, s.consumed);
    let zero_r = Seq::new((lo.len() - s.consumed) as nat, |k: int| 0int);
    lemma_sum_le(lo.skip(s.consumed), zero_r);
    lemma_sum_le(zero_r, hi.skip(s.consumed));
    lemma_sum_zeros(zero_r);
}

/// Slicing keeps a layout well formed.
pub proof fn lemma_sliced_wf(layout: Layout, limit: int, indices: Seq<ArrayIndex>)
    requires
        layout.wf(limit),
        layout.admits_axes(indices),
    ensures
        layout.sliced(indices).wf(limit),
        layout.sliced(indices).shape.len() == layout.shape.len() - consumed_axes(indices)
            + produced_axes(indices),
        array_len(layout.sliced(indices).shape) > 0 <==> layout.len() > 0 && array_len(
            layout.select(indices).shape,
        ) > 0,
{
    lemma_select(layout, limit, indices);
    let s = layout.select(indices);
    let out = layout.sliced(indices);
    let k = s.consumed;
    let p = s.shape.len() as int;
    // The span.
    lemma_span_split(out.shape, p);
    assert(out.shape.take(p) =~= s.shape);
    assert(out.shape.skip(p) =~= layout.shape.skip(k));
    lemma_span_split(layout.shape, k);
    let a = span(s.shape);
    let b = span(layout.shape.take(k));
    let c = span(layout.shape.skip(k));
    assert(a * c <= b * c) by (nonlinear_arith)
        requires
            a <= b,
    ;
    // The element count.
    lemma_array_len_split(out.shape, p);
    lemma_array_len_split(layout.shape, k);
    let x = array_len(s.shape);
    let y = array_len(layout.shape.skip(k));
    let z = array_len(layout.shape.take(k));
    assert(x * y > 0 <==> x > 0 && y > 0) by (nonlinear_arith);
    if layout.len() > 0 {
        assert(z > 0 && y > 0) by (nonlinear_arith)
            requires
                z * y > 0,
        ;
    }
    if array_len(out.shape) > 0 {
        // No axis that is left is empty, and no axis consumed was.
        lemma_array_len_zero(layout.shape);
        lemma_array_len_zero(layout.shape.skip(k));
        lemma_consumed_nonempty(layout, indices);
        assert forall|j: int| 0 <= j < layout.shape.len() implies layout.shape[j] != 0 by {
            if j >= k {
                assert(layout.shape.skip(k)[j - k] == layout.shape[j]);
            }
        }
        assert(layout.len() > 0);
        let lo = low_terms(layout.shape, layout.strides);
        let hi = high_terms(layout.shape, layout.strides);
        let olo = low_terms(out.shape, out.strides);
        let ohi = high_terms(out.shape, out.strides);
        lemma_sum_split(olo, p);
        lemma_sum_split(ohi, p);
        lemma_sum_split(lo, k);
        lemma_sum_split(hi, k);
        assert(olo.take(p) =~= low_terms(s.shape, s.strides));
        assert(ohi.take(p) =~= high_terms(s.shape, s.strides));
        assert(olo.skip(p) =~= lo.skip(k));
        assert(ohi.skip(p) =~= hi.skip(k));
    }
}

/// Where a selection is not empty, no axis that it consumed is.
pub proof fn lemma_consumed_nonempty(layout: Layout, indices: Seq<ArrayIndex>)
    requires
        layout.admits_axes(indices),
        array_len(layout.select(indices).shape) > 0,
    ensures
        forall|j: int| 0 <= j < layout.select(indices).consumed ==> layout.shape[j] != 0,
        layout.select(indices).consumed >= 0,
    decreases indices.len(),
{
    if indices.len() > 0 {
        let before = layout.select(indices.drop_last());
        let after = layout.select(indices);
        let k = before.consumed;
        match indices.last() {
            ArrayIndex::Index(i) => {
                lemma_consumed_nonempty(layout, indices.drop_last());
            },
            ArrayIndex::Slice(s) => {
                let dim = layout.shape[k];
                let len = s.len_at(dim as int);
                lemma_slice_len_bounds(s, dim as int);
                crate::layout::lemma_array_len_push(before.shape, len as usize);
                assert(array_len(before.shape) > 0 && len > 0) by (nonlinear_arith)
                    requires
                        array_len(before.shape) * (len as nat) > 0,
                        len >= 0,
                ;
                lemma_consumed_nonempty(layout, indices.drop_last());
            },
            ArrayIndex::NewAxis => {
                crate::layout::lemma_array_len_push(before.shape, 1);
                lemma_consumed_nonempty(layout, indices.drop_last());
            },
        }
    }
}

/// Selectors that can be applied are allowed by the axes, and every prefix of
/// them can be applied.
pub proof fn lemma_admits(layout: Layout, indices: Seq<ArrayIndex>, t: int)
    requires
        layout.admits(indices),
        0 <= t <= indices.len(),
    ensures
        layout.admits_axes(indices),
        layout.admits(indices.take(t)),
    decreases indices.len(),
{
    if indices.len() > 0 {
        lemma_admits(layout, indices.drop_last(), if t < indices.len() { t } else { 0 });
    }
    if t == indices.len() {
        assert(indices.take(t) =~= indices);
    } else {
        assert(indices.drop_last().take(t) =~= indices.take(t));
    }
}

/// Selectors that the axes of a well-formed layout allow, and that select
/// at least one element, can be applied: every offset they move to is a
/// position inside the buffer.
pub proof fn lemma_admits_nonempty(layout: Layout, limit: int, indices: Seq<ArrayIndex>)
    requires
        layout.wf(limit),
        layout.admits_axes(indices),
        layout.len() > 0,
        array_len(layout.select(indices).shape) > 0,
    ensures
        layout.admits(indices),
    decreases indices.len(),
{
    if indices.len() > 0 {
        let before = layout.select(indices.drop_last());
        let after = layout.select(indices);
        match indices.last() {
            ArrayIndex::Index(i) => {},
            ArrayIndex::Slice(s) => {
                let len = s.len_at(layout.shape[before.consumed] as int);
                crate::layout::lemma_array_len_push(before.shape, len as usize);
                assert(array_len(before.shape) > 0) by (nonlinear_arith)
                    requires
                        array_len(before.shape) * ((len as usize) as nat) > 0,
                ;
            },
            ArrayIndex::NewAxis => {
                crate::layout::lemma_array_len_push(before.shape, 1);
                assert(array_len(before.shape) > 0) by (nonlinear_arith)
                    requires
                        array_len(before.shape) * 1 > 0,
                ;
            },
        }
        lemma_admits_nonempty(layout, limit, indices.drop_last());
        lemma_select_offset(layout, limit, indices);
    }
}

impl<S: Storage, O: Order> ArrayBase<S, O> {
    /// The offset, shape and strides of the part that the selectors select,
    /// where they can be applied.
    pub fn compute_sliced_parts(&self, info: &SliceInfo) -> (r: Option<
        (usize, Vec<usize>, Vec<isize>),
    >)
        requires
            self.wf(),
        ensures
            r is Some <==> self.layout().admits(info.indices@),
            r matches Some(parts) ==> self.layout().sliced(info.indices@) == (Layout {
                shape: parts.1@,
                strides: parts.2@,
                offset: parts.0 as int,
            }) && self.layout().sliced(info.indices@).wf(self.buffer().len() as int),
    {
        let ghost layout = self.layout();
        let ghost limit = self.buffer().len() as int;
        let ghost sels = info.indices@;
        let n_dims: usize = self.shape.len();
        let n: usize = info.indices.len();
        let mut out_shape: Vec<usize> = Vec::new();
        let mut out_strides: Vec<isize> = Vec::new();
        let mut in_idx: usize = 0;
        let mut off: i128 = self.offset as i128;
        let mut t: usize = 0;
        proof {
            assert(sels.take(0) =~= Seq::<ArrayIndex>::empty());
        }
        while t < n
            invariant
                t <= n,
                n == sels.len(),
                sels == info.indices@,
                layout == self.layout(),
                n_dims == layout.shape.len(),
                self.wf(),
                layout.admits(sels.take(t as int)),
                in_idx == layout.select(sels.take(t as int)).consumed,
                in_idx <= n_dims,
                out_shape@ == layout.select(sels.take(t as int)).shape,
                out_strides@ == layout.select(sels.take(t as int)).strides,
                off == layout.select(sels.take(t as int)).offset,
                0 <= off <= usize::MAX,
            decreases n - t,
        {
            let ghost before = layout.select(sels.take(t as int));
            let ghost after = layout.select(sels.take(t + 1));
            proof {
                assert(sels.take(t + 1).drop_last() =~= sels.take(t as int));
                assert(sels.take(t + 1).last() == sels[t as int]);
                assert(after == layout.select_one(before, sels[t as int]));
                if layout.admits(sels) {
                    lemma_admits(layout, sels, t + 1);
                }
                if in_idx < n_dims {
                    lemma_dim_le_span(layout.shape, in_idx as int);
                }
            }
            match info.indices[t] {
                ArrayIndex::Index(index) => {
                    if in_idx >= n_dims {
                        return None;
                    }
                    let dim: i128 = self.shape[in_idx] as i128;
                    let i: i128 = index as i128;
                    if i < -dim || i >= dim {
                        return None;
                    }
                    let a: usize = if i < 0 {
                        (i + dim) as usize
                    } else {
                        i as usize
                    };
                    let moved: i128 = off + mul_index(self.strides[in_idx], a);
                    if moved < 0 || moved > usize::MAX as i128 {
                        return None;
                    }
                    off = moved;
                    in_idx = in_idx + 1;
                },
                ArrayIndex::Slice(slice) => {
                    if in_idx >= n_dims {
                        return None;
                    }
                    let dim: usize = self.shape[in_idx];
                    let stride: isize = self.strides[in_idx];
                    let step: isize = slice.step();
                    let scaled: i128 = mul_signed(stride, step);
                    if scaled < isize::MIN as i128 || scaled > isize::MAX as i128 {
                        return None;
                    }
                    let len: usize = slice.len_with_dim(dim);
                    let start: isize = slice.start_with_dim(dim);
                    let moved: i128 = if start > 0 {
                        off + mul_index(stride, start as usize)
                    } else {
                        off
                    };
                    if moved < 0 || moved > usize::MAX as i128 {
                        return None;
                    }
                    off = moved;
                    out_shape.push(len);
                    out_strides.push(scaled as isize);
                    in_idx = in_idx + 1;
                },
                ArrayIndex::NewAxis => {
                    out_shape.push(1);
                    out_strides.push(0);
                },
            }
            proof {
                assert(layout.admits(sels.take(t + 1)));
            }
            t = t + 1;
        }
        proof {
            assert(sels.take(n as int) =~= sels);
            lemma_admits(layout, sels, n as int);
            lemma_sliced_wf(layout, limit, sels);
        }
        let ghost picked = layout.select(sels);
        let mut k: usize = in_idx;
        while k < n_dims
            invariant
                in_idx <= k <= n_dims,
                n_dims == self.dims().len(),
                n_dims == self.steps().len(),
                out_shape@ == picked.shape + self.dims().subrange(in_idx as int, k as int),
                out_strides@ == picked.strides + self.steps().subrange(in_idx as int, k as int),
            decreases n_dims - k,
        {
            out_shape.push(self.shape[k]);
            out_strides.push(self.strides[k]);
            proof {
                assert(out_shape@ =~= picked.shape + self.dims().subrange(in_idx as int, k + 1));
                assert(out_strides@ =~= picked.strides + self.steps().subrange(
                    in_idx as int,
                    k + 1,
                ));
            }
            k = k + 1;
        }
        proof {
            assert(self.dims().subrange(in_idx as int, n_dims as int) =~= self.dims().skip(
                in_idx as int,
            ));
            assert(self.steps().subrange(in_idx as int, n_dims as int) =~= self.steps().skip(
                in_idx as int,
            ));
        }
        Some((off as usize, out_shape, out_strides))
    }

    /// Whether the selectors can be applied to the array: there are no more
    /// indices and slices than axes, every index lies on its axis, and the
    /// stride of every slice and the offset that every selector moves to are
    /// machine integers.
    pub fn can_slice(&self, info: &SliceInfo) -> (b: bool)
        requires
            self.wf(),
        ensures
            b == self.layout().admits(info.indices@),
    {
        self.compute_sliced_parts(info).is_some()
    }

    /// The part of the array that the selectors select: a view.
    pub fn slice(&self, info: &SliceInfo) -> (v: ArrayBase<StorageBase<&[S::Elem]>, O>)
        requires
            self.wf(),
            self.layout().admits(info.indices@),
        ensures
            v.wf(),
            v.layout() == self.layout().sliced(info.indices@),
            v.buffer() == self.buffer(),
    {
        match self.compute_sliced_parts(info) {
            Some((offset, shape, strides)) => ArrayBase {
                shape,
                strides,
                storage: self.storage.view(),
                offset,
                phantom: PhantomData,
            },
            None => unreached(),
        }
    }
}

impl<S: StorageMut, O: Order> ArrayBase<S, O> {
    /// The part of the array that the selectors select: a view through which
    /// the elements can be written. A copy-on-write array that still borrows
    /// its buffer first replaces it by an owned clone.
    pub fn slice_mut(&mut self, info: &SliceInfo) -> (v: ArrayBase<
        StorageBase<&mut [S::Elem]>,
        O,
    >)
        requires
            old(self).wf(),
            old(self).layout().admits(info.indices@),
        ensures
            v.wf(),
            v.layout() == old(self).layout().sliced(info.indices@),
            !old(self).handle().borrowed_cow() ==> v.buffer() == old(self).buffer(),
            old(self).handle().borrowed_cow() ==> crate::storage::cloned_seq(
                old(self).buffer(),
                v.buffer(),
            ),
            final(self).layout() == old(self).layout(),
            final(self).buffer() == final(v.handle().0)@,
    {
        match self.compute_sliced_parts(info) {
            Some((offset, shape, strides)) => ArrayBase {
                shape,
                strides,
                storage: self.storage.view_mut(),
                offset,
                phantom: PhantomData,
            },
            None => unreached(),
        }
    }
}

/// The selector list of one slice `start..` with step 1.
pub open spec fn from_start(start: isize) -> Seq<ArrayIndex> {
    seq![
        ArrayIndex::Slice(
            Slice::with_parts(crate::slice::Bound::Included(start), crate::slice::Bound::Unbounded, 1),
        ),
    ]
}

/// What the slice `start..` with step 1 makes of a layout with an axis: the
/// first axis loses its first `start` indices, or all it has, and the offset
/// moves past them. The slice can be applied where that offset is a machine
/// integer.
pub proof fn lemma_sliced_from_start(layout: Layout, start: isize)
    requires
        layout.shape.len() == layout.strides.len(),
        layout.shape.len() >= 1,
        layout.shape[0] <= isize::MAX,
        0 <= start,
    ensures
        layout.admits_axes(from_start(start)),
        layout.sliced(from_start(start)).shape == layout.shape.update(
            0,
            (layout.shape[0] - skipped(start, layout.shape[0])) as usize,
        ),
        layout.sliced(from_start(start)).strides == layout.strides,
        layout.sliced(from_start(start)).offset == layout.offset + layout.strides[0] * skipped(
            start,
            layout.shape[0],
        ),
        layout.admits(from_start(start)) <==> 0 <= layout.offset + layout.strides[0] * skipped(
            start,
            layout.shape[0],
        ) <= usize::MAX,
{
    let one = from_start(start);
    let s = Slice::with_parts(crate::slice::Bound::Included(start), crate::slice::Bound::Unbounded, 1);
    Slice::lemma_with_parts(crate::slice::Bound::Included(start), crate::slice::Bound::Unbounded, 1);
    s.lemma_parts();
    assert(one.drop_last() =~= Seq::<ArrayIndex>::empty());
    assert(one.last() == ArrayIndex::Slice(s));
    let none = layout.select(one.drop_last());
    assert(none.consumed == 0);
    assert(layout.admits_axes(one.drop_last()));
    assert(s.well_formed());
    assert(layout.strides[0] * s.step_value() == layout.strides[0]) by (nonlinear_arith)
        requires
            s.step_value() == 1,
    ;
    assert(layout.admits_one(0, ArrayIndex::Slice(s)));
    assert(layout.admits_axes(one));
    assert(layout.admits(one.drop_last()));
    let picked = layout.select(one);
    assert(picked == layout.select_one(none, ArrayIndex::Slice(s)));
    let dim = layout.shape[0] as int;
    let first = skipped(start, layout.shape[0]);
    assert(s.start_at(dim) == first);
    assert(s.end_at(dim) == dim);
    assert(s.len_at(dim) == dim - first) by {
        if dim > first {
            assert((dim - first + 1 - 1) / 1 == dim - first);
        }
    }
    assert(layout.strides[0] * 1 == layout.strides[0]);
    let out = layout.sliced(one);
    assert(out.shape =~= layout.shape.update(0, (dim - first) as usize));
    assert(out.strides =~= layout.strides);
    assert(layout.strides[0] * 0 == 0);
}

/// How many indices the slice `start..` skips on an axis of `dim` indices.
pub open spec fn skipped(start: isize, dim: usize) -> int {
    if start < dim {
        start as int
    } else {
        dim as int
    }
}

/// Slicing composes: taking `a..` of the first axis and then `b..` of what
/// is left gives the layout of taking `(a + b)..` at once, and where the two
/// slices can be applied one after the other, the one can.
pub proof fn lemma_slice_composition(layout: Layout, a: isize, b: isize)
    requires
        layout.shape.len() == layout.strides.len(),
        layout.shape.len() >= 1,
        layout.shape[0] <= isize::MAX,
        0 <= a,
        0 <= b,
        a + b <= isize::MAX,
    ensures
        layout.sliced(from_start(a)).sliced(from_start(b)) == layout.sliced(
            from_start((a + b) as isize),
        ),
        layout.admits(from_start(a)) && layout.sliced(from_start(a)).admits(from_start(b))
            ==> layout.admits(from_start((a + b) as isize)),
{
    let first = layout.sliced(from_start(a));
    lemma_sliced_from_start(layout, a);
    lemma_sliced_from_start(first, b);
    lemma_sliced_from_start(layout, (a + b) as isize);
    let both = first.sliced(from_start(b));
    let once = layout.sliced(from_start((a + b) as isize));
    assert(both.shape =~= once.shape);
    let s = layout.strides[0] as int;
    let k1 = skipped(a, layout.shape[0]);
    let k2 = skipped(b, first.shape[0]);
    assert(k1 + k2 == skipped((a + b) as isize, layout.shape[0]));
    assert(s * (k1 + k2) == s * k1 + s * k2) by (nonlinear_arith);
}

/// The selector list of one slice over a whole axis, walked backwards.
pub open spec fn backwards() -> Seq<ArrayIndex> {
    seq![
        ArrayIndex::Slice(
            Slice::with_parts(crate::slice::Bound::Unbounded, crate::slice::Bound::Unbounded, -1isize),
        ),
    ]
}

/// What the slice over the whole first axis, walked backwards, makes of a
/// layout with an axis: the stride of the axis is negated, and the offset
/// moves to its last index, if it has one.
pub proof fn lemma_sliced_backwards(layout: Layout)
    requires
        layout.shape.len() == layout.strides.len(),
        layout.shape.len() >= 1,
        layout.shape[0] <= isize::MAX,
        layout.strides[0] != isize::MIN,
    ensures
        layout.admits_axes(backwards()),
        layout.sliced(backwards()).shape == layout.shape,
        layout.sliced(backwards()).strides == layout.strides.update(
            0,
            (-layout.strides[0]) as isize,
        ),
        layout.sliced(backwards()).offset == (if layout.shape[0] == 0 {
            layout.offset
        } else {
            layout.offset + layout.strides[0] * (layout.shape[0] - 1)
        }),
{
    let one = backwards();
    let s = Slice::with_parts(crate::slice::Bound::Unbounded, crate::slice::Bound::Unbounded, -1isize);
    Slice::lemma_with_parts(crate::slice::Bound::Unbounded, crate::slice::Bound::Unbounded, -1isize);
    s.lemma_parts();
    assert(one.drop_last() =~= Seq::<ArrayIndex>::empty());
    assert(one.last() == ArrayIndex::Slice(s));
    let none = layout.select(one.drop_last());
    assert(none.consumed == 0);
    assert(layout.admits_axes(one.drop_last()));
    assert(s.well_formed());
    assert(layout.strides[0] * s.step_value() == -layout.strides[0]) by (nonlinear_arith)
        requires
            s.step_value() == -1,
    ;
    assert(layout.admits_one(0, ArrayIndex::Slice(s)));
    assert(layout.admits_axes(one));
    let picked = layout.select(one);
    assert(picked == layout.select_one(none, ArrayIndex::Slice(s)));
    let dim = layout.shape[0] as int;
    assert(s.start_at(dim) == dim - 1);
    assert(s.end_at(dim) == -1);
    assert(s.len_at(dim) == dim) by {
        if dim > 0 {
            assert((dim - 1 - (-1) + 1 - 1) / 1 == dim);
        }
    }
    let out = layout.sliced(one);
    assert(out.shape =~= layout.shape);
    assert(out.strides =~= layout.strides.update(0, (-layout.strides[0]) as isize));
    assert(layout.strides[0] * 0 == 0);
    assert(picked.offset == layout.offset + (if dim - 1 > 0 {
        layout.strides[0] * (dim - 1)
    } else {
        0
    }));
}

impl<S: Storage, O: Order> ArrayBase<S, O> {
    /// Slicing a one-dimensional array over its whole axis, walked
    /// backwards, gives its elements in reverse order.
    pub proof fn lemma_backwards_reverses<S2: Storage<Elem = S::Elem>>(
        &self,
        reversed: &ArrayBase<S2, O>,
    )
        requires
            self.wf(),
            self.dims().len() == 1,
            self.steps()[0] != isize::MIN,
            reversed.layout() == self.layout().sliced(backwards()),
            reversed.buffer() == self.buffer(),
        ensures
            reversed.elements() == self.elements().reverse(),
    {
        let layout = self.layout();
        let d = layout.shape[0] as int;
        let s = layout.strides[0] as int;
        lemma_dim_le_span(layout.shape, 0);
        lemma_sliced_backwards(layout);
        let back = reversed.layout();
        crate::layout::lemma_one_axis(layout.shape[0], layout.strides[0]);
        assert(layout.shape =~= seq![layout.shape[0]]);
        assert(layout.len() == d);
        assert forall|n: int| 0 <= n < d implies back.position(n) == layout.position(d - 1 - n) by {
            lemma_one_axis_position(layout.shape, layout.strides, n);
            lemma_one_axis_position(back.shape, back.strides, n);
            lemma_one_axis_position(layout.shape, layout.strides, d - 1 - n);
            assert(n * (-s) + s * (d - 1) == (d - 1 - n) * s) by (nonlinear_arith);
        }
        assert(reversed.elements() =~= self.elements().reverse());
    }
}

/// On a single axis, the displacement of the `n`-th multi-index is `n` times
/// the stride.
pub proof fn lemma_one_axis_position(shape: Seq<usize>, strides: Seq<isize>, n: int)
    requires
        shape.len() == 1,
        strides.len() == 1,
        0 <= n < shape[0],
    ensures
        crate::layout::dot(crate::layout::unravel(n, shape), strides) == n * strides[0],
{
    let d = shape[0] as int;
    let u = crate::layout::unravel(n, shape);
    assert(shape.drop_last() =~= Seq::<usize>::empty());
    assert(n % d == n && n / d == 0) by (nonlinear_arith)
        requires
            0 <= n < d,
    ;
    assert(shape.last() == shape[0]);
    assert(crate::layout::unravel(n / d, shape.drop_last()) =~= Seq::<int>::empty());
    assert(u == crate::layout::unravel(n / d, shape.drop_last()).push(n % d));
    assert(u =~= seq![n]);
    let terms = crate::layout::dot_terms(u, strides);
    assert(terms.drop_last() =~= Seq::<int>::empty());
    assert(sum(terms) == sum(terms.drop_last()) + terms.last());
}

} // verus!
