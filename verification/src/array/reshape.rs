//! The reshape engine: giving an array another shape of the same size, by
//! reinterpreting its strides where its layout allows and by copying its
//! elements where it does not.

use vstd::prelude::*;
use core::marker::PhantomData;
use crate::array::ArrayBase;
use crate::error::{Error, ShapeError};
use crate::layout::{
    array_len, dot, dot_terms, high_terms, highest, lemma_array_len_push, lemma_array_len_zero,
    lemma_default_extents, lemma_span_bounds, lemma_span_of_nonempty, low_terms, lowest, reach,
    span, sum, unravel, widened, Layout,
};
use crate::order::{
    aligned_at, aligned_monotonically, default_stride, default_strides_of, is_default_strides,
    lemma_default_strides_of, lemma_span_skip_step, lemma_span_take_step, strides_fit, Order,
};
use crate::routine::{axis_in_range, normalized_axis};
use crate::shape::SignedShape;
use crate::storage::{cloned_seq, CowBuffer, Storage, StorageBase, StorageOwned};

verus! {

/// How many sizes of a requested shape are left open.
pub open spec fn open_sizes(shape: Seq<isize>) -> nat
    decreases shape.len(),
{
    if shape.len() == 0 {
        0
    } else {
        open_sizes(shape.drop_last()) + if shape.last() < 0 {
            1nat
        } else {
            0nat
        }
    }
}

/// A requested shape with `value` in place of every size left open.
pub open spec fn filled_in(shape: Seq<isize>, value: int) -> Seq<usize> {
    Seq::new(shape.len(), |k: int| if shape[k] < 0 { value as usize } else { shape[k] as usize })
}

/// The shape that a requested shape stands for in an array of `len`
/// elements. At most one size may be left open; it is the element count
/// divided by the product of the others, which must not be zero. The shape
/// must have `len` elements, and a span that is a machine integer.
pub open spec fn resolved_shape(shape: Seq<isize>, len: nat) -> Option<Seq<usize>> {
    let rest = array_len(filled_in(shape, 1));
    if open_sizes(shape) > 1 || (open_sizes(shape) == 1 && rest == 0) {
        None
    } else {
        let resolved = filled_in(
            shape,
            if open_sizes(shape) == 1 {
                len as int / rest as int
            } else {
                0
            },
        );
        if array_len(resolved) == len && span(resolved) <= isize::MAX {
            Some(resolved)
        } else {
            None
        }
    }
}

/// The sizes of the axes that have more than one index or none.
pub open spec fn squeezed_shape(shape: Seq<usize>) -> Seq<usize>
    decreases shape.len(),
{
    if shape.len() == 0 {
        Seq::empty()
    } else if shape.last() == 1 {
        squeezed_shape(shape.drop_last())
    } else {
        squeezed_shape(shape.drop_last()).push(shape.last())
    }
}

/// The strides of the axes that have more than one index or none.
pub open spec fn squeezed_strides(shape: Seq<usize>, strides: Seq<isize>) -> Seq<isize>
    decreases shape.len(),
{
    if shape.len() == 0 || strides.len() == 0 {
        Seq::empty()
    } else if shape.last() == 1 {
        squeezed_strides(shape.drop_last(), strides.drop_last())
    } else {
        squeezed_strides(shape.drop_last(), strides.drop_last()).push(strides.last())
    }
}

impl Layout {
    /// The layout without its axes of size 1. A layout of one element
    /// collapses to one axis of size 1 and stride 1.
    pub open spec fn collapsed(self) -> Layout {
        if self.len() == 1 {
            Layout { shape: seq![1usize], strides: seq![1isize], offset: self.offset }
        } else {
            Layout {
                shape: squeezed_shape(self.shape),
                strides: squeezed_strides(self.shape, self.strides),
                offset: self.offset,
            }
        }
    }

    /// The stride of the axis that varies fastest.
    pub open spec fn innermost(self, row_major: bool) -> isize {
        if row_major {
            self.strides.last()
        } else {
            self.strides[0]
        }
    }

    /// The strides under which the buffer can be read in the shape `target`
    /// without moving an element, if there are any: the canonical strides of
    /// the target order, scaled by the innermost stride of the collapsed
    /// layout, where that layout is aligned in the target order. An empty
    /// layout takes the canonical strides.
    pub open spec fn restrided(self, to_row_major: bool, target: Seq<usize>) -> Option<
        Seq<isize>,
    > {
        if self.len() == 0 {
            Some(default_strides_of(to_row_major, target, 1))
        } else {
            let c = self.collapsed();
            let base = c.innermost(to_row_major);
            if aligned_monotonically(to_row_major, c.shape, c.strides) && strides_fit(
                target,
                base as int,
            ) {
                Some(default_strides_of(to_row_major, target, base as int))
            } else {
                None
            }
        }
    }

    /// The layout in the shape `target` over the same buffer, if there is
    /// one: the layout itself where shape and order stay, else the layout
    /// with the strides under which the buffer can be read in that shape.
    pub open spec fn reshaped(self, same_order: bool, to_row_major: bool, target: Seq<usize>) -> Option<
        Layout,
    > {
        if same_order && target == self.shape {
            Some(self)
        } else {
            match self.restrided(to_row_major, target) {
                Some(strides) => Some(Layout { shape: target, strides, offset: self.offset }),
                None => None,
            }
        }
    }
}

/// Dropping the axes of size 1 changes neither the element count nor the
/// extremes of a layout, and leaves no axis of size 1.
pub proof fn lemma_squeezed(shape: Seq<usize>, strides: Seq<isize>)
    requires
        shape.len() == strides.len(),
    ensures
        squeezed_shape(shape).len() == squeezed_strides(shape, strides).len(),
        array_len(squeezed_shape(shape)) == array_len(shape),
        lowest(squeezed_shape(shape), squeezed_strides(shape, strides)) == lowest(shape, strides),
        highest(squeezed_shape(shape), squeezed_strides(shape, strides)) == highest(
            shape,
            strides,
        ),
        forall|k: int| 0 <= k < squeezed_shape(shape).len() ==> squeezed_shape(shape)[k] != 1,
    decreases shape.len(),
{
    let lo = low_terms(shape, strides);
    let hi = high_terms(shape, strides);
    if shape.len() > 0 {
        let init = shape.drop_last();
        let init_s = strides.drop_last();
        lemma_squeezed(init, init_s);
        assert(lo.drop_last() =~= low_terms(init, init_s));
        assert(hi.drop_last() =~= high_terms(init, init_s));
        let q = squeezed_shape(init);
        let qs = squeezed_strides(init, init_s);
        if shape.last() == 1 {
            assert(reach(shape.last(), strides.last()) == 0) by (nonlinear_arith)
                requires
                    shape.last() == 1,
                    reach(shape.last(), strides.last()) == (shape.last() - 1) * strides.last(),
            ;
            assert(array_len(shape) == array_len(init) * 1);
        } else {
            lemma_array_len_push(q, shape.last());
            let slo = low_terms(q.push(shape.last()), qs.push(strides.last()));
            let shi = high_terms(q.push(shape.last()), qs.push(strides.last()));
            assert(slo.drop_last() =~= low_terms(q, qs));
            assert(shi.drop_last() =~= high_terms(q, qs));
            assert(sum(slo) == sum(slo.drop_last()) + slo.last());
            assert(sum(shi) == sum(shi.drop_last()) + shi.last());
        }
    } else {
        assert(lo =~= Seq::<int>::empty());
        assert(hi =~= Seq::<int>::empty());
    }
}

/// A layout that is aligned in an order has the canonical strides of that
/// order, scaled by its innermost stride.
pub proof fn lemma_aligned_is_default(row_major: bool, shape: Seq<usize>, strides: Seq<isize>)
    requires
        shape.len() == strides.len(),
        shape.len() > 0,
        array_len(shape) > 0,
        aligned_monotonically(row_major, shape, strides),
    ensures
        is_default_strides(
            row_major,
            shape,
            (Layout { shape, strides, offset: 0 }).innermost(row_major) as int,
            strides,
        ),
{
    let n = shape.len() as int;
    lemma_array_len_zero(shape);
    if row_major {
        let base = strides.last() as int;
        assert(shape.skip(n) =~= Seq::<usize>::empty());
        assert(widened(Seq::<usize>::empty()) =~= Seq::<usize>::empty());
        lemma_aligned_row(shape, strides, 0);
    } else {
        let base = strides[0] as int;
        assert(shape.take(0) =~= Seq::<usize>::empty());
        assert(widened(Seq::<usize>::empty()) =~= Seq::<usize>::empty());
        lemma_aligned_column(shape, strides, n - 1);
    }
}

/// In a layout aligned in row-major order, every axis from `m` on has the
/// canonical stride.
proof fn lemma_aligned_row(shape: Seq<usize>, strides: Seq<isize>, m: int)
    requires
        shape.len() == strides.len(),
        0 <= m < shape.len(),
        forall|k: int| 0 <= k < shape.len() ==> shape[k] != 0,
        aligned_monotonically(true, shape, strides),
    ensures
        forall|k: int|
            m <= k < shape.len() ==> #[trigger] strides[k] == default_stride(
                true,
                shape,
                strides.last() as int,
                k,
            ),
    decreases shape.len() - m,
{
    let n = shape.len() as int;
    let base = strides.last() as int;
    if m == n - 1 {
        assert(shape.skip(n) =~= Seq::<usize>::empty());
        assert(widened(Seq::<usize>::empty()) =~= Seq::<usize>::empty());
        assert(span(shape.skip(m + 1)) == 1);
        assert(base * 1 == base);
    } else {
        lemma_aligned_row(shape, strides, m + 1);
        lemma_span_skip_step(shape, m + 1);
        assert(aligned_at(true, shape, strides, m));
        assert(strides[m] == strides[m + 1] * shape[m + 1]);
        assert(strides[m + 1] == default_stride(true, shape, base, m + 1));
        let rest = span(shape.skip(m + 2)) as int;
        let d = shape[m + 1] as int;
        assert((base * rest) * d == base * (d * rest)) by (nonlinear_arith);
    }
}

/// In a layout aligned in column-major order, every axis up to `m` has the
/// canonical stride.
proof fn lemma_aligned_column(shape: Seq<usize>, strides: Seq<isize>, m: int)
    requires
        shape.len() == strides.len(),
        0 <= m < shape.len(),
        forall|k: int| 0 <= k < shape.len() ==> shape[k] != 0,
        aligned_monotonically(false, shape, strides),
    ensures
        forall|k: int|
            0 <= k <= m ==> #[trigger] strides[k] == default_stride(
                false,
                shape,
                strides[0] as int,
                k,
            ),
    decreases m,
{
    let base = strides[0] as int;
    if m == 0 {
        assert(shape.take(0) =~= Seq::<usize>::empty());
        assert(widened(Seq::<usize>::empty()) =~= Seq::<usize>::empty());
        assert(span(shape.take(0)) == 1);
        assert(base * 1 == base);
    } else {
        lemma_aligned_column(shape, strides, m - 1);
        lemma_span_take_step(shape, m - 1);
        assert(aligned_at(false, shape, strides, m));
        assert(strides[m] == strides[m - 1] * shape[m - 1]);
        assert(strides[m - 1] == default_stride(false, shape, base, m - 1));
        let rest = span(shape.take(m - 1)) as int;
        let d = shape[m - 1] as int;
        assert((base * rest) * d == base * (rest * d)) by (nonlinear_arith);
    }
}

/// Reading the buffer of a well-formed layout in another shape of the same
/// size, under the strides that allow it, is well formed.
pub proof fn lemma_restrided_wf(layout: Layout, limit: int, to_row_major: bool, target: Seq<usize>)
    requires
        layout.wf(limit),
        array_len(target) == layout.len(),
        span(target) <= isize::MAX,
        layout.restrided(to_row_major, target) is Some,
    ensures
        (Layout {
            shape: target,
            strides: layout.restrided(to_row_major, target)->Some_0,
            offset: layout.offset,
        }).wf(limit),
        layout.len() > 0 ==> layout.collapsed().shape.len() == layout.collapsed().strides.len()
            && layout.collapsed().shape.len() > 0,
{
    let strides = layout.restrided(to_row_major, target)->Some_0;
    if layout.len() > 0 {
        let c = layout.collapsed();
        let base = c.innermost(to_row_major) as int;
        lemma_collapsed(layout);
        lemma_aligned_is_default(to_row_major, c.shape, c.strides);
        lemma_default_extents(to_row_major, c.shape, base, c.strides);
        lemma_default_strides_of(to_row_major, target, base, strides);
        lemma_default_extents(to_row_major, target, base, strides);
    } else {
        assert(strides.len() == target.len());
    }
}

/// The collapsed layout has the element count and the extremes of the layout,
/// and at least one axis where the layout is not empty.
pub proof fn lemma_collapsed(layout: Layout)
    requires
        layout.shape.len() == layout.strides.len(),
        layout.len() > 0,
    ensures
        layout.collapsed().shape.len() == layout.collapsed().strides.len(),
        layout.collapsed().shape.len() > 0,
        layout.collapsed().len() == layout.len(),
        lowest(layout.collapsed().shape, layout.collapsed().strides) == lowest(
            layout.shape,
            layout.strides,
        ),
        highest(layout.collapsed().shape, layout.collapsed().strides) == highest(
            layout.shape,
            layout.strides,
        ),
{
    lemma_squeezed(layout.shape, layout.strides);
    if layout.len() == 1 {
        crate::layout::lemma_one_axis(1, 1);
        let q = squeezed_shape(layout.shape);
        lemma_array_len_zero(q);
        // Without an empty axis and without an axis of one index, a layout of
        // one element has no axis at all.
        if q.len() > 0 {
            crate::layout::lemma_array_len_split(q, 1);
            crate::layout::lemma_array_len_first(q);
            let a = q[0] as nat;
            let b = array_len(q.skip(1));
            assert(q[0] != 0 && q[0] != 1);
            assert(false) by (nonlinear_arith)
                requires
                    a * b == 1,
                    a >= 2,
            ;
        }
        assert(low_terms(q, squeezed_strides(layout.shape, layout.strides)) =~= Seq::<
            int,
        >::empty());
        assert(high_terms(q, squeezed_strides(layout.shape, layout.strides)) =~= Seq::<
            int,
        >::empty());
        assert(reach(1, 1) == 0);
    } else {
        let q = squeezed_shape(layout.shape);
        if q.len() == 0 {
            assert(array_len(q) == 1);
        }
    }
}

/// A shape as a requested shape with no size left open.
pub open spec fn signed(shape: Seq<usize>) -> Seq<isize> {
    Seq::new(shape.len(), |k: int| shape[k] as isize)
}

/// A requested shape has no more sizes left open than any longer one that it
/// begins.
pub proof fn lemma_open_sizes_prefix(shape: Seq<isize>, k: int)
    requires
        0 <= k <= shape.len(),
    ensures
        open_sizes(shape.take(k)) <= open_sizes(shape),
        open_sizes(shape.take(k)) <= k,
    decreases shape.len() - k,
{
    lemma_open_sizes_count(shape.take(k));
    if k < shape.len() {
        lemma_open_sizes_prefix(shape, k + 1);
        assert(shape.take(k + 1).drop_last() =~= shape.take(k));
    } else {
        assert(shape.take(k) =~= shape);
    }
}

/// A requested shape has at most as many sizes left open as it has sizes.
pub proof fn lemma_open_sizes_count(shape: Seq<isize>)
    ensures
        open_sizes(shape) <= shape.len(),
    decreases shape.len(),
{
    if shape.len() > 0 {
        lemma_open_sizes_count(shape.drop_last());
    }
}

/// The shape of a well-formed layout, requested with no size left open,
/// resolves to itself.
pub proof fn lemma_resolved_signed(shape: Seq<usize>)
    requires
        span(shape) <= isize::MAX,
    ensures
        resolved_shape(signed(shape), array_len(shape)) == Some(shape),
        open_sizes(signed(shape)) == 0,
{
    lemma_open_sizes_signed(shape, shape.len() as int);
    assert(signed(shape).take(shape.len() as int) =~= signed(shape));
    assert forall|k: int| 0 <= k < shape.len() implies shape[k] <= isize::MAX by {
        crate::array::slicing::lemma_dim_le_span(shape, k);
    }
    assert(filled_in(signed(shape), 0) =~= shape);
}

/// A shape requested with no size left open has no size left open.
proof fn lemma_open_sizes_signed(shape: Seq<usize>, k: int)
    requires
        0 <= k <= shape.len(),
        span(shape) <= isize::MAX,
    ensures
        open_sizes(signed(shape).take(k)) == 0,
    decreases k,
{
    if k > 0 {
        lemma_open_sizes_signed(shape, k - 1);
        assert(signed(shape).take(k).drop_last() =~= signed(shape).take(k - 1));
        crate::array::slicing::lemma_dim_le_span(shape, k - 1);
    }
}

/// Whatever stands in place of the sizes left open, the span is at least
/// what it is with 1 in their place.
pub proof fn lemma_filled_in_span(shape: Seq<isize>, value: int)
    ensures
        span(filled_in(shape, 1)) <= span(filled_in(shape, value)),
{
    let a = widened(filled_in(shape, 1));
    let b = widened(filled_in(shape, value));
    crate::layout::lemma_array_len_le(a, b);
}

/// Inserting an axis multiplies the element count by its size.
pub proof fn lemma_array_len_insert(shape: Seq<usize>, at: int, size: usize)
    requires
        0 <= at <= shape.len(),
    ensures
        array_len(shape.insert(at, size)) == array_len(shape) * (size as nat),
{
    let wide = shape.insert(at, size);
    crate::permutation::lemma_array_len_remove(wide, at);
    assert(wide.remove(at) =~= shape);
    assert(wide[at] == size);
}

/// Inserting an axis of size 1 changes neither the element count nor the
/// span of a shape.
pub proof fn lemma_insert_unit_axis(shape: Seq<usize>, at: int)
    requires
        0 <= at <= shape.len(),
    ensures
        array_len(shape.insert(at, 1)) == array_len(shape),
        span(shape.insert(at, 1)) == span(shape),
{
    lemma_array_len_insert(shape, at, 1);
    lemma_array_len_insert(widened(shape), at, 1);
    assert(widened(shape.insert(at, 1)) =~= widened(shape).insert(at, 1));
    let x = array_len(shape);
    let y = array_len(widened(shape));
    assert(x * 1 == x && y * 1 == y) by (nonlinear_arith);
}

impl<S: Storage, O: Order> ArrayBase<S, O> {
    /// Whether `out` is this array in the requested shape, laid out for an
    /// order that has the last axis vary fastest or not: it has the shape
    /// that the request resolves to; where the layout allows it, it reads the
    /// same buffer, else its buffer holds clones of the elements in logical
    /// order, under the canonical strides of the order `O`.
    pub open spec fn reshapes_to<S2: Storage<Elem = S::Elem>, O2: Order>(
        &self,
        requested: Seq<isize>,
        to_row_major: bool,
        out: &ArrayBase<S2, O2>,
    ) -> bool {
        &&& out.wf()
        &&& resolved_shape(requested, self.layout().len()) == Some(out.dims())
        &&& match self.reshaped_layout(requested, to_row_major, out.dims()) {
            Some(layout) => out.layout() == layout && out.buffer() == self.buffer(),
            None => cloned_seq(self.elements(), out.buffer()) && out.origin() == 0
                && is_default_strides(O::row_major(), out.dims(), 1, out.steps()),
        }
    }

    /// The layout of this array in the shape `target` over the same buffer,
    /// if there is one. The layout stays as it is where the request names
    /// the shape of the array and the order does not change.
    pub open spec fn reshaped_layout(
        &self,
        requested: Seq<isize>,
        to_row_major: bool,
        target: Seq<usize>,
    ) -> Option<Layout> {
        self.layout().reshaped(
            to_row_major == O::row_major() && requested == signed(self.dims()),
            to_row_major,
            target,
        )
    }

    /// The shape that a requested shape stands for in this array: a size
    /// left open is filled in. More than one size left open, one that cannot
    /// be filled in, and a shape of another element count are errors.
    pub fn infer_shape(&self, shape: &[isize]) -> (r: Result<Vec<usize>, Error>)
        requires
            self.wf(),
        ensures
            r is Ok <==> resolved_shape(shape@, self.layout().len()) is Some,
            r matches Ok(out) ==> resolved_shape(shape@, self.layout().len()) == Some(out@),
            r matches Err(e) ==> e.is_shape(),
    {
        let len: usize = self.len();
        let n: usize = shape.len();
        let mut open: bool = false;
        let mut known: Vec<usize> = Vec::new();
        let mut k: usize = 0;
        proof {
            assert(shape@.take(0) =~= Seq::<isize>::empty());
        }
        while k < n
            invariant
                k <= n,
                n == shape@.len(),
                known@ == filled_in(shape@.take(k as int), 1),
                open_sizes(shape@.take(k as int)) == (if open { 1nat } else { 0nat }),
            decreases n - k,
        {
            proof {
                assert(shape@.take(k + 1).drop_last() =~= shape@.take(k as int));
                lemma_open_sizes_prefix(shape@, k + 1);
            }
            if shape[k] < 0 {
                if open {
                    return Err(
                        Error::Shape(
                            ShapeError::IncompatibleShape(
                                "can only specify one unknown dimension".to_owned(),
                            ),
                        ),
                    );
                }
                open = true;
                known.push(1);
            } else {
                known.push(shape[k] as usize);
            }
            proof {
                assert(known@ =~= filled_in(shape@.take(k + 1), 1));
            }
            k = k + 1;
        }
        proof {
            assert(shape@.take(n as int) =~= shape@);
        }
        if !crate::shape::span_fits(known.as_slice()) {
            proof {
                let rest = array_len(filled_in(shape@, 1));
                lemma_filled_in_span(shape@, if open { len as int / rest as int } else { 0 });
            }
            return Err(
                Error::Shape(
                    ShapeError::IncompatibleShape(crate::message::cannot_transform(len, shape)),
                ),
            );
        }
        proof {
            lemma_span_bounds(known@);
        }
        let rest: usize = crate::shape::array_len_of(known.as_slice());
        if open && rest == 0 {
            return Err(
                Error::Shape(
                    ShapeError::IncompatibleShape(crate::message::cannot_transform(len, shape)),
                ),
            );
        }
        let value: usize = if open {
            len / rest
        } else {
            0
        };
        let mut inferred: Vec<usize> = Vec::new();
        let mut k: usize = 0;
        while k < n
            invariant
                k <= n,
                n == shape@.len(),
                inferred@ == filled_in(shape@.take(k as int), value as int),
            decreases n - k,
        {
            if shape[k] < 0 {
                inferred.push(value);
            } else {
                inferred.push(shape[k] as usize);
            }
            proof {
                assert(inferred@ =~= filled_in(shape@.take(k + 1), value as int));
            }
            k = k + 1;
        }
        proof {
            assert(shape@.take(n as int) =~= shape@);
        }
        let fits: bool = match crate::shape::checked_array_len(inferred.as_slice()) {
            Some(m) => m == len && crate::shape::span_fits(inferred.as_slice()),
            None => false,
        };
        if !fits {
            return Err(
                Error::Shape(
                    ShapeError::IncompatibleShape(crate::message::cannot_transform(len, shape)),
                ),
            );
        }
        Ok(inferred)
    }

    /// The strides under which the buffer can be read in the shape `shape`
    /// in the order `O2` without moving an element, if there are any.
    pub fn compute_strides_reshaped<O2: Order>(&self, shape: &[usize]) -> (r: Option<Vec<isize>>)
        requires
            self.wf(),
            array_len(shape@) == self.layout().len(),
            span(shape@) <= isize::MAX,
        ensures
            r is Some <==> self.layout().restrided(O2::row_major(), shape@) is Some,
            r matches Some(strides) ==> self.layout().restrided(O2::row_major(), shape@) == Some(
                strides@,
            ),
    {
        let ghost layout = self.layout();
        let len: usize = self.len();
        if len == 0 {
            let strides = crate::shape::default_strides::<O2>(shape);
            proof {
                lemma_default_strides_of(O2::row_major(), shape@, 1, strides@);
            }
            return Some(strides);
        }
        let mut r_shape: Vec<usize> = Vec::new();
        let mut r_strides: Vec<isize> = Vec::new();
        if len == 1 {
            r_shape.push(1);
            r_strides.push(1);
        } else {
            let n: usize = self.shape.len();
            let mut k: usize = 0;
            proof {
                assert(self.dims().take(0) =~= Seq::<usize>::empty());
                assert(self.steps().take(0) =~= Seq::<isize>::empty());
            }
            while k < n
                invariant
                    k <= n,
                    n == self.dims().len(),
                    n == self.steps().len(),
                    r_shape@ == squeezed_shape(self.dims().take(k as int)),
                    r_strides@ == squeezed_strides(
                        self.dims().take(k as int),
                        self.steps().take(k as int),
                    ),
                decreases n - k,
            {
                proof {
                    assert(self.dims().take(k + 1).drop_last() =~= self.dims().take(k as int));
                    assert(self.steps().take(k + 1).drop_last() =~= self.steps().take(k as int));
                }
                if self.shape[k] != 1 {
                    r_shape.push(self.shape[k]);
                    r_strides.push(self.strides[k]);
                }
                k = k + 1;
            }
            proof {
                assert(self.dims().take(n as int) =~= self.dims());
                assert(self.steps().take(n as int) =~= self.steps());
            }
        }
        proof {
            lemma_collapsed(layout);
            assert(r_shape@ =~= layout.collapsed().shape);
            assert(r_strides@ =~= layout.collapsed().strides);
            lemma_span_of_nonempty(shape@);
        }
        let aligned: bool = O2::is_data_aligned_monotonically(
            r_shape.as_slice(),
            r_strides.as_slice(),
        );
        let base: isize = if O2::is_row_major() {
            r_strides[r_strides.len() - 1]
        } else {
            r_strides[0]
        };
        let scaled: i128 = crate::arith::mul_stride(base, len);
        if aligned && isize::MIN as i128 <= scaled && scaled <= isize::MAX as i128 {
            let mut strides: Vec<isize> = crate::dimension::filled(shape.len(), 0isize);
            O2::convert_shape_to_strides(shape, base, strides.as_mut_slice());
            proof {
                lemma_default_strides_of(O2::row_major(), shape@, base as int, strides@);
            }
            Some(strides)
        } else {
            None
        }
    }

    /// Whether a requested shape names the shape of the array, size by size.
    fn names_own_shape(&self, shape: &[isize]) -> (b: bool)
        requires
            self.wf(),
        ensures
            b == (shape@ == signed(self.dims())),
    {
        let n: usize = self.shape.len();
        if shape.len() != n {
            return false;
        }
        let mut k: usize = 0;
        while k < n
            invariant
                k <= n,
                n == self.dims().len(),
                n == shape@.len(),
                self.wf(),
                forall|j: int| 0 <= j < k ==> shape@[j] == signed(self.dims())[j],
            decreases n - k,
        {
            proof {
                crate::array::slicing::lemma_dim_le_span(self.dims(), k as int);
            }
            if self.shape[k] as isize != shape[k] {
                return false;
            }
            k = k + 1;
        }
        proof {
            assert(shape@ =~= signed(self.dims()));
        }
        true
    }

    /// The array in the requested shape, laid out for the order `O2`: a
    /// borrow of the buffer where the layout allows it, else an owned copy.
    pub fn to_shape_with_order<Sh: SignedShape, O2: Order>(&self, shape: Sh) -> (r: Result<
        ArrayBase<StorageBase<CowBuffer<'_, S::Elem>>, O2>,
        Error,
    >)
        requires
            self.wf(),
        ensures
            r is Ok <==> resolved_shape(shape.dims(), self.layout().len()) is Some,
            r matches Ok(a) ==> self.reshapes_to(shape.dims(), O2::row_major(), &a) && (a.handle().0
                is Borrowed <==> self.reshaped_layout(shape.dims(), O2::row_major(), a.dims())
                is Some),
            r matches Err(e) ==> e.is_shape(),
    {
        let requested = shape.as_slice();
        if O::is_row_major() == O2::is_row_major() && self.names_own_shape(requested) {
            proof {
                lemma_resolved_signed(self.dims());
            }
            return Ok(
                ArrayBase {
                    shape: self.shape.clone(),
                    strides: self.strides.clone(),
                    storage: self.storage.cow(),
                    offset: self.offset,
                    phantom: PhantomData,
                },
            );
        }
        let out_shape: Vec<usize> = match self.infer_shape(requested) {
            Ok(out_shape) => out_shape,
            Err(e) => {
                return Err(e);
            },
        };
        match self.compute_strides_reshaped::<O2>(out_shape.as_slice()) {
            Some(out_strides) => {
                proof {
                    lemma_restrided_wf(
                        self.layout(),
                        self.buffer().len() as int,
                        O2::row_major(),
                        out_shape@,
                    );
                }
                Ok(
                    ArrayBase {
                        shape: out_shape,
                        strides: out_strides,
                        storage: self.storage.cow(),
                        offset: self.offset,
                        phantom: PhantomData,
                    },
                )
            },
            None => {
                let strides = crate::shape::default_strides::<O>(out_shape.as_slice());
                let data = self.to_vec();
                let a = ArrayBase {
                    shape: out_shape,
                    strides,
                    storage: StorageBase(CowBuffer::Owned(data)),
                    offset: 0,
                    phantom: PhantomData,
                };
                proof {
                    lemma_span_bounds(self.dims());
                    lemma_default_extents(O::row_major(), a.dims(), 1, a.steps());
                }
                Ok(a)
            },
        }
    }

    /// The array in the requested shape: a borrow of the buffer where the
    /// layout allows it, else an owned copy.
    pub fn to_shape<Sh: SignedShape>(&self, shape: Sh) -> (r: Result<
        ArrayBase<StorageBase<CowBuffer<'_, S::Elem>>, O>,
        Error,
    >)
        requires
            self.wf(),
        ensures
            r is Ok <==> resolved_shape(shape.dims(), self.layout().len()) is Some,
            r matches Ok(a) ==> self.reshapes_to(shape.dims(), O::row_major(), &a) && (a.handle().0
                is Borrowed <==> self.reshaped_layout(shape.dims(), O::row_major(), a.dims())
                is Some),
            r matches Err(e) ==> e.is_shape(),
    {
        self.to_shape_with_order::<Sh, O>(shape)
    }

    /// The array with an axis of size 1 inserted at `axis`, which counts from
    /// the back where negative: a borrow of the buffer where the layout
    /// allows it, else an owned copy. An axis outside the new rank is an
    /// error.
    pub fn expand_shape(&self, axis: isize) -> (r: Result<
        ArrayBase<StorageBase<CowBuffer<'_, S::Elem>>, O>,
        Error,
    >)
        requires
            self.wf(),
        ensures
            r is Ok <==> axis_in_range(axis as int, self.dims().len() as int + 1),
            r matches Ok(a) ==> {
                let at = normalized_axis(axis as int, self.dims().len() as int + 1);
                &&& a.dims() == self.dims().insert(at, 1)
                &&& self.reshapes_to(signed(self.dims().insert(at, 1)), O::row_major(), &a)
                &&& (a.handle().0 is Borrowed <==> self.reshaped_layout(
                    signed(self.dims().insert(at, 1)),
                    O::row_major(),
                    a.dims(),
                ) is Some)
            },
            r matches Err(e) ==> e.is_axis(),
    {
        let n: usize = self.shape.len();
        let wide: i128 = n as i128 + 1;
        let a: i128 = axis as i128;
        if a < -wide || a >= wide {
            return Err(
                Error::Shape(
                    ShapeError::IncompatibleAxis(crate::message::axis_out_of_bounds(a, n)),
                ),
            );
        }
        let at: usize = if a < 0 {
            (a + wide) as usize
        } else {
            a as usize
        };
        let ghost target = self.dims().insert(at as int, 1);
        let mut out_shape: Vec<isize> = Vec::new();
        let mut k: usize = 0;
        while k < n
            invariant
                k <= n,
                at <= n,
                n == self.dims().len(),
                self.wf(),
                target == self.dims().insert(at as int, 1),
                out_shape@ == signed(target).take(if k <= at { k as int } else { k + 1 }),
            decreases n - k,
        {
            proof {
                crate::array::slicing::lemma_dim_le_span(self.dims(), k as int);
            }
            if k == at {
                out_shape.push(1);
            }
            out_shape.push(self.shape[k] as isize);
            proof {
                assert(out_shape@ =~= signed(target).take(if k + 1 <= at { k + 1 } else { k + 2 }));
            }
            k = k + 1;
        }
        if at == n {
            out_shape.push(1);
        }
        proof {
            assert(out_shape@ =~= signed(target));
            lemma_insert_unit_axis(self.dims(), at as int);
            lemma_resolved_signed(target);
        }
        self.to_shape(out_shape)
    }
}

impl<S: StorageOwned, O: Order> ArrayBase<S, O> {
    /// The array in the requested shape, laid out for the order `O2`: the
    /// array itself with other strides where the layout allows it, else an
    /// array that owns a copy of the elements.
    pub fn into_shape_with_order<Sh: SignedShape, O2: Order>(self, shape: Sh) -> (r: Result<
        ArrayBase<S, O>,
        Error,
    >)
        requires
            self.wf(),
        ensures
            r is Ok <==> resolved_shape(shape.dims(), self.layout().len()) is Some,
            r matches Ok(a) ==> self.reshapes_to(shape.dims(), O2::row_major(), &a) && (
            self.reshaped_layout(shape.dims(), O2::row_major(), a.dims()) is Some ==> a.handle()
                == self.handle()),
            r matches Err(e) ==> e.is_shape(),
    {
        let requested = shape.as_slice();
        if O::is_row_major() == O2::is_row_major() && self.names_own_shape(requested) {
            proof {
                lemma_resolved_signed(self.dims());
            }
            return Ok(self);
        }
        let out_shape: Vec<usize> = match self.infer_shape(requested) {
            Ok(out_shape) => out_shape,
            Err(e) => {
                return Err(e);
            },
        };
        match self.compute_strides_reshaped::<O2>(out_shape.as_slice()) {
            Some(out_strides) => {
                proof {
                    lemma_restrided_wf(
                        self.layout(),
                        self.buffer().len() as int,
                        O2::row_major(),
                        out_shape@,
                    );
                }
                Ok(
                    ArrayBase {
                        shape: out_shape,
                        strides: out_strides,
                        storage: self.storage,
                        offset: self.offset,
                        phantom: PhantomData,
                    },
                )
            },
            None => {
                let strides = crate::shape::default_strides::<O>(out_shape.as_slice());
                let data = self.to_vec();
                let a = ArrayBase {
                    shape: out_shape,
                    strides,
                    storage: S::from_vec(data),
                    offset: 0,
                    phantom: PhantomData,
                };
                proof {
                    lemma_span_bounds(self.dims());
                    lemma_default_extents(O::row_major(), a.dims(), 1, a.steps());
                }
                Ok(a)
            },
        }
    }

    /// The array in the requested shape: the array itself with other strides
    /// where the layout allows it, else an array that owns a copy of the
    /// elements.
    pub fn into_shape<Sh: SignedShape>(self, shape: Sh) -> (r: Result<ArrayBase<S, O>, Error>)
        requires
            self.wf(),
        ensures
            r is Ok <==> resolved_shape(shape.dims(), self.layout().len()) is Some,
            r matches Ok(a) ==> self.reshapes_to(shape.dims(), O::row_major(), &a) && (
            self.reshaped_layout(shape.dims(), O::row_major(), a.dims()) is Some ==> a.handle()
                == self.handle()),
            r matches Err(e) ==> e.is_shape(),
    {
        self.into_shape_with_order::<Sh, O>(shape)
    }
}

/// Dropping the axes of size 1 does not move an element: the `n`-th
/// multi-index has the same displacement with and without them.
pub proof fn lemma_squeezed_position(shape: Seq<usize>, strides: Seq<isize>, n: int)
    requires
        shape.len() == strides.len(),
        0 <= n < array_len(shape),
    ensures
        dot(unravel(n, shape), strides) == dot(
            unravel(n, squeezed_shape(shape)),
            squeezed_strides(shape, strides),
        ),
    decreases shape.len(),
{
    let u = unravel(n, shape);
    let terms = dot_terms(u, strides);
    let q = squeezed_shape(shape);
    let qs = squeezed_strides(shape, strides);
    lemma_squeezed(shape, strides);
    crate::layout::lemma_unravel_is_index(n, shape);
    crate::layout::lemma_unravel_is_index(n, q);
    if shape.len() == 0 {
        assert(terms =~= dot_terms(unravel(n, q), qs));
    } else {
        let init = shape.drop_last();
        let init_s = strides.drop_last();
        let d = shape.last() as int;
        let a = array_len(init) as int;
        assert(a > 0 && d > 0) by (nonlinear_arith)
            requires
                a * d > 0,
                d >= 0,
                a >= 0,
        ;
        vstd::arithmetic::div_mod::lemma_fundamental_div_mod(n, d);
        vstd::arithmetic::div_mod::lemma_mod_bound(n, d);
        assert(0 <= n / d < a) by (nonlinear_arith)
            requires
                n == d * (n / d) + n % d,
                0 <= n % d < d,
                0 <= n < a * d,
        ;
        lemma_squeezed(init, init_s);
        lemma_squeezed_position(init, init_s, n / d);
        crate::layout::lemma_unravel_is_index(n / d, init);
        assert(u == unravel(n / d, init).push(n % d));
        assert(terms.drop_last() =~= dot_terms(unravel(n / d, init), init_s));
        assert(sum(terms) == sum(terms.drop_last()) + terms.last());
        assert(terms.last() == (n % d) * strides.last());
        if d == 1 {
            assert(n / d == n && n % d == 0);
            assert(0 * strides.last() == 0);
        } else {
            let inner = squeezed_shape(init);
            let inner_s = squeezed_strides(init, init_s);
            assert(q == inner.push(shape.last()));
            assert(qs == inner_s.push(strides.last()));
            assert(q.drop_last() =~= inner);
            assert(qs.drop_last() =~= inner_s);
            crate::layout::lemma_unravel_is_index(n / d, inner);
            let v = unravel(n, q);
            assert(v == unravel(n / d, inner).push(n % d));
            let vt = dot_terms(v, qs);
            assert(vt.drop_last() =~= dot_terms(unravel(n / d, inner), inner_s));
            assert(sum(vt) == sum(vt.drop_last()) + vt.last());
            assert(vt.last() == (n % d) * strides.last());
        }
    }
}

/// Reading a buffer in another shape under the row-major strides that allow
/// it keeps every element in its place in logical order.
pub proof fn lemma_restrided_positions(layout: Layout, limit: int, target: Seq<usize>, n: int)
    requires
        layout.wf(limit),
        array_len(target) == layout.len(),
        span(target) <= isize::MAX,
        layout.restrided(true, target) is Some,
        0 <= n < layout.len(),
    ensures
        (Layout {
            shape: target,
            strides: layout.restrided(true, target)->Some_0,
            offset: layout.offset,
        }).position(n) == layout.position(n),
{
    let strides = layout.restrided(true, target)->Some_0;
    let c = layout.collapsed();
    let base = c.innermost(true) as int;
    lemma_collapsed(layout);
    lemma_default_strides_of(true, target, base, strides);
    crate::canonical::lemma_scaled_row_major_number(target, strides, base, n);
    lemma_aligned_is_default(true, c.shape, c.strides);
    lemma_span_of_nonempty(c.shape);
    lemma_span_bounds(layout.shape);
    assert(span(c.shape) <= isize::MAX);
    crate::canonical::lemma_scaled_row_major_number(c.shape, c.strides, base, n);
    if layout.len() == 1 {
        // The only element is the first, which lies at the offset.
        crate::layout::lemma_unravel_zero(layout.shape);
        let zero = crate::layout::dot_terms(unravel(0, layout.shape), layout.strides);
        assert forall|k: int| 0 <= k < zero.len() implies zero[k] == 0 by {
            assert(0 * layout.strides[k] == 0);
        }
        crate::layout::lemma_sum_zeros(zero);
        assert(0 * base == 0);
    } else {
        lemma_squeezed_position(layout.shape, layout.strides, n);
    }
}

/// Reshaping in row-major order keeps the elements in their logical order:
/// where the buffer is read in place the elements are the same, and where it
/// is copied by an array of row-major order they are clones.
pub proof fn lemma_reshape_keeps_order<S: Storage, S2: Storage<Elem = S::Elem>, O: Order, O2: Order>(
    a: ArrayBase<S, O>,
    requested: Seq<isize>,
    out: ArrayBase<S2, O2>,
)
    requires
        a.wf(),
        a.reshapes_to(requested, true, &out),
    ensures
        a.reshaped_layout(requested, true, out.dims()) is Some ==> out.elements() == a.elements(),
        a.reshaped_layout(requested, true, out.dims()) is None && O::row_major() ==> cloned_seq(
            a.elements(),
            out.elements(),
        ),
{
    let layout = a.layout();
    let limit = a.buffer().len() as int;
    assert(array_len(out.dims()) == layout.len() && span(out.dims()) <= isize::MAX);
    if a.reshaped_layout(requested, true, out.dims()) is Some {
        if O::row_major() && requested == signed(a.dims()) {
            lemma_resolved_signed(a.dims());
            assert(out.dims() == a.dims());
            assert(out.layout() == layout);
        } else {
            assert(layout.restrided(true, out.dims()) is Some);
            assert(out.layout() == (Layout {
                shape: out.dims(),
                strides: layout.restrided(true, out.dims())->Some_0,
                offset: layout.offset,
            }));
            assert forall|n: int| 0 <= n < layout.len() implies out.layout().position(n)
                == layout.position(n) by {
                lemma_restrided_positions(layout, limit, out.dims(), n);
            }
        }
        assert(out.elements() =~= a.elements());
    } else if O::row_major() {
        assert forall|n: int| 0 <= n < a.elements().len() implies cloned::<S::Elem>(
            #[trigger] a.elements()[n],
            out.elements()[n],
        ) by {
            crate::canonical::lemma_row_major_number(out.dims(), out.steps(), n);
        }
    }
}

} // verus!
