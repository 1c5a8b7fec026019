//! Joining arrays: along an axis that they have, or along a new one.

use vstd::prelude::*;
use core::marker::PhantomData;
use crate::array::ArrayBase;
use crate::canonical::lemma_canonical_injective;
use crate::error::{Error, ShapeError};
use crate::iter::{Cursor, Iter};
use crate::layout::{
    array_len, dot_terms, high_terms, is_index, lemma_array_len_le,
    lemma_array_len_zero, lemma_default_extents, lemma_sum_update, lemma_unravel_is_index,
    low_terms, reach, span, unravel, widened, Layout,
};
use crate::order::{default_stride, is_default_strides, Order};
use crate::array::reshape::signed;
use crate::routine::{axis_in_range, normalize_axis, normalized_axis};
use crate::storage::{CowBuffer, Storage, StorageBase, StorageOwned};

verus! {

/// The sizes that the first `upto` shapes have on `axis`, added up.
pub open spec fn axis_sizes_sum(shapes: Seq<Seq<usize>>, axis: int, upto: int) -> int
    decreases upto,
{
    if upto <= 0 {
        0
    } else {
        axis_sizes_sum(shapes, axis, upto - 1) + shapes[upto - 1][axis]
    }
}

/// Whether arrays of the given shapes can be joined along `axis`: there is
/// one at least, all have the rank of the first, which has the axis, and all
/// have its sizes on every other axis.
pub open spec fn concat_compatible(shapes: Seq<Seq<usize>>, axis: int) -> bool {
    &&& shapes.len() > 0
    &&& 0 <= axis < shapes[0].len()
    &&& forall|i: int| 0 <= i < shapes.len() ==> (#[trigger] shapes[i]).len() == shapes[0].len()
    &&& forall|i: int, k: int|
        0 <= i < shapes.len() && 0 <= k < shapes[0].len() && k != axis ==> #[trigger] shapes[i][k]
            == shapes[0][k]
}

/// The shape of the join along `axis`: the shape of the first array with the
/// sizes of all arrays on that axis added up.
pub open spec fn concat_shape(shapes: Seq<Seq<usize>>, axis: int) -> Seq<usize> {
    shapes[0].update(axis, axis_sizes_sum(shapes, axis, shapes.len() as int) as usize)
}

/// A multi-index moved by `start` along `axis`.
pub open spec fn shifted(idx: Seq<int>, axis: int, start: int) -> Seq<int> {
    idx.update(axis, idx[axis] + start)
}

impl Layout {
    /// The part of the layout that holds the `size` indices from `start` on
    /// along `axis`, and every index along the other axes.
    pub open spec fn block(self, axis: int, start: int, size: usize) -> Layout {
        Layout {
            shape: self.shape.update(axis, size),
            strides: self.strides,
            offset: self.offset + start * self.strides[axis],
        }
    }
}

/// The sizes along the axis add up to no less with more shapes.
pub proof fn lemma_axis_sizes_sum(shapes: Seq<Seq<usize>>, axis: int, i: int, upto: int)
    requires
        0 <= i <= upto,
    ensures
        0 <= axis_sizes_sum(shapes, axis, i) <= axis_sizes_sum(shapes, axis, upto),
        i < upto ==> axis_sizes_sum(shapes, axis, i) + shapes[i][axis] <= axis_sizes_sum(
            shapes,
            axis,
            upto,
        ),
    decreases upto,
{
    if i < upto {
        lemma_axis_sizes_sum(shapes, axis, i, upto - 1);
    } else {
        lemma_axis_sizes_sum_nonnegative(shapes, axis, upto);
    }
}

/// The sizes along the axis add up to no less than zero.
proof fn lemma_axis_sizes_sum_nonnegative(shapes: Seq<Seq<usize>>, axis: int, upto: int)
    ensures
        0 <= axis_sizes_sum(shapes, axis, upto),
    decreases upto,
{
    if upto > 0 {
        lemma_axis_sizes_sum_nonnegative(shapes, axis, upto - 1);
    }
}

/// Sizes that are all zero add up to zero.
pub proof fn lemma_axis_sizes_sum_zero(shapes: Seq<Seq<usize>>, axis: int, upto: int)
    requires
        forall|i: int| 0 <= i < upto ==> (#[trigger] shapes[i])[axis] == 0,
    ensures
        axis_sizes_sum(shapes, axis, upto) == 0,
    decreases upto,
{
    if upto > 0 {
        lemma_axis_sizes_sum_zero(shapes, axis, upto - 1);
        assert(shapes[upto - 1][axis] == 0);
    }
}

/// The element count of a shape is the element count with one axis cut down
/// to one index, times the size of that axis.
pub proof fn lemma_axis_factor(shape: Seq<usize>, axis: int)
    requires
        0 <= axis < shape.len(),
    ensures
        array_len(shape) == array_len(shape.update(axis, 1)) * (shape[axis] as nat),
{
    crate::permutation::lemma_array_len_remove(shape, axis);
    crate::permutation::lemma_array_len_remove(shape.update(axis, 1), axis);
    assert(shape.update(axis, 1).remove(axis) =~= shape.remove(axis));
    assert(array_len(shape.update(axis, 1)) == array_len(shape.remove(axis)) * 1);
}

/// A block of a canonical layout is well formed over the same buffer, and
/// its elements are the elements of the layout at the multi-indices moved to
/// the block.
pub proof fn lemma_block(
    row_major: bool,
    layout: Layout,
    axis: int,
    start: int,
    size: usize,
    n: int,
)
    requires
        is_default_strides(row_major, layout.shape, 1, layout.strides),
        layout.offset == 0,
        span(layout.shape) <= isize::MAX,
        0 <= axis < layout.shape.len(),
        0 <= start,
        start + size <= layout.shape[axis],
        0 <= n < layout.block(axis, start, size).len(),
    ensures
        layout.block(axis, start, size).wf(layout.len() as int),
        is_index(shifted(unravel(n, layout.block(axis, start, size).shape), axis, start), layout.shape),
        layout.block(axis, start, size).position(n) == layout.position_at(
            shifted(unravel(n, layout.block(axis, start, size).shape), axis, start),
        ),
        0 <= layout.block(axis, start, size).position(n) < layout.len(),
{
    let block = layout.block(axis, start, size);
    let idx = unravel(n, block.shape);
    let moved = shifted(idx, axis, start);
    lemma_unravel_is_index(n, block.shape);
    assert(0 <= idx[axis] < block.shape[axis]);
    assert(is_index(moved, layout.shape)) by {
        assert forall|k: int| 0 <= k < moved.len() implies 0 <= #[trigger] moved[k]
            < layout.shape[k] by {
            if k != axis {
                assert(0 <= idx[k] < block.shape[k]);
            }
        }
    }
    let terms = dot_terms(idx, layout.strides);
    let s = layout.strides[axis] as int;
    assert(dot_terms(moved, layout.strides) =~= terms.update(axis, (idx[axis] + start) * s));
    lemma_sum_update(terms, axis, (idx[axis] + start) * s);
    assert((idx[axis] + start) * s == idx[axis] * s + start * s) by (nonlinear_arith);
    // The layout has elements, so its extremes are those of a canonical
    // layout, and the moved multi-index lies between them.
    lemma_array_len_zero(layout.shape);
    assert forall|k: int| 0 <= k < layout.shape.len() implies layout.shape[k] != 0 by {
        assert(0 <= moved[k] < layout.shape[k]);
    }
    assert(layout.len() > 0);
    lemma_default_extents(row_major, layout.shape, 1, layout.strides);
    crate::layout::lemma_dot_bounds(moved, layout.shape, layout.strides);
    crate::layout::lemma_span_bounds(layout.shape);
    // The block.
    lemma_array_len_le(widened(block.shape), widened(layout.shape));
    let hi = high_terms(layout.shape, layout.strides);
    let lo = low_terms(layout.shape, layout.strides);
    assert(s == default_stride(row_major, layout.shape, 1, axis));
    assert(s >= 0) by {
        if row_major {
            crate::layout::lemma_span_bounds(layout.shape.skip(axis + 1));
        } else {
            crate::layout::lemma_span_bounds(layout.shape.take(axis));
        }
    }
    let d = layout.shape[axis] as int;
    assert(0 <= (size - 1) * s + start * s <= (d - 1) * s && 0 <= start * s) by (nonlinear_arith)
        requires
            s >= 0,
            start >= 0,
            size >= 1,
            start + size <= d,
    ;
    assert(size >= 1) by {
        assert(0 <= idx[axis] < block.shape[axis]);
    }
    assert(reach(size, layout.strides[axis]) == (size - 1) * s);
    assert(reach(layout.shape[axis], layout.strides[axis]) == (d - 1) * s);
    assert(high_terms(block.shape, block.strides) =~= hi.update(axis, (size - 1) * s));
    assert(low_terms(block.shape, block.strides) =~= lo.update(axis, 0));
    lemma_sum_update(hi, axis, (size - 1) * s);
    lemma_sum_update(lo, axis, 0);
    assert(hi[axis] == (d - 1) * s);
    assert(lo[axis] == 0);
}

/// Two elements of different blocks of a canonical layout along one axis, or
/// two different elements of one block, lie at different positions.
pub proof fn lemma_blocks_apart(
    row_major: bool,
    layout: Layout,
    axis: int,
    start1: int,
    size1: usize,
    n1: int,
    start2: int,
    size2: usize,
    n2: int,
)
    requires
        is_default_strides(row_major, layout.shape, 1, layout.strides),
        layout.offset == 0,
        span(layout.shape) <= isize::MAX,
        0 <= axis < layout.shape.len(),
        0 <= start1,
        start1 + size1 <= layout.shape[axis],
        0 <= n1 < layout.block(axis, start1, size1).len(),
        0 <= start2,
        start2 + size2 <= layout.shape[axis],
        0 <= n2 < layout.block(axis, start2, size2).len(),
        start1 + size1 <= start2 || (start1 == start2 && size1 == size2 && n1 != n2),
    ensures
        layout.block(axis, start1, size1).position(n1) != layout.block(
            axis,
            start2,
            size2,
        ).position(n2),
{
    let b1 = layout.block(axis, start1, size1);
    let b2 = layout.block(axis, start2, size2);
    lemma_block(row_major, layout, axis, start1, size1, n1);
    lemma_block(row_major, layout, axis, start2, size2, n2);
    let i1 = unravel(n1, b1.shape);
    let i2 = unravel(n2, b2.shape);
    let m1 = shifted(i1, axis, start1);
    let m2 = shifted(i2, axis, start2);
    lemma_unravel_is_index(n1, b1.shape);
    lemma_unravel_is_index(n2, b2.shape);
    if b1.position(n1) == b2.position(n2) {
        lemma_canonical_injective(row_major, layout.shape, layout.strides, m1, m2);
        assert(m1[axis] == m2[axis]);
        assert(0 <= i1[axis] < b1.shape[axis]);
        assert(0 <= i2[axis] < b2.shape[axis]);
        if start1 == start2 && size1 == size2 {
            assert(i1 =~= i2) by {
                assert forall|k: int| 0 <= k < i1.len() implies i1[k] == i2[k] by {
                    assert(m1[k] == m2[k]);
                }
            }
            let rows = crate::order::default_strides_of(true, b1.shape, 1);
            lemma_array_len_le(widened(b1.shape), widened(layout.shape));
            crate::order::lemma_default_strides_of(true, b1.shape, 1, rows);
            crate::canonical::lemma_row_major_number(b1.shape, rows, n1);
            crate::canonical::lemma_row_major_number(b1.shape, rows, n2);
        }
    }
}

/// In a join, the block of each array has the shape of the array, and lies on
/// the axis of the join.
pub proof fn lemma_concat_block(shapes: Seq<Seq<usize>>, axis: int, j: int)
    requires
        concat_compatible(shapes, axis),
        axis_sizes_sum(shapes, axis, shapes.len() as int) <= usize::MAX,
        0 <= j < shapes.len(),
    ensures
        concat_shape(shapes, axis).len() == shapes[0].len(),
        shapes[j].len() == shapes[0].len(),
        concat_shape(shapes, axis).update(axis, shapes[j][axis]) == shapes[j],
        0 <= axis_sizes_sum(shapes, axis, j),
        axis_sizes_sum(shapes, axis, j) + shapes[j][axis] <= concat_shape(shapes, axis)[axis],
        axis_sizes_sum(shapes, axis, j + 1) == axis_sizes_sum(shapes, axis, j) + shapes[j][axis],
        forall|i: int|
            0 <= i < j ==> axis_sizes_sum(shapes, axis, i) + (#[trigger] shapes[i])[axis]
                <= axis_sizes_sum(shapes, axis, j),
{
    let joined = concat_shape(shapes, axis);
    lemma_axis_sizes_sum(shapes, axis, j, shapes.len() as int);
    assert(shapes[j].len() == shapes[0].len());
    assert(joined.update(axis, shapes[j][axis]) =~= shapes[j]) by {
        assert forall|k: int| 0 <= k < shapes[j].len() implies joined.update(
            axis,
            shapes[j][axis],
        )[k] == shapes[j][k] by {
            if k != axis {
                assert(shapes[j][k] == shapes[0][k]);
            }
        }
    }
    assert forall|i: int| 0 <= i < j implies axis_sizes_sum(shapes, axis, i) + (
    #[trigger] shapes[i])[axis] <= axis_sizes_sum(shapes, axis, j) by {
        lemma_axis_sizes_sum(shapes, axis, i, j);
    }
}

/// An element of a block of a canonical layout lies inside the buffer, and no
/// block further along the axis reaches its position.
pub proof fn lemma_block_unreached(
    row_major: bool,
    layout: Layout,
    axis: int,
    start1: int,
    size1: usize,
    n1: int,
    start2: int,
    size2: usize,
)
    requires
        is_default_strides(row_major, layout.shape, 1, layout.strides),
        layout.offset == 0,
        span(layout.shape) <= isize::MAX,
        0 <= axis < layout.shape.len(),
        0 <= start1,
        start1 + size1 <= start2,
        start2 + size2 <= layout.shape[axis],
        0 <= n1 < layout.block(axis, start1, size1).len(),
    ensures
        0 <= layout.block(axis, start1, size1).position(n1) < layout.len(),
        !layout.block(axis, start2, size2).reaches(layout.block(axis, start1, size1).position(n1)),
{
    let other = layout.block(axis, start1, size1);
    let block = layout.block(axis, start2, size2);
    lemma_block(row_major, layout, axis, start1, size1, n1);
    if block.reaches(other.position(n1)) {
        let n = choose|n: int|
            0 <= n < block.len() && #[trigger] block.position(n) == other.position(n1);
        lemma_blocks_apart(row_major, layout, axis, start1, size1, n1, start2, size2, n);
    }
}

/// Writing the block of one array of a join leaves the blocks of the arrays
/// before it as they were.
proof fn lemma_earlier_blocks_kept<T: Clone, S1: Storage<Elem = T>, O1: Order>(
    row_major: bool,
    arrays: Seq<ArrayBase<S1, O1>>,
    shapes: Seq<Seq<usize>>,
    target: Layout,
    at: int,
    i: int,
    prior: Seq<T>,
    data: Seq<T>,
)
    requires
        0 <= i < arrays.len(),
        shapes == Seq::new(arrays.len(), |k: int| arrays[k].dims()),
        concat_compatible(shapes, at),
        axis_sizes_sum(shapes, at, arrays.len() as int) <= usize::MAX,
        target.shape == concat_shape(shapes, at),
        target.offset == 0,
        0 <= at < target.shape.len(),
        is_default_strides(row_major, target.shape, 1, target.strides),
        span(target.shape) <= isize::MAX,
        prior.len() == array_len(target.shape),
        data.len() == prior.len(),
        forall|j: int, n: int|
            0 <= j < i && 0 <= n < array_len(arrays[j].dims()) ==> cloned::<T>(
                (#[trigger] arrays[j]).elements()[n],
                prior[#[trigger] target.block(
                    at,
                    axis_sizes_sum(shapes, at, j),
                    arrays[j].dims()[at],
                ).position(n)],
            ),
        forall|p: int|
            0 <= p < prior.len() && !target.block(
                at,
                axis_sizes_sum(shapes, at, i),
                arrays[i].dims()[at],
            ).reaches(p) ==> #[trigger] data[p] == prior[p],
    ensures
        forall|j: int, n: int|
            0 <= j < i && 0 <= n < array_len(arrays[j].dims()) ==> cloned::<T>(
                (#[trigger] arrays[j]).elements()[n],
                data[#[trigger] target.block(
                    at,
                    axis_sizes_sum(shapes, at, j),
                    arrays[j].dims()[at],
                ).position(n)],
            ),
{
    let start = axis_sizes_sum(shapes, at, i);
    let size = arrays[i].dims()[at];
    assert(shapes[i] == arrays[i].dims());
    lemma_concat_block(shapes, at, i);
    assert forall|j: int, n: int|
        0 <= j < i && 0 <= n < array_len(arrays[j].dims()) implies cloned::<T>(
        (#[trigger] arrays[j]).elements()[n],
        data[#[trigger] target.block(
            at,
            axis_sizes_sum(shapes, at, j),
            arrays[j].dims()[at],
        ).position(n)],
    ) by {
        let other_start = axis_sizes_sum(shapes, at, j);
        let other_size = arrays[j].dims()[at];
        let other = target.block(at, other_start, other_size);
        assert(shapes[j] == arrays[j].dims());
        lemma_concat_block(shapes, at, j);
        assert(other_start + shapes[j][at] <= start);
        assert(other.shape == arrays[j].dims());
        lemma_block_unreached(row_major, target, at, other_start, other_size, n, start, size);
        assert(data[other.position(n)] == prior[other.position(n)]);
        assert(cloned::<T>(arrays[j].elements()[n], prior[other.position(n)]));
    }
}

impl<S: StorageOwned, O: Order> ArrayBase<S, O> {
    /// Whether `out` is the join of `arrays` along `axis`: it has the shape
    /// of the join in canonical layout, and the block of each array holds
    /// clones of its elements in logical order.
    pub open spec fn is_concat_of<S1: Storage<Elem = S::Elem>, O1: Order>(
        arrays: Seq<ArrayBase<S1, O1>>,
        axis: int,
        out: &Self,
    ) -> bool {
        let shapes = Seq::new(arrays.len(), |i: int| arrays[i].dims());
        &&& out.wf()
        &&& out.dims() == concat_shape(shapes, axis)
        &&& is_default_strides(O::row_major(), out.dims(), 1, out.steps())
        &&& out.origin() == 0
        &&& out.buffer().len() == array_len(out.dims())
        &&& forall|i: int, n: int|
            0 <= i < arrays.len() && 0 <= n < array_len(arrays[i].dims()) ==> cloned::<S::Elem>(
                (#[trigger] arrays[i]).elements()[n],
                out.buffer()[#[trigger] out.layout().block(
                    axis,
                    axis_sizes_sum(shapes, axis, i),
                    arrays[i].dims()[axis],
                ).position(n)],
            )
    }

    /// Whether `e` is a clone of the first element of the array at `i`, the
    /// first of the arrays that has an element.
    pub open spec fn is_first_element<S1: Storage<Elem = S::Elem>, O1: Order>(
        arrays: Seq<ArrayBase<S1, O1>>,
        i: int,
        e: S::Elem,
    ) -> bool {
        &&& 0 <= i < arrays.len()
        &&& array_len(arrays[i].dims()) > 0
        &&& forall|j: int| 0 <= j < i ==> array_len((#[trigger] arrays[j]).dims()) == 0
        &&& cloned::<S::Elem>(arrays[i].elements()[0], e)
    }

    /// A clone of the first element of the first array that has one, and
    /// nothing where no array has an element.
    fn first_element<S1: Storage<Elem = S::Elem>, O1: Order>(arrays: &[ArrayBase<S1, O1>]) -> (r:
        Option<S::Elem>)
        requires
            forall|i: int| 0 <= i < arrays@.len() ==> (#[trigger] arrays@[i]).wf(),
        ensures
            r is None <==> forall|i: int|
                0 <= i < arrays@.len() ==> array_len((#[trigger] arrays@[i]).dims()) == 0,
            r is Some ==> exists|i: int|
                #[trigger] Self::is_first_element::<S1, O1>(arrays@, i, r->Some_0),
    {
        let count: usize = arrays.len();
        let mut found: Option<S::Elem> = None;
        let mut i: usize = 0;
        while i < count && found.is_none()
            invariant
                i <= count,
                count == arrays@.len(),
                forall|j: int| 0 <= j < arrays@.len() ==> (#[trigger] arrays@[j]).wf(),
                found is None ==> forall|j: int|
                    0 <= j < i ==> array_len((#[trigger] arrays@[j]).dims()) == 0,
                found is Some ==> exists|k: int|
                    #[trigger] Self::is_first_element::<S1, O1>(arrays@, k, found->Some_0),
            decreases count - i,
        {
            let ghost all = arrays@[i as int].elements();
            let mut source = Iter::new(&arrays[i]);
            match source.next() {
                Some(elem) => {
                    let first = elem.clone();
                    proof {
                        assert(all.len() > 0);
                        assert(array_len(arrays@[i as int].dims()) > 0);
                        assert(cloned::<S::Elem>(arrays@[i as int].elements()[0], first));
                    }
                    found = Some(first);
                    proof {
                        assert(Self::is_first_element::<S1, O1>(arrays@, i as int, found->Some_0));
                        assert(exists|k: int|
                            #[trigger] Self::is_first_element::<S1, O1>(arrays@, k, found->Some_0));
                    }
                },
                None => {},
            }
            i = i + 1;
        }
        proof {
            if found is Some {
                let k = choose|k: int|
                    #[trigger] Self::is_first_element::<S1, O1>(arrays@, k, found->Some_0);
                assert(array_len(arrays@[k].dims()) > 0);
            }
        }
        found
    }

    /// Writes clones of the elements of `array`, in logical order, to its
    /// block of the buffer of a join: the block of the shape of the array
    /// that begins at `start` along the axis `at`. No place outside the block
    /// changes.
    fn copy_block<S1: Storage<Elem = S::Elem>, O1: Order>(
        data: &mut Vec<S::Elem>,
        array: &ArrayBase<S1, O1>,
        strides: &[isize],
        target: Ghost<Layout>,
        at: usize,
        start: usize,
    )
        requires
            array.wf(),
            target@.strides == strides@,
            target@.offset == 0,
            is_default_strides(O::row_major(), target@.shape, 1, target@.strides),
            span(target@.shape) <= isize::MAX,
            old(data)@.len() == array_len(target@.shape),
            at < target@.shape.len(),
            target@.shape.update(at as int, array.dims()[at as int]) == array.dims(),
            start + array.dims()[at as int] <= target@.shape[at as int],
        ensures
            final(data)@.len() == old(data)@.len(),
            forall|m: int|
                0 <= m < array_len(array.dims()) ==> cloned::<S::Elem>(
                    array.elements()[m],
                    final(data)@[#[trigger] target@.block(
                        at as int,
                        start as int,
                        array.dims()[at as int],
                    ).position(m)],
                ),
            forall|p: int|
                0 <= p < old(data)@.len() && !target@.block(
                    at as int,
                    start as int,
                    array.dims()[at as int],
                ).reaches(p) ==> #[trigger] final(data)@[p] == old(data)@[p],
    {
        let ghost target = target@;
        let size: usize = array.shape[at];
        let ghost block = target.block(at as int, start as int, size);
        let len: usize = data.len();
        let mut source = Iter::new(array);
        let items: usize = source.len();
        if items == 0 {
            return ;
        }
        proof {
            lemma_block(O::row_major(), target, at as int, start as int, size, 0);
        }
        let stride: isize = strides[at];
        let offset: i128 = crate::arith::mul_stride(stride, start);
        proof {
            assert(stride * start == start * stride) by (nonlinear_arith);
            crate::layout::lemma_extremes_in_bounds(block, len as int);
        }
        let mut cursor = Cursor::new(
            array.shape.clone(),
            crate::dimension::copy_of(strides),
            offset as usize,
            len,
        );
        let ghost before = data@;
        let mut n: usize = 0;
        while n < items
            invariant
                n <= items,
                items == array_len(array.dims()),
                items == block.len(),
                array.wf(),
                target.offset == 0,
                at < target.shape.len(),
                is_default_strides(O::row_major(), target.shape, 1, target.strides),
                span(target.shape) <= isize::MAX,
                len == array_len(target.shape),
                size == array.dims()[at as int],
                start + size <= target.shape[at as int],
                block == target.block(at as int, start as int, size),
                block.shape == array.dims(),
                source.wf(),
                source.upcoming() == array.elements().skip(n as int),
                cursor.wf(),
                cursor.bound() == len,
                cursor.dims() == block.shape,
                cursor.steps() == block.strides,
                cursor.origin() == block.offset,
                cursor.remaining() == items - n,
                data@.len() == len,
                before.len() == len,
                forall|m: int|
                    0 <= m < n ==> cloned::<S::Elem>(
                        array.elements()[m],
                        data@[#[trigger] block.position(m)],
                    ),
                forall|p: int| 0 <= p < len && !block.reaches(p) ==> #[trigger] data@[p] == before[p],
            decreases items - n,
        {
            let elem = match source.next() {
                Some(elem) => elem,
                None => unreached(),
            };
            proof {
                assert(array.elements().skip(n as int)[0] == array.elements()[n as int]);
                assert(array.elements().skip(n as int).skip(1) =~= array.elements().skip(n + 1));
                lemma_block(O::row_major(), target, at as int, start as int, size, n as int);
            }
            let value = elem.clone();
            let ghost prior = data@;
            match cursor.next_position() {
                Some(p) => {
                    proof {
                        assert(p == block.position(n as int));
                        assert(block.reaches(p as int));
                    }
                    data[p] = value;
                },
                None => {},
            }
            proof {
                assert forall|m: int| 0 <= m < n + 1 implies cloned::<S::Elem>(
                    array.elements()[m],
                    data@[#[trigger] block.position(m)],
                ) by {
                    if m < n {
                        lemma_blocks_apart(
                            O::row_major(),
                            target,
                            at as int,
                            start as int,
                            size,
                            m,
                            start as int,
                            size,
                            n as int,
                        );
                        lemma_block(O::row_major(), target, at as int, start as int, size, m);
                        assert(cloned::<S::Elem>(array.elements()[m], prior[block.position(m)]));
                    }
                }
            }
            n = n + 1;
        }
    }

    /// The join of the arrays along `axis`, which counts from the back where
    /// negative: an array that owns clones of their elements. No array,
    /// arrays without axes, an axis that they do not have, arrays of
    /// different rank and arrays that differ in size on another axis are
    /// errors.
    pub fn concatenate<S1: Storage<Elem = S::Elem>, O1: Order>(
        arrays: &[ArrayBase<S1, O1>],
        axis: isize,
    ) -> (r: Result<Self, Error>)
        requires
            forall|i: int| 0 <= i < arrays@.len() ==> (#[trigger] arrays@[i]).wf(),
            ({
                let shapes = Seq::new(arrays@.len(), |i: int| arrays@[i].dims());
                arrays@.len() > 0 && axis_in_range(axis as int, shapes[0].len() as int)
                    && concat_compatible(
                    shapes,
                    normalized_axis(axis as int, shapes[0].len() as int),
                ) ==> axis_sizes_sum(
                    shapes,
                    normalized_axis(axis as int, shapes[0].len() as int),
                    shapes.len() as int,
                ) <= usize::MAX && span(
                    concat_shape(shapes, normalized_axis(axis as int, shapes[0].len() as int)),
                ) <= isize::MAX
            }),
        ensures
            ({
                let shapes = Seq::new(arrays@.len(), |i: int| arrays@[i].dims());
                &&& r is Ok <==> arrays@.len() > 0 && axis_in_range(
                    axis as int,
                    shapes[0].len() as int,
                ) && concat_compatible(
                    shapes,
                    normalized_axis(axis as int, shapes[0].len() as int),
                )
                &&& r matches Ok(out) ==> Self::is_concat_of(
                    arrays@,
                    normalized_axis(axis as int, shapes[0].len() as int),
                    &out,
                )
                &&& r matches Err(e) ==> if arrays@.len() == 0 {
                    e.is_value()
                } else if shapes[0].len() > 0 && !axis_in_range(axis as int, shapes[0].len() as int) {
                    e.is_axis()
                } else {
                    e.is_dimension()
                }
            }),
    {
        let ghost shapes = Seq::new(arrays@.len(), |i: int| arrays@[i].dims());
        let count: usize = arrays.len();
        if count == 0 {
            return Err(Error::Value("need at least one array to concatenate".to_owned()));
        }
        assert(shapes[0] == arrays@[0].dims());
        let n_dims: usize = arrays[0].ndims();
        if n_dims == 0 {
            return Err(
                Error::Shape(
                    ShapeError::IncompatibleDimension(
                        "zero-dimensional arrays cannot be concatenated".to_owned(),
                    ),
                ),
            );
        }
        let at: usize = match normalize_axis(axis, n_dims) {
            Ok(at) => at,
            Err(e) => {
                return Err(e);
            },
        };
        let mut shape: Vec<usize> = arrays[0].shape.clone();
        let mut total: usize = arrays[0].shape[at];
        let mut i: usize = 1;
        proof {
            assert(axis_sizes_sum(shapes, at as int, 1) == axis_sizes_sum(shapes, at as int, 0)
                + shapes[0][at as int]);
        }
        while i < count
            invariant
                1 <= i <= count,
                count == arrays@.len(),
                shapes == Seq::new(arrays@.len(), |i: int| arrays@[i].dims()),
                n_dims == shapes[0].len(),
                at < n_dims,
                at == normalized_axis(axis as int, n_dims as int),
                axis_in_range(axis as int, n_dims as int),
                shape@ == shapes[0],
                total == axis_sizes_sum(shapes, at as int, i as int),
                forall|j: int| 0 <= j < i ==> (#[trigger] shapes[j]).len() == n_dims,
                forall|j: int, k: int|
                    0 <= j < i && 0 <= k < n_dims && k != at ==> #[trigger] shapes[j][k]
                        == shapes[0][k],
                concat_compatible(shapes, at as int) ==> axis_sizes_sum(
                    shapes,
                    at as int,
                    count as int,
                ) <= usize::MAX,
            decreases count - i,
        {
            let array = &arrays[i];
            assert(shapes[i as int] == array.dims());
            if array.ndims() != n_dims {
                assert(shapes[i as int].len() != shapes[0].len());
                return Err(
                    Error::Shape(
                        ShapeError::IncompatibleDimension(
                            "all the input arrays must have same number of dimensions".to_owned(),
                        ),
                    ),
                );
            }
            let mut k: usize = 0;
            while k < n_dims
                invariant
                    k <= n_dims,
                    at < n_dims,
                    shapes.len() > 0,
                    0 <= i < shapes.len(),
                    count == arrays@.len(),
                    shapes == Seq::new(arrays@.len(), |i: int| arrays@[i].dims()),
                    n_dims == shapes[0].len(),
                    shape@ == shapes[0],
                    shapes[i as int] == array.dims(),
                    array.dims().len() == n_dims,
                    at == normalized_axis(axis as int, n_dims as int),
                    axis_in_range(axis as int, n_dims as int),
                    forall|j: int| 0 <= j < k && j != at ==> shapes[i as int][j] == shapes[0][j],
                decreases n_dims - k,
            {
                if k != at && array.shape[k] != shape[k] {
                    assert(shapes[i as int][k as int] != shapes[0][k as int]);
                    assert(!concat_compatible(shapes, at as int));
                    return Err(
                        Error::Shape(
                            ShapeError::IncompatibleDimension(
                                "all the input array dimensions except for the concatenation axis must match exactly".to_owned(),
                            ),
                        ),
                    );
                }
                k = k + 1;
            }
            proof {
                if concat_compatible(shapes, at as int) {
                    lemma_axis_sizes_sum(shapes, at as int, i as int, count as int);
                }
            }
            let size: usize = array.shape[at];
            if (usize::MAX - total) < size {
                // The sizes add up beyond a machine integer, which those of
                // compatible arrays do not.
                assert(!concat_compatible(shapes, at as int));
                return Err(
                    Error::Shape(
                        ShapeError::IncompatibleDimension(
                            "all the input array dimensions except for the concatenation axis must match exactly".to_owned(),
                        ),
                    ),
                );
            }
            total = total + size;
            proof {
                assert(axis_sizes_sum(shapes, at as int, i + 1) == axis_sizes_sum(
                    shapes,
                    at as int,
                    i as int,
                ) + shapes[i as int][at as int]);
            }
            i = i + 1;
        }
        assert(concat_compatible(shapes, at as int));
        shape[at] = total;
        proof {
            assert(shape@ =~= concat_shape(shapes, at as int));
            crate::layout::lemma_span_bounds(shape@);
        }
        let len: usize = crate::shape::array_len_of(shape.as_slice());
        let strides: Vec<isize> = crate::shape::default_strides::<O>(shape.as_slice());
        let ghost target = Layout { shape: shape@, strides: strides@, offset: 0 };
        let mut data: Vec<S::Elem> = match Self::first_element(arrays) {
            Some(filler) => crate::storage::create_buf(len, filler),
            None => Vec::new(),
        };
        proof {
            if data@.len() != len {
                // No array has an element, so the join has none.
                lemma_axis_factor(target.shape, at as int);
                let lines = array_len(target.shape.update(at as int, 1));
                if lines != 0 {
                    assert forall|j: int| 0 <= j < count implies (#[trigger] shapes[j])[at as int]
                        == 0 by {
                        assert(shapes[j] == arrays@[j].dims());
                        lemma_concat_block(shapes, at as int, j);
                        lemma_axis_factor(shapes[j], at as int);
                        assert(shapes[j].update(at as int, 1) =~= target.shape.update(at as int, 1));
                        let d = shapes[j][at as int] as nat;
                        assert(d == 0) by (nonlinear_arith)
                            requires
                                lines * d == 0,
                                lines != 0,
                        ;
                    }
                    lemma_axis_sizes_sum_zero(shapes, at as int, count as int);
                }
                assert(len == 0) by (nonlinear_arith)
                    requires
                        len == lines * (target.shape[at as int] as nat),
                        lines == 0 || target.shape[at as int] == 0,
                ;
            }
            if len > 0 {
                lemma_default_extents(O::row_major(), target.shape, 1, target.strides);
            }
        }
        let mut start: usize = 0;
        let mut i: usize = 0;
        while i < count
            invariant
                i <= count,
                count == arrays@.len(),
                shapes == Seq::new(arrays@.len(), |i: int| arrays@[i].dims()),
                forall|j: int| 0 <= j < arrays@.len() ==> (#[trigger] arrays@[j]).wf(),
                concat_compatible(shapes, at as int),
                axis_sizes_sum(shapes, at as int, count as int) <= usize::MAX,
                target == (Layout { shape: shape@, strides: strides@, offset: 0 }),
                shape@ == concat_shape(shapes, at as int),
                at < target.shape.len(),
                is_default_strides(O::row_major(), target.shape, 1, target.strides),
                span(target.shape) <= isize::MAX,
                len == array_len(target.shape),
                start == axis_sizes_sum(shapes, at as int, i as int),
                data@.len() == len,
                forall|j: int, n: int|
                    0 <= j < i && 0 <= n < array_len(arrays@[j].dims()) ==> cloned::<S::Elem>(
                        (#[trigger] arrays@[j]).elements()[n],
                        data@[#[trigger] target.block(
                            at as int,
                            axis_sizes_sum(shapes, at as int, j),
                            arrays@[j].dims()[at as int],
                        ).position(n)],
                    ),
            decreases count - i,
        {
            let array = &arrays[i];
            proof {
                assert(shapes[i as int] == array.dims());
                lemma_concat_block(shapes, at as int, i as int);
            }
            let size: usize = array.shape[at];
            let ghost prior = data@;
            Self::copy_block(&mut data, array, strides.as_slice(), Ghost(target), at, start);
            proof {
                lemma_earlier_blocks_kept::<S::Elem, S1, O1>(
                    O::row_major(),
                    arrays@,
                    shapes,
                    target,
                    at as int,
                    i as int,
                    prior,
                    data@,
                );
            }
            start = start + size;
            i = i + 1;
        }
        Ok(
            ArrayBase {
                shape,
                strides,
                storage: S::from_vec(data),
                offset: 0,
                phantom: PhantomData,
            },
        )
    }

    /// Whether `out` is the arrays stacked along a new axis at `axis`: the
    /// join, along that axis, of the arrays reshaped to have it.
    pub open spec fn is_stack_of<S1: Storage<Elem = S::Elem>, O1: Order>(
        arrays: Seq<ArrayBase<S1, O1>>,
        axis: int,
        out: &Self,
    ) -> bool {
        exists|expanded: Seq<ArrayBase<StorageBase<CowBuffer<'_, S::Elem>>, O1>>|
            {
                &&& expanded.len() == arrays.len()
                &&& forall|i: int|
                    0 <= i < arrays.len() ==> (#[trigger] arrays[i]).reshapes_to(
                        signed(arrays[i].dims().insert(axis, 1)),
                        O1::row_major(),
                        &expanded[i],
                    )
                &&& Self::is_concat_of(expanded, axis, out)
            }
    }

    /// The arrays stacked along a new axis at `axis`, which counts from the
    /// back where negative: an array that owns clones of their elements. No
    /// array, an axis outside the new rank, arrays of different rank and
    /// arrays of different shape are errors.
    pub fn stack<S1: Storage<Elem = S::Elem>, O1: Order>(
        arrays: &[ArrayBase<S1, O1>],
        axis: isize,
    ) -> (r: Result<Self, Error>)
        requires
            forall|i: int| 0 <= i < arrays@.len() ==> (#[trigger] arrays@[i]).wf(),
            ({
                let shapes = stacked_shapes(Seq::new(arrays@.len(), |i: int| arrays@[i].dims()), axis as int);
                arrays@.len() > 0 && stackable(
                    Seq::new(arrays@.len(), |i: int| arrays@[i].dims()),
                    axis as int,
                ) ==> axis_sizes_sum(
                    shapes,
                    normalized_axis(axis as int, shapes[0].len() as int),
                    shapes.len() as int,
                ) <= usize::MAX && span(
                    concat_shape(shapes, normalized_axis(axis as int, shapes[0].len() as int)),
                ) <= isize::MAX
            }),
        ensures
            r is Ok <==> arrays@.len() > 0 && stackable(
                Seq::new(arrays@.len(), |i: int| arrays@[i].dims()),
                axis as int,
            ),
            r matches Ok(out) ==> Self::is_stack_of(
                arrays@,
                normalized_axis(axis as int, arrays@[0].dims().len() as int + 1),
                &out,
            ),
            r matches Err(e) ==> if arrays@.len() == 0 {
                e.is_value()
            } else if exists|i: int|
                0 <= i < arrays@.len() && !axis_in_range(
                    axis as int,
                    (#[trigger] arrays@[i]).dims().len() as int + 1,
                ) {
                e.is_axis()
            } else {
                e.is_dimension()
            },
    {
        let ghost own = Seq::new(arrays@.len(), |i: int| arrays@[i].dims());
        let count: usize = arrays.len();
        let mut expanded: Vec<ArrayBase<StorageBase<CowBuffer<'_, S::Elem>>, O1>> = Vec::new();
        let mut i: usize = 0;
        while i < count
            invariant
                i <= count,
                count == arrays@.len(),
                own == Seq::new(arrays@.len(), |i: int| arrays@[i].dims()),
                forall|j: int| 0 <= j < arrays@.len() ==> (#[trigger] arrays@[j]).wf(),
                expanded@.len() == i,
                forall|j: int|
                    0 <= j < i ==> axis_in_range(axis as int, (#[trigger] own[j]).len() as int + 1),
                forall|j: int|
                    0 <= j < i ==> (#[trigger] expanded@[j]).wf() && expanded@[j].dims()
                        == stacked_shapes(own, axis as int)[j] && arrays@[j].reshapes_to(
                        signed(stacked_shapes(own, axis as int)[j]),
                        O1::row_major(),
                        &expanded@[j],
                    ),
            decreases count - i,
        {
            assert(own[i as int] == arrays@[i as int].dims());
            match arrays[i].expand_shape(axis) {
                Ok(wide) => {
                    expanded.push(wide);
                },
                Err(e) => {
                    assert(!axis_in_range(axis as int, arrays@[i as int].dims().len() as int + 1));
                    return Err(e);
                },
            }
            i = i + 1;
        }
        let ghost shapes = Seq::new(expanded@.len(), |i: int| expanded@[i].dims());
        proof {
            assert(shapes =~= stacked_shapes(own, axis as int));
            if count > 0 {
                assert(own[0] == arrays@[0].dims());
                assert(axis_in_range(axis as int, own[0].len() as int + 1));
                assert(shapes[0].len() == own[0].len() + 1);
            }
        }
        match Self::concatenate(expanded.as_slice(), axis) {
            Ok(out) => {
                proof {
                    let at = normalized_axis(axis as int, arrays@[0].dims().len() as int + 1);
                    assert forall|i: int| 0 <= i < arrays@.len() implies (
                    #[trigger] arrays@[i]).reshapes_to(
                        signed(arrays@[i].dims().insert(at, 1)),
                        O1::row_major(),
                        &expanded@[i],
                    ) by {
                        assert(own[i] == arrays@[i].dims());
                        assert(shapes[i].len() == shapes[0].len());
                        assert(expanded@[i].dims() == stacked_shapes(own, axis as int)[i]);
                    }
                }
                Ok(out)
            },
            Err(e) => {
                proof {
                    assert forall|i: int| 0 <= i < arrays@.len() implies axis_in_range(
                        axis as int,
                        (#[trigger] arrays@[i]).dims().len() as int + 1,
                    ) by {
                        assert(own[i] == arrays@[i].dims());
                    }
                }
                Err(e)
            },
        }
    }
}

/// The shapes with an axis of size 1 inserted at `axis`, which counts from
/// the back where negative.
pub open spec fn stacked_shapes(shapes: Seq<Seq<usize>>, axis: int) -> Seq<Seq<usize>> {
    Seq::new(
        shapes.len(),
        |i: int| shapes[i].insert(normalized_axis(axis, shapes[i].len() as int + 1), 1),
    )
}

/// Whether arrays of the given shapes can be stacked along a new axis at
/// `axis`: the axis lies within the new rank of each, and with the axis
/// inserted they can be joined along it.
pub open spec fn stackable(shapes: Seq<Seq<usize>>, axis: int) -> bool {
    &&& forall|i: int|
        0 <= i < shapes.len() ==> axis_in_range(axis, (#[trigger] shapes[i]).len() as int + 1)
    &&& shapes.len() > 0 ==> concat_compatible(
        stacked_shapes(shapes, axis),
        normalized_axis(axis, shapes[0].len() as int + 1),
    )
}

} // verus!
