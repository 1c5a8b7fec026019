//! The array descriptor: a shape, strides and an offset over a storage
//! handle, and the operations that derive one descriptor from another.


pub mod concat;
pub mod elementwise;
pub mod linalg;
pub mod reshape;
pub mod slicing;
pub mod views;

use vstd::prelude::*;
use core::marker::PhantomData;
use crate::layout::{array_len, span, Layout};
use crate::order::{is_default_strides, Order, RowMajor};
use crate::shape::Shape;
use crate::dimension::Dimensionality;
use crate::iter::{Cursor, Iter, IterMut};
use crate::storage::{cloned_seq, filled_with, Storage, StorageBase, StorageMut, StorageOwned};

verus! {

/// An array over the storage `S`, laid out in the order `O`.
#[derive(Debug, PartialEq, Eq, Hash)]
pub struct ArrayBase<S, O = RowMajor> {
    pub(crate) shape: Vec<usize>,
    pub(crate) strides: Vec<isize>,
    pub(crate) storage: S,
    pub(crate) offset: usize,
    pub(crate) phantom: PhantomData<O>,
}

/// An array that owns its buffer.
pub type Array<T, O = RowMajor> = ArrayBase<StorageBase<Vec<T>>, O>;

impl<S: Storage, O: Order> ArrayBase<S, O> {
    /// The sizes of the axes.
    pub closed spec fn dims(&self) -> Seq<usize> {
        self.shape@
    }

    /// The strides of the axes, in elements.
    pub closed spec fn steps(&self) -> Seq<isize> {
        self.strides@
    }

    /// The position in the buffer of the element with the all-zero
    /// multi-index.
    pub closed spec fn origin(&self) -> int {
        self.offset as int
    }

    /// The storage handle.
    pub closed spec fn handle(&self) -> S {
        self.storage
    }

    /// The elements of the buffer, in the order of the buffer.
    pub open spec fn buffer(&self) -> Seq<S::Elem> {
        self.handle().elems()
    }

    /// The layout: shape, strides and offset.
    pub open spec fn layout(&self) -> Layout {
        Layout { shape: self.dims(), strides: self.steps(), offset: self.origin() }
    }

    /// The descriptor is well formed: its layout is, over its buffer.
    pub open spec fn wf(&self) -> bool {
        self.layout().wf(self.buffer().len() as int)
    }

    /// The number of lines along `axis`: the number of multi-indices of the
    /// other axes, and none where the array is empty.
    pub open spec fn line_count(&self, axis: int) -> nat {
        if self.layout().len() == 0 {
            0
        } else {
            self.layout().lines(axis).len()
        }
    }

    /// The elements of the `m`-th line along `axis`.
    pub open spec fn line(&self, axis: int, m: int) -> Seq<S::Elem> {
        Seq::new(
            self.dims()[axis] as nat,
            |j: int| self.buffer()[self.layout().line_position(axis, m, j)],
        )
    }

    /// The elements in logical order, the last axis varying fastest.
    pub open spec fn elements(&self) -> Seq<S::Elem> {
        Seq::new(array_len(self.dims()), |n: int| self.buffer()[self.layout().position(n)])
    }

    /// The sizes of the axes.
    pub fn shape(&self) -> (shape: &Vec<usize>)
        ensures
            shape@ == self.dims(),
    {
        &self.shape
    }

    /// The strides of the axes, in elements.
    pub fn strides(&self) -> (strides: &Vec<isize>)
        ensures
            strides@ == self.steps(),
    {
        &self.strides
    }

    /// The position in the buffer of the element with the all-zero
    /// multi-index.
    pub fn offset(&self) -> (offset: usize)
        ensures
            offset == self.origin(),
    {
        self.offset
    }

    /// The storage handle.
    pub fn storage(&self) -> (storage: &S)
        ensures
            *storage == self.handle(),
    {
        &self.storage
    }

    /// The number of axes.
    pub fn ndims(&self) -> (n: usize)
        ensures
            n == self.dims().len(),
    {
        self.shape.len()
    }

    /// Whether arrays of the dimensionality `D` can have the rank of this
    /// array.
    pub fn has_dimensionality<D: Dimensionality>(&self) -> (b: bool)
        ensures
            b == D::admits(self.dims().len()),
    {
        D::has_rank(self.shape.len())
    }

    /// The number of elements.
    pub fn len(&self) -> (n: usize)
        requires
            self.wf(),
        ensures
            n == array_len(self.dims()),
    {
        proof {
            crate::layout::lemma_span_bounds(self.dims());
        }
        crate::shape::array_len_of(self.shape.as_slice())
    }

    /// Whether the array has no element.
    pub fn is_empty(&self) -> (b: bool)
        requires
            self.wf(),
        ensures
            b == (array_len(self.dims()) == 0),
            b == (self.elements().len() == 0),
    {
        self.len() == 0
    }

    /// A read-only array over the same buffer, with the same layout.
    pub fn view(&self) -> (v: ArrayBase<StorageBase<&[S::Elem]>, O>)
        requires
            self.wf(),
        ensures
            v.wf(),
            v.layout() == self.layout(),
            v.buffer() == self.buffer(),
    {
        ArrayBase {
            shape: self.shape.clone(),
            strides: self.strides.clone(),
            storage: self.storage.view(),
            offset: self.offset,
            phantom: PhantomData,
        }
    }
}

impl<S: Storage, O: Order> ArrayBase<S, O> {
    /// An iterator over the elements in logical order.
    pub fn iter(&self) -> (it: Iter<'_, S::Elem>)
        requires
            self.wf(),
        ensures
            it.wf(),
            it.upcoming() == self.elements(),
            it.buffer() == self.buffer(),
    {
        Iter::new(self)
    }

    /// Clones of the elements, in logical order.
    pub fn to_vec(&self) -> (v: Vec<S::Elem>)
        requires
            self.wf(),
        ensures
            cloned_seq(self.elements(), v@),
    {
        let ghost all = self.elements();
        let mut it = Iter::new(self);
        let n: usize = it.len();
        let mut out: Vec<S::Elem> = Vec::new();
        out.reserve(n);
        let mut i: usize = 0;
        while i < n
            invariant
                i <= n,
                n == all.len(),
                it.wf(),
                it.upcoming() == all.skip(i as int),
                out@.len() == i,
                forall|j: int| 0 <= j < i ==> cloned::<S::Elem>(#[trigger] all[j], out@[j]),
            decreases n - i,
        {
            match it.next() {
                Some(e) => {
                    let c = e.clone();
                    proof {
                        assert(all.skip(i as int)[0] == all[i as int]);
                        assert(all.skip(i as int).skip(1) =~= all.skip(i + 1));
                    }
                    out.push(c);
                },
                None => {},
            }
            i = i + 1;
        }
        out
    }

    /// An array that owns clones of the elements: a fresh buffer in logical
    /// order, with the canonical strides of the order `O`.
    pub fn to_owned_array(&self) -> (a: ArrayBase<StorageBase<Vec<S::Elem>>, O>)
        requires
            self.wf(),
        ensures
            a.wf(),
            a.dims() == self.dims(),
            is_default_strides(O::row_major(), self.dims(), 1, a.steps()),
            a.origin() == 0,
            cloned_seq(self.elements(), a.buffer()),
    {
        let strides = crate::shape::default_strides::<O>(self.shape.as_slice());
        let data = self.to_vec();
        let a = ArrayBase {
            shape: self.shape.clone(),
            strides,
            storage: StorageBase(data),
            offset: 0,
            phantom: PhantomData,
        };
        proof {
            crate::layout::lemma_span_bounds(self.dims());
            if array_len(self.dims()) > 0 {
                crate::layout::lemma_default_extents(O::row_major(), self.dims(), 1, a.steps());
            }
        }
        a
    }
}

impl<S: StorageMut, O: Order> ArrayBase<S, O> {
    /// An iterator over the elements in logical order, through which the
    /// elements can be written. A copy-on-write array that still borrows its
    /// buffer first replaces it by an owned clone.
    pub fn iter_mut(&mut self) -> (it: IterMut<'_, S::Elem>)
        requires
            old(self).wf(),
        ensures
            it.wf(),
            it.walk().dims() == old(self).dims(),
            it.walk().steps() == old(self).steps(),
            it.walk().origin() == old(self).origin(),
            it.walk().remaining() == old(self).layout().len(),
            !old(self).handle().borrowed_cow() ==> it.buffer() == old(self).buffer(),
            old(self).handle().borrowed_cow() ==> cloned_seq(old(self).buffer(), it.buffer()),
            final(self).layout() == old(self).layout(),
            final(self).buffer() == final(it.target())@,
    {
        let limit: usize = self.storage.as_slice().len();
        proof {
            crate::layout::lemma_span_bounds(self.dims());
        }
        let cursor = Cursor::new(self.shape.clone(), self.strides.clone(), self.offset, limit);
        IterMut::from_parts(self.storage.as_mut_slice(), cursor)
    }

    /// Overwrites every element with a clone of `value`. No other place of
    /// the buffer changes. A copy-on-write array that still borrows its
    /// buffer first replaces it by an owned clone.
    pub fn fill(&mut self, value: S::Elem)
        requires
            old(self).wf(),
        ensures
            final(self).wf(),
            final(self).layout() == old(self).layout(),
            filled_with(value, final(self).elements()),
            final(self).buffer().len() == old(self).buffer().len(),
            forall|p: int|
                0 <= p < old(self).buffer().len() && !old(self).layout().reaches(p) ==> if old(self).handle().borrowed_cow() {
                    cloned::<S::Elem>(old(self).buffer()[p], #[trigger] final(self).buffer()[p])
                } else {
                    #[trigger] final(self).buffer()[p] == old(self).buffer()[p]
                },
    {
        let ghost layout = self.layout();
        let ghost before = self.buffer();
        let limit: usize = self.storage.as_slice().len();
        proof {
            crate::layout::lemma_span_bounds(self.dims());
        }
        let mut cursor = Cursor::new(self.shape.clone(), self.strides.clone(), self.offset, limit);
        let n: usize = cursor.len();
        let data = self.storage.as_mut_slice();
        let ghost start = data@;
        let mut i: usize = 0;
        while i < n
            invariant
                i <= n,
                n == layout.len(),
                layout.wf(limit as int),
                cursor.wf(),
                cursor.bound() == limit,
                cursor.dims() == layout.shape,
                cursor.steps() == layout.strides,
                cursor.origin() == layout.offset,
                cursor.remaining() == n - i,
                data@.len() == limit,
                start.len() == limit,
                forall|m: int|
                    0 <= m < i ==> cloned::<S::Elem>(value, #[trigger] data@[layout.position(m)]),
                forall|p: int|
                    0 <= p < limit && !layout.reaches(p) ==> #[trigger] data@[p] == start[p],
            decreases n - i,
        {
            proof {
                cursor.lemma_upcoming_in_bounds(0);
            }
            match cursor.next_position() {
                Some(p) => {
                    let c = value.clone();
                    let ghost prior = data@;
                    proof {
                        assert(p == layout.position(i as int));
                        assert(layout.reaches(p as int));
                    }
                    data[p] = c;
                    proof {
                        assert forall|m: int| 0 <= m < i + 1 implies cloned::<S::Elem>(
                            value,
                            #[trigger] data@[layout.position(m)],
                        ) by {
                            crate::layout::lemma_position_in_bounds(
                                layout.shape,
                                layout.strides,
                                layout.offset,
                                limit as int,
                                m,
                            );
                            if layout.position(m) != p {
                                assert(cloned::<S::Elem>(value, prior[layout.position(m)]));
                            }
                        }
                    }
                },
                None => {},
            }
            i = i + 1;
        }
        proof {
            assert forall|m: int| 0 <= m < self.elements().len() implies cloned::<S::Elem>(
                value,
                #[trigger] self.elements()[m],
            ) by {
                crate::layout::lemma_position_in_bounds(
                    layout.shape,
                    layout.strides,
                    layout.offset,
                    limit as int,
                    m,
                );
                assert(cloned::<S::Elem>(value, data@[layout.position(m)]));
            }
        }
    }
}

impl<S: Storage + Clone, O: Order> Clone for ArrayBase<S, O> {
    /// An array with the same layout over a clone of the storage handle.
    fn clone(&self) -> (a: Self)
        ensures
            a.layout() == self.layout(),
            cloned::<S>(self.handle(), a.handle()),
    {
        ArrayBase {
            shape: self.shape.clone(),
            strides: self.strides.clone(),
            storage: self.storage.clone(),
            offset: self.offset,
            phantom: PhantomData,
        }
    }
}

impl<S: StorageOwned, O: Order> ArrayBase<S, O> {
    /// An array of the given shape, in canonical layout, that owns the given
    /// buffer, where the buffer has as many elements as the shape and the
    /// span of the shape is a machine integer.
    pub fn from_shape_vec<Sh: Shape>(shape: &Sh, data: Vec<S::Elem>) -> (r: Option<Self>)
        ensures
            r is Some <==> span(shape.dims()) <= isize::MAX && data@.len() == array_len(
                shape.dims(),
            ),
            r matches Some(a) ==> a.wf() && a.dims() == shape.dims() && is_default_strides(
                O::row_major(),
                shape.dims(),
                1,
                a.steps(),
            ) && a.origin() == 0 && a.buffer() == data@,
    {
        let dims = shape.as_slice();
        if !crate::shape::span_fits(dims) {
            return None;
        }
        proof {
            crate::layout::lemma_span_bounds(dims@);
        }
        if crate::shape::array_len_of(dims) != data.len() {
            return None;
        }
        let strides = crate::shape::default_strides::<O>(dims);
        let a = ArrayBase {
            shape: crate::dimension::copy_of(dims),
            strides,
            storage: S::from_vec(data),
            offset: 0,
            phantom: PhantomData,
        };
        proof {
            if array_len(dims@) > 0 {
                crate::layout::lemma_default_extents(O::row_major(), dims@, 1, a.steps());
            }
        }
        Some(a)
    }

    /// An array of the given shape, in canonical layout, of clones of
    /// `value`.
    pub fn from_elem<Sh: Shape>(shape: &Sh, value: S::Elem) -> (a: Self)
        requires
            span(shape.dims()) <= isize::MAX,
        ensures
            a.wf(),
            a.dims() == shape.dims(),
            is_default_strides(O::row_major(), shape.dims(), 1, a.steps()),
            a.origin() == 0,
            a.buffer().len() == array_len(shape.dims()),
            filled_with(value, a.buffer()),
    {
        let dims = shape.as_slice();
        proof {
            crate::layout::lemma_span_bounds(dims@);
        }
        let len = crate::shape::array_len_of(dims);
        let strides = crate::shape::default_strides::<O>(dims);
        proof {
            assert(array_len(dims@) <= span(dims@));
        }
        let a = ArrayBase {
            shape: crate::dimension::copy_of(dims),
            strides,
            storage: S::from_elem(len, value),
            offset: 0,
            phantom: PhantomData,
        };
        proof {
            if array_len(dims@) > 0 {
                crate::layout::lemma_default_extents(O::row_major(), dims@, 1, a.steps());
            }
        }
        a
    }

    /// An array of the given shape, in canonical layout, of elements of which
    /// nothing is known: they are there to be overwritten.
    pub fn allocate_uninitialized<Sh: Shape>(shape: &Sh) -> (a: Self) where S::Elem: Default
        requires
            span(shape.dims()) <= isize::MAX,
        ensures
            a.wf(),
            a.dims() == shape.dims(),
            is_default_strides(O::row_major(), shape.dims(), 1, a.steps()),
            a.origin() == 0,
            a.buffer().len() == array_len(shape.dims()),
    {
        Self::from_elem(shape, S::Elem::default())
    }

    /// An array of the given shape, in canonical layout, of clones of the
    /// additive identity.
    pub fn zeros<Sh: Shape>(shape: &Sh) -> (a: Self) where S::Elem: num_traits::Zero
        requires
            span(shape.dims()) <= isize::MAX,
        ensures
            a.wf(),
            a.dims() == shape.dims(),
            is_default_strides(O::row_major(), shape.dims(), 1, a.steps()),
            a.origin() == 0,
            a.buffer().len() == array_len(shape.dims()),
            exists|zero: S::Elem| filled_with(zero, a.buffer()),
    {
        Self::from_elem(shape, crate::storage::zero_value::<S::Elem>())
    }

    /// An array of the given shape, in canonical layout, of clones of the
    /// multiplicative identity.
    pub fn ones<Sh: Shape>(shape: &Sh) -> (a: Self) where S::Elem: num_traits::One
        requires
            span(shape.dims()) <= isize::MAX,
        ensures
            a.wf(),
            a.dims() == shape.dims(),
            is_default_strides(O::row_major(), shape.dims(), 1, a.steps()),
            a.origin() == 0,
            a.buffer().len() == array_len(shape.dims()),
            exists|one: S::Elem| filled_with(one, a.buffer()),
    {
        Self::from_elem(shape, crate::storage::one_value::<S::Elem>())
    }
}

impl<T: Clone> ArrayBase<StorageBase<Vec<T>>, RowMajor> {
    /// The one-dimensional array of the elements of `data`.
    pub fn from(data: Vec<T>) -> (a: Self)
        requires
            data@.len() <= isize::MAX,
        ensures
            a.wf(),
            a.dims() == seq![data@.len() as usize],
            a.steps() == seq![1isize],
            a.origin() == 0,
            a.buffer() == data@,
    {
        let n: usize = data.len();
        let mut shape: Vec<usize> = Vec::new();
        shape.push(n);
        let mut strides: Vec<isize> = Vec::new();
        strides.push(1);
        let a = ArrayBase {
            shape,
            strides,
            storage: StorageBase(data),
            offset: 0,
            phantom: PhantomData,
        };
        proof {
            crate::layout::lemma_one_axis(n, 1);
        }
        a
    }
}

/// An array is empty exactly when it has no elements to iterate over, and an
/// array with an empty axis is empty whatever the sizes of its other axes.
pub proof fn lemma_empty_array<S: Storage, O: Order>(a: ArrayBase<S, O>)
    ensures
        array_len(a.dims()) == 0 <==> a.elements().len() == 0,
        array_len(a.dims()) == 0 <==> exists|k: int|
            0 <= k < a.dims().len() && #[trigger] a.dims()[k] == 0,
        forall|it: Iter<'_, S::Elem>|
            it.upcoming() == a.elements() ==> (array_len(a.dims()) == 0
                <==> #[trigger] it.upcoming().len() == 0),
{
    crate::layout::lemma_array_len_zero(a.dims());
}

} // verus!
