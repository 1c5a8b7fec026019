//! Strided iteration: walking the multi-indices of an array in logical
//! order, the last axis varying fastest, and reading the elements they
//! address.

use vstd::prelude::*;
use crate::arith::mul_stride;
use crate::array::ArrayBase;
use crate::dimension::{repeated, Dimensionality, DynDim};
use crate::layout::{
    array_len, dot_terms, highest, in_bounds, ints, is_index, lemma_partial_dot_bounds,
    lemma_unravel_is_index, lemma_unravel_successor, lemma_unravel_zero, lowest, position,
    successor, sum, unravel, Layout,
};
use crate::order::Order;
use crate::storage::{Storage, StorageMut};

verus! {

/// Steps a multi-index to its successor in logical order and counts the
/// element off. With the last element counted off the multi-index is
/// dropped. Without a multi-index there is nothing to step: the count stays
/// as it is.
pub fn increment_indices(maybe_indices: &mut Option<Vec<usize>>, shape: &[usize], len: &mut usize)
    requires
        *old(maybe_indices) matches Some(idx) ==> *old(len) > 0 && is_index(ints(idx@), shape@),
    ensures
        *old(maybe_indices) is None ==> *final(len) == *old(len) && *final(maybe_indices) is None,
        *old(maybe_indices) is Some ==> *final(len) == *old(len) - 1,
        *old(maybe_indices) is Some && *final(len) == 0 ==> *final(maybe_indices) is None,
        *old(maybe_indices) is Some && *final(len) > 0 ==> *final(maybe_indices) is Some && ints(
            (*final(maybe_indices))->Some_0@,
        ) == successor(ints((*old(maybe_indices))->Some_0@), shape@),
{
    let taken: Option<Vec<usize>> = maybe_indices.take();
    match taken {
        None => {},
        Some(mut indices) => {
            *len = *len - 1;
            if *len > 0 {
                let ghost before = ints(indices@);
                let n: usize = indices.len();
                let mut k: usize = n;
                let mut carry: bool = true;
                proof {
                    assert(before.take(n as int) =~= before);
                    assert(shape@.take(n as int) =~= shape@);
                    assert(successor(before, shape@) + Seq::new(0nat, |j: int| 0int)
                        =~= successor(before, shape@));
                }
                while k > 0 && carry
                    invariant
                        k <= n,
                        n == indices@.len(),
                        n == shape@.len(),
                        n == before.len(),
                        is_index(before, shape@),
                        forall|j: int| 0 <= j < k ==> indices@[j] == before[j],
                        carry ==> successor(before, shape@) =~= successor(
                            before.take(k as int),
                            shape@.take(k as int),
                        ) + Seq::new((n - k) as nat, |j: int| 0int),
                        carry ==> forall|j: int| k <= j < n ==> indices@[j] == 0,
                        !carry ==> ints(indices@) =~= successor(before, shape@),
                    decreases k,
                {
                    k = k - 1;
                    let ghost head = before.take(k + 1);
                    let ghost dims = shape@.take(k + 1);
                    proof {
                        assert(head.drop_last() =~= before.take(k as int));
                        assert(dims.drop_last() =~= shape@.take(k as int));
                        assert(0 <= before[k as int] < shape@[k as int]);
                    }
                    let next: usize = indices[k] + 1;
                    if next >= shape[k] {
                        indices[k] = 0;
                        proof {
                            assert(successor(head, dims) == successor(
                                head.drop_last(),
                                dims.drop_last(),
                            ).push(0));
                            assert(successor(head, dims) + Seq::new(
                                (n - (k + 1)) as nat,
                                |j: int| 0int,
                            ) =~= successor(before.take(k as int), shape@.take(k as int))
                                + Seq::new((n - k) as nat, |j: int| 0int));
                        }
                    } else {
                        indices[k] = next;
                        carry = false;
                        proof {
                            assert(successor(head, dims) == head.update(
                                head.len() - 1,
                                head.last() + 1,
                            ));
                            assert(ints(indices@) =~= successor(head, dims) + Seq::new(
                                (n - (k + 1)) as nat,
                                |j: int| 0int,
                            ));
                        }
                    }
                }
                proof {
                    if carry {
                        assert(before.take(0) =~= Seq::<int>::empty());
                        assert(ints(indices@) =~= successor(before, shape@));
                    }
                }
                *maybe_indices = Some(indices);
            }
        },
    }
}

/// The state of a walk over the elements of a layout: the multi-index of the
/// next element and the number of elements still to come.
pub struct Cursor {
    indices: Option<Vec<usize>>,
    len: usize,
    shape: Vec<usize>,
    strides: Vec<isize>,
    base: usize,
    limit: usize,
}

impl Cursor {
    /// The sizes of the axes walked.
    pub closed spec fn dims(&self) -> Seq<usize> {
        self.shape@
    }

    /// The strides of the axes walked.
    pub closed spec fn steps(&self) -> Seq<isize> {
        self.strides@
    }

    /// The position of the element with the all-zero multi-index.
    pub closed spec fn origin(&self) -> int {
        self.base as int
    }

    /// The number of elements still to come.
    pub closed spec fn remaining(&self) -> nat {
        self.len as nat
    }

    /// The length of the buffer walked over.
    pub closed spec fn bound(&self) -> int {
        self.limit as int
    }

    /// The number of elements already passed.
    pub open spec fn passed(&self) -> int {
        array_len(self.dims()) - self.remaining()
    }

    /// The walk is in order: every position it can reach is inside the
    /// buffer, and the multi-index is that of the next element.
    pub closed spec fn wf(&self) -> bool {
        &&& self.shape@.len() == self.strides@.len()
        &&& array_len(self.shape@) <= usize::MAX
        &&& self.len <= array_len(self.shape@)
        &&& in_bounds(self.shape@, self.strides@, self.base as int, self.limit as int)
        &&& match self.indices {
            Some(idx) => self.len > 0 && ints(idx@) == unravel(
                array_len(self.shape@) - self.len,
                self.shape@,
            ),
            None => self.len == 0,
        }
    }

    /// The position of the `i`-th of the elements still to come.
    pub open spec fn upcoming(&self, i: int) -> int {
        position(self.dims(), self.steps(), self.origin(), self.passed() + i)
    }

    /// A walk is never longer than its layout has elements, and each position
    /// it comes to is inside the buffer.
    pub proof fn lemma_upcoming_in_bounds(&self, i: int)
        requires
            self.wf(),
            0 <= i < self.remaining(),
        ensures
            0 <= self.upcoming(i) < self.bound(),
            self.remaining() <= array_len(self.dims()),
    {
        crate::layout::lemma_position_in_bounds(
            self.dims(),
            self.steps(),
            self.origin(),
            self.bound(),
            self.passed() + i,
        );
    }

    /// A walk over the whole of a layout, from its first element.
    pub fn new(shape: Vec<usize>, strides: Vec<isize>, base: usize, limit: usize) -> (c: Self)
        requires
            shape@.len() == strides@.len(),
            array_len(shape@) <= usize::MAX,
            in_bounds(shape@, strides@, base as int, limit as int),
        ensures
            c.wf(),
            c.bound() == limit,
            c.dims() == shape@,
            c.steps() == strides@,
            c.origin() == base,
            c.remaining() == array_len(shape@),
    {
        let len: usize = crate::shape::array_len_of(shape.as_slice());
        let indices: Option<Vec<usize>> = DynDim::first_indices(shape.as_slice());
        proof {
            if len > 0 {
                lemma_unravel_zero(shape@);
                assert(ints(repeated(shape@.len(), 0usize)) =~= unravel(0, shape@));
            }
        }
        Cursor { indices, len, shape, strides, base, limit }
    }

    /// The number of elements still to come.
    pub fn len(&self) -> (n: usize)
        ensures
            n == self.remaining(),
    {
        self.len
    }

    /// The multi-index of the next element; none once the walk is over.
    pub fn indices(&self) -> (r: Option<&Vec<usize>>)
        requires
            self.wf(),
        ensures
            r is None <==> self.remaining() == 0,
            r matches Some(v) ==> ints(v@) == unravel(self.passed(), self.dims()),
    {
        match &self.indices {
            Some(v) => Some(v),
            None => None,
        }
    }

    /// The sizes of the axes walked.
    pub fn shape(&self) -> (r: &Vec<usize>)
        ensures
            r@ == self.dims(),
    {
        &self.shape
    }

    /// The strides of the axes walked.
    pub fn strides(&self) -> (r: &Vec<isize>)
        ensures
            r@ == self.steps(),
    {
        &self.strides
    }

    /// The position of the element with the all-zero multi-index.
    pub fn offset(&self) -> (r: usize)
        ensures
            r == self.origin(),
    {
        self.base
    }

    /// The position of the next element, if there is one; the walk then
    /// moves on.
    pub fn next_position(&mut self) -> (r: Option<usize>)
        requires
            old(self).wf(),
        ensures
            final(self).wf(),
            final(self).bound() == old(self).bound(),
            final(self).dims() == old(self).dims(),
            final(self).steps() == old(self).steps(),
            final(self).origin() == old(self).origin(),
            old(self).remaining() == 0 ==> r is None && final(self).remaining() == 0,
            old(self).remaining() > 0 ==> r == Some(old(self).upcoming(0) as usize) && 0
                <= old(self).upcoming(0) < old(self).bound() && final(self).remaining() == old(self).remaining() - 1,
    {
        if self.indices.is_none() {
            return None;
        }
        let ghost n_passed = array_len(self.shape@) - self.len;
        let ghost idx = unravel(n_passed, self.shape@);
        proof {
            lemma_unravel_is_index(n_passed, self.shape@);
            crate::layout::lemma_dot_bounds(idx, self.shape@, self.strides@);
        }
        let n: usize = self.shape.len();
        let mut acc: i128 = 0;
        let mut k: usize = 0;
        while k < n
            invariant
                k <= n,
                n == self.shape@.len(),
                n == self.strides@.len(),
                self.indices matches Some(v) && ints(v@) == idx,
                is_index(idx, self.shape@),
                acc == sum(dot_terms(idx, self.strides@).take(k as int)),
                0 <= self.base + lowest(self.shape@, self.strides@),
                self.base + highest(self.shape@, self.strides@) < self.limit,
                array_len(self.shape@) > 0,
            decreases n - k,
        {
            let i: usize = match &self.indices {
                Some(v) => v[k],
                None => 0,
            };
            proof {
                let terms = dot_terms(idx, self.strides@);
                lemma_partial_dot_bounds(idx, self.shape@, self.strides@, k as int);
                lemma_partial_dot_bounds(idx, self.shape@, self.strides@, k + 1);
                assert(terms.take(k + 1).drop_last() =~= terms.take(k as int));
                assert(terms.take(k + 1).last() == idx[k as int] * self.strides@[k as int]);
                assert(sum(terms.take(k + 1)) == sum(terms.take(k as int)) + terms.take(
                    k + 1,
                ).last());
                assert(idx[k as int] == i) by {
                    assert(ints(self.indices->Some_0@)[k as int] == i);
                }
                assert(self.strides@[k as int] * i == idx[k as int] * self.strides@[k as int])
                    by (nonlinear_arith)
                    requires
                        idx[k as int] == i,
                ;
            }
            let term: i128 = mul_stride(self.strides[k], i);
            acc = acc + term;
            k = k + 1;
        }
        proof {
            assert(dot_terms(idx, self.strides@).take(n as int) =~= dot_terms(idx, self.strides@));
        }
        let pos: usize = (self.base as i128 + acc) as usize;
        proof {
            if self.len > 1 {
                lemma_unravel_successor(n_passed, self.shape@);
            }
        }
        increment_indices(&mut self.indices, self.shape.as_slice(), &mut self.len);
        Some(pos)
    }
}

/// An iterator over the elements of an array, in logical order.
pub struct Iter<'a, T> {
    data: &'a [T],
    cursor: Cursor,
}

impl<'a, T> Iter<'a, T> {
    /// The buffer read from.
    pub closed spec fn buffer(&self) -> Seq<T> {
        self.data@
    }

    /// The walk over the buffer.
    pub closed spec fn walk(&self) -> Cursor {
        self.cursor
    }

    /// The iterator is in order.
    pub open spec fn wf(&self) -> bool {
        self.walk().wf() && self.walk().bound() == self.buffer().len()
    }

    /// The elements still to come, in the order in which they come.
    pub open spec fn upcoming(&self) -> Seq<T> {
        Seq::new(self.walk().remaining(), |i: int| self.buffer()[self.walk().upcoming(i)])
    }

    /// An iterator over all elements of an array.
    pub fn new<S: Storage<Elem = T>, O: Order>(a: &'a ArrayBase<S, O>) -> (it: Self)
        requires
            a.wf(),
        ensures
            it.wf(),
            it.upcoming() == a.elements(),
            it.buffer() == a.buffer(),
            it.walk().dims() == a.dims(),
            it.walk().steps() == a.steps(),
            it.walk().origin() == a.origin(),
            it.walk().remaining() == a.layout().len(),
    {
        let data = a.storage().as_slice();
        proof {
            crate::layout::lemma_span_bounds(a.dims());
        }
        let cursor = Cursor::new(a.shape().clone(), a.strides().clone(), a.offset(), data.len());
        let it = Iter { data, cursor };
        proof {
            assert(it.upcoming() =~= a.elements());
        }
        it
    }

    /// The number of elements still to come.
    pub fn len(&self) -> (n: usize)
        ensures
            n == self.upcoming().len(),
    {
        self.cursor.len()
    }

    /// Whether no element is still to come.
    pub fn is_empty(&self) -> (b: bool)
        ensures
            b == (self.upcoming().len() == 0),
    {
        self.cursor.len() == 0
    }

    /// The multi-index of the next element; none once the iterator is
    /// exhausted.
    pub fn indices(&self) -> (r: Option<&Vec<usize>>)
        requires
            self.wf(),
        ensures
            r is None <==> self.upcoming().len() == 0,
            r matches Some(v) ==> ints(v@) == unravel(self.walk().passed(), self.walk().dims()),
    {
        self.cursor.indices()
    }

    /// The sizes of the axes of the array iterated over.
    pub fn shape(&self) -> (r: &Vec<usize>)
        ensures
            r@ == self.walk().dims(),
    {
        self.cursor.shape()
    }

    /// The strides of the axes of the array iterated over.
    pub fn strides(&self) -> (r: &Vec<isize>)
        ensures
            r@ == self.walk().steps(),
    {
        self.cursor.strides()
    }

    /// The position in the buffer of the first element of the array
    /// iterated over.
    pub fn offset(&self) -> (r: usize)
        ensures
            r == self.walk().origin(),
    {
        self.cursor.offset()
    }

    /// The next element, if there is one.
    pub fn next(&mut self) -> (r: Option<&'a T>)
        requires
            old(self).wf(),
        ensures
            final(self).wf(),
            final(self).buffer() == old(self).buffer(),
            old(self).upcoming().len() == 0 ==> r is None && final(self).upcoming().len() == 0,
            old(self).upcoming().len() > 0 ==> r == Some(&old(self).upcoming()[0]) && final(self).upcoming() == old(self).upcoming().skip(1),
    {
        let ghost before = *self;
        match self.cursor.next_position() {
            None => None,
            Some(pos) => {
                proof {
                    assert(self.upcoming() =~= before.upcoming().skip(1));
                }
                Some(&self.data[pos])
            },
        }
    }
}

/// An iterator over the elements of an array, in logical order, through
/// which the elements can be written.
pub struct IterMut<'a, T> {
    data: &'a mut [T],
    cursor: Cursor,
}

impl<'a, T> IterMut<'a, T> {
    /// The buffer written to, as a mutable reference.
    pub closed spec fn target(self) -> &'a mut [T] {
        self.data
    }

    /// The buffer written to, as it is now.
    pub closed spec fn buffer(&self) -> Seq<T> {
        self.data@
    }

    /// The walk over the buffer.
    pub closed spec fn walk(&self) -> Cursor {
        self.cursor
    }

    /// The iterator is in order.
    pub open spec fn wf(&self) -> bool {
        self.walk().wf() && self.walk().bound() == self.buffer().len()
    }

    /// The elements still to come, in the order in which they come.
    pub open spec fn upcoming(&self) -> Seq<T> {
        Seq::new(self.walk().remaining(), |i: int| self.buffer()[self.walk().upcoming(i)])
    }

    /// An iterator that writes to `data` at the positions that `cursor`
    /// walks.
    pub(crate) fn from_parts(data: &'a mut [T], cursor: Cursor) -> (it: Self)
        requires
            cursor.wf(),
            cursor.bound() == old(data)@.len(),
        ensures
            it.wf(),
            it.walk() == cursor,
            it.buffer() == old(data)@,
            final(it.target())@ == final(data)@,
    {
        IterMut { data, cursor }
    }

    /// An iterator over all elements of an array. A copy-on-write array that
    /// still borrows its buffer first replaces it by an owned clone.
    pub fn new<S: StorageMut<Elem = T>, O: Order>(a: &'a mut ArrayBase<S, O>) -> (it: Self) where
        T: Clone,

        requires
            old(a).wf(),
        ensures
            it.wf(),
            it.walk().dims() == old(a).dims(),
            it.walk().steps() == old(a).steps(),
            it.walk().origin() == old(a).origin(),
            it.walk().remaining() == old(a).layout().len(),
            !old(a).handle().borrowed_cow() ==> it.buffer() == old(a).buffer(),
            old(a).handle().borrowed_cow() ==> crate::storage::cloned_seq(
                old(a).buffer(),
                it.buffer(),
            ),
            final(a).layout() == old(a).layout(),
            final(a).buffer() == final(it.target())@,
    {
        a.iter_mut()
    }

    /// The number of elements still to come.
    pub fn len(&self) -> (n: usize)
        ensures
            n == self.upcoming().len(),
    {
        self.cursor.len()
    }

    /// Whether no element is still to come.
    pub fn is_empty(&self) -> (b: bool)
        ensures
            b == (self.upcoming().len() == 0),
    {
        self.cursor.len() == 0
    }

    /// The multi-index of the next element; none once the iterator is
    /// exhausted.
    pub fn indices(&self) -> (r: Option<&Vec<usize>>)
        requires
            self.wf(),
        ensures
            r is None <==> self.upcoming().len() == 0,
            r matches Some(v) ==> ints(v@) == unravel(self.walk().passed(), self.walk().dims()),
    {
        self.cursor.indices()
    }

    /// The sizes of the axes of the array iterated over.
    pub fn shape(&self) -> (r: &Vec<usize>)
        ensures
            r@ == self.walk().dims(),
    {
        self.cursor.shape()
    }

    /// The strides of the axes of the array iterated over.
    pub fn strides(&self) -> (r: &Vec<isize>)
        ensures
            r@ == self.walk().steps(),
    {
        self.cursor.strides()
    }

    /// The position in the buffer of the first element of the array
    /// iterated over.
    pub fn offset(&self) -> (r: usize)
        ensures
            r == self.walk().origin(),
    {
        self.cursor.offset()
    }

    /// The next element, if there is one, to read or to write.
    pub fn next(&mut self) -> (r: Option<&mut T>)
        requires
            old(self).wf(),
        ensures
            final(final(self).target())@ == final(old(self).target())@,
            old(self).upcoming().len() == 0 ==> r is None && final(self).wf() && final(self).buffer() == old(self).buffer() && final(self).upcoming().len() == 0,
            old(self).upcoming().len() > 0 ==> r is Some && *r->Some_0 == old(self).upcoming()[0]
                && final(self).wf() && final(self).walk().remaining() == old(self).walk().remaining() - 1 && final(self).walk().passed() == old(self).walk().passed()
                + 1 && final(self).walk().dims() == old(self).walk().dims() && final(self).walk().steps() == old(self).walk().steps() && final(self).walk().origin() == old(self).walk().origin() && final(self).buffer() == old(self).buffer().update(
                old(self).walk().upcoming(0),
                *final(r->Some_0),
            ),
    {
        match self.cursor.next_position() {
            None => None,
            Some(pos) => Some(&mut self.data[pos]),
        }
    }
}

/// An iterator over the elements of one line of an array.
pub struct ElementIterator<'a, T> {
    data: &'a [T],
    pos: usize,
    remaining: usize,
    stride: isize,
}

impl<'a, T> Clone for ElementIterator<'a, T> {
    fn clone(&self) -> (it: Self)
        ensures
            it == *self,
    {
        ElementIterator {
            data: self.data,
            pos: self.pos,
            remaining: self.remaining,
            stride: self.stride,
        }
    }
}

impl<'a, T> ElementIterator<'a, T> {
    /// The buffer read from.
    pub closed spec fn buffer(&self) -> Seq<T> {
        self.data@
    }

    /// The position of the next element.
    pub closed spec fn position(&self) -> int {
        self.pos as int
    }

    /// The number of elements still to come.
    pub closed spec fn remaining(&self) -> nat {
        self.remaining as nat
    }

    /// The distance between the positions of two neighbours.
    pub closed spec fn step(&self) -> int {
        self.stride as int
    }

    /// The iterator is in order: every element still to come lies inside the
    /// buffer.
    pub open spec fn wf(&self) -> bool {
        forall|j: int|
            0 <= j < self.remaining() ==> 0 <= #[trigger] (self.position() + j * self.step())
                < self.buffer().len()
    }

    /// The elements still to come, in the order in which they come.
    pub open spec fn upcoming(&self) -> Seq<T> {
        Seq::new(self.remaining(), |j: int| self.buffer()[self.position() + j * self.step()])
    }

    /// An iterator over the `dim` elements that lie `stride` apart from
    /// `pos` on.
    pub fn new(data: &'a [T], pos: usize, dim: usize, stride: isize) -> (it: Self)
        requires
            forall|j: int| 0 <= j < dim ==> 0 <= #[trigger] (pos + j * stride) < data@.len(),
        ensures
            it.wf(),
            it.buffer() == data@,
            it.position() == pos,
            it.remaining() == dim,
            it.step() == stride,
    {
        ElementIterator { data, pos, remaining: dim, stride }
    }

    /// The number of elements still to come.
    pub fn len(&self) -> (n: usize)
        ensures
            n == self.upcoming().len(),
    {
        self.remaining
    }

    /// Whether no element is still to come.
    pub fn is_empty(&self) -> (b: bool)
        ensures
            b == (self.upcoming().len() == 0),
    {
        self.remaining == 0
    }

    /// The next element, if there is one.
    pub fn next(&mut self) -> (r: Option<&'a T>)
        requires
            old(self).wf(),
        ensures
            final(self).wf(),
            final(self).buffer() == old(self).buffer(),
            old(self).upcoming().len() == 0 ==> r is None && final(self).upcoming().len() == 0,
            old(self).upcoming().len() > 0 ==> r == Some(&old(self).upcoming()[0]) && final(self).upcoming() == old(self).upcoming().skip(1),
    {
        if self.remaining == 0 {
            return None;
        }
        let ghost before = *self;
        proof {
            assert(0 <= self.position() + 0 * self.step() < self.buffer().len());
            vstd::slice::axiom_spec_len(self.data);
        }
        let elem = &self.data[self.pos];
        self.remaining = self.remaining - 1;
        if self.remaining > 0 {
            proof {
                assert(0 <= before.position() + 1 * before.step() < before.buffer().len());
            }
            self.pos = (self.pos as i128 + self.stride as i128) as usize;
        }
        proof {
            assert forall|j: int| 0 <= j < self.remaining() implies 0 <= #[trigger] (
            self.position() + j * self.step()) < self.buffer().len() by {
                assert(0 <= before.position() + (j + 1) * before.step() < before.buffer().len());
                assert((j + 1) * before.step() == j * before.step() + before.step())
                    by (nonlinear_arith);
            }
            assert forall|j: int| 0 <= j < self.remaining() implies self.upcoming()[j]
                == before.upcoming().skip(1)[j] by {
                assert((j + 1) * before.step() == j * before.step() + before.step())
                    by (nonlinear_arith);
            }
            assert(self.upcoming() =~= before.upcoming().skip(1));
        }
        Some(elem)
    }
}

/// An iterator over the lines of an array along one axis: for every
/// multi-index of the other axes, in logical order, the elements along the
/// axis. An empty array has no lines.
pub struct SequenceIter<'a, T> {
    data: &'a [T],
    cursor: Cursor,
    axis: usize,
    sequence_dim: usize,
    stride: isize,
    source: Ghost<Layout>,
}

impl<'a, T> SequenceIter<'a, T> {
    /// The buffer read from.
    pub closed spec fn buffer(&self) -> Seq<T> {
        self.data@
    }

    /// The layout of the array whose lines are walked.
    pub closed spec fn layout(&self) -> Layout {
        self.source@
    }

    /// The axis along which the lines run.
    pub closed spec fn along(&self) -> int {
        self.axis as int
    }

    /// The number of lines still to come.
    pub closed spec fn remaining(&self) -> nat {
        self.cursor.remaining()
    }

    /// The number of lines already passed.
    pub closed spec fn passed(&self) -> int {
        if self.source@.len() == 0 {
            0
        } else {
            self.cursor.passed()
        }
    }

    /// The iterator is in order.
    pub closed spec fn wf(&self) -> bool {
        let layout = self.source@;
        &&& layout.wf(self.data@.len() as int)
        &&& 0 <= self.axis < layout.shape.len()
        &&& self.sequence_dim == layout.shape[self.axis as int]
        &&& self.stride == layout.strides[self.axis as int]
        &&& self.cursor.wf()
        &&& self.cursor.bound() == self.data@.len()
        &&& self.cursor.steps() == layout.strides
        &&& self.cursor.origin() == layout.offset
        &&& if layout.len() == 0 {
            self.cursor.remaining() == 0 && self.cursor.dims() == layout.shape
        } else {
            self.cursor.dims() == layout.lines(self.axis as int).shape
        }
    }

    /// The `i`-th of the lines still to come.
    pub open spec fn upcoming(&self, i: int) -> Seq<T> {
        Seq::new(
            self.layout().shape[self.along()] as nat,
            |j: int| self.buffer()[self.layout().line_position(self.along(), self.passed() + i, j)],
        )
    }

    /// An iterator over the lines of an array along `axis`.
    pub fn new<S: Storage<Elem = T>, O: Order>(a: &'a ArrayBase<S, O>, axis: usize) -> (it: Self)
        requires
            a.wf(),
            axis < a.dims().len(),
        ensures
            it.wf(),
            it.buffer() == a.buffer(),
            it.layout() == a.layout(),
            it.along() == axis,
            it.passed() == 0,
            it.remaining() == a.line_count(axis as int),
    {
        let data = a.storage().as_slice();
        let mut shape: Vec<usize> = a.shape().clone();
        let sequence_dim: usize = shape[axis];
        let stride: isize = a.strides()[axis];
        proof {
            crate::layout::lemma_span_bounds(a.dims());
        }
        if !a.is_empty() {
            shape[axis] = 1;
            proof {
                crate::layout::lemma_lines(a.layout(), data@.len() as int, axis as int);
                crate::layout::lemma_span_bounds(shape@);
            }
        }
        let cursor = Cursor::new(shape, a.strides().clone(), a.offset(), data.len());
        SequenceIter { data, cursor, axis, sequence_dim, stride, source: Ghost(a.layout()) }
    }

    /// The number of lines still to come.
    pub fn len(&self) -> (n: usize)
        ensures
            n == self.remaining(),
    {
        self.cursor.len()
    }

    /// Whether no line is still to come.
    pub fn is_empty(&self) -> (b: bool)
        ensures
            b == (self.remaining() == 0),
    {
        self.cursor.len() == 0
    }

    /// The multi-index of the first element of the next line; none once the
    /// iterator is exhausted.
    pub fn indices(&self) -> (r: Option<&Vec<usize>>)
        requires
            self.wf(),
        ensures
            r is None <==> self.remaining() == 0,
            r matches Some(v) ==> ints(v@) == unravel(
                self.passed(),
                self.layout().lines(self.along()).shape,
            ),
    {
        self.cursor.indices()
    }

    /// The sizes of the axes walked: those of the array, with 0 on the axis
    /// along which the lines run.
    pub fn shape(&self) -> (r: Vec<usize>)
        requires
            self.wf(),
        ensures
            r@ == self.layout().shape.update(self.along(), 0),
    {
        let mut shape: Vec<usize> = self.cursor.shape().clone();
        shape[self.axis] = 0;
        proof {
            assert(shape@ =~= self.layout().shape.update(self.along(), 0));
        }
        shape
    }

    /// The strides of the axes of the array.
    pub fn strides(&self) -> (r: &Vec<isize>)
        requires
            self.wf(),
        ensures
            r@ == self.layout().strides,
    {
        self.cursor.strides()
    }

    /// The axis along which the lines run.
    pub fn axis(&self) -> (r: usize)
        ensures
            r == self.along(),
    {
        self.axis
    }

    /// The position in the buffer of the first element of the array.
    pub fn offset(&self) -> (r: usize)
        requires
            self.wf(),
        ensures
            r == self.layout().offset,
    {
        self.cursor.offset()
    }

    /// An iterator over the elements of the next line, if there is one.
    pub fn next(&mut self) -> (r: Option<ElementIterator<'a, T>>)
        requires
            old(self).wf(),
        ensures
            final(self).wf(),
            final(self).buffer() == old(self).buffer(),
            final(self).layout() == old(self).layout(),
            final(self).along() == old(self).along(),
            old(self).remaining() == 0 ==> r is None && final(self).remaining() == 0
                && final(self).passed() == old(self).passed(),
            old(self).remaining() > 0 ==> (r matches Some(line) && line.wf() && line.upcoming()
                == old(self).upcoming(0) && final(self).remaining() == old(self).remaining() - 1
                && final(self).passed() == old(self).passed() + 1),
    {
        let ghost layout = self.source@;
        let ghost m = self.passed();
        proof {
            if self.cursor.remaining() > 0 {
                self.cursor.lemma_upcoming_in_bounds(0);
                crate::layout::lemma_lines(layout, self.data@.len() as int, self.axis as int);
            }
        }
        match self.cursor.next_position() {
            None => None,
            Some(pos) => {
                proof {
                    assert(pos == layout.lines(self.axis as int).position(m));
                    assert forall|j: int| 0 <= j < self.sequence_dim implies 0 <= #[trigger] (pos
                        + j * self.stride) < self.data@.len() by {
                        assert(0 <= layout.line_position(self.axis as int, m, j)
                            < self.data@.len());
                    }
                }
                let line = ElementIterator::new(self.data, pos, self.sequence_dim, self.stride);
                proof {
                    assert(line.upcoming() =~= old(self).upcoming(0));
                }
                Some(line)
            },
        }
    }
}

} // verus!
