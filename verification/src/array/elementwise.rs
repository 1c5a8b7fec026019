//! Arrays made element by element: from elements given in logical order,
//! from a function of the elements of an array, and from a function of the
//! elements of two arrays whose shapes are broadcast to one.

use vstd::prelude::*;
use crate::array::concat::{axis_sizes_sum, concat_shape};
use crate::array::ArrayBase;
use crate::error::Error;
use crate::iter::Iter;
use crate::layout::{array_len, span, Layout};
use crate::order::{is_default_strides, Order, RowMajor};
use crate::routine::{broadcast_compatible, broadcast_dim, broadcast_shape, is_broadcast_of};
use crate::shape::Shape;
use crate::storage::{cloned_seq, Storage, StorageBase, StorageOwned};

verus! {

/// The shape to which two shapes that can be broadcast to one are broadcast.
pub open spec fn broadcasted(lhs: Seq<usize>, rhs: Seq<usize>) -> Seq<usize> {
    Seq::new(
        if lhs.len() > rhs.len() {
            lhs.len()
        } else {
            rhs.len()
        },
        |k: int| broadcast_dim(lhs, rhs, k)->Some_0,
    )
}

/// Shapes that can be broadcast to one broadcast to that one each.
pub proof fn lemma_broadcasted(lhs: Layout, rhs: Layout, out: Seq<usize>)
    requires
        is_broadcast_of(out, lhs.shape, rhs.shape),
    ensures
        out == broadcasted(lhs.shape, rhs.shape),
        lhs.broadcasts_to(out),
        rhs.broadcasts_to(out),
{
    assert(out =~= broadcasted(lhs.shape, rhs.shape));
    let n = out.len() as int;
    assert forall|k: int| 0 <= k < lhs.shape.len() implies #[trigger] lhs.shape[k] == 1
        || lhs.shape[k] == out[k + out.len() - lhs.shape.len()] by {
        let j = k + n - lhs.shape.len();
        assert(broadcast_dim(lhs.shape, rhs.shape, j) == Some(out[j]));
    }
    assert forall|k: int| 0 <= k < rhs.shape.len() implies #[trigger] rhs.shape[k] == 1
        || rhs.shape[k] == out[k + out.len() - rhs.shape.len()] by {
        let j = k + n - rhs.shape.len();
        assert(broadcast_dim(lhs.shape, rhs.shape, j) == Some(out[j]));
    }
}

impl<S: Storage, O: Order> ArrayBase<S, O> {
    /// The elements of the array stretched to the shape `target`, in
    /// logical order.
    pub open spec fn broadcast_elements(&self, target: Seq<usize>) -> Seq<S::Elem> {
        Seq::new(
            array_len(target),
            |n: int| self.buffer()[self.layout().broadcast(target).position(n)],
        )
    }

    /// Whether `out` holds `results` in logical order, in the shape `shape`
    /// and in canonical layout.
    pub open spec fn holds(out: &Self, shape: Seq<usize>, results: Seq<S::Elem>) -> bool {
        &&& out.wf()
        &&& out.dims() == shape
        &&& is_default_strides(O::row_major(), shape, 1, out.steps())
        &&& out.origin() == 0
        &&& cloned_seq(results, out.elements())
    }
}

impl<S: StorageOwned, O: Order> ArrayBase<S, O> {
    /// An array of the given shape, in canonical layout, that owns clones of
    /// the given elements in logical order, where there are as many elements
    /// as the shape has and the span of the shape is a machine integer.
    pub fn from_elements<Sh: Shape>(shape: &Sh, elements: Vec<S::Elem>) -> (r: Option<Self>)
        ensures
            r is Some <==> span(shape.dims()) <= isize::MAX && elements@.len() == array_len(
                shape.dims(),
            ),
            r matches Some(a) ==> Self::holds(&a, shape.dims(), elements@),
    {
        let staged: ArrayBase<StorageBase<Vec<S::Elem>>, RowMajor> =
            match ArrayBase::from_shape_vec(shape, elements) {
            Some(staged) => staged,
            None => {
                return None;
            },
        };
        proof {
            assert forall|n: int| 0 <= n < elements@.len() implies #[trigger] staged.elements()[n]
                == elements@[n] by {
                crate::canonical::lemma_row_major_number(staged.dims(), staged.steps(), n);
            }
            assert(staged.elements() =~= elements@);
        }
        if staged.ndims() == 0 {
            let data = staged.to_vec();
            let r = Self::from_shape_vec(shape, data);
            proof {
                let a = r->Some_0;
                assert(a.layout().position(0) == 0) by {
                    assert(crate::layout::dot_terms(
                        crate::layout::unravel(0, a.dims()),
                        a.steps(),
                    ) =~= Seq::<int>::empty());
                }
                assert(a.elements() =~= seq![a.buffer()[0]]);
            }
            return r;
        }
        let ghost dims = shape.dims();
        let mut arrays: Vec<ArrayBase<StorageBase<Vec<S::Elem>>, RowMajor>> = Vec::new();
        arrays.push(staged);
        let ghost shapes = Seq::new(arrays@.len(), |i: int| arrays@[i].dims());
        proof {
            assert(shapes[0] == dims);
            assert(axis_sizes_sum(shapes, 0, 1) == axis_sizes_sum(shapes, 0, 0) + shapes[0][0]);
            assert(concat_shape(shapes, 0) =~= dims);
        }
        match Self::concatenate(arrays.as_slice(), 0) {
            Ok(out) => {
                proof {
                    let block = out.layout().block(0, 0, dims[0]);
                    assert(0 * out.steps()[0] == 0);
                    assert(block.shape =~= out.dims());
                    assert(block == out.layout());
                    assert forall|n: int| 0 <= n < elements@.len() implies cloned::<S::Elem>(
                        #[trigger] elements@[n],
                        out.elements()[n],
                    ) by {
                        assert(arrays@[0].elements()[n] == elements@[n]);
                        assert(cloned::<S::Elem>(
                            arrays@[0].elements()[n],
                            out.buffer()[out.layout().block(
                                0,
                                axis_sizes_sum(shapes, 0, 0),
                                arrays@[0].dims()[0],
                            ).position(n)],
                        ));
                    }
                }
                Some(out)
            },
            Err(_) => None,
        }
    }
}

impl<S: Storage, O: Order> ArrayBase<S, O> {
    /// Whether `out` holds, in the shape of `self`, the `results` that `f`
    /// gives for the elements of `self`, in logical order.
    pub open spec fn maps_to<F: Fn(&S::Elem) -> S::Elem>(
        &self,
        f: F,
        results: Seq<S::Elem>,
        out: &ArrayBase<StorageBase<Vec<S::Elem>>, O>,
    ) -> bool {
        &&& results.len() == array_len(self.dims())
        &&& forall|n: int|
            0 <= n < results.len() ==> call_ensures(
                f,
                (&self.elements()[n],),
                #[trigger] results[n],
            )
        &&& ArrayBase::<StorageBase<Vec<S::Elem>>, O>::holds(out, self.dims(), results)
    }

    /// Whether `out` holds, in the shape to which those of `self` and `rhs`
    /// broadcast, the `results` that `f` gives for the pairs of elements of
    /// `self` and `rhs` stretched to that shape, in logical order.
    pub open spec fn zips_to<S1: Storage, F: Fn(&S::Elem, &S1::Elem) -> S::Elem>(
        &self,
        rhs: &ArrayBase<S1, O>,
        f: F,
        results: Seq<S::Elem>,
        out: &ArrayBase<StorageBase<Vec<S::Elem>>, O>,
    ) -> bool {
        let shape = broadcasted(self.dims(), rhs.dims());
        &&& results.len() == array_len(shape)
        &&& forall|n: int|
            0 <= n < results.len() ==> call_ensures(
                f,
                (&self.broadcast_elements(shape)[n], &rhs.broadcast_elements(shape)[n]),
                #[trigger] results[n],
            )
        &&& ArrayBase::<StorageBase<Vec<S::Elem>>, O>::holds(out, shape, results)
    }

    /// The array of what `f` makes of every element: an array of the same
    /// shape, in canonical layout, that owns clones of the results in
    /// logical order.
    pub fn map<F: Fn(&S::Elem) -> S::Elem>(&self, f: F) -> (out: ArrayBase<
        StorageBase<Vec<S::Elem>>,
        O,
    >)
        requires
            self.wf(),
            forall|x: &S::Elem| #[trigger] call_requires(f, (x,)),
        ensures
            exists|results: Seq<S::Elem>| #[trigger] self.maps_to(f, results, &out),
    {
        let ghost all = self.elements();
        let mut source = Iter::new(self);
        let n: usize = source.len();
        let mut results: Vec<S::Elem> = Vec::new();
        results.reserve(n);
        let mut i: usize = 0;
        while i < n
            invariant
                i <= n,
                n == all.len(),
                source.wf(),
                source.upcoming() == all.skip(i as int),
                results@.len() == i,
                forall|x: &S::Elem| #[trigger] call_requires(f, (x,)),
                forall|j: int| 0 <= j < i ==> call_ensures(f, (&all[j],), #[trigger] results@[j]),
            decreases n - i,
        {
            match source.next() {
                Some(elem) => {
                    proof {
                        assert(all.skip(i as int)[0] == all[i as int]);
                        assert(all.skip(i as int).skip(1) =~= all.skip(i + 1));
                    }
                    let result = f(elem);
                    results.push(result);
                },
                None => {},
            }
            i = i + 1;
        }
        let ghost made = results@;
        match ArrayBase::<StorageBase<Vec<S::Elem>>, O>::from_elements(&self.shape, results) {
            Some(out) => {
                proof {
                    assert(self.maps_to(f, made, &out));
                }
                out
            },
            None => unreached(),
        }
    }

    /// The array of what `f` makes of every pair of elements of the two
    /// arrays, their shapes broadcast to one: an array of that shape, in
    /// canonical layout, that owns clones of the results in logical order.
    /// Shapes that cannot be broadcast to one are an error.
    pub fn zip_map<S1: Storage, F: Fn(&S::Elem, &S1::Elem) -> S::Elem>(
        &self,
        rhs: &ArrayBase<S1, O>,
        f: F,
    ) -> (r: Result<ArrayBase<StorageBase<Vec<S::Elem>>, O>, Error>)
        requires
            self.wf(),
            rhs.wf(),
            forall|x: &S::Elem, y: &S1::Elem| #[trigger] call_requires(f, (x, y)),
            broadcast_compatible(self.dims(), rhs.dims()) ==> span(
                broadcasted(self.dims(), rhs.dims()),
            ) <= isize::MAX,
        ensures
            r is Ok <==> broadcast_compatible(self.dims(), rhs.dims()),
            r matches Ok(out) ==> exists|results: Seq<S::Elem>|
                #[trigger] self.zips_to(rhs, f, results, &out),
            r matches Err(e) ==> e.is_shape(),
    {
        let out_shape: Vec<usize> = match broadcast_shape(
            self.shape.as_slice(),
            rhs.shape.as_slice(),
        ) {
            Ok(out_shape) => out_shape,
            Err(e) => {
                return Err(e);
            },
        };
        proof {
            lemma_broadcasted(self.layout(), rhs.layout(), out_shape@);
        }
        let wide_lhs = match self.broadcast_to(out_shape.as_slice()) {
            Ok(wide) => wide,
            Err(_) => unreached(),
        };
        let wide_rhs = match rhs.broadcast_to(out_shape.as_slice()) {
            Ok(wide) => wide,
            Err(_) => unreached(),
        };
        let ghost left = wide_lhs.elements();
        let ghost right = wide_rhs.elements();
        proof {
            assert(left =~= self.broadcast_elements(out_shape@));
            assert(right =~= rhs.broadcast_elements(out_shape@));
        }
        let mut lhs_source = Iter::new(&wide_lhs);
        let mut rhs_source = Iter::new(&wide_rhs);
        let n: usize = lhs_source.len();
        let mut results: Vec<S::Elem> = Vec::new();
        results.reserve(n);
        let mut i: usize = 0;
        while i < n
            invariant
                i <= n,
                n == left.len(),
                n == right.len(),
                lhs_source.wf(),
                rhs_source.wf(),
                lhs_source.upcoming() == left.skip(i as int),
                rhs_source.upcoming() == right.skip(i as int),
                results@.len() == i,
                forall|x: &S::Elem, y: &S1::Elem| #[trigger] call_requires(f, (x, y)),
                forall|j: int|
                    0 <= j < i ==> call_ensures(f, (&left[j], &right[j]), #[trigger] results@[j]),
            decreases n - i,
        {
            proof {
                assert(left.skip(i as int)[0] == left[i as int]);
                assert(left.skip(i as int).skip(1) =~= left.skip(i + 1));
                assert(right.skip(i as int)[0] == right[i as int]);
                assert(right.skip(i as int).skip(1) =~= right.skip(i + 1));
            }
            match (lhs_source.next(), rhs_source.next()) {
                (Some(l), Some(r)) => {
                    let result = f(l, r);
                    results.push(result);
                },
                _ => {
                    proof {
                        assert(false);
                    }
                },
            }
            i = i + 1;
        }
        let ghost made = results@;
        match ArrayBase::<StorageBase<Vec<S::Elem>>, O>::from_elements(&out_shape, results) {
            Some(out) => {
                proof {
                    assert(self.zips_to(rhs, f, made, &out));
                }
                Ok(out)
            },
            None => unreached(),
        }
    }
}

/// The buffer after the first `k` of the `values` have been written, one
/// after the other, to the positions of the first `k` elements of the layout.
pub open spec fn written<T>(buffer: Seq<T>, layout: Layout, values: Seq<T>, k: int) -> Seq<T>
    decreases k,
{
    if k <= 0 {
        buffer
    } else {
        written(buffer, layout, values, k - 1).update(layout.position(k - 1), values[k - 1])
    }
}

impl Layout {
    /// Different elements lie at different positions.
    pub open spec fn distinct(self) -> bool {
        forall|n: int, m: int|
            0 <= n < m < self.len() ==> #[trigger] self.position(n) != #[trigger] self.position(m)
    }
}

/// A canonical layout has every element at a position of its own.
pub proof fn lemma_canonical_is_distinct(row_major: bool, layout: Layout)
    requires
        is_default_strides(row_major, layout.shape, 1, layout.strides),
        span(layout.shape) <= isize::MAX,
    ensures
        layout.distinct(),
{
    assert forall|n: int, m: int| 0 <= n < m < layout.len() implies #[trigger] layout.position(n)
        != #[trigger] layout.position(m) by {
        if layout.position(n) == layout.position(m) {
            crate::canonical::lemma_canonical_distinct(
                row_major,
                layout.shape,
                layout.strides,
                n,
                m,
            );
        }
    }
}

/// Writing to the positions of a layout leaves the length of the buffer, and
/// every position that the layout does not reach.
pub proof fn lemma_written_elsewhere<T>(
    buffer: Seq<T>,
    layout: Layout,
    values: Seq<T>,
    k: int,
    p: int,
)
    requires
        layout.wf(buffer.len() as int),
        0 <= k <= layout.len(),
        !layout.reaches(p),
    ensures
        written(buffer, layout, values, k).len() == buffer.len(),
        0 <= p < buffer.len() ==> written(buffer, layout, values, k)[p] == buffer[p],
    decreases k,
{
    if k > 0 {
        lemma_written_elsewhere(buffer, layout, values, k - 1, p);
        crate::layout::lemma_position_in_bounds(
            layout.shape,
            layout.strides,
            layout.offset,
            buffer.len() as int,
            k - 1,
        );
        assert(layout.position(k - 1) != p);
    }
}

/// Where every element has a position of its own, the values written are the
/// elements afterwards.
pub proof fn lemma_written_distinct<T>(
    buffer: Seq<T>,
    layout: Layout,
    values: Seq<T>,
    k: int,
    n: int,
)
    requires
        layout.wf(buffer.len() as int),
        layout.distinct(),
        0 <= n < k <= layout.len(),
    ensures
        written(buffer, layout, values, k).len() == buffer.len(),
        written(buffer, layout, values, k)[layout.position(n)] == values[n],
    decreases k,
{
    lemma_written_len(buffer, layout, values, k);
    lemma_written_len(buffer, layout, values, k - 1);
    crate::layout::lemma_position_in_bounds(
        layout.shape,
        layout.strides,
        layout.offset,
        buffer.len() as int,
        n,
    );
    crate::layout::lemma_position_in_bounds(
        layout.shape,
        layout.strides,
        layout.offset,
        buffer.len() as int,
        k - 1,
    );
    if n < k - 1 {
        lemma_written_distinct(buffer, layout, values, k - 1, n);
        assert(layout.position(n) != layout.position(k - 1));
    }
}

/// Writing leaves the length of the buffer.
pub proof fn lemma_written_len<T>(buffer: Seq<T>, layout: Layout, values: Seq<T>, k: int)
    requires
        layout.wf(buffer.len() as int),
        k <= layout.len(),
    ensures
        written(buffer, layout, values, k).len() == buffer.len(),
    decreases k,
{
    if k > 0 {
        lemma_written_len(buffer, layout, values, k - 1);
        crate::layout::lemma_position_in_bounds(
            layout.shape,
            layout.strides,
            layout.offset,
            buffer.len() as int,
            k - 1,
        );
    }
}

impl<S: crate::storage::StorageMut, O: Order> ArrayBase<S, O> {
    /// Whether `after` is what the buffer `before` of the array becomes when
    /// `values` are written to its elements in logical order. A copy-on-write
    /// array that still borrows its buffer writes to an owned clone of it.
    pub open spec fn overwritten(&self, values: Seq<S::Elem>, after: Seq<S::Elem>) -> bool {
        if self.handle().borrowed_cow() {
            exists|start: Seq<S::Elem>|
                cloned_seq(self.buffer(), start) && after == #[trigger] written(
                    start,
                    self.layout(),
                    values,
                    self.layout().len() as int,
                )
        } else {
            after == written(self.buffer(), self.layout(), values, self.layout().len() as int)
        }
    }

    /// Writes the values to the elements of the array, in logical order.
    pub fn assign_elements(&mut self, values: Vec<S::Elem>)
        requires
            old(self).wf(),
            values@.len() == old(self).layout().len(),
        ensures
            final(self).wf(),
            final(self).layout() == old(self).layout(),
            final(self).buffer().len() == old(self).buffer().len(),
            old(self).overwritten(values@, final(self).buffer()),
    {
        let ghost layout = self.layout();
        let ghost all = values@;
        let limit: usize = self.storage.as_slice().len();
        proof {
            crate::layout::lemma_span_bounds(self.dims());
        }
        let mut cursor = crate::iter::Cursor::new(
            self.shape.clone(),
            self.strides.clone(),
            self.offset,
            limit,
        );
        let count: usize = values.len();
        let data = self.storage.as_mut_slice();
        let ghost start = data@;
        let mut written_so_far: usize = 0;
        for value in it: values
            invariant
                it.seq() == all,
                written_so_far == it.index(),
                written_so_far <= count,
                count == all.len(),
                all.len() == layout.len(),
                layout.wf(limit as int),
                cursor.wf(),
                cursor.bound() == limit,
                cursor.dims() == layout.shape,
                cursor.steps() == layout.strides,
                cursor.origin() == layout.offset,
                cursor.remaining() == layout.len() - written_so_far,
                data@.len() == limit,
                start.len() == limit,
                data@ == written(start, layout, all, written_so_far as int),
        {
            proof {
                assert(written_so_far < count);
                cursor.lemma_upcoming_in_bounds(0);
            }
            match cursor.next_position() {
                Some(p) => {
                    data[p] = value;
                },
                None => {},
            }
            written_so_far = written_so_far + 1;
        }
    }

    /// Whether `after` is what the buffer of the array becomes when every
    /// element is replaced by the `results` that `f` gives for it and the
    /// element of `rhs`, stretched to the shape of the array, at its place.
    pub open spec fn zip_applied<S1: Storage, F: Fn(&S::Elem, &S1::Elem) -> S::Elem>(
        &self,
        rhs: &ArrayBase<S1, O>,
        f: F,
        results: Seq<S::Elem>,
        after: Seq<S::Elem>,
    ) -> bool {
        &&& results.len() == array_len(self.dims())
        &&& forall|n: int|
            0 <= n < results.len() ==> call_ensures(
                f,
                (&self.elements()[n], &rhs.broadcast_elements(self.dims())[n]),
                #[trigger] results[n],
            )
        &&& self.overwritten(results, after)
    }

    /// Replaces every element by what `f` makes of it and the element of
    /// `rhs`, stretched to the shape of the array, at its place. An array
    /// that cannot be stretched to that shape is an error, and nothing
    /// changes.
    pub fn zip_apply<S1: Storage, F: Fn(&S::Elem, &S1::Elem) -> S::Elem>(
        &mut self,
        rhs: &ArrayBase<S1, O>,
        f: F,
    ) -> (r: Result<(), Error>)
        requires
            old(self).wf(),
            rhs.wf(),
            forall|x: &S::Elem, y: &S1::Elem| #[trigger] call_requires(f, (x, y)),
        ensures
            final(self).wf(),
            final(self).layout() == old(self).layout(),
            r is Ok <==> rhs.layout().broadcasts_to(old(self).dims()),
            r is Ok ==> exists|results: Seq<S::Elem>|
                #[trigger] old(self).zip_applied(rhs, f, results, final(self).buffer()),
            r matches Err(e) ==> e.is_dimension() && *final(self) == *old(self),
    {
        let results: Vec<S::Elem> = {
            let wide = match rhs.broadcast_to(self.shape.as_slice()) {
                Ok(wide) => wide,
                Err(e) => {
                    return Err(e);
                },
            };
            let ghost left = self.elements();
            let ghost right = wide.elements();
            proof {
                assert(right =~= rhs.broadcast_elements(self.dims()));
            }
            let mut lhs_source = Iter::new(&*self);
            let mut rhs_source = Iter::new(&wide);
            let n: usize = lhs_source.len();
            let mut results: Vec<S::Elem> = Vec::new();
            results.reserve(n);
            let mut i: usize = 0;
            while i < n
                invariant
                    i <= n,
                    n == left.len(),
                    n == right.len(),
                    lhs_source.wf(),
                    rhs_source.wf(),
                    lhs_source.upcoming() == left.skip(i as int),
                    rhs_source.upcoming() == right.skip(i as int),
                    results@.len() == i,
                    forall|x: &S::Elem, y: &S1::Elem| #[trigger] call_requires(f, (x, y)),
                    forall|j: int|
                        0 <= j < i ==> call_ensures(
                            f,
                            (&left[j], &right[j]),
                            #[trigger] results@[j],
                        ),
                decreases n - i,
            {
                proof {
                    assert(left.skip(i as int)[0] == left[i as int]);
                    assert(left.skip(i as int).skip(1) =~= left.skip(i + 1));
                    assert(right.skip(i as int)[0] == right[i as int]);
                    assert(right.skip(i as int).skip(1) =~= right.skip(i + 1));
                }
                match (lhs_source.next(), rhs_source.next()) {
                    (Some(l), Some(r)) => {
                        let result = f(l, r);
                        results.push(result);
                    },
                    _ => {
                        proof {
                            assert(false);
                        }
                    },
                }
                i = i + 1;
            }
            results
        };
        let ghost made = results@;
        self.assign_elements(results);
        proof {
            assert(old(self).zip_applied(rhs, f, made, self.buffer()));
        }
        Ok(())
    }
}

} // verus!
