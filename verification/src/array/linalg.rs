//! The dot product of two arrays: every line of the left operand along its
//! last axis against every line of the right operand along its second to
//! last axis.

use vstd::prelude::*;
use vstd::std_specs::ops::{AddSpec, MulSpec};
use core::marker::PhantomData;
use core::ops::{Add, Mul};
use crate::array::ArrayBase;
use crate::canonical::lemma_canonical_distinct;
use crate::iter::{Cursor, ElementIterator, SequenceIter};
use crate::layout::{array_len, lemma_array_len_split, lemma_default_extents, span, Layout};
use crate::order::{is_default_strides, Order};
use crate::storage::{Storage, StorageBase};

verus! {

/// The axis of the right operand that is contracted: the second to last, or
/// the only one.
pub open spec fn match_axis(rhs_n_dims: int) -> int {
    if rhs_n_dims > 1 {
        rhs_n_dims - 2
    } else {
        0
    }
}

/// Whether two shapes can be multiplied: both have an axis, and the last axis
/// of the left is as long as the contracted axis of the right.
pub open spec fn dot_aligned(lhs: Seq<usize>, rhs: Seq<usize>) -> bool {
    &&& lhs.len() >= 1
    &&& rhs.len() >= 1
    &&& lhs.last() == rhs[match_axis(rhs.len() as int)]
}

/// The shape of a dot product: the axes of the left operand without its last,
/// then the axes of the right operand without the contracted one.
pub open spec fn dot_shape(lhs: Seq<usize>, rhs: Seq<usize>) -> Seq<usize> {
    lhs.drop_last() + rhs.remove(match_axis(rhs.len() as int))
}

/// The sum of the products of the elements of two lines, place by place,
/// added up from the left; `zero` for lines without elements.
pub open spec fn line_dot<T: Mul<Output = T> + Add<Output = T>>(
    l: Seq<T>,
    r: Seq<T>,
    zero: T,
) -> T
    decreases l.len(),
{
    if l.len() == 0 {
        zero
    } else if l.len() == 1 {
        l[0].mul_spec(r[0])
    } else {
        line_dot(l.drop_last(), r.drop_last(), zero).add_spec(l.last().mul_spec(r.last()))
    }
}

/// Whether every product and every sum on the way to `line_dot` is defined
/// for the element type: for machine integers, whether none overflows.
pub open spec fn line_dot_defined<T: Mul<Output = T> + Add<Output = T>>(
    l: Seq<T>,
    r: Seq<T>,
    zero: T,
) -> bool
    decreases l.len(),
{
    if l.len() == 0 {
        true
    } else if l.len() == 1 {
        l[0].mul_req(r[0])
    } else {
        &&& line_dot_defined(l.drop_last(), r.drop_last(), zero)
        &&& l.last().mul_req(r.last())
        &&& line_dot(l.drop_last(), r.drop_last(), zero).add_req(l.last().mul_spec(r.last()))
    }
}

/// Where the dot product of two lines is defined, that of their beginnings
/// is.
pub proof fn lemma_line_dot_prefix<T: Mul<Output = T> + Add<Output = T>>(
    l: Seq<T>,
    r: Seq<T>,
    zero: T,
    k: int,
)
    requires
        l.len() == r.len(),
        0 <= k <= l.len(),
        line_dot_defined(l, r, zero),
    ensures
        line_dot_defined(l.take(k), r.take(k), zero),
    decreases l.len(),
{
    if k == l.len() {
        assert(l.take(k) =~= l);
        assert(r.take(k) =~= r);
    } else if l.len() == 1 {
    } else {
        lemma_line_dot_prefix(l.drop_last(), r.drop_last(), zero, k);
        assert(l.drop_last().take(k) =~= l.take(k));
        assert(r.drop_last().take(k) =~= r.take(k));
    }
}

/// The sum of the products of the elements of two lines of equal length.
pub fn dot_lines<'a, T: Copy + Mul<Output = T> + Add<Output = T>>(
    l: ElementIterator<'a, T>,
    r: ElementIterator<'a, T>,
    zero: T,
) -> (v: T)
    requires
        l.wf(),
        r.wf(),
        l.upcoming().len() == r.upcoming().len(),
        T::obeys_mul_spec(),
        T::obeys_add_spec(),
        line_dot_defined(l.upcoming(), r.upcoming(), zero),
    ensures
        v == line_dot(l.upcoming(), r.upcoming(), zero),
{
    let ghost left = l.upcoming();
    let ghost right = r.upcoming();
    let mut l = l;
    let mut r = r;
    let n: usize = l.len();
    if n == 0 {
        return zero;
    }
    proof {
        lemma_line_dot_prefix(left, right, zero, 1);
        assert(left.take(1)[0] == left[0]);
        assert(right.take(1)[0] == right[0]);
    }
    let a: T = match l.next() {
        Some(a) => *a,
        None => zero,
    };
    let b: T = match r.next() {
        Some(b) => *b,
        None => zero,
    };
    let mut acc: T = a * b;
    let mut i: usize = 1;
    while i < n
        invariant
            1 <= i <= n,
            n == left.len(),
            n == right.len(),
            l.wf(),
            r.wf(),
            l.upcoming() == left.skip(i as int),
            r.upcoming() == right.skip(i as int),
            T::obeys_mul_spec(),
            T::obeys_add_spec(),
            line_dot_defined(left, right, zero),
            acc == line_dot(left.take(i as int), right.take(i as int), zero),
        decreases n - i,
    {
        proof {
            lemma_line_dot_prefix(left, right, zero, i + 1);
            assert(left.take(i + 1).drop_last() =~= left.take(i as int));
            assert(right.take(i + 1).drop_last() =~= right.take(i as int));
            assert(left.take(i + 1).last() == left[i as int]);
            assert(right.take(i + 1).last() == right[i as int]);
            assert(left.skip(i as int)[0] == left[i as int]);
            assert(right.skip(i as int)[0] == right[i as int]);
            assert(left.skip(i as int).skip(1) =~= left.skip(i + 1));
            assert(right.skip(i as int).skip(1) =~= right.skip(i + 1));
        }
        let a: T = match l.next() {
            Some(a) => *a,
            None => zero,
        };
        let b: T = match r.next() {
            Some(b) => *b,
            None => zero,
        };
        acc = acc + a * b;
        i = i + 1;
    }
    proof {
        assert(left.take(n as int) =~= left);
        assert(right.take(n as int) =~= right);
    }
    acc
}

/// The shape of the dot product of two arrays of the given shapes.
pub fn dot_shape_of(lhs_shape: &[usize], rhs_shape: &[usize]) -> (out: Vec<usize>)
    requires
        lhs_shape@.len() >= 1,
        rhs_shape@.len() >= 1,
    ensures
        out@ == dot_shape(lhs_shape@, rhs_shape@),
{
    let n: usize = lhs_shape.len();
    let m: usize = rhs_shape.len();
    let skip: usize = if m > 1 {
        m - 2
    } else {
        0
    };
    let mut out: Vec<usize> = Vec::new();
    let mut k: usize = 0;
    while k < n - 1
        invariant
            k <= n - 1,
            n == lhs_shape@.len(),
            out@ == lhs_shape@.take(k as int),
        decreases n - 1 - k,
    {
        out.push(lhs_shape[k]);
        assert(out@ =~= lhs_shape@.take(k + 1));
        k = k + 1;
    }
    let ghost head = lhs_shape@.drop_last();
    assert(lhs_shape@.take(n - 1) =~= head);
    let mut k: usize = 0;
    while k < m
        invariant
            k <= m,
            m == rhs_shape@.len(),
            skip < m,
            out@ == head + rhs_shape@.remove(skip as int).take(if k <= skip {
                k as int
            } else {
                k - 1
            }),
        decreases m - k,
    {
        if k != skip {
            out.push(rhs_shape[k]);
        }
        proof {
            assert(out@ =~= head + rhs_shape@.remove(skip as int).take(if k + 1 <= skip {
                k + 1
            } else {
                k as int
            }));
        }
        k = k + 1;
    }
    proof {
        assert(rhs_shape@.remove(skip as int).take(m - 1) =~= rhs_shape@.remove(skip as int));
    }
    out
}

/// The element count of a dot product is the number of lines of the left
/// operand times the number of lines of the right.
pub proof fn lemma_dot_shape_len(lhs: Seq<usize>, rhs: Seq<usize>)
    requires
        lhs.len() >= 1,
        rhs.len() >= 1,
    ensures
        array_len(dot_shape(lhs, rhs)) == array_len(lhs.update(lhs.len() - 1, 1)) * array_len(
            rhs.update(match_axis(rhs.len() as int), 1),
        ),
{
    let axis = match_axis(rhs.len() as int);
    let out = dot_shape(lhs, rhs);
    lemma_array_len_split(out, lhs.len() - 1);
    assert(out.take(lhs.len() - 1) =~= lhs.drop_last());
    assert(out.skip(lhs.len() - 1) =~= rhs.remove(axis));
    let lines = lhs.update(lhs.len() - 1, 1);
    assert(lines.drop_last() =~= lhs.drop_last());
    assert(array_len(lines) == array_len(lines.drop_last()) * 1);
    let columns = rhs.update(axis, 1);
    crate::permutation::lemma_array_len_remove(columns, axis);
    assert(columns.remove(axis) =~= rhs.remove(axis));
    assert(array_len(columns) == array_len(rhs.remove(axis)) * 1);
}

/// The number that the pair `(a, b)` has among the pairs below `(na, nb)`,
/// and that an earlier pair has a smaller number.
pub proof fn lemma_pair_number(a: int, b: int, c: int, d: int, na: int, nb: int)
    requires
        0 <= a <= c < na,
        0 <= b < nb,
        0 <= d < nb,
        a < c || b < d,
    ensures
        0 <= a * nb + b < c * nb + d < na * nb,
{
    assert(0 <= a * nb + b && a * nb + b < c * nb + d && c * nb + d < na * nb)
        by (nonlinear_arith)
        requires
            0 <= a <= c < na,
            0 <= b < nb,
            0 <= d < nb,
            a < c || b < d,
    ;
}

impl<S: Storage, O: Order> ArrayBase<S, O> {
    /// Whether `out` is the dot product of `self` and `rhs`, with `zero` as
    /// the sum of no products: it has the shape of the product in canonical
    /// layout, and its element for the `a`-th line of `self` and the `b`-th
    /// line of `rhs` is the dot product of the two lines.
    pub open spec fn is_dot_of<S2: Storage<Elem = S::Elem>, S3: Storage<Elem = S::Elem>>(
        &self,
        rhs: &ArrayBase<S2, O>,
        zero: S::Elem,
        out: &ArrayBase<S3, O>,
    ) -> bool where S::Elem: Mul<Output = S::Elem> + Add<Output = S::Elem> {
        let axis = self.dims().len() - 1;
        let rhs_axis = match_axis(rhs.dims().len() as int);
        let na = array_len(self.dims().update(axis, 1));
        let nb = array_len(rhs.dims().update(rhs_axis, 1));
        &&& out.wf()
        &&& out.dims() == dot_shape(self.dims(), rhs.dims())
        &&& is_default_strides(O::row_major(), out.dims(), 1, out.steps())
        &&& out.origin() == 0
        &&& out.elements().len() == na * nb
        &&& forall|a: int, b: int|
            0 <= a < na && 0 <= b < nb ==> out.buffer()[#[trigger] out.layout().position(
                a * nb + b,
            )] == line_dot(self.line(axis, a), rhs.line(rhs_axis, b), zero)
    }

    /// Whether the dot product of `self` and `rhs` can be computed: the
    /// shapes are aligned, the shape of the product has a span that is a
    /// machine integer, and the dot product of every pair of lines is defined.
    pub open spec fn dot_defined<S2: Storage<Elem = S::Elem>>(
        &self,
        rhs: &ArrayBase<S2, O>,
        zero: S::Elem,
    ) -> bool where S::Elem: Mul<Output = S::Elem> + Add<Output = S::Elem> {
        let axis = self.dims().len() - 1;
        let rhs_axis = match_axis(rhs.dims().len() as int);
        &&& self.wf()
        &&& rhs.wf()
        &&& dot_aligned(self.dims(), rhs.dims())
        &&& span(dot_shape(self.dims(), rhs.dims())) <= isize::MAX
        &&& <S::Elem as MulSpec>::obeys_mul_spec()
        &&& <S::Elem as AddSpec>::obeys_add_spec()
        &&& forall|a: int, b: int|
            0 <= a < array_len(self.dims().update(axis, 1)) && 0 <= b < array_len(
                rhs.dims().update(rhs_axis, 1),
            ) ==> #[trigger] line_dot_defined(self.line(axis, a), rhs.line(rhs_axis, b), zero)
    }

    /// The dot product of `self` and `rhs`, with `zero` as the sum of no
    /// products: an array that owns its elements.
    pub fn dot_with_zero<S2: Storage<Elem = S::Elem>>(
        &self,
        rhs: &ArrayBase<S2, O>,
        zero: S::Elem,
    ) -> (out: ArrayBase<StorageBase<Vec<S::Elem>>, O>) where
        S::Elem: Copy + Mul<Output = S::Elem> + Add<Output = S::Elem>,

        requires
            self.dot_defined(rhs, zero),
        ensures
            self.is_dot_of(rhs, zero, &out),
    {
        let n: usize = self.shape.len();
        let m: usize = rhs.shape.len();
        let axis: usize = n - 1;
        let rhs_axis: usize = if m > 1 {
            m - 2
        } else {
            0
        };
        let ghost na = array_len(self.dims().update(axis as int, 1)) as int;
        let ghost nb = array_len(rhs.dims().update(rhs_axis as int, 1)) as int;
        let out_shape: Vec<usize> = dot_shape_of(self.shape.as_slice(), rhs.shape.as_slice());
        proof {
            lemma_dot_shape_len(self.dims(), rhs.dims());
            crate::layout::lemma_span_bounds(out_shape@);
        }
        let len: usize = crate::shape::array_len_of(out_shape.as_slice());
        let strides: Vec<isize> = crate::shape::default_strides::<O>(out_shape.as_slice());
        let mut data: Vec<S::Elem> = crate::dimension::filled(len, zero);
        let ghost target = Layout { shape: out_shape@, strides: strides@, offset: 0 };
        proof {
            if len > 0 {
                lemma_default_extents(O::row_major(), out_shape@, 1, strides@);
            }
        }
        if len > 0 && self.shape[axis] > 0 {
            proof {
                assert(na > 0 && nb > 0) by (nonlinear_arith)
                    requires
                        na * nb > 0,
                        na >= 0,
                        nb >= 0,
                ;
                // Both operands have elements.
                crate::layout::lemma_array_len_zero(self.dims());
                crate::layout::lemma_array_len_zero(self.dims().update(axis as int, 1));
                crate::layout::lemma_array_len_zero(rhs.dims());
                crate::layout::lemma_array_len_zero(rhs.dims().update(rhs_axis as int, 1));
                assert forall|k: int| 0 <= k < n implies self.dims()[k] != 0 by {
                    if k != axis {
                        assert(self.dims().update(axis as int, 1)[k] != 0);
                    }
                }
                assert forall|k: int| 0 <= k < m implies rhs.dims()[k] != 0 by {
                    if k != rhs_axis {
                        assert(rhs.dims().update(rhs_axis as int, 1)[k] != 0);
                    }
                }
            }
            let mut cursor = Cursor::new(out_shape.clone(), strides.clone(), 0, len);
            let mut lines = SequenceIter::new(self, axis);
            let rows: usize = lines.len();
            let mut a: usize = 0;
            while a < rows
                invariant
                    a <= rows,
                    rows == na,
                    nb > 0,
                    len == na * nb,
                    self.dot_defined(rhs, zero),
                    axis == self.dims().len() - 1,
                    rhs_axis == match_axis(rhs.dims().len() as int),
                    na == array_len(self.dims().update(axis as int, 1)),
                    nb == array_len(rhs.dims().update(rhs_axis as int, 1)),
                    rhs.layout().len() > 0,
                    rhs.line_count(rhs_axis as int) == nb,
                    lines.wf(),
                    lines.buffer() == self.buffer(),
                    lines.layout() == self.layout(),
                    lines.along() == axis,
                    lines.passed() == a,
                    lines.remaining() == rows - a,
                    cursor.wf(),
                    cursor.bound() == len,
                    cursor.dims() == target.shape,
                    cursor.steps() == target.strides,
                    cursor.origin() == 0,
                    cursor.remaining() == na * nb - a * nb,
                    target.shape == out_shape@,
                    is_default_strides(O::row_major(), target.shape, 1, target.strides),
                    target.offset == 0,
                    span(target.shape) <= isize::MAX,
                    array_len(target.shape) == na * nb,
                    crate::layout::in_bounds(target.shape, target.strides, 0, len as int),
                    data@.len() == len,
                    forall|i: int, j: int|
                        0 <= i < a && 0 <= j < nb ==> data@[#[trigger] target.position(i * nb + j)]
                            == line_dot(self.line(axis as int, i), rhs.line(rhs_axis as int, j), zero),
                decreases rows - a,
            {
                let line = match lines.next() {
                    Some(line) => line,
                    None => unreached(),
                };
                proof {
                    assert(line.upcoming() =~= self.line(axis as int, a as int));
                }
                let mut columns = SequenceIter::new(rhs, rhs_axis);
                let cols: usize = columns.len();
                let mut b: usize = 0;
                while b < cols
                    invariant
                        b <= cols,
                        cols == nb,
                        a < rows,
                        rows == na,
                        len == na * nb,
                        self.dot_defined(rhs, zero),
                        axis == self.dims().len() - 1,
                        rhs_axis == match_axis(rhs.dims().len() as int),
                        na == array_len(self.dims().update(axis as int, 1)),
                        nb == array_len(rhs.dims().update(rhs_axis as int, 1)),
                        line.wf(),
                        line.upcoming() == self.line(axis as int, a as int),
                        columns.wf(),
                        columns.buffer() == rhs.buffer(),
                        columns.layout() == rhs.layout(),
                        columns.along() == rhs_axis,
                        columns.passed() == b,
                        columns.remaining() == cols - b,
                        cursor.wf(),
                        cursor.bound() == len,
                        cursor.dims() == target.shape,
                        cursor.steps() == target.strides,
                        cursor.origin() == 0,
                        cursor.remaining() == na * nb - a * nb - b,
                        is_default_strides(O::row_major(), target.shape, 1, target.strides),
                        target.offset == 0,
                        span(target.shape) <= isize::MAX,
                        array_len(target.shape) == na * nb,
                        crate::layout::in_bounds(target.shape, target.strides, 0, len as int),
                        data@.len() == len,
                        forall|i: int, j: int|
                            0 <= i <= a && 0 <= j < nb && (i < a || j < b) ==> data@[#[trigger] target.position(
                                i * nb + j,
                            )] == line_dot(
                                self.line(axis as int, i),
                                rhs.line(rhs_axis as int, j),
                                zero,
                            ),
                    decreases cols - b,
                {
                    let column = match columns.next() {
                        Some(column) => column,
                        None => unreached(),
                    };
                    proof {
                        assert(column.upcoming() =~= rhs.line(rhs_axis as int, b as int));
                        assert(line_dot_defined(
                            self.line(axis as int, a as int),
                            rhs.line(rhs_axis as int, b as int),
                            zero,
                        ));
                        assert(0 <= a * nb + b < na * nb) by (nonlinear_arith)
                            requires
                                0 <= a < na,
                                0 <= b < nb,
                        ;
                    }
                    let value = dot_lines(line.clone(), column, zero);
                    let ghost number = a * nb + b;
                    let ghost prior = data@;
                    match cursor.next_position() {
                        Some(p) => {
                            proof {
                                assert(p == target.position(number));
                            }
                            data[p] = value;
                        },
                        None => {},
                    }
                    proof {
                        assert forall|i: int, j: int|
                            0 <= i <= a && 0 <= j < nb && (i < a || j < b + 1) implies data@[#[trigger] target.position(
                            i * nb + j,
                        )] == line_dot(
                            self.line(axis as int, i),
                            rhs.line(rhs_axis as int, j),
                            zero,
                        ) by {
                            if i < a || j < b {
                                lemma_pair_number(i, j, a as int, b as int, na, nb);
                                if target.position(i * nb + j) == target.position(number) {
                                    lemma_canonical_distinct(
                                        O::row_major(),
                                        target.shape,
                                        target.strides,
                                        i * nb + j,
                                        number,
                                    );
                                }
                                crate::layout::lemma_position_in_bounds(
                                    target.shape,
                                    target.strides,
                                    0,
                                    len as int,
                                    i * nb + j,
                                );
                                assert(prior[target.position(i * nb + j)] == line_dot(
                                    self.line(axis as int, i),
                                    rhs.line(rhs_axis as int, j),
                                    zero,
                                ));
                            }
                        }
                    }
                    b = b + 1;
                }
                proof {
                    assert(na * nb - a * nb - nb == na * nb - (a + 1) * nb) by (nonlinear_arith);
                }
                a = a + 1;
            }
        }
        let out = ArrayBase {
            shape: out_shape,
            strides,
            storage: StorageBase(data),
            offset: 0,
            phantom: PhantomData,
        };
        proof {
            if len > 0 && self.dims()[axis as int] == 0 {
                // Every line is empty, and its dot product is `zero`.
                assert forall|i: int, j: int| 0 <= i < na && 0 <= j < nb implies out.buffer()[#[trigger] out.layout().position(
                    i * nb + j,
                )] == line_dot(
                    self.line(axis as int, i),
                    rhs.line(rhs_axis as int, j),
                    zero,
                ) by {
                    assert(0 <= i * nb + j < na * nb) by (nonlinear_arith)
                        requires
                            0 <= i < na,
                            0 <= j < nb,
                    ;
                    crate::layout::lemma_position_in_bounds(
                        out.dims(),
                        out.steps(),
                        0,
                        len as int,
                        i * nb + j,
                    );
                }
            }
            if len == 0 {
                assert forall|i: int, j: int| 0 <= i < na && 0 <= j < nb implies out.buffer()[#[trigger] out.layout().position(
                    i * nb + j,
                )] == line_dot(
                    self.line(axis as int, i),
                    rhs.line(rhs_axis as int, j),
                    zero,
                ) by {
                    assert(0 <= i * nb + j < na * nb) by (nonlinear_arith)
                        requires
                            0 <= i < na,
                            0 <= j < nb,
                    ;
                }
            }
        }
        out
    }

    /// The dot product of `self` and `rhs`, with the additive identity of
    /// the element type as the sum of no products: an array that owns its
    /// elements.
    pub fn dot<S2: Storage<Elem = S::Elem>>(&self, rhs: &ArrayBase<S2, O>) -> (out: ArrayBase<
        StorageBase<Vec<S::Elem>>,
        O,
    >) where S::Elem: Copy + Mul<Output = S::Elem> + Add<Output = S::Elem> + num_traits::Zero
        requires
            forall|zero: S::Elem| self.dot_defined::<S2>(rhs, zero),
        ensures
            exists|zero: S::Elem|
                self.is_dot_of::<S2, StorageBase<Vec<S::Elem>>>(rhs, zero, &out),
    {
        let zero: S::Elem = crate::storage::zero_value::<S::Elem>();
        assert(self.dot_defined::<S2>(rhs, zero));
        self.dot_with_zero(rhs, zero)
    }
}

} // verus!
