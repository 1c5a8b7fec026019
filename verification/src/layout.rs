//! The mathematical model of a strided layout: element counts, multi-indices,
//! the positions they address, and the range of positions a layout reaches.

use vstd::prelude::*;

verus! {

/// The number of elements of an array of the given shape: the product of its
/// axis sizes, 1 for rank 0.
pub open spec fn array_len(shape: Seq<usize>) -> nat
    decreases shape.len(),
{
    if shape.len() == 0 {
        1
    } else {
        array_len(shape.drop_last()) * (shape.last() as nat)
    }
}

/// The shape with every empty axis widened to size 1.
pub open spec fn widened(shape: Seq<usize>) -> Seq<usize> {
    Seq::new(shape.len(), |k: int| if shape[k] == 0 { 1usize } else { shape[k] })
}

/// The product of the axis sizes with every empty axis counted as 1: the
/// largest factor by which a canonical stride is scaled.
pub open spec fn span(shape: Seq<usize>) -> nat {
    array_len(widened(shape))
}

/// `idx` is a multi-index of an array of the given shape.
pub open spec fn is_index(idx: Seq<int>, shape: Seq<usize>) -> bool {
    &&& idx.len() == shape.len()
    &&& forall|k: int| 0 <= k < idx.len() ==> 0 <= #[trigger] idx[k] < shape[k]
}

/// The sum of a sequence of integers.
pub open spec fn sum(s: Seq<int>) -> int
    decreases s.len(),
{
    if s.len() == 0 {
        0
    } else {
        sum(s.drop_last()) + s.last()
    }
}

/// What each axis adds to the displacement of a multi-index: index times
/// stride.
pub open spec fn dot_terms(idx: Seq<int>, strides: Seq<isize>) -> Seq<int> {
    Seq::new(idx.len(), |k: int| idx[k] * strides[k])
}

/// The displacement of a multi-index: the sum of index times stride over the
/// axes.
pub open spec fn dot(idx: Seq<int>, strides: Seq<isize>) -> int {
    sum(dot_terms(idx, strides))
}

/// The multi-index of the `n`-th element in logical order, the last axis
/// varying fastest.
pub open spec fn unravel(n: int, shape: Seq<usize>) -> Seq<int>
    decreases shape.len(),
{
    if shape.len() == 0 {
        Seq::empty()
    } else if shape.last() == 0 {
        unravel(0, shape.drop_last()).push(0)
    } else {
        unravel(n / (shape.last() as int), shape.drop_last()).push(n % (shape.last() as int))
    }
}

/// The multi-index that follows `idx` in logical order; the last one wraps
/// to all zeros.
pub open spec fn successor(idx: Seq<int>, shape: Seq<usize>) -> Seq<int>
    decreases idx.len(),
{
    if idx.len() == 0 || shape.len() == 0 {
        idx
    } else if idx.last() + 1 < shape.last() {
        idx.update(idx.len() - 1, idx.last() + 1)
    } else {
        successor(idx.drop_last(), shape.drop_last()).push(0)
    }
}

/// The displacement of the last index of an axis.
pub open spec fn reach(size: usize, stride: isize) -> int {
    (size - 1) * stride
}

/// What each axis adds to the least displacement: its reach where that is
/// negative.
pub open spec fn low_terms(shape: Seq<usize>, strides: Seq<isize>) -> Seq<int> {
    Seq::new(
        shape.len(),
        |k: int| if reach(shape[k], strides[k]) < 0 { reach(shape[k], strides[k]) } else { 0 },
    )
}

/// What each axis adds to the greatest displacement: its reach where that is
/// positive.
pub open spec fn high_terms(shape: Seq<usize>, strides: Seq<isize>) -> Seq<int> {
    Seq::new(
        shape.len(),
        |k: int| if reach(shape[k], strides[k]) > 0 { reach(shape[k], strides[k]) } else { 0 },
    )
}

/// The least displacement that a multi-index of the shape can have.
pub open spec fn lowest(shape: Seq<usize>, strides: Seq<isize>) -> int {
    sum(low_terms(shape, strides))
}

/// The greatest displacement that a multi-index of the shape can have.
pub open spec fn highest(shape: Seq<usize>, strides: Seq<isize>) -> int {
    sum(high_terms(shape, strides))
}

/// Every element of a layout lies inside a buffer of `len` elements. An
/// empty array addresses nothing and is always in bounds.
pub open spec fn in_bounds(shape: Seq<usize>, strides: Seq<isize>, offset: int, len: int) -> bool {
    array_len(shape) > 0 ==> 0 <= offset + lowest(shape, strides) && offset + highest(
        shape,
        strides,
    ) < len
}

/// The layout of an array: the sizes and strides of its axes and the position
/// of its first element.
pub struct Layout {
    pub shape: Seq<usize>,
    pub strides: Seq<isize>,
    pub offset: int,
}

impl Layout {
    /// The number of elements.
    pub open spec fn len(self) -> nat {
        array_len(self.shape)
    }

    /// The layout is well formed over a buffer of `limit` elements: shape and
    /// strides have one entry per axis, positions and canonical strides are
    /// machine integers, and every element lies inside the buffer.
    pub open spec fn wf(self, limit: int) -> bool {
        &&& self.shape.len() == self.strides.len()
        &&& span(self.shape) <= isize::MAX
        &&& limit <= isize::MAX
        &&& in_bounds(self.shape, self.strides, self.offset, limit)
    }

    /// The buffer position of the `n`-th element in logical order.
    pub open spec fn position(self, n: int) -> int {
        position(self.shape, self.strides, self.offset, n)
    }

    /// The buffer position of the element with the given multi-index.
    pub open spec fn position_at(self, idx: Seq<int>) -> int {
        self.offset + dot(idx, self.strides)
    }

    /// The layout of the first elements of the lines along `axis`: the layout
    /// with that axis cut down to one index.
    pub open spec fn lines(self, axis: int) -> Layout {
        Layout { shape: self.shape.update(axis, 1), strides: self.strides, offset: self.offset }
    }

    /// The buffer position of the `j`-th element of the `m`-th line along
    /// `axis`.
    pub open spec fn line_position(self, axis: int, m: int, j: int) -> int {
        self.lines(axis).position(m) + j * self.strides[axis]
    }

    /// Whether some element of the layout lies at position `p`.
    pub open spec fn reaches(self, p: int) -> bool {
        exists|n: int| 0 <= n < self.len() && #[trigger] self.position(n) == p
    }
}

/// The buffer position of the `n`-th element in logical order.
pub open spec fn position(shape: Seq<usize>, strides: Seq<isize>, offset: int, n: int) -> int {
    offset + dot(unravel(n, shape), strides)
}

/// An array is empty exactly when one of its axes is.
pub proof fn lemma_array_len_zero(shape: Seq<usize>)
    ensures
        array_len(shape) == 0 <==> exists|k: int| 0 <= k < shape.len() && #[trigger] shape[k] == 0,
    decreases shape.len(),
{
    if shape.len() > 0 {
        let init = shape.drop_last();
        lemma_array_len_zero(init);
        assert(array_len(shape) == 0 <==> (array_len(init) == 0 || shape.last() == 0))
            by (nonlinear_arith)
            requires
                array_len(shape) == array_len(init) * (shape.last() as nat),
        ;
        if array_len(init) == 0 {
            let k = choose|k: int| 0 <= k < init.len() && #[trigger] init[k] == 0;
            assert(shape[k] == 0);
        }
        if shape.last() == 0 {
            assert(shape[shape.len() - 1] == 0);
        }
        if exists|k: int| 0 <= k < shape.len() && #[trigger] shape[k] == 0 {
            let k = choose|k: int| 0 <= k < shape.len() && #[trigger] shape[k] == 0;
            if k < init.len() {
                assert(init[k] == 0);
            }
        }
    }
}

/// Appending an axis multiplies the element count by its size, and the span
/// by its widened size.
pub proof fn lemma_array_len_push(shape: Seq<usize>, size: usize)
    ensures
        array_len(shape.push(size)) == array_len(shape) * (size as nat),
        span(shape.push(size)) == span(shape) * (if size == 0 { 1nat } else { size as nat }),
{
    assert(shape.push(size).drop_last() =~= shape);
    assert(widened(shape.push(size)).drop_last() =~= widened(shape));
}

/// A shape that is nowhere larger than another has no more elements.
pub proof fn lemma_array_len_le(a: Seq<usize>, b: Seq<usize>)
    requires
        a.len() == b.len(),
        forall|k: int| 0 <= k < a.len() ==> a[k] <= b[k],
    ensures
        array_len(a) <= array_len(b),
    decreases a.len(),
{
    if a.len() > 0 {
        assert forall|k: int| 0 <= k < a.drop_last().len() implies a.drop_last()[k]
            <= b.drop_last()[k] by {
            assert(a.drop_last()[k] == a[k]);
            assert(b.drop_last()[k] == b[k]);
        }
        lemma_array_len_le(a.drop_last(), b.drop_last());
        assert(a[a.len() - 1] <= b[a.len() - 1]);
        let x = array_len(a.drop_last());
        let y = array_len(b.drop_last());
        let c = a.last() as nat;
        let d = b.last() as nat;
        assert(x * c <= y * d) by (nonlinear_arith)
            requires
                x <= y,
                c <= d,
        ;
    }
}

/// The element count of a shape is that of a prefix times that of the rest.
pub proof fn lemma_array_len_split(shape: Seq<usize>, k: int)
    requires
        0 <= k <= shape.len(),
    ensures
        array_len(shape) == array_len(shape.take(k)) * array_len(shape.skip(k)),
    decreases shape.len(),
{
    if k == shape.len() {
        assert(shape.take(k) =~= shape);
        assert(shape.skip(k) =~= Seq::<usize>::empty());
        assert(array_len(shape.skip(k)) == 1);
        assert(array_len(shape) * 1 == array_len(shape));
    } else {
        let init = shape.drop_last();
        lemma_array_len_split(init, k);
        assert(init.take(k) =~= shape.take(k));
        let rest = shape.skip(k);
        assert(rest.drop_last() =~= init.skip(k));
        assert(rest.last() == shape.last());
        let a = array_len(shape.take(k));
        let b = array_len(init.skip(k));
        let d = shape.last() as nat;
        assert(array_len(init) == a * b);
        assert(array_len(rest) == array_len(rest.drop_last()) * (rest.last() as nat));
        assert(array_len(rest) == b * d);
        assert(array_len(shape) == array_len(init) * d);
        assert((a * b) * d == a * (b * d)) by (nonlinear_arith);
        assert(array_len(shape) == a * array_len(rest));
    }
}

/// The element count of a shape is its first size times that of the rest.
pub proof fn lemma_array_len_first(shape: Seq<usize>)
    requires
        shape.len() > 0,
    ensures
        array_len(shape) == (shape[0] as nat) * array_len(shape.skip(1)),
{
    lemma_array_len_split(shape, 1);
    assert(shape.take(1).drop_last() =~= Seq::<usize>::empty());
    assert(array_len(shape.take(1).drop_last()) == 1);
    assert(array_len(shape.take(1)) == 1 * (shape[0] as nat));
}

/// The span of a shape is that of a prefix times that of the rest.
pub proof fn lemma_span_split(shape: Seq<usize>, k: int)
    requires
        0 <= k <= shape.len(),
    ensures
        span(shape) == span(shape.take(k)) * span(shape.skip(k)),
{
    lemma_array_len_split(widened(shape), k);
    assert(widened(shape).take(k) =~= widened(shape.take(k)));
    assert(widened(shape).skip(k) =~= widened(shape.skip(k)));
}

/// A non-empty array has as many elements as its span.
pub proof fn lemma_span_of_nonempty(shape: Seq<usize>)
    requires
        array_len(shape) > 0,
    ensures
        span(shape) == array_len(shape),
{
    lemma_array_len_zero(shape);
    assert(widened(shape) =~= shape);
}

/// The span is positive and never smaller than the element count.
pub proof fn lemma_span_bounds(shape: Seq<usize>)
    ensures
        span(shape) >= 1,
        array_len(shape) <= span(shape),
    decreases shape.len(),
{
    if shape.len() > 0 {
        let init = shape.drop_last();
        lemma_span_bounds(init);
        assert(widened(shape).drop_last() =~= widened(init));
        let a = array_len(init);
        let s = span(init);
        let d = shape.last() as nat;
        let e = widened(shape).last() as nat;
        assert(s * e >= 1 && a * d <= s * e) by (nonlinear_arith)
            requires
                s >= 1,
                a <= s,
                e >= 1,
                d <= e,
        ;
    }
}

/// The span of a part of a shape is at most the span of the whole.
pub proof fn lemma_span_part(shape: Seq<usize>, i: int, j: int)
    requires
        0 <= i <= j <= shape.len(),
    ensures
        1 <= span(shape.subrange(i, j)) <= span(shape),
{
    lemma_span_split(shape, j);
    lemma_span_split(shape.take(j), i);
    assert(shape.take(j).skip(i) =~= shape.subrange(i, j));
    assert(shape.take(j).take(i) =~= shape.take(i));
    lemma_span_bounds(shape.take(i));
    lemma_span_bounds(shape.skip(j));
    lemma_span_bounds(shape.subrange(i, j));
    let a = span(shape.take(i));
    let b = span(shape.subrange(i, j));
    let c = span(shape.skip(j));
    assert(b <= (a * b) * c) by (nonlinear_arith)
        requires
            a >= 1,
            b >= 1,
            c >= 1,
    ;
}

/// The sum of a sequence is that of a prefix plus that of the rest.
pub proof fn lemma_sum_split(s: Seq<int>, k: int)
    requires
        0 <= k <= s.len(),
    ensures
        sum(s) == sum(s.take(k)) + sum(s.skip(k)),
    decreases s.len(),
{
    if k == s.len() {
        assert(s.take(k) =~= s);
        assert(s.skip(k) =~= Seq::<int>::empty());
    } else {
        let init = s.drop_last();
        lemma_sum_split(init, k);
        assert(init.take(k) =~= s.take(k));
        let rest = s.skip(k);
        assert(rest.drop_last() =~= init.skip(k));
        assert(rest.last() == s.last());
        assert(sum(rest) == sum(rest.drop_last()) + rest.last());
    }
}

/// The sum of a sequence is its first term plus the sum of the rest.
pub proof fn lemma_sum_first(s: Seq<int>)
    requires
        s.len() > 0,
    ensures
        sum(s) == s[0] + sum(s.skip(1)),
{
    lemma_sum_split(s, 1);
    assert(s.take(1).drop_last() =~= Seq::<int>::empty());
    assert(sum(s.take(1)) == sum(s.take(1).drop_last()) + s.take(1).last());
}

/// A sequence that is nowhere greater than another has no greater sum.
pub proof fn lemma_sum_le(a: Seq<int>, b: Seq<int>)
    requires
        a.len() == b.len(),
        forall|k: int| 0 <= k < a.len() ==> a[k] <= b[k],
    ensures
        sum(a) <= sum(b),
    decreases a.len(),
{
    if a.len() > 0 {
        assert forall|k: int| 0 <= k < a.drop_last().len() implies a.drop_last()[k]
            <= b.drop_last()[k] by {
            assert(a.drop_last()[k] == a[k]);
            assert(b.drop_last()[k] == b[k]);
        }
        lemma_sum_le(a.drop_last(), b.drop_last());
        assert(a[a.len() - 1] <= b[a.len() - 1]);
    }
}

/// The sum of a sequence of zeros is zero.
pub proof fn lemma_sum_zeros(s: Seq<int>)
    requires
        forall|k: int| 0 <= k < s.len() ==> s[k] == 0,
    ensures
        sum(s) == 0,
    decreases s.len(),
{
    if s.len() > 0 {
        assert forall|k: int| 0 <= k < s.drop_last().len() implies s.drop_last()[k] == 0 by {
            assert(s.drop_last()[k] == s[k]);
        }
        lemma_sum_zeros(s.drop_last());
        assert(s[s.len() - 1] == 0);
    }
}

/// Replacing one term changes the sum by the difference.
pub proof fn lemma_sum_update(s: Seq<int>, k: int, x: int)
    requires
        0 <= k < s.len(),
    ensures
        sum(s.update(k, x)) == sum(s) - s[k] + x,
    decreases s.len(),
{
    let t = s.update(k, x);
    if k == s.len() - 1 {
        assert(t.drop_last() =~= s.drop_last());
    } else {
        lemma_sum_update(s.drop_last(), k, x);
        assert(t.drop_last() =~= s.drop_last().update(k, x));
    }
}

/// The sum of a sequence read backwards is the same.
pub proof fn lemma_sum_reverse(s: Seq<int>)
    ensures
        sum(s.reverse()) == sum(s),
    decreases s.len(),
{
    if s.len() > 0 {
        let r = s.reverse();
        lemma_sum_first(r);
        assert(r.skip(1) =~= s.drop_last().reverse());
        lemma_sum_reverse(s.drop_last());
    }
}

/// The element count of a shape read backwards is the same.
pub proof fn lemma_array_len_reverse(shape: Seq<usize>)
    ensures
        array_len(shape.reverse()) == array_len(shape),
    decreases shape.len(),
{
    if shape.len() > 0 {
        let r = shape.reverse();
        lemma_array_len_first(r);
        assert(r.skip(1) =~= shape.drop_last().reverse());
        lemma_array_len_reverse(shape.drop_last());
        let a = array_len(shape.drop_last());
        let d = shape.last() as nat;
        assert(d * a == a * d) by (nonlinear_arith);
    }
}

/// The displacement of every multi-index lies between the two extremes.
pub proof fn lemma_dot_bounds(idx: Seq<int>, shape: Seq<usize>, strides: Seq<isize>)
    requires
        is_index(idx, shape),
        shape.len() == strides.len(),
    ensures
        lowest(shape, strides) <= dot(idx, strides) <= highest(shape, strides),
{
    let lo = low_terms(shape, strides);
    let hi = high_terms(shape, strides);
    let mid = dot_terms(idx, strides);
    assert forall|k: int| 0 <= k < mid.len() implies lo[k] <= mid[k] && mid[k] <= hi[k] by {
        let i = idx[k];
        let d = shape[k] as int;
        let s = strides[k] as int;
        assert(0 <= idx[k] < shape[k]);
        assert((if (d - 1) * s < 0 { (d - 1) * s } else { 0 }) <= i * s <= (if (d - 1) * s > 0 {
            (d - 1) * s
        } else {
            0
        })) by (nonlinear_arith)
            requires
                0 <= i < d,
        ;
    }
    lemma_sum_le(lo, mid);
    lemma_sum_le(mid, hi);
}

/// The `n`-th multi-index of a non-empty array is a multi-index of its shape.
pub proof fn lemma_unravel_is_index(n: int, shape: Seq<usize>)
    requires
        0 <= n < array_len(shape),
    ensures
        is_index(unravel(n, shape), shape),
    decreases shape.len(),
{
    if shape.len() > 0 {
        let init = shape.drop_last();
        let d = shape.last() as int;
        assert(d > 0 && 0 <= n / d < array_len(init) && 0 <= n % d < d) by (nonlinear_arith)
            requires
                0 <= n < array_len(init) * d,
                d >= 0,
                array_len(init) >= 0,
        ;
        lemma_unravel_is_index(n / d, init);
        let u = unravel(n, shape);
        assert forall|k: int| 0 <= k < u.len() implies 0 <= #[trigger] u[k] < shape[k] by {
            if k < init.len() {
                assert(u[k] == unravel(n / d, init)[k]);
                assert(shape[k] == init[k]);
            }
        }
    }
}

/// Every element of a layout that is in bounds has its position inside the
/// buffer.
pub proof fn lemma_position_in_bounds(
    shape: Seq<usize>,
    strides: Seq<isize>,
    offset: int,
    len: int,
    n: int,
)
    requires
        shape.len() == strides.len(),
        in_bounds(shape, strides, offset, len),
        0 <= n < array_len(shape),
    ensures
        0 <= position(shape, strides, offset, n) < len,
{
    lemma_unravel_is_index(n, shape);
    lemma_dot_bounds(unravel(n, shape), shape, strides);
}

/// A sequence of machine integers as mathematical integers.
pub open spec fn ints(s: Seq<usize>) -> Seq<int> {
    Seq::new(s.len(), |k: int| s[k] as int)
}

/// The first multi-index of a non-empty array is all zeros.
pub proof fn lemma_unravel_zero(shape: Seq<usize>)
    requires
        array_len(shape) > 0,
    ensures
        unravel(0, shape) == Seq::new(shape.len(), |k: int| 0int),
    decreases shape.len(),
{
    if shape.len() > 0 {
        let init = shape.drop_last();
        let d = shape.last() as int;
        assert(array_len(init) > 0 && d > 0) by (nonlinear_arith)
            requires
                array_len(init) * d > 0,
                d >= 0,
        ;
        lemma_unravel_zero(init);
        assert(0int / d == 0 && 0int % d == 0) by (nonlinear_arith)
            requires
                d > 0,
        ;
        assert(unravel(0, shape) =~= Seq::new(shape.len(), |k: int| 0int));
    } else {
        assert(unravel(0, shape) =~= Seq::new(shape.len(), |k: int| 0int));
    }
}

/// The multi-index of the next element is the successor of the multi-index.
pub proof fn lemma_unravel_successor(n: int, shape: Seq<usize>)
    requires
        0 <= n,
        n + 1 < array_len(shape),
    ensures
        successor(unravel(n, shape), shape) == unravel(n + 1, shape),
    decreases shape.len(),
{
    if shape.len() > 0 {
        let init = shape.drop_last();
        let d = shape.last() as int;
        let a = array_len(init) as int;
        assert(a > 0 && d > 0) by (nonlinear_arith)
            requires
                a * d > 0,
                d >= 0,
                a >= 0,
        ;
        let q = n / d;
        let r = n % d;
        vstd::arithmetic::div_mod::lemma_fundamental_div_mod(n, d);
        vstd::arithmetic::div_mod::lemma_mod_bound(n, d);
        let u = unravel(n, shape);
        assert(u == unravel(q, init).push(r));
        assert(u.drop_last() =~= unravel(q, init));
        assert(u.last() == r);
        assert(0 <= q) by (nonlinear_arith)
            requires
                n == d * q + r,
                0 <= r < d,
                n >= 0,
        ;
        if r + 1 < d {
            assert(n + 1 == q * d + (r + 1)) by (nonlinear_arith)
                requires
                    n == d * q + r,
            ;
            vstd::arithmetic::div_mod::lemma_fundamental_div_mod_converse(n + 1, d, q, r + 1);
            assert(unravel(n + 1, shape) == unravel(q, init).push(r + 1));
            assert(u.update(u.len() - 1, r + 1) =~= unravel(q, init).push(r + 1));
        } else {
            assert(n + 1 == (q + 1) * d + 0) by (nonlinear_arith)
                requires
                    n == d * q + r,
                    r + 1 == d,
            ;
            vstd::arithmetic::div_mod::lemma_fundamental_div_mod_converse(n + 1, d, q + 1, 0);
            assert(q + 1 < a) by (nonlinear_arith)
                requires
                    n + 1 == (q + 1) * d,
                    n + 1 < a * d,
                    d > 0,
            ;
            lemma_unravel_successor(q, init);
        }
    }
}

/// The displacement that the first `k` axes of a multi-index add lies between
/// the two extremes.
pub proof fn lemma_partial_dot_bounds(
    idx: Seq<int>,
    shape: Seq<usize>,
    strides: Seq<isize>,
    k: int,
)
    requires
        is_index(idx, shape),
        shape.len() == strides.len(),
        0 <= k <= idx.len(),
    ensures
        lowest(shape, strides) <= sum(dot_terms(idx, strides).take(k)) <= highest(shape, strides),
{
    let lo = low_terms(shape, strides);
    let hi = high_terms(shape, strides);
    let mid = dot_terms(idx, strides);
    let cut = Seq::new(mid.len(), |j: int| if j < k { mid[j] } else { 0 });
    assert forall|j: int| 0 <= j < mid.len() implies lo[j] <= cut[j] && cut[j] <= hi[j] by {
        let i = idx[j];
        let d = shape[j] as int;
        let s = strides[j] as int;
        assert(0 <= idx[j] < shape[j]);
        assert((if (d - 1) * s < 0 { (d - 1) * s } else { 0 }) <= i * s <= (if (d - 1) * s > 0 {
            (d - 1) * s
        } else {
            0
        })) by (nonlinear_arith)
            requires
                0 <= i < d,
        ;
    }
    lemma_sum_le(lo, cut);
    lemma_sum_le(cut, hi);
    lemma_sum_split(cut, k);
    assert(cut.take(k) =~= mid.take(k));
    lemma_sum_zeros(cut.skip(k));
}

/// In a non-empty layout that is in bounds, the first element lies inside the
/// buffer, and the reach of every axis is smaller than the buffer.
pub proof fn lemma_extremes_in_bounds(layout: Layout, limit: int)
    requires
        layout.wf(limit),
        layout.len() > 0,
    ensures
        0 <= layout.offset < limit,
        lowest(layout.shape, layout.strides) <= 0 <= highest(layout.shape, layout.strides),
        forall|k: int|
            0 <= k < layout.shape.len() ==> -limit < #[trigger] reach(
                layout.shape[k],
                layout.strides[k],
            ) < limit,
{
    let lo = low_terms(layout.shape, layout.strides);
    let hi = high_terms(layout.shape, layout.strides);
    let zero = Seq::new(lo.len(), |k: int| 0int);
    lemma_sum_le(lo, zero);
    lemma_sum_le(zero, hi);
    lemma_sum_zeros(zero);
    assert forall|k: int| 0 <= k < layout.shape.len() implies -limit < #[trigger] reach(
        layout.shape[k],
        layout.strides[k],
    ) < limit by {
        lemma_sum_update(lo, k, 0);
        lemma_sum_update(hi, k, 0);
        lemma_sum_le(lo.update(k, 0), zero);
        lemma_sum_le(zero, hi.update(k, 0));
    }
}

/// The lines of a well-formed, non-empty layout along one of its axes form a
/// well-formed layout, and every element of every line lies inside the
/// buffer.
pub proof fn lemma_lines(layout: Layout, limit: int, axis: int)
    requires
        layout.wf(limit),
        0 <= axis < layout.shape.len(),
        layout.len() > 0,
    ensures
        layout.lines(axis).wf(limit),
        layout.lines(axis).len() > 0,
        layout.len() == layout.lines(axis).len() * layout.shape[axis],
        forall|m: int, j: int|
            0 <= m < layout.lines(axis).len() && 0 <= j < layout.shape[axis] ==> 0
                <= #[trigger] layout.line_position(axis, m, j) < limit,
{
    let lines = layout.lines(axis);
    lemma_array_len_zero(layout.shape);
    lemma_array_len_zero(lines.shape);
    assert forall|k: int| 0 <= k < lines.shape.len() implies lines.shape[k] != 0 by {
        if k != axis {
            assert(layout.shape[k] != 0);
        }
    }
    lemma_array_len_le(widened(lines.shape), widened(layout.shape));
    let lo = low_terms(layout.shape, layout.strides);
    let hi = high_terms(layout.shape, layout.strides);
    assert(reach(1, layout.strides[axis]) == 0) by (nonlinear_arith)
        requires
            reach(1, layout.strides[axis]) == (1 - 1) * layout.strides[axis],
    ;
    assert(low_terms(lines.shape, lines.strides) =~= lo.update(axis, 0));
    assert(high_terms(lines.shape, lines.strides) =~= hi.update(axis, 0));
    lemma_sum_update(lo, axis, 0);
    lemma_sum_update(hi, axis, 0);
    crate::permutation::lemma_array_len_remove(layout.shape, axis);
    crate::permutation::lemma_array_len_remove(lines.shape, axis);
    assert(lines.shape.remove(axis) =~= layout.shape.remove(axis));
    assert(array_len(lines.shape) == array_len(layout.shape.remove(axis)) * 1);
    assert forall|m: int, j: int|
        0 <= m < lines.len() && 0 <= j < layout.shape[axis] implies 0
        <= #[trigger] layout.line_position(axis, m, j) < limit by {
        let idx = unravel(m, lines.shape);
        lemma_unravel_is_index(m, lines.shape);
        assert(0 <= idx[axis] < lines.shape[axis]);
        let at = idx.update(axis, j);
        assert(is_index(at, layout.shape)) by {
            assert forall|k: int| 0 <= k < at.len() implies 0 <= #[trigger] at[k]
                < layout.shape[k] by {
                if k != axis {
                    assert(0 <= idx[k] < lines.shape[k]);
                }
            }
        }
        lemma_dot_bounds(at, layout.shape, layout.strides);
        let terms = dot_terms(idx, layout.strides);
        assert(dot_terms(at, layout.strides) =~= terms.update(axis, j * layout.strides[axis]));
        lemma_sum_update(terms, axis, j * layout.strides[axis]);
        assert(terms[axis] == 0) by (nonlinear_arith)
            requires
                terms[axis] == idx[axis] * layout.strides[axis],
                idx[axis] == 0,
        ;
    }
}

/// The element count, span and extremes of a one-dimensional layout.
pub proof fn lemma_one_axis(size: usize, stride: isize)
    ensures
        array_len(seq![size]) == size,
        span(seq![size]) == (if size == 0 { 1nat } else { size as nat }),
        lowest(seq![size], seq![stride]) == (if reach(size, stride) < 0 {
            reach(size, stride)
        } else {
            0
        }),
        highest(seq![size], seq![stride]) == (if reach(size, stride) > 0 {
            reach(size, stride)
        } else {
            0
        }),
{
    let shape = seq![size];
    let strides = seq![stride];
    assert(shape.drop_last() =~= Seq::<usize>::empty());
    assert(array_len(shape) == array_len(shape.drop_last()) * (shape.last() as nat));
    assert(widened(shape).drop_last() =~= Seq::<usize>::empty());
    assert(array_len(widened(shape)) == array_len(widened(shape).drop_last()) * (widened(
        shape,
    ).last() as nat));
    let lo = low_terms(shape, strides);
    let hi = high_terms(shape, strides);
    assert(lo.drop_last() =~= Seq::<int>::empty());
    assert(hi.drop_last() =~= Seq::<int>::empty());
    assert(sum(lo) == sum(lo.drop_last()) + lo.last());
    assert(sum(hi) == sum(hi.drop_last()) + hi.last());
}

/// The extremes of canonical strides: a non-empty array whose strides are the
/// canonical ones scaled by `base` reaches from 0 to `base` times its last
/// element number.
pub proof fn lemma_default_extents(
    row_major: bool,
    shape: Seq<usize>,
    base: int,
    strides: Seq<isize>,
)
    requires
        array_len(shape) > 0,
        crate::order::is_default_strides(row_major, shape, base, strides),
    ensures
        lowest(shape, strides) == (if base < 0 { base * (array_len(shape) - 1) } else { 0 }),
        highest(shape, strides) == (if base > 0 { base * (array_len(shape) - 1) } else { 0 }),
{
    let n = shape.len() as int;
    let lo = low_terms(shape, strides);
    let hi = high_terms(shape, strides);
    lemma_array_len_zero(shape);
    if row_major {
        assert(lo.skip(n) =~= Seq::<int>::empty());
        assert(hi.skip(n) =~= Seq::<int>::empty());
        assert(shape.skip(n) =~= Seq::<usize>::empty());
        lemma_default_extents_from(shape, base, strides, 0);
        assert(lo.skip(0) =~= lo);
        assert(hi.skip(0) =~= hi);
        assert(shape.skip(0) =~= shape);
    } else {
        lemma_default_extents_upto(shape, base, strides, n);
        assert(lo.take(n) =~= lo);
        assert(hi.take(n) =~= hi);
        assert(shape.take(n) =~= shape);
    }
}

/// The extremes that the axes from `m` on add under row-major canonical
/// strides.
proof fn lemma_default_extents_from(shape: Seq<usize>, base: int, strides: Seq<isize>, m: int)
    requires
        0 <= m <= shape.len(),
        forall|k: int| 0 <= k < shape.len() ==> shape[k] != 0,
        crate::order::is_default_strides(true, shape, base, strides),
    ensures
        array_len(shape.skip(m)) >= 1,
        sum(low_terms(shape, strides).skip(m)) == (if base < 0 {
            base * (array_len(shape.skip(m)) - 1)
        } else {
            0
        }),
        sum(high_terms(shape, strides).skip(m)) == (if base > 0 {
            base * (array_len(shape.skip(m)) - 1)
        } else {
            0
        }),
    decreases shape.len() - m,
{
    let lo = low_terms(shape, strides).skip(m);
    let hi = high_terms(shape, strides).skip(m);
    if m == shape.len() {
        assert(lo =~= Seq::<int>::empty());
        assert(hi =~= Seq::<int>::empty());
        assert(shape.skip(m) =~= Seq::<usize>::empty());
    } else {
        lemma_default_extents_from(shape, base, strides, m + 1);
        lemma_sum_first(lo);
        lemma_sum_first(hi);
        assert(lo.skip(1) =~= low_terms(shape, strides).skip(m + 1));
        assert(hi.skip(1) =~= high_terms(shape, strides).skip(m + 1));
        lemma_array_len_first(shape.skip(m));
        assert(shape.skip(m).skip(1) =~= shape.skip(m + 1));
        lemma_array_len_zero(shape.skip(m + 1));
        assert(array_len(shape.skip(m + 1)) > 0);
        lemma_span_of_nonempty(shape.skip(m + 1));
        let d = shape[m] as int;
        let rest = array_len(shape.skip(m + 1)) as int;
        assert(strides[m] == crate::order::default_stride(true, shape, base, m));
        assert(strides[m] == base * rest);
        assert(shape[m] != 0);
        let r = (d - 1) * (base * rest);
        assert(reach(shape[m], strides[m]) == r);
        assert(lo[0] == (if r < 0 { r } else { 0 }));
        assert(hi[0] == (if r > 0 { r } else { 0 }));
        assert(array_len(shape.skip(m)) == d * rest);
        lemma_scaled_extent(d, rest, base);
        let tail_lo = sum(lo.skip(1));
        let tail_hi = sum(hi.skip(1));
        assert(sum(lo) == lo[0] + tail_lo);
        assert(sum(hi) == hi[0] + tail_hi);
        if base > 0 {
            assert(tail_hi == base * (rest - 1));
            assert(sum(hi) == base * (d * rest - 1));
            assert(sum(lo) == 0);
        } else if base < 0 {
            assert(tail_lo == base * (rest - 1));
            assert(sum(lo) == base * (d * rest - 1));
            assert(sum(hi) == 0);
        } else {
            assert(sum(lo) == 0);
            assert(sum(hi) == 0);
        }
    }
}

/// An axis of `d` indices over `rest` elements, scaled by `base`: how its
/// reach adds to the extent of the rest.
proof fn lemma_scaled_extent(d: int, rest: int, base: int)
    requires
        d >= 1,
        rest >= 1,
    ensures
        d * rest >= 1,
        base > 0 ==> (d - 1) * (base * rest) >= 0 && (d - 1) * (base * rest) + base * (rest - 1)
            == base * (d * rest - 1),
        base < 0 ==> (d - 1) * (base * rest) <= 0 && (d - 1) * (base * rest) + base * (rest - 1)
            == base * (d * rest - 1),
        base == 0 ==> (d - 1) * (base * rest) == 0,
        (d - 1) * (base * rest) + base * (rest - 1) == base * (rest * d - 1),
{
    assert(d * rest >= 1) by (nonlinear_arith)
        requires
            d >= 1,
            rest >= 1,
    ;
    assert((d - 1) * (base * rest) + base * (rest - 1) == base * (d * rest - 1))
        by (nonlinear_arith);
    assert((d - 1) * (base * rest) + base * (rest - 1) == base * (rest * d - 1))
        by (nonlinear_arith);
    if base > 0 {
        assert((d - 1) * (base * rest) >= 0) by (nonlinear_arith)
            requires
                d >= 1,
                rest >= 1,
                base > 0,
        ;
    }
    if base < 0 {
        assert((d - 1) * (base * rest) <= 0) by (nonlinear_arith)
            requires
                d >= 1,
                rest >= 1,
                base < 0,
        ;
    }
    if base == 0 {
        assert((d - 1) * (base * rest) == 0) by (nonlinear_arith)
            requires
                base == 0,
        ;
    }
}

/// The extremes that the first `m` axes add under column-major canonical
/// strides.
proof fn lemma_default_extents_upto(shape: Seq<usize>, base: int, strides: Seq<isize>, m: int)
    requires
        0 <= m <= shape.len(),
        forall|k: int| 0 <= k < shape.len() ==> shape[k] != 0,
        crate::order::is_default_strides(false, shape, base, strides),
    ensures
        array_len(shape.take(m)) >= 1,
        sum(low_terms(shape, strides).take(m)) == (if base < 0 {
            base * (array_len(shape.take(m)) - 1)
        } else {
            0
        }),
        sum(high_terms(shape, strides).take(m)) == (if base > 0 {
            base * (array_len(shape.take(m)) - 1)
        } else {
            0
        }),
    decreases m,
{
    let lo = low_terms(shape, strides).take(m);
    let hi = high_terms(shape, strides).take(m);
    if m == 0 {
        assert(lo =~= Seq::<int>::empty());
        assert(hi =~= Seq::<int>::empty());
        assert(shape.take(m) =~= Seq::<usize>::empty());
    } else {
        lemma_default_extents_upto(shape, base, strides, m - 1);
        assert(lo.drop_last() =~= low_terms(shape, strides).take(m - 1));
        assert(hi.drop_last() =~= high_terms(shape, strides).take(m - 1));
        assert(shape.take(m).drop_last() =~= shape.take(m - 1));
        lemma_array_len_zero(shape.take(m - 1));
        assert(array_len(shape.take(m - 1)) > 0);
        lemma_span_of_nonempty(shape.take(m - 1));
        let d = shape[m - 1] as int;
        let rest = array_len(shape.take(m - 1)) as int;
        assert(strides[m - 1] == crate::order::default_stride(false, shape, base, m - 1));
        assert(strides[m - 1] == base * rest);
        assert(shape[m - 1] != 0);
        let r = (d - 1) * (base * rest);
        assert(reach(shape[m - 1], strides[m - 1]) == r);
        assert(array_len(shape.take(m)) == rest * d);
        let init_lo = sum(lo.drop_last());
        let init_hi = sum(hi.drop_last());
        assert(sum(lo) == init_lo + lo.last());
        assert(sum(hi) == init_hi + hi.last());
        assert(lo.last() == (if r < 0 { r } else { 0 }));
        assert(hi.last() == (if r > 0 { r } else { 0 }));
        lemma_scaled_extent(d, rest, base);
        assert(d * rest == rest * d) by (nonlinear_arith);
        if base > 0 {
            assert(init_hi == base * (rest - 1));
            assert(sum(hi) == base * (rest * d - 1));
            assert(sum(lo) == 0);
        } else if base < 0 {
            assert(init_lo == base * (rest - 1));
            assert(sum(lo) == base * (rest * d - 1));
            assert(sum(hi) == 0);
        } else {
            assert(sum(lo) == 0);
            assert(sum(hi) == 0);
        }
    }
}

} // verus!
