//! Memory orders: which axis varies fastest, the canonical strides of a
//! shape, and the tests of whether given strides follow an order.

use vstd::prelude::*;
use crate::arith::{mul_count, mul_stride};
use crate::layout::{array_len, lemma_span_part, span};

verus! {

/// The canonical stride of axis `k`: `base` times the span of the axes that
/// vary faster than `k`.
pub open spec fn default_stride(row_major: bool, shape: Seq<usize>, base: int, k: int) -> int {
    if row_major {
        base * span(shape.skip(k + 1))
    } else {
        base * span(shape.take(k))
    }
}

/// `strides` are the canonical strides of `shape`, scaled by `base`.
pub open spec fn is_default_strides(
    row_major: bool,
    shape: Seq<usize>,
    base: int,
    strides: Seq<isize>,
) -> bool {
    &&& strides.len() == shape.len()
    &&& forall|k: int|
        0 <= k < shape.len() ==> #[trigger] strides[k] == default_stride(row_major, shape, base, k)
}

/// The canonical strides of `shape`, scaled by `base`.
pub open spec fn default_strides_of(row_major: bool, shape: Seq<usize>, base: int) -> Seq<isize> {
    Seq::new(shape.len(), |k: int| default_stride(row_major, shape, base, k) as isize)
}

/// Where they are machine integers, the canonical strides are the only
/// strides that are canonical.
pub proof fn lemma_default_strides_of(
    row_major: bool,
    shape: Seq<usize>,
    base: int,
    strides: Seq<isize>,
)
    requires
        strides_fit(shape, base),
    ensures
        is_default_strides(row_major, shape, base, default_strides_of(row_major, shape, base)),
        is_default_strides(row_major, shape, base, strides) <==> strides == default_strides_of(
            row_major,
            shape,
            base,
        ),
{
    let d = default_strides_of(row_major, shape, base);
    assert forall|k: int| 0 <= k < shape.len() implies #[trigger] d[k] == default_stride(
        row_major,
        shape,
        base,
        k,
    ) by {
        if row_major {
            lemma_scaled_part_fits(shape, base, k + 1, shape.len() as int);
            assert(shape.subrange(k + 1, shape.len() as int) =~= shape.skip(k + 1));
        } else {
            lemma_scaled_part_fits(shape, base, 0, k);
            assert(shape.subrange(0, k) =~= shape.take(k));
        }
    }
    if is_default_strides(row_major, shape, base, strides) {
        assert(strides =~= d);
    }
}

/// Every canonical stride of `shape` scaled by `base` is a machine integer.
pub open spec fn strides_fit(shape: Seq<usize>, base: int) -> bool {
    isize::MIN <= base * span(shape) <= isize::MAX
}

/// Axis `k` steps over exactly the extent of the next faster axis.
pub open spec fn aligned_at(row_major: bool, shape: Seq<usize>, strides: Seq<isize>, k: int) -> bool {
    if row_major {
        strides[k] == strides[k + 1] * shape[k + 1]
    } else {
        strides[k] == strides[k - 1] * shape[k - 1]
    }
}

/// Each axis steps over exactly the extent of the next faster axis.
pub open spec fn aligned_monotonically(
    row_major: bool,
    shape: Seq<usize>,
    strides: Seq<isize>,
) -> bool {
    forall|k: int|
        (if row_major { 0 <= k < shape.len() - 1 } else { 1 <= k < shape.len() })
            ==> #[trigger] aligned_at(row_major, shape, strides, k)
}

/// The strides are the canonical ones on every axis that has more than one
/// index; an array of at most one element is always contiguous.
pub open spec fn contiguous(row_major: bool, shape: Seq<usize>, strides: Seq<isize>) -> bool {
    array_len(shape) <= 1 || forall|k: int|
        0 <= k < shape.len() && shape[k] != 1 ==> #[trigger] strides[k] == default_stride(
            row_major,
            shape,
            1,
            k,
        )
}

/// The printed name of an order.
pub open spec fn order_name(row_major: bool) -> Seq<char> {
    if row_major {
        "\"row major\""@
    } else {
        "\"column major\""@
    }
}

/// A memory order. `RowMajor` lets the last axis vary fastest, `ColumnMajor`
/// the first.
pub trait Order {
    /// Whether the last axis varies fastest.
    spec fn row_major() -> bool;

    /// Whether the last axis varies fastest.
    fn is_row_major() -> (b: bool)
        ensures
            b == Self::row_major(),
    ;

    /// Writes the canonical strides of `shape`, scaled by `base_stride`.
    fn convert_shape_to_strides(shape: &[usize], base_stride: isize, strides: &mut [isize])
        requires
            shape@.len() == old(strides)@.len(),
            strides_fit(shape@, base_stride as int),
        ensures
            is_default_strides(Self::row_major(), shape@, base_stride as int, final(strides)@),
    ;

    /// Whether each axis steps over exactly the extent of the next faster one.
    fn is_data_aligned_monotonically(shape: &[usize], strides: &[isize]) -> (b: bool)
        requires
            shape@.len() == strides@.len(),
            shape@.len() > 0,
        ensures
            b == aligned_monotonically(Self::row_major(), shape@, strides@),
    ;

    /// Whether the strides are the canonical ones of the shape.
    fn is_data_contiguous(shape: &[usize], strides: &[isize]) -> (b: bool)
        requires
            shape@.len() == strides@.len(),
        ensures
            b == contiguous(Self::row_major(), shape@, strides@),
    ;

    /// The printed name of the order.
    fn name() -> (s: &'static str)
        ensures
            s@ == order_name(Self::row_major()),
    ;

    /// Writes the canonical strides of `shape`.
    fn convert_shape_to_default_strides(shape: &[usize], strides: &mut [isize])
        requires
            shape@.len() == old(strides)@.len(),
            strides_fit(shape@, 1),
        ensures
            is_default_strides(Self::row_major(), shape@, 1, final(strides)@),
    {
        Self::convert_shape_to_strides(shape, 1, strides)
    }
}

/// The order in which the last axis varies fastest.
#[derive(Clone, Copy, Debug, PartialEq, Eq, Hash)]
pub struct RowMajor;

/// The order in which the first axis varies fastest.
#[derive(Clone, Copy, Debug, PartialEq, Eq, Hash)]
pub struct ColumnMajor;

/// A factor of the span scales `base` no further than the whole span does.
pub proof fn lemma_scaled_part_fits(shape: Seq<usize>, base: int, i: int, j: int)
    requires
        0 <= i <= j <= shape.len(),
        strides_fit(shape, base),
    ensures
        isize::MIN <= base * span(shape.subrange(i, j)) <= isize::MAX,
{
    lemma_span_part(shape, i, j);
    let p = span(shape.subrange(i, j)) as int;
    let s = span(shape) as int;
    assert(isize::MIN <= base * p <= isize::MAX) by (nonlinear_arith)
        requires
            1 <= p <= s,
            isize::MIN <= base * s <= isize::MAX,
            isize::MIN < 0 < isize::MAX,
    ;
}

/// The span of the axes from `k` on is the widened size of axis `k` times the
/// span of the axes after it.
pub proof fn lemma_span_skip_step(shape: Seq<usize>, k: int)
    requires
        0 <= k < shape.len(),
    ensures
        span(shape.skip(k)) == (if shape[k] == 0 {
            1nat
        } else {
            shape[k] as nat
        }) * span(shape.skip(k + 1)),
{
    let tail = shape.skip(k);
    crate::layout::lemma_array_len_first(crate::layout::widened(tail));
    assert(crate::layout::widened(tail).skip(1) =~= crate::layout::widened(shape.skip(k + 1)));
}

/// The span of the first `k + 1` axes is the span of the first `k` times the
/// widened size of axis `k`.
pub proof fn lemma_span_take_step(shape: Seq<usize>, k: int)
    requires
        0 <= k < shape.len(),
    ensures
        span(shape.take(k + 1)) == span(shape.take(k)) * (if shape[k] == 0 {
            1nat
        } else {
            shape[k] as nat
        }),
{
    let head = shape.take(k + 1);
    assert(crate::layout::widened(head).drop_last() =~= crate::layout::widened(shape.take(k)));
}

impl Order for RowMajor {
    open spec fn row_major() -> bool {
        true
    }

    fn is_row_major() -> (b: bool) {
        true
    }

    fn convert_shape_to_strides(shape: &[usize], base_stride: isize, strides: &mut [isize]) {
        let n: usize = shape.len();
        let mut acc: isize = base_stride;
        let mut k: usize = n;
        proof {
            assert(shape@.skip(n as int) =~= Seq::<usize>::empty());
        }
        while k > 0
            invariant
                k <= n,
                n == shape@.len(),
                n == strides@.len(),
                strides_fit(shape@, base_stride as int),
                acc == base_stride * span(shape@.skip(k as int)),
                forall|j: int|
                    k <= j < n ==> #[trigger] strides@[j] == default_stride(
                        true,
                        shape@,
                        base_stride as int,
                        j,
                    ),
            decreases k,
        {
            k = k - 1;
            strides[k] = acc;
            let dim: usize = shape[k];
            let widened: i128 = if dim == 0 {
                1
            } else {
                dim as i128
            };
            proof {
                lemma_span_skip_step(shape@, k as int);
                lemma_scaled_part_fits(shape@, base_stride as int, k as int, n as int);
                assert(shape@.subrange(k as int, n as int) =~= shape@.skip(k as int));
                let rest = span(shape@.skip(k + 1)) as int;
                assert(base_stride * (widened * rest) == (base_stride * rest) * widened)
                    by (nonlinear_arith);
            }
            acc = ((acc as i128) * widened) as isize;
        }
    }

    fn is_data_aligned_monotonically(shape: &[usize], strides: &[isize]) -> (b: bool) {
        let n: usize = shape.len();
        let mut k: usize = n - 1;
        while k > 0
            invariant
                k < n,
                n == shape@.len(),
                n == strides@.len(),
                forall|j: int| k <= j < n - 1 ==> #[trigger] aligned_at(true, shape@, strides@, j),
            decreases k,
        {
            let expected: i128 = mul_stride(strides[k], shape[k]);
            if (strides[k - 1] as i128) != expected {
                assert(!aligned_at(true, shape@, strides@, k - 1));
                return false;
            }
            k = k - 1;
        }
        true
    }

    fn is_data_contiguous(shape: &[usize], strides: &[isize]) -> (b: bool) {
        let n: usize = shape.len();
        if at_most_one_element(shape) {
            return true;
        }
        let mut expected: i128 = 1;
        let mut k: usize = n;
        proof {
            assert(shape@.skip(n as int) =~= Seq::<usize>::empty());
        }
        while k > 0
            invariant
                k <= n,
                n == shape@.len(),
                n == strides@.len(),
                array_len(shape@) > 1,
                expected == span(shape@.skip(k as int)),
                1 <= expected <= isize::MAX,
                forall|j: int|
                    k <= j < n && shape@[j] != 1 ==> #[trigger] strides@[j] == default_stride(
                        true,
                        shape@,
                        1,
                        j,
                    ),
            decreases k,
        {
            k = k - 1;
            let dim: usize = shape[k];
            proof {
                lemma_span_skip_step(shape@, k as int);
                let rest = span(shape@.skip(k + 1));
                assert(1 * rest == rest);
                assert(dim * rest == rest * dim) by (nonlinear_arith);
            }
            if dim != 1 {
                if (strides[k] as i128) != expected {
                    assert(strides@[k as int] != default_stride(true, shape@, 1, k as int));
                    return false;
                }
                proof {
                    crate::layout::lemma_array_len_zero(shape@);
                    assert(dim != 0);
                    assert(expected * dim >= 2) by (nonlinear_arith)
                        requires
                            expected >= 1,
                            dim >= 2,
                    ;
                }
                expected = mul_count(expected, dim);
                if expected > isize::MAX as i128 {
                    // No faster axis can have a stride this large.
                    let b = no_wider_axis_before(shape, k);
                    proof {
                        if !b {
                            let j = choose|j: int| 0 <= j < k && shape@[j] != 1;
                            let tail = shape@.skip(j + 1);
                            lemma_span_part(tail, k - (j + 1), tail.len() as int);
                            assert(tail.subrange(k - (j + 1), tail.len() as int) =~= shape@.skip(
                                k as int,
                            ));
                            assert(span(tail) >= expected);
                            assert(strides@[j] != default_stride(true, shape@, 1, j));
                        }
                    }
                    return b;
                }
            }
        }
        true
    }

    fn name() -> (s: &'static str) {
        "\"row major\""
    }
}

/// Whether the shape holds at most one element: an empty axis, or no axis
/// with more than one index.
fn at_most_one_element(shape: &[usize]) -> (b: bool)
    ensures
        b == (array_len(shape@) <= 1),
{
    let n: usize = shape.len();
    let mut all_one: bool = true;
    let mut k: usize = 0;
    while k < n
        invariant
            k <= n,
            n == shape@.len(),
            forall|j: int| 0 <= j < k ==> shape@[j] != 0,
            all_one == (forall|j: int| 0 <= j < k ==> shape@[j] == 1),
        decreases n - k,
    {
        if shape[k] == 0 {
            proof {
                crate::layout::lemma_array_len_zero(shape@);
            }
            return true;
        }
        if shape[k] != 1 {
            all_one = false;
        }
        k = k + 1;
    }
    proof {
        crate::layout::lemma_array_len_zero(shape@);
        lemma_all_one(shape@);
    }
    all_one
}

/// A shape without empty axes has one element exactly when every axis has
/// size 1.
proof fn lemma_all_one(shape: Seq<usize>)
    requires
        forall|j: int| 0 <= j < shape.len() ==> shape[j] != 0,
    ensures
        array_len(shape) == 1 <==> (forall|j: int| 0 <= j < shape.len() ==> shape[j] == 1),
        array_len(shape) >= 1,
    decreases shape.len(),
{
    if shape.len() > 0 {
        let init = shape.drop_last();
        lemma_all_one(init);
        let a = array_len(init);
        let d = shape.last() as nat;
        assert(shape[shape.len() - 1] != 0);
        assert((a * d == 1 <==> (a == 1 && d == 1)) && a * d >= 1) by (nonlinear_arith)
            requires
                a >= 1,
                d >= 1,
        ;
        if forall|j: int| 0 <= j < shape.len() ==> shape[j] == 1 {
            assert forall|j: int| 0 <= j < init.len() implies init[j] == 1 by {
                assert(init[j] == shape[j]);
            }
        }
        if array_len(shape) == 1 {
            assert forall|j: int| 0 <= j < shape.len() implies shape[j] == 1 by {
                if j < init.len() {
                    assert(init[j] == shape[j]);
                }
            }
        }
    }
}

/// Whether every axis before `k` has size 1.
fn no_wider_axis_before(shape: &[usize], k: usize) -> (b: bool)
    requires
        k <= shape@.len(),
    ensures
        b == (forall|j: int| 0 <= j < k ==> shape@[j] == 1),
{
    let mut j: usize = 0;
    while j < k
        invariant
            j <= k,
            k <= shape@.len(),
            forall|i: int| 0 <= i < j ==> shape@[i] == 1,
        decreases k - j,
    {
        if shape[j] != 1 {
            return false;
        }
        j = j + 1;
    }
    true
}

/// Whether every axis after `k` has size 1.
fn no_wider_axis_after(shape: &[usize], k: usize) -> (b: bool)
    requires
        k < shape@.len(),
    ensures
        b == (forall|j: int| k < j < shape@.len() ==> shape@[j] == 1),
{
    let n: usize = shape.len();
    let mut j: usize = k + 1;
    while j < n
        invariant
            k < j <= n,
            n == shape@.len(),
            forall|i: int| k < i < j ==> shape@[i] == 1,
        decreases n - j,
    {
        if shape[j] != 1 {
            return false;
        }
        j = j + 1;
    }
    true
}

impl Order for ColumnMajor {
    open spec fn row_major() -> bool {
        false
    }

    fn is_row_major() -> (b: bool) {
        false
    }

    fn convert_shape_to_strides(shape: &[usize], base_stride: isize, strides: &mut [isize]) {
        let n: usize = shape.len();
        let mut acc: isize = base_stride;
        let mut k: usize = 0;
        proof {
            assert(shape@.take(0) =~= Seq::<usize>::empty());
        }
        while k < n
            invariant
                k <= n,
                n == shape@.len(),
                n == strides@.len(),
                strides_fit(shape@, base_stride as int),
                acc == base_stride * span(shape@.take(k as int)),
                forall|j: int|
                    0 <= j < k ==> #[trigger] strides@[j] == default_stride(
                        false,
                        shape@,
                        base_stride as int,
                        j,
                    ),
            decreases n - k,
        {
            strides[k] = acc;
            let dim: usize = shape[k];
            let widened: i128 = if dim == 0 {
                1
            } else {
                dim as i128
            };
            proof {
                lemma_span_take_step(shape@, k as int);
                lemma_scaled_part_fits(shape@, base_stride as int, 0, k + 1);
                assert(shape@.subrange(0, k + 1) =~= shape@.take(k + 1));
                let rest = span(shape@.take(k as int)) as int;
                assert(base_stride * (rest * widened) == (base_stride * rest) * widened)
                    by (nonlinear_arith);
            }
            acc = ((acc as i128) * widened) as isize;
            k = k + 1;
        }
    }

    fn is_data_aligned_monotonically(shape: &[usize], strides: &[isize]) -> (b: bool) {
        let n: usize = shape.len();
        let mut k: usize = 1;
        while k < n
            invariant
                1 <= k <= n,
                n == shape@.len(),
                n == strides@.len(),
                forall|j: int| 1 <= j < k ==> #[trigger] aligned_at(false, shape@, strides@, j),
            decreases n - k,
        {
            let expected: i128 = mul_stride(strides[k - 1], shape[k - 1]);
            if (strides[k] as i128) != expected {
                assert(!aligned_at(false, shape@, strides@, k as int));
                return false;
            }
            k = k + 1;
        }
        true
    }

    fn is_data_contiguous(shape: &[usize], strides: &[isize]) -> (b: bool) {
        let n: usize = shape.len();
        if at_most_one_element(shape) {
            return true;
        }
        let mut expected: i128 = 1;
        let mut k: usize = 0;
        proof {
            assert(shape@.take(0) =~= Seq::<usize>::empty());
        }
        while k < n
            invariant
                k <= n,
                n == shape@.len(),
                n == strides@.len(),
                array_len(shape@) > 1,
                expected == span(shape@.take(k as int)),
                1 <= expected <= isize::MAX,
                forall|j: int|
                    0 <= j < k && shape@[j] != 1 ==> #[trigger] strides@[j] == default_stride(
                        false,
                        shape@,
                        1,
                        j,
                    ),
            decreases n - k,
        {
            let dim: usize = shape[k];
            proof {
                lemma_span_take_step(shape@, k as int);
                let rest = span(shape@.take(k as int));
                assert(rest * 1 == rest);
            }
            if dim != 1 {
                if (strides[k] as i128) != expected {
                    assert(strides@[k as int] != default_stride(false, shape@, 1, k as int));
                    return false;
                }
                proof {
                    crate::layout::lemma_array_len_zero(shape@);
                    assert(dim != 0);
                    assert(expected * dim >= 2) by (nonlinear_arith)
                        requires
                            expected >= 1,
                            dim >= 2,
                    ;
                }
                expected = mul_count(expected, dim);
                if expected > isize::MAX as i128 {
                    // No slower axis can have a stride this large.
                    let b = no_wider_axis_after(shape, k);
                    proof {
                        if !b {
                            let j = choose|j: int| k < j < n && shape@[j] != 1;
                            lemma_span_part(shape@.take(j), 0, k + 1);
                            assert(shape@.take(j).subrange(0, k + 1) =~= shape@.take(k + 1));
                            assert(span(shape@.take(j)) >= expected);
                            assert(strides@[j] != default_stride(false, shape@, 1, j));
                        }
                    }
                    return b;
                }
            }
            k = k + 1;
        }
        true
    }

    fn name() -> (s: &'static str) {
        "\"column major\""
    }
}

} // verus!
