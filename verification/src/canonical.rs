//! Canonical layouts: under the canonical strides of a shape every element
//! has a position of its own, and in row-major order the position of an
//! element is its number.

use vstd::prelude::*;
use crate::layout::{
    array_len, dot, dot_terms, is_index, lemma_array_len_zero, lemma_default_extents,
    lemma_dot_bounds, lemma_span_of_nonempty, lemma_sum_first, lemma_unravel_is_index, span, sum,
    unravel,
};
use crate::order::{default_stride, default_strides_of, is_default_strides, lemma_default_strides_of};

verus! {

/// Scaling every term scales the sum.
pub proof fn lemma_sum_scaled(s: Seq<int>, t: Seq<int>, factor: int)
    requires
        s.len() == t.len(),
        forall|k: int| 0 <= k < s.len() ==> t[k] == s[k] * factor,
    ensures
        sum(t) == sum(s) * factor,
    decreases s.len(),
{
    if s.len() > 0 {
        assert forall|k: int| 0 <= k < s.drop_last().len() implies t.drop_last()[k]
            == s.drop_last()[k] * factor by {
            assert(t.drop_last()[k] == t[k]);
            assert(s.drop_last()[k] == s[k]);
        }
        lemma_sum_scaled(s.drop_last(), t.drop_last(), factor);
        assert(t[s.len() - 1] == s[s.len() - 1] * factor);
        let a = sum(s.drop_last());
        let b = s.last();
        assert((a + b) * factor == a * factor + b * factor) by (nonlinear_arith);
    } else {
        assert(sum(s) * factor == 0) by (nonlinear_arith)
            requires
                sum(s) == 0,
        ;
    }
}

/// A number below `p` plus a multiple of `p` determines both.
proof fn lemma_digits(x: int, a: int, y: int, b: int, p: int)
    requires
        0 <= x < p,
        0 <= y < p,
        x + a * p == y + b * p,
    ensures
        x == y,
        a == b,
{
    assert(a == b) by (nonlinear_arith)
        requires
            0 <= x < p,
            0 <= y < p,
            x + a * p == y + b * p,
    ;
    assert(a * p == b * p);
}

/// The canonical strides of a non-empty shape without its last axis, in
/// column-major order, are the canonical strides without the last.
proof fn lemma_column_init(shape: Seq<usize>, strides: Seq<isize>)
    requires
        shape.len() > 0,
        is_default_strides(false, shape, 1, strides),
    ensures
        is_default_strides(false, shape.drop_last(), 1, strides.drop_last()),
        strides.last() == span(shape.drop_last()),
{
    let init = shape.drop_last();
    assert forall|k: int| 0 <= k < init.len() implies #[trigger] strides.drop_last()[k]
        == default_stride(false, init, 1, k) by {
        assert(strides[k] == default_stride(false, shape, 1, k));
        assert(init.take(k) =~= shape.take(k));
    }
    assert(strides[shape.len() - 1] == default_stride(false, shape, 1, shape.len() - 1));
    assert(shape.take(shape.len() - 1) =~= init);
}

/// The canonical strides of a non-empty shape without its first axis, in
/// row-major order, are the canonical strides without the first.
proof fn lemma_row_rest(shape: Seq<usize>, strides: Seq<isize>)
    requires
        shape.len() > 0,
        is_default_strides(true, shape, 1, strides),
    ensures
        is_default_strides(true, shape.skip(1), 1, strides.skip(1)),
        strides[0] == span(shape.skip(1)),
{
    let rest = shape.skip(1);
    assert forall|k: int| 0 <= k < rest.len() implies #[trigger] strides.skip(1)[k]
        == default_stride(true, rest, 1, k) by {
        assert(strides[k + 1] == default_stride(true, shape, 1, k + 1));
        assert(rest.skip(k + 1) =~= shape.skip(k + 2));
    }
    assert(strides[0] == default_stride(true, shape, 1, 0));
}

/// Under canonical strides, two multi-indices with the same displacement are
/// the same.
pub proof fn lemma_canonical_injective(
    row_major: bool,
    shape: Seq<usize>,
    strides: Seq<isize>,
    a: Seq<int>,
    b: Seq<int>,
)
    requires
        is_default_strides(row_major, shape, 1, strides),
        is_index(a, shape),
        is_index(b, shape),
        dot(a, strides) == dot(b, strides),
    ensures
        a == b,
    decreases shape.len(),
{
    if shape.len() == 0 {
        assert(a =~= b);
    } else {
        let n = shape.len() as int;
        let ta = dot_terms(a, strides);
        let tb = dot_terms(b, strides);
        assert forall|k: int| 0 <= k < n implies shape[k] != 0 by {
            assert(0 <= a[k] < shape[k]);
        }
        if row_major {
            let rest = shape.skip(1);
            lemma_row_rest(shape, strides);
            assert(is_index(a.skip(1), rest)) by {
                assert forall|k: int| 0 <= k < a.skip(1).len() implies 0
                    <= #[trigger] a.skip(1)[k] < rest[k] by {
                    assert(0 <= a[k + 1] < shape[k + 1]);
                }
            }
            assert(is_index(b.skip(1), rest)) by {
                assert forall|k: int| 0 <= k < b.skip(1).len() implies 0
                    <= #[trigger] b.skip(1)[k] < rest[k] by {
                    assert(0 <= b[k + 1] < shape[k + 1]);
                }
            }
            lemma_sum_first(ta);
            lemma_sum_first(tb);
            assert(ta.skip(1) =~= dot_terms(a.skip(1), strides.skip(1)));
            assert(tb.skip(1) =~= dot_terms(b.skip(1), strides.skip(1)));
            lemma_array_len_zero(rest);
            assert forall|k: int| 0 <= k < rest.len() implies rest[k] != 0 by {
                assert(shape[k + 1] != 0);
            }
            lemma_span_of_nonempty(rest);
            lemma_default_extents(true, rest, 1, strides.skip(1));
            lemma_dot_bounds(a.skip(1), rest, strides.skip(1));
            lemma_dot_bounds(b.skip(1), rest, strides.skip(1));
            let p = span(rest) as int;
            lemma_digits(
                dot(a.skip(1), strides.skip(1)),
                a[0],
                dot(b.skip(1), strides.skip(1)),
                b[0],
                p,
            );
            lemma_canonical_injective(true, rest, strides.skip(1), a.skip(1), b.skip(1));
            assert(a =~= b) by {
                assert forall|k: int| 0 <= k < a.len() implies a[k] == b[k] by {
                    if k > 0 {
                        assert(a.skip(1)[k - 1] == b.skip(1)[k - 1]);
                    }
                }
            }
        } else {
            let init = shape.drop_last();
            lemma_column_init(shape, strides);
            assert(is_index(a.drop_last(), init)) by {
                assert forall|k: int| 0 <= k < a.drop_last().len() implies 0
                    <= #[trigger] a.drop_last()[k] < init[k] by {
                    assert(0 <= a[k] < shape[k]);
                }
            }
            assert(is_index(b.drop_last(), init)) by {
                assert forall|k: int| 0 <= k < b.drop_last().len() implies 0
                    <= #[trigger] b.drop_last()[k] < init[k] by {
                    assert(0 <= b[k] < shape[k]);
                }
            }
            assert(ta.drop_last() =~= dot_terms(a.drop_last(), strides.drop_last()));
            assert(tb.drop_last() =~= dot_terms(b.drop_last(), strides.drop_last()));
            assert(sum(ta) == sum(ta.drop_last()) + ta.last());
            assert(sum(tb) == sum(tb.drop_last()) + tb.last());
            lemma_array_len_zero(init);
            assert forall|k: int| 0 <= k < init.len() implies init[k] != 0 by {
                assert(shape[k] != 0);
            }
            lemma_span_of_nonempty(init);
            lemma_default_extents(false, init, 1, strides.drop_last());
            lemma_dot_bounds(a.drop_last(), init, strides.drop_last());
            lemma_dot_bounds(b.drop_last(), init, strides.drop_last());
            let p = span(init) as int;
            lemma_digits(
                dot(a.drop_last(), strides.drop_last()),
                a.last(),
                dot(b.drop_last(), strides.drop_last()),
                b.last(),
                p,
            );
            lemma_canonical_injective(
                false,
                init,
                strides.drop_last(),
                a.drop_last(),
                b.drop_last(),
            );
            assert(a =~= b) by {
                assert forall|k: int| 0 <= k < a.len() implies a[k] == b[k] by {
                    if k < a.len() - 1 {
                        assert(a.drop_last()[k] == b.drop_last()[k]);
                    }
                }
            }
        }
    }
}

/// Under the canonical row-major strides, the displacement of the `n`-th
/// multi-index is `n`.
pub proof fn lemma_row_major_number(shape: Seq<usize>, strides: Seq<isize>, n: int)
    requires
        is_default_strides(true, shape, 1, strides),
        span(shape) <= isize::MAX,
        0 <= n < array_len(shape),
    ensures
        dot(unravel(n, shape), strides) == n,
    decreases shape.len(),
{
    let u = unravel(n, shape);
    let terms = dot_terms(u, strides);
    if shape.len() == 0 {
        assert(terms =~= Seq::<int>::empty());
    } else {
        let len = shape.len() as int;
        let init = shape.drop_last();
        let d = shape.last() as int;
        let a = array_len(init) as int;
        assert(a > 0 && d > 0) by (nonlinear_arith)
            requires
                a * d > 0,
                d >= 0,
                a >= 0,
        ;
        let q = n / d;
        let r = n % d;
        vstd::arithmetic::div_mod::lemma_fundamental_div_mod(n, d);
        vstd::arithmetic::div_mod::lemma_mod_bound(n, d);
        assert(0 <= q < a) by (nonlinear_arith)
            requires
                n == d * q + r,
                0 <= r < d,
                0 <= n < a * d,
        ;
        lemma_array_len_zero(shape);
        lemma_span_of_nonempty(shape);
        lemma_array_len_zero(init);
        assert forall|k: int| 0 <= k < init.len() implies init[k] != 0 by {
            assert(shape[k] != 0);
        }
        lemma_span_of_nonempty(init);
        assert(span(init) <= span(init) * d) by (nonlinear_arith)
            requires
                d >= 1,
        ;
        let init_strides = default_strides_of(true, init, 1);
        lemma_default_strides_of(true, init, 1, init_strides);
        lemma_row_major_number(init, init_strides, q);
        lemma_unravel_is_index(q, init);
        lemma_unravel_is_index(n, shape);
        let init_u = unravel(q, init);
        let init_terms = dot_terms(init_u, init_strides);
        assert(u == init_u.push(r));
        assert forall|k: int| 0 <= k < init_terms.len() implies terms.drop_last()[k]
            == init_terms[k] * d by {
            assert(strides[k] == default_stride(true, shape, 1, k));
            assert(init_strides[k] == default_stride(true, init, 1, k));
            let tail = shape.skip(k + 1);
            crate::layout::lemma_span_split(tail, tail.len() - 1);
            assert(tail.take(tail.len() - 1) =~= init.skip(k + 1));
            assert(tail.skip(tail.len() - 1) =~= seq![shape.last()]);
            crate::layout::lemma_one_axis(shape.last(), 0);
            let x = u[k];
            let s = span(init.skip(k + 1)) as int;
            assert(x * (s * d) == (x * s) * d) by (nonlinear_arith);
        }
        lemma_sum_scaled(init_terms, terms.drop_last(), d);
        assert(strides[len - 1] == default_stride(true, shape, 1, len - 1));
        assert(shape.skip(len) =~= Seq::<usize>::empty());
        assert(crate::layout::widened(Seq::<usize>::empty()) =~= Seq::<usize>::empty());
        assert(strides[len - 1] == 1);
        assert(u.len() == len);
        assert(u[len - 1] == r);
        assert(terms[len - 1] == u[len - 1] * strides[len - 1]);
        assert(r * 1 == r);
        assert(terms.last() == r);
        assert(sum(terms) == sum(terms.drop_last()) + terms.last());
        assert(q * d == d * q) by (nonlinear_arith);
    }
}

/// Under canonical strides, different elements lie at different
/// displacements.
pub proof fn lemma_canonical_distinct(
    row_major: bool,
    shape: Seq<usize>,
    strides: Seq<isize>,
    n: int,
    m: int,
)
    requires
        is_default_strides(row_major, shape, 1, strides),
        span(shape) <= isize::MAX,
        0 <= n < array_len(shape),
        0 <= m < array_len(shape),
        dot(unravel(n, shape), strides) == dot(unravel(m, shape), strides),
    ensures
        n == m,
{
    lemma_unravel_is_index(n, shape);
    lemma_unravel_is_index(m, shape);
    lemma_canonical_injective(row_major, shape, strides, unravel(n, shape), unravel(m, shape));
    let rows = default_strides_of(true, shape, 1);
    lemma_default_strides_of(true, shape, 1, rows);
    lemma_row_major_number(shape, rows, n);
    lemma_row_major_number(shape, rows, m);
}

/// Under the canonical row-major strides scaled by `base`, the displacement
/// of the `n`-th multi-index is `base` times `n`.
pub proof fn lemma_scaled_row_major_number(
    shape: Seq<usize>,
    strides: Seq<isize>,
    base: int,
    n: int,
)
    requires
        is_default_strides(true, shape, base, strides),
        span(shape) <= isize::MAX,
        0 <= n < array_len(shape),
    ensures
        dot(unravel(n, shape), strides) == n * base,
{
    let rows = default_strides_of(true, shape, 1);
    lemma_default_strides_of(true, shape, 1, rows);
    lemma_row_major_number(shape, rows, n);
    lemma_unravel_is_index(n, shape);
    let u = unravel(n, shape);
    let plain = dot_terms(u, rows);
    let scaled = dot_terms(u, strides);
    assert forall|k: int| 0 <= k < plain.len() implies scaled[k] == plain[k] * base by {
        assert(strides[k] == default_stride(true, shape, base, k));
        assert(rows[k] == default_stride(true, shape, 1, k));
        let x = u[k];
        let s = span(shape.skip(k + 1)) as int;
        assert(x * (base * s) == (x * (1 * s)) * base) by (nonlinear_arith);
    }
    lemma_sum_scaled(plain, scaled, base);
}

} // verus!
