//! Permutations of the axes of a layout, and what they leave unchanged.

use vstd::prelude::*;
use crate::layout::{array_len, sum};

verus! {

/// `sigma` lists each of `0 .. n` exactly once.
pub open spec fn is_permutation(sigma: Seq<int>, n: int) -> bool {
    &&& sigma.len() == n
    &&& forall|i: int| 0 <= i < sigma.len() ==> 0 <= #[trigger] sigma[i] < n
    &&& forall|i: int, j: int|
        0 <= i < j < sigma.len() ==> #[trigger] sigma[i] != #[trigger] sigma[j]
}

/// The sequence that has at place `i` the entry of `s` at place `sigma[i]`.
pub open spec fn permuted<A>(s: Seq<A>, sigma: Seq<int>) -> Seq<A> {
    Seq::new(sigma.len(), |i: int| s[sigma[i]])
}

/// The permutation of one entry less that is left when the last entry of
/// `sigma` and the place it names are taken out.
pub open spec fn without_last(sigma: Seq<int>) -> Seq<int> {
    Seq::new(
        (sigma.len() - 1) as nat,
        |i: int| if sigma[i] > sigma.last() { sigma[i] - 1 } else { sigma[i] },
    )
}

/// Taking the last entry of a permutation out leaves a permutation, under
/// which the sequence without the named place is the permuted sequence
/// without its last entry.
pub proof fn lemma_permutation_step<A>(s: Seq<A>, sigma: Seq<int>)
    requires
        is_permutation(sigma, s.len() as int),
        s.len() > 0,
    ensures
        is_permutation(without_last(sigma), s.len() - 1),
        permuted(s.remove(sigma.last()), without_last(sigma)) == permuted(s, sigma).drop_last(),
        permuted(s, sigma).last() == s[sigma.last()],
        0 <= sigma.last() < s.len(),
{
    let n = s.len() as int;
    let m = sigma.last();
    let rest = without_last(sigma);
    assert(sigma[n - 1] == m);
    assert forall|i: int| 0 <= i < rest.len() implies 0 <= #[trigger] rest[i] < n - 1 by {
        assert(sigma[i] != sigma[n - 1]);
        assert(0 <= sigma[i] < n);
    }
    assert forall|i: int, j: int| 0 <= i < j < rest.len() implies #[trigger] rest[i]
        != #[trigger] rest[j] by {
        assert(sigma[i] != sigma[j]);
        assert(sigma[i] != sigma[n - 1]);
        assert(sigma[j] != sigma[n - 1]);
    }
    assert forall|i: int| 0 <= i < rest.len() implies permuted(s.remove(m), rest)[i] == permuted(
        s,
        sigma,
    ).drop_last()[i] by {
        assert(sigma[i] != sigma[n - 1]);
        assert(0 <= sigma[i] < n);
    }
    assert(permuted(s.remove(m), rest) =~= permuted(s, sigma).drop_last());
}

/// The sum of a sequence is the sum without one term, plus that term.
pub proof fn lemma_sum_remove(s: Seq<int>, m: int)
    requires
        0 <= m < s.len(),
    ensures
        sum(s) == sum(s.remove(m)) + s[m],
    decreases s.len(),
{
    if m == s.len() - 1 {
        assert(s.remove(m) =~= s.drop_last());
    } else {
        lemma_sum_remove(s.drop_last(), m);
        assert(s.remove(m).drop_last() =~= s.drop_last().remove(m));
        assert(s.remove(m).last() == s.last());
    }
}

/// The element count of a shape is the count without one axis, times the
/// size of that axis.
pub proof fn lemma_array_len_remove(shape: Seq<usize>, m: int)
    requires
        0 <= m < shape.len(),
    ensures
        array_len(shape) == array_len(shape.remove(m)) * (shape[m] as nat),
    decreases shape.len(),
{
    if m == shape.len() - 1 {
        assert(shape.remove(m) =~= shape.drop_last());
    } else {
        lemma_array_len_remove(shape.drop_last(), m);
        assert(shape.remove(m).drop_last() =~= shape.drop_last().remove(m));
        assert(shape.remove(m).last() == shape.last());
        let a = array_len(shape.drop_last().remove(m));
        let x = shape[m] as nat;
        let d = shape.last() as nat;
        assert((a * x) * d == (a * d) * x) by (nonlinear_arith);
    }
}

/// A permutation of its terms leaves a sum unchanged.
pub proof fn lemma_sum_permuted(s: Seq<int>, sigma: Seq<int>)
    requires
        is_permutation(sigma, s.len() as int),
    ensures
        sum(permuted(s, sigma)) == sum(s),
    decreases s.len(),
{
    if s.len() > 0 {
        lemma_permutation_step(s, sigma);
        lemma_sum_permuted(s.remove(sigma.last()), without_last(sigma));
        lemma_sum_remove(s, sigma.last());
    } else {
        assert(permuted(s, sigma) =~= s);
    }
}

/// A permutation of its axes leaves the element count of a shape unchanged.
pub proof fn lemma_array_len_permuted(shape: Seq<usize>, sigma: Seq<int>)
    requires
        is_permutation(sigma, shape.len() as int),
    ensures
        array_len(permuted(shape, sigma)) == array_len(shape),
    decreases shape.len(),
{
    if shape.len() > 0 {
        lemma_permutation_step(shape, sigma);
        lemma_array_len_permuted(shape.remove(sigma.last()), without_last(sigma));
        lemma_array_len_remove(shape, sigma.last());
    } else {
        assert(permuted(shape, sigma) =~= shape);
    }
}

} // verus!
