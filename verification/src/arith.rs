//! Wide integer arithmetic: products of machine integers that cannot
//! overflow.

use vstd::prelude::*;

verus! {

/// The product of a stride and a size, exact.
pub fn mul_stride(stride: isize, size: usize) -> (r: i128)
    ensures
        r == stride * size,
{
    let a: i128 = stride as i128;
    let b: i128 = size as i128;
    assert(-0x8000_0000_0000_0000 * 0xffff_ffff_ffff_ffff <= a * b <= 0x7fff_ffff_ffff_ffff
        * 0xffff_ffff_ffff_ffff) by (nonlinear_arith)
        requires
            -0x8000_0000_0000_0000 <= a <= 0x7fff_ffff_ffff_ffff,
            0 <= b <= 0xffff_ffff_ffff_ffff,
    ;
    a * b
}

/// The displacement of an index on an axis of the given stride, exact, where
/// the index is no larger than a signed machine integer: it is then far from
/// the limits of the wide integers.
pub fn mul_index(stride: isize, index: usize) -> (r: i128)
    requires
        index <= isize::MAX,
    ensures
        r == stride * index,
        -0x4000_0000_0000_0000_0000_0000_0000_0000 <= r
            <= 0x4000_0000_0000_0000_0000_0000_0000_0000,
{
    let r: i128 = mul_stride(stride, index);
    proof {
        let a = stride as int;
        let b = index as int;
        assert(-0x8000_0000_0000_0000 * 0x8000_0000_0000_0000 <= a * b <= 0x8000_0000_0000_0000
            * 0x8000_0000_0000_0000) by (nonlinear_arith)
            requires
                -0x8000_0000_0000_0000 <= a <= 0x7fff_ffff_ffff_ffff,
                0 <= b <= 0x7fff_ffff_ffff_ffff,
        ;
    }
    r
}

/// The product of two signed machine integers, exact.
pub fn mul_signed(x: isize, y: isize) -> (r: i128)
    ensures
        r == x * y,
{
    let a: i128 = x as i128;
    let b: i128 = y as i128;
    assert(-0x8000_0000_0000_0000 * 0x7fff_ffff_ffff_ffff <= a * b <= 0x8000_0000_0000_0000
        * 0x8000_0000_0000_0000) by (nonlinear_arith)
        requires
            -0x8000_0000_0000_0000 <= a <= 0x7fff_ffff_ffff_ffff,
            -0x8000_0000_0000_0000 <= b <= 0x7fff_ffff_ffff_ffff,
    ;
    a * b
}

/// The product of a machine-sized count and a size, exact.
pub fn mul_count(count: i128, size: usize) -> (r: i128)
    requires
        0 <= count <= isize::MAX,
    ensures
        r == count * size,
{
    let b: i128 = size as i128;
    assert(0 <= count * b <= 0x7fff_ffff_ffff_ffff * 0xffff_ffff_ffff_ffff)
        by (nonlinear_arith)
        requires
            0 <= count <= 0x7fff_ffff_ffff_ffff,
            0 <= b <= 0xffff_ffff_ffff_ffff,
    ;
    count * b
}

} // verus!
