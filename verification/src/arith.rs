//! Sums and products of machine words fit in 128 bits.
use vstd::prelude::*;

verus! {

/// The product of two numbers that each fit 64 bits fits 128 bits.
pub proof fn lemma_product_fits(a: int, b: int)
    requires
        0 <= a <= u64::MAX,
        0 <= b <= u64::MAX,
    ensures
        0 <= a * b <= 0xFFFF_FFFF_FFFF_FFFE_0000_0000_0000_0001,
{
    assert(0 <= a * b <= 0xFFFF_FFFF_FFFF_FFFF * 0xFFFF_FFFF_FFFF_FFFF) by (nonlinear_arith)
        requires
            0 <= a <= 0xFFFF_FFFF_FFFF_FFFF,
            0 <= b <= 0xFFFF_FFFF_FFFF_FFFF,
    ;
    assert(0xFFFF_FFFF_FFFF_FFFF * 0xFFFF_FFFF_FFFF_FFFF
        == 0xFFFF_FFFF_FFFF_FFFE_0000_0000_0000_0001) by (nonlinear_arith);
}

/// A sum of `count` terms, none of them above `bound`, has room for one
/// more such term in 128 bits.
pub proof fn lemma_sum_fits(count: int, bound: int)
    requires
        0 <= count < u64::MAX,
        0 <= bound <= u64::MAX,
    ensures
        (count + 1) * bound == count * bound + bound,
        0 <= count * bound + bound <= u128::MAX,
{
    assert((count + 1) * bound == count * bound + bound) by (nonlinear_arith);
    lemma_product_fits(count + 1, bound);
}

} // verus!
