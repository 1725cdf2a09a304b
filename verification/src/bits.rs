//! Bit operations on the integer bit sets that `LetterSet` and `SliceSubset`
//! are built on: `bitset_core`'s `BitSet` methods, and the std bit counts that
//! vstd does not specify.

use bitset_core::BitSet;
use vstd::prelude::*;

verus! {

/// Bit `i` of `x` is set.
pub open spec fn bit32(x: u32, i: u32) -> bool {
    (x >> i) & 1u32 == 1u32
}

/// Bit `i` of `x` is set.
pub open spec fn bit128(x: u128, i: u32) -> bool {
    (x >> i) & 1u128 == 1u128
}

/// The number of set bits of `x` below position `n`.
pub open spec fn ones128(x: u128, n: nat) -> nat
    decreases n,
{
    if n == 0 {
        0
    } else {
        ones128(x, (n - 1) as nat) + if bit128(x, (n - 1) as u32) {
            1nat
        } else {
            0nat
        }
    }
}

/// Trusted: `<u32 as bitset_core::BitSet>::bit_set`, which the crate's source
/// writes as `*self |= 1 << bit as u32` (a shift that overflows for `bit`
/// of 32 or more).
#[verifier::external_body]
pub(crate) fn u32_bit_set(bits: &mut u32, bit: usize)
    requires
        bit < 32,
    ensures
        *final(bits) == *old(bits) | (1u32 << (bit as u32)),
{
    bits.bit_set(bit);
}

/// Trusted: `<u32 as bitset_core::BitSet>::bit_test`, which the crate's
/// source writes as `*self & (1 << bit as u32) != 0`.
#[verifier::external_body]
pub(crate) fn u32_bit_test(bits: u32, bit: usize) -> (r: bool)
    requires
        bit < 32,
    ensures
        r == (bits & (1u32 << (bit as u32)) != 0),
{
    bits.bit_test(bit)
}

/// Trusted: `<u32 as bitset_core::BitSet>::bit_reset`, which the crate's
/// source writes as `*self &= !(1 << bit as u32)`.
#[verifier::external_body]
pub(crate) fn u32_bit_reset(bits: &mut u32, bit: usize)
    requires
        bit < 32,
    ensures
        *final(bits) == *old(bits) & !(1u32 << (bit as u32)),
{
    bits.bit_reset(bit);
}

/// Trusted: `<u32 as bitset_core::BitSet>::bit_any`, which the crate's source
/// writes as `*self != 0`.
#[verifier::external_body]
pub(crate) fn u32_bit_any(bits: u32) -> (r: bool)
    ensures
        r == (bits != 0),
{
    bits.bit_any()
}

/// Trusted: `<u128 as bitset_core::BitSet>::bit_reset`, which the crate's
/// source writes as `*self &= !(1 << bit as u32)`.
#[verifier::external_body]
pub(crate) fn u128_bit_reset(bits: &mut u128, bit: usize)
    requires
        bit < 128,
    ensures
        *final(bits) == *old(bits) & !(1u128 << (bit as u32)),
{
    bits.bit_reset(bit);
}

/// Trusted: `<u128 as bitset_core::BitSet>::bit_any`, which the crate's
/// source writes as `*self != 0`.
#[verifier::external_body]
pub(crate) fn u128_bit_any(bits: u128) -> (r: bool)
    ensures
        r == (bits != 0),
{
    bits.bit_any()
}

/// Trusted: `<u128 as bitset_core::BitSet>::bit_none`, which the crate's
/// source writes as `*self == 0`.
#[verifier::external_body]
pub(crate) fn u128_bit_none(bits: u128) -> (r: bool)
    ensures
        r == (bits == 0),
{
    bits.bit_none()
}

/// Trusted: `u128::trailing_zeros`, documented as the number of trailing
/// zeros in the binary representation: all 128 for zero, and otherwise the
/// position of the lowest set bit.
#[verifier::external_body]
pub(crate) fn u128_trailing_zeros(x: u128) -> (r: u32)
    ensures
        r <= 128,
        (x == 0) == (r == 128),
        r < 128 ==> bit128(x, r),
        forall|j: u32| j < r ==> !#[trigger] bit128(x, j),
{
    x.trailing_zeros()
}

/// Trusted: `u128::leading_zeros`, documented as the number of leading
/// zeros in the binary representation: all 128 for zero, and otherwise 127
/// less the position of the highest set bit.
#[verifier::external_body]
pub(crate) fn u128_leading_zeros(x: u128) -> (r: u32)
    ensures
        r <= 128,
        (x == 0) == (r == 128),
        r < 128 ==> bit128(x, (127 - r) as u32),
        forall|j: u32| 127 - r < j < 128 ==> !#[trigger] bit128(x, j),
{
    x.leading_zeros()
}

/// Trusted: `u128::count_ones`, documented as the number of ones in the
/// binary representation.
#[verifier::external_body]
pub(crate) fn u128_count_ones(x: u128) -> (r: u32)
    ensures
        r as nat == ones128(x, 128),
{
    x.count_ones()
}

pub proof fn lemma_bit32_set(b: u32, i: u32, j: u32)
    requires
        i < 32,
        j < 32,
    ensures
        bit32(b | (1u32 << i), j) == (j == i || bit32(b, j)),
{
    assert(((b | (1u32 << i)) >> j) & 1u32 == 1u32 <==> (j == i || (b >> j) & 1u32 == 1u32))
        by (bit_vector)
        requires
            i < 32,
            j < 32,
    ;
}

pub proof fn lemma_bit32_reset(b: u32, i: u32, j: u32)
    requires
        i < 32,
        j < 32,
    ensures
        bit32(b & !(1u32 << i), j) == (j != i && bit32(b, j)),
{
    assert(((b & !(1u32 << i)) >> j) & 1u32 == 1u32 <==> (j != i && (b >> j) & 1u32 == 1u32))
        by (bit_vector)
        requires
            i < 32,
            j < 32,
    ;
}

pub proof fn lemma_bit32_test(b: u32, i: u32)
    requires
        i < 32,
    ensures
        (b & (1u32 << i) != 0) == bit32(b, i),
{
    assert((b & (1u32 << i) != 0) <==> (b >> i) & 1u32 == 1u32) by (bit_vector)
        requires
            i < 32,
    ;
}

pub proof fn lemma_bit32_zero(j: u32)
    ensures
        !bit32(0, j),
{
    assert((0u32 >> j) & 1u32 == 0u32) by (bit_vector);
}

pub proof fn lemma_bit128_reset(b: u128, i: u32, j: u32)
    requires
        i < 128,
        j < 128,
    ensures
        bit128(b & !(1u128 << i), j) == (j != i && bit128(b, j)),
{
    assert(((b & !(1u128 << i)) >> j) & 1u128 == 1u128 <==> (j != i && (b >> j) & 1u128 == 1u128))
        by (bit_vector)
        requires
            i < 128,
            j < 128,
    ;
}

} // verus!
