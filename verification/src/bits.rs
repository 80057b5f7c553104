//! Facts about single bits of a 64-bit mask.
//!
//! A bitboard records a set of squares: bit `i` stands for square `i`. The
//! bitwise operators are opaque to the default solver, so everything the rest
//! of the crate needs to know about them is proved here, once, and used
//! through [`has_bit`].

use vstd::prelude::*;

verus! {

/// The mask in which bit `i`, and no other, is set (for `0 <= i < 64`).
pub open spec fn bit(i: int) -> u64 {
    1u64 << (i as u64)
}

/// Whether bit `i` of `mask` is set. No mask has a bit outside `0..64`.
pub open spec fn has_bit(mask: u64, i: int) -> bool {
    0 <= i < 64 && mask & bit(i) != 0
}

/// The empty mask has no bit set.
pub proof fn lemma_zero_has_no_bit(i: int)
    ensures
        !has_bit(0, i),
{
    if 0 <= i < 64 {
        let k = i as u64;
        assert(0u64 & (1u64 << k) == 0) by (bit_vector);
    }
}

/// A single-bit mask has exactly its own bit set.
pub proof fn lemma_bit_has(i: int, j: int)
    requires
        0 <= i < 64,
    ensures
        has_bit(bit(i), j) <==> i == j,
{
    if 0 <= j < 64 {
        let a = i as u64;
        let b = j as u64;
        assert(((1u64 << a) & (1u64 << b) != 0) <==> a == b) by (bit_vector)
            requires
                a < 64,
                b < 64,
        ;
    }
}

/// Setting bit `i` adds square `i` and leaves every other bit as it was.
pub proof fn lemma_or_bit(mask: u64, i: int, j: int)
    requires
        0 <= i < 64,
    ensures
        has_bit(mask | bit(i), j) <==> has_bit(mask, j) || i == j,
{
    if 0 <= j < 64 {
        let a = i as u64;
        let b = j as u64;
        assert(((mask | (1u64 << a)) & (1u64 << b) != 0) <==> (mask & (1u64 << b) != 0 || a == b))
            by (bit_vector)
            requires
                a < 64,
                b < 64,
        ;
    }
}

/// Two masks that agree from bit `from` upwards, and on every bit below,
/// agree altogether.
proof fn lemma_same_bits_from(a: u64, b: u64, from: u64)
    requires
        from <= 64,
        a >> from == b >> from,
        forall|j: int| 0 <= j < from ==> has_bit(a, j) == has_bit(b, j),
    ensures
        a == b,
    decreases from,
{
    if from == 0 {
        assert(a >> 0u64 == a) by (bit_vector);
        assert(b >> 0u64 == b) by (bit_vector);
    } else {
        let k = (from - 1) as u64;
        assert(has_bit(a, k as int) == has_bit(b, k as int));
        assert(a >> k == b >> k) by (bit_vector)
            requires
                k < 64,
                from == k + 1,
                a >> from == b >> from,
                (a & (1u64 << k) != 0) == (b & (1u64 << k) != 0),
        ;
        lemma_same_bits_from(a, b, k);
    }
}

/// A mask is determined by its bits.
pub proof fn lemma_same_bits_equal(a: u64, b: u64)
    requires
        forall|j: int| 0 <= j < 64 ==> has_bit(a, j) == has_bit(b, j),
    ensures
        a == b,
{
    assert(a >> 64u64 == 0) by (bit_vector);
    assert(b >> 64u64 == 0) by (bit_vector);
    lemma_same_bits_from(a, b, 64);
}

} // verus!
