//! Bit-level facts shared by the tries: single-bit masks of `u8`/`u16` words.

use vstd::prelude::*;

verus! {


/// Bit `i` of a 16-bit mask.
pub open spec fn bit16(m: u16, i: int) -> bool {
    (m >> (i as u16)) & 1u16 == 1u16
}

/// Bit `i` of an 8-bit mask.
pub open spec fn bit8(m: u8, i: int) -> bool {
    (m >> (i as u8)) & 1u8 == 1u8
}

pub proof fn lemma_bit16_or(m: u16, i: u16, j: u16) by (bit_vector)
    requires
        i < 16,
        j < 16,
    ensures
        ((m | (1u16 << i)) >> j) & 1u16 == 1u16 <==> (((m >> j) & 1u16 == 1u16) || i == j),
{
}

pub proof fn lemma_bit16_and_not(m: u16, i: u16, j: u16) by (bit_vector)
    requires
        i < 16,
        j < 16,
    ensures
        ((m & !(1u16 << i)) >> j) & 1u16 == 1u16 <==> (((m >> j) & 1u16 == 1u16) && i != j),
{
}

pub proof fn lemma_bit16_zero(j: u16) by (bit_vector)
    requires
        j < 16,
    ensures
        (0u16 >> j) & 1u16 != 1u16,
{
}

pub proof fn lemma_bit8_or(m: u8, i: u8, j: u8) by (bit_vector)
    requires
        i < 8,
        j < 8,
    ensures
        ((m | (1u8 << i)) >> j) & 1u8 == 1u8 <==> (((m >> j) & 1u8 == 1u8) || i == j),
{
}

pub proof fn lemma_bit8_and_not(m: u8, i: u8, j: u8) by (bit_vector)
    requires
        i < 8,
        j < 8,
    ensures
        ((m & !(1u8 << i)) >> j) & 1u8 == 1u8 <==> (((m >> j) & 1u8 == 1u8) && i != j),
{
}

pub proof fn lemma_bit8_zero(j: u8) by (bit_vector)
    requires
        j < 8,
    ensures
        (0u8 >> j) & 1u8 != 1u8,
{
}

/// No bit of the zero mask is set.
pub proof fn lemma_bit16_zero_all()
    ensures
        forall|j: int| 0 <= j < 16 ==> !#[trigger] bit16(0u16, j),
{
    assert forall|j: int| 0 <= j < 16 implies !#[trigger] bit16(0u16, j) by {
        lemma_bit16_zero(j as u16);
    }
}

/// No bit of the zero mask is set.
pub proof fn lemma_bit8_zero_all()
    ensures
        forall|j: int| 0 <= j < 8 ==> !#[trigger] bit8(0u8, j),
{
    assert forall|j: int| 0 <= j < 8 implies !#[trigger] bit8(0u8, j) by {
        lemma_bit8_zero(j as u8);
    }
}

/// Facts about `trailing_zeros` of a nonzero 16-bit mask.
pub proof fn lemma_tz16(m: u16)
    requires
        m != 0,
    ensures
        (m.trailing_zeros() as int) < 16,
        bit16(m, m.trailing_zeros() as int),
        forall|j: int| 0 <= j < m.trailing_zeros() ==> !#[trigger] bit16(m, j),
{
    vstd::std_specs::bits::axiom_u16_trailing_zeros(m);
    let t = m.trailing_zeros();
    assert forall|j: int| 0 <= j < t implies !#[trigger] bit16(m, j) by {
        assert((m >> (j as u16)) & 1u16 == 0u16);
    }
}

/// A set bit of `m >> s` at position `t` is the set bit `s + t` of `m`.
pub proof fn lemma_shifted_bit16(m: u16, s: u16, t: u16)
    by (bit_vector)
    requires
        s < 16,
        t < 16,
        ((m >> s) >> t) & 1u16 == 1u16,
    ensures
        s + t < 16,
        (m >> ((s + t) as u16)) & 1u16 == 1u16,
{
}

/// `m >> s` is zero exactly when no bit at or above `s` is set.
pub proof fn lemma_shifted_zero16(m: u16, s: u16, j: u16)
    by (bit_vector)
    requires
        s <= j < 16,
        m >> s == 0,
    ensures
        (m >> j) & 1u16 != 1u16,
{
}

/// Bits of `m >> s` below its trailing zeros are clear in `m` too.
pub proof fn lemma_shifted_clear16(m: u16, s: u16, t: u16)
    by (bit_vector)
    requires
        s < 16,
        s + t < 16,
        ((m >> s) >> t) & 1u16 != 1u16,
    ensures
        (m >> ((s + t) as u16)) & 1u16 != 1u16,
{
}

/// A set bit of `m & x` is a set bit of `m`.
pub proof fn lemma_and_bit16(m: u16, x: u16, t: u16)
    by (bit_vector)
    requires
        t < 16,
        ((m & x) >> t) & 1u16 == 1u16,
    ensures
        (m >> t) & 1u16 == 1u16,
{
}

/// `(1 << k) - 1` does not underflow for `k < 16`.
pub proof fn lemma_low_mask16(k: u16)
    by (bit_vector)
    requires
        k < 16,
    ensures
        1u16 << k >= 1u16,
{
}

} // verus!
