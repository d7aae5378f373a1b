//! Occupancy masks over 16-slot child arrays.
//!
//! Each function returns a 16-bit mask whose bit `N` is set exactly when
//! `children[N]` is nonzero.

use vstd::prelude::*;
use crate::bits::{bit16, lemma_bit16_or, lemma_bit16_zero_all};

verus! {

/// Bit `N` of the result is set iff `children[N] != 0` (`u32` slots).
pub fn children_mask(children: &[u32; 16]) -> (r: u16)
    ensures
        forall|i: int| 0 <= i < 16 ==> (bit16(r, i) <==> children[i] != 0),
{
    let mut mask: u16 = 0;
    let mut i: usize = 0;
    proof { lemma_bit16_zero_all(); }
    while i < 16
        invariant
            0 <= i <= 16,
            forall|j: int| 0 <= j < i ==> (bit16(mask, j) <==> children[j] != 0),
            forall|j: int| i <= j < 16 ==> !bit16(mask, j),
        decreases 16 - i,
    {
        let old_mask = mask;
        if children[i] != 0 {
            mask = mask | (1u16 << (i as u16));
            proof {
                assert forall|j: int| 0 <= j < 16 implies (bit16(mask, j) <==> (bit16(old_mask, j) || j == i)) by {
                    lemma_bit16_or(old_mask, i as u16, j as u16);
                }
            }
        }
        i += 1;
    }
    mask
}

/// Bit `N` of the result is set iff `children[N] != 0` (`u8` slots).
pub fn children_mask_u8(children: &[u8; 16]) -> (r: u16)
    ensures
        forall|i: int| 0 <= i < 16 ==> (bit16(r, i) <==> children[i] != 0),
{
    let mut mask: u16 = 0;
    let mut i: usize = 0;
    proof { lemma_bit16_zero_all(); }
    while i < 16
        invariant
            0 <= i <= 16,
            forall|j: int| 0 <= j < i ==> (bit16(mask, j) <==> children[j] != 0),
            forall|j: int| i <= j < 16 ==> !bit16(mask, j),
        decreases 16 - i,
    {
        let old_mask = mask;
        if children[i] != 0 {
            mask = mask | (1u16 << (i as u16));
            proof {
                assert forall|j: int| 0 <= j < 16 implies (bit16(mask, j) <==> (bit16(old_mask, j) || j == i)) by {
                    lemma_bit16_or(old_mask, i as u16, j as u16);
                }
            }
        }
        i += 1;
    }
    mask
}

/// Bit `N` of the result is set iff `children[N] != 0` (`u16` slots).
pub fn children_mask_u16(children: &[u16; 16]) -> (r: u16)
    ensures
        forall|i: int| 0 <= i < 16 ==> (bit16(r, i) <==> children[i] != 0),
{
    let mut mask: u16 = 0;
    let mut i: usize = 0;
    proof { lemma_bit16_zero_all(); }
    while i < 16
        invariant
            0 <= i <= 16,
            forall|j: int| 0 <= j < i ==> (bit16(mask, j) <==> children[j] != 0),
            forall|j: int| i <= j < 16 ==> !bit16(mask, j),
        decreases 16 - i,
    {
        let old_mask = mask;
        if children[i] != 0 {
            mask = mask | (1u16 << (i as u16));
            proof {
                assert forall|j: int| 0 <= j < 16 implies (bit16(mask, j) <==> (bit16(old_mask, j) || j == i)) by {
                    lemma_bit16_or(old_mask, i as u16, j as u16);
                }
            }
        }
        i += 1;
    }
    mask
}

/// Bit `N` of the result is set iff `children[N] != 0` (`u64` slots).
pub fn children_mask_u64(children: &[u64; 16]) -> (r: u16)
    ensures
        forall|i: int| 0 <= i < 16 ==> (bit16(r, i) <==> children[i] != 0),
{
    let mut mask: u16 = 0;
    let mut i: usize = 0;
    proof { lemma_bit16_zero_all(); }
    while i < 16
        invariant
            0 <= i <= 16,
            forall|j: int| 0 <= j < i ==> (bit16(mask, j) <==> children[j] != 0),
            forall|j: int| i <= j < 16 ==> !bit16(mask, j),
        decreases 16 - i,
    {
        let old_mask = mask;
        if children[i] != 0 {
            mask = mask | (1u16 << (i as u16));
            proof {
                assert forall|j: int| 0 <= j < 16 implies (bit16(mask, j) <==> (bit16(old_mask, j) || j == i)) by {
                    lemma_bit16_or(old_mask, i as u16, j as u16);
                }
            }
        }
        i += 1;
    }
    mask
}

} // verus!
