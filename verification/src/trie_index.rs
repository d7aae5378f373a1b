//! Index types for arena addresses, key indices and prefix lengths, and the
//! zero-encoded optional index [`OptNz`].

use vstd::prelude::*;
use crate::bits::bit16;
use crate::simd::{children_mask, children_mask_u8, children_mask_u16, children_mask_u64};

verus! {

/// An unsigned integer type used as an arena index, key index or prefix length.
///
/// Implemented for `u8`, `u16`, `u32` and `u64`. `ival` is the mathematical value
/// and `imax` the largest representable value.
pub trait TrieIndex: Copy + Sized {
    spec fn ival(self) -> nat;

    spec fn imax() -> nat;

    proof fn lemma_ival_bounds(self)
        ensures
            self.ival() <= Self::imax(),
            Self::imax() <= u64::MAX,
            Self::imax() >= u8::MAX,
    ;

    proof fn lemma_ival_injective(a: Self, b: Self)
        ensures
            a.ival() == b.ival() ==> a == b,
    ;

    proof fn lemma_imax()
        ensures
            u8::MAX <= Self::imax() <= u64::MAX,
    ;

    /// The value as a `usize`.
    fn as_usize(self) -> (r: usize)
        requires
            Self::imax() <= usize::MAX,
        ensures
            r == self.ival(),
    ;

    /// Whether the value is zero.
    fn is_zero(self) -> (r: bool)
        ensures
            r == (self.ival() == 0),
    ;

    /// The largest representable value.
    fn max_value() -> (r: usize)
        requires
            Self::imax() <= usize::MAX,
        ensures
            r == Self::imax(),
    ;

    /// Zero.
    fn zero() -> (r: Self)
        ensures
            r.ival() == 0,
    ;

    /// The largest value, used as the empty-slot sentinel by the 4-way trie.
    fn max_value_sentinel() -> (r: Self)
        ensures
            r.ival() == Self::imax(),
    ;

    /// Conversion from `usize`; the value must fit.
    fn from_usize(n: usize) -> (r: Self)
        requires
            n <= Self::imax(),
        ensures
            r.ival() == n,
    ;

    /// Bit `N` of the result is set iff `children[N]` is nonzero.
    fn children_mask(children: &[Self; 16]) -> (r: u16)
        ensures
            forall|i: int| 0 <= i < 16 ==> (bit16(r, i) <==> children[i].ival() != 0),
    ;
}

impl TrieIndex for u8 {
    fn is_zero(self) -> (r: bool) {
        self == 0
    }

    open spec fn ival(self) -> nat {
        self as nat
    }

    open spec fn imax() -> nat {
        u8::MAX as nat
    }

    proof fn lemma_ival_bounds(self) {
    }

    proof fn lemma_ival_injective(a: Self, b: Self) {
    }

    proof fn lemma_imax() {
    }

    fn as_usize(self) -> (r: usize) {
        self as usize
    }

    fn max_value() -> (r: usize) {
        u8::MAX as usize
    }

    fn zero() -> (r: Self) {
        0
    }

    fn max_value_sentinel() -> (r: Self) {
        u8::MAX
    }

    fn from_usize(n: usize) -> (r: Self) {
        n as u8
    }

    fn children_mask(children: &[Self; 16]) -> (r: u16) {
        children_mask_u8(children)
    }
}

impl TrieIndex for u16 {
    fn is_zero(self) -> (r: bool) {
        self == 0
    }

    open spec fn ival(self) -> nat {
        self as nat
    }

    open spec fn imax() -> nat {
        u16::MAX as nat
    }

    proof fn lemma_ival_bounds(self) {
    }

    proof fn lemma_ival_injective(a: Self, b: Self) {
    }

    proof fn lemma_imax() {
    }

    fn as_usize(self) -> (r: usize) {
        self as usize
    }

    fn max_value() -> (r: usize) {
        u16::MAX as usize
    }

    fn zero() -> (r: Self) {
        0
    }

    fn max_value_sentinel() -> (r: Self) {
        u16::MAX
    }

    fn from_usize(n: usize) -> (r: Self) {
        n as u16
    }

    fn children_mask(children: &[Self; 16]) -> (r: u16) {
        children_mask_u16(children)
    }
}

impl TrieIndex for u32 {
    fn is_zero(self) -> (r: bool) {
        self == 0
    }

    open spec fn ival(self) -> nat {
        self as nat
    }

    open spec fn imax() -> nat {
        u32::MAX as nat
    }

    proof fn lemma_ival_bounds(self) {
    }

    proof fn lemma_ival_injective(a: Self, b: Self) {
    }

    proof fn lemma_imax() {
    }

    fn as_usize(self) -> (r: usize) {
        self as usize
    }

    fn max_value() -> (r: usize) {
        u32::MAX as usize
    }

    fn zero() -> (r: Self) {
        0
    }

    fn max_value_sentinel() -> (r: Self) {
        u32::MAX
    }

    fn from_usize(n: usize) -> (r: Self) {
        n as u32
    }

    fn children_mask(children: &[Self; 16]) -> (r: u16) {
        children_mask(children)
    }
}

impl TrieIndex for u64 {
    fn is_zero(self) -> (r: bool) {
        self == 0
    }

    open spec fn ival(self) -> nat {
        self as nat
    }

    open spec fn imax() -> nat {
        u64::MAX as nat
    }

    proof fn lemma_ival_bounds(self) {
    }

    proof fn lemma_ival_injective(a: Self, b: Self) {
    }

    proof fn lemma_imax() {
    }

    fn as_usize(self) -> (r: usize) {
        self as usize
    }

    fn max_value() -> (r: usize) {
        u64::MAX as usize
    }

    fn zero() -> (r: Self) {
        0
    }

    fn max_value_sentinel() -> (r: Self) {
        u64::MAX
    }

    fn from_usize(n: usize) -> (r: Self) {
        n as u64
    }

    fn children_mask(children: &[Self; 16]) -> (r: u16) {
        children_mask_u64(children)
    }
}

/// A zero-encoded optional index: the value `0` means empty, any nonzero
/// value is a real arena index or key index.
#[derive(Clone, Copy)]
pub struct OptNz<PTR: TrieIndex>(pub PTR);

impl<PTR: TrieIndex> OptNz<PTR> {
    /// The raw value (zero when empty).
    pub open spec fn raw(self) -> nat {
        self.0.ival()
    }

    /// The empty value.
    pub fn empty() -> (r: Self)
        ensures
            r.raw() == 0,
    {
        OptNz(PTR::zero())
    }

    /// `None` when `v` is zero, else the index `v`.
    pub fn new(v: PTR) -> (r: Option<Self>)
        ensures
            v.ival() == 0 ==> r is None,
            v.ival() != 0 ==> r == Some(OptNz(v)),
    {
        if v.is_zero() {
            None
        } else {
            Some(OptNz(v))
        }
    }

    /// Build from a nonzero index.
    pub fn from_index(v: PTR) -> (r: Self)
        requires
            v.ival() != 0,
        ensures
            r == OptNz(v),
            r.raw() == v.ival(),
    {
        OptNz(v)
    }

    /// The raw underlying index (zero if empty).
    pub fn get(self) -> (r: PTR)
        ensures
            r == self.0,
            r.ival() == self.raw(),
    {
        self.0
    }

    /// Whether this slot holds a real index.
    pub fn is_some(self) -> (r: bool)
        ensures
            r == (self.raw() != 0),
    {
        !self.0.is_zero()
    }

    /// Whether this slot is empty.
    pub fn is_none(self) -> (r: bool)
        ensures
            r == (self.raw() == 0),
    {
        self.0.is_zero()
    }
}

impl<PTR: TrieIndex> Default for OptNz<PTR> {
    fn default() -> (r: Self)
        ensures
            r.raw() == 0,
    {
        OptNz(PTR::zero())
    }
}

} // verus!
