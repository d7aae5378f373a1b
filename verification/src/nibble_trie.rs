//! Nibble Trie — a fixed-fanout radix trie indexed by nibbles (half-bytes).
//!
//! Each node has 16 child slots (one per nibble value 0–15), addressed by direct
//! indexing. Keys that are prefixes of other keys are marked by a `terminal` flag
//! on the node where they end, so `0x00` bytes are valid in keys.
//!
//! Child slots and the `leaf` field use [`OptNz`], where `0` means empty. Real
//! arena child addresses are `>= 1` (the root at `arena[0]` is never a child) and
//! real key indices are `>= 1` (`index[0]` is a dummy gap).
//!
//! The sparse `index` holds one slot per key index: `(offset into buf, length,
//! value)`, or `None` for a gap. Occupied slots appear in key order; inserting
//! shifts the successor run right by one slot and bumps the arena references to
//! the shifted keys.

use vstd::prelude::*;
use crate::bits::{lemma_bit16_zero_all, bit16, lemma_bit16_or, lemma_bit16_and_not, lemma_tz16, lemma_shifted_bit16, lemma_shifted_zero16, lemma_shifted_clear16, lemma_and_bit16, lemma_low_mask16};
use crate::key_store::append_bytes;
use crate::key_store::{ByteKey, KeyRepr};
pub use crate::trie_index::{TrieIndex, OptNz};
use std::marker::PhantomData;

verus! {

/// One slot of the sparse `index`: the buf offset (`>= 1`; `buf[0]` is the dummy
/// byte), the key length, and the value.
pub type Slot<LEN, T> = (usize, LEN, T);

/// Nibble `idx` of `key`: high nibble first; `0` past the end of the key.
pub open spec fn nibble_at(key: Seq<u8>, idx: int) -> u8 {
    if 0 <= idx && idx / 2 < key.len() {
        if idx % 2 == 0 {
            key[idx / 2] >> 4u8
        } else {
            key[idx / 2] & 0x0Fu8
        }
    } else {
        0
    }
}

/// A nibble is below 16.
pub proof fn lemma_nibble_lt_16(key: Seq<u8>, idx: int)
    ensures
        nibble_at(key, idx) < 16,
{
    if 0 <= idx && idx / 2 < key.len() {
        let b = key[idx / 2];
        assert(b >> 4u8 < 16u8 && b & 0x0Fu8 < 16u8) by (bit_vector);
    }
}

/// Keys `a` and `b` agree on every nibble in `[lo, hi)`.
pub open spec fn nibbles_agree(a: Seq<u8>, b: Seq<u8>, lo: int, hi: int) -> bool {
    forall|i: int| lo <= i < hi ==> #[trigger] nibble_at(a, i) == nibble_at(b, i)
}

/// Outcome of comparing two keys for divergence from a nibble position.
pub enum DivergeResult {
    /// The keys have the same length and agree from the start position on.
    Duplicate,
    /// The first nibble position (at or after the start) where the keys differ,
    /// or, when one key is a prefix of the other there, the shorter key's length.
    At(usize),
}

/// Outcome of a bounded prefix check over the nibbles `from..to`.
pub enum PrefixCheck {
    /// The keys agree on every nibble in the range.
    Matches,
    /// The first nibble in the range where they differ.
    Diverges(usize),
}

/// `r` is the divergence of `a` and `b` scanning from nibble `from`.
pub open spec fn diverge_spec(a: Seq<u8>, b: Seq<u8>, from: int, r: DivergeResult) -> bool {
    let m: int = if a.len() < b.len() { 2 * a.len() as int } else { 2 * b.len() as int };
    match r {
        DivergeResult::Duplicate => a.len() == b.len() && nibbles_agree(a, b, from, m),
        DivergeResult::At(d) => {
            &&& from <= d
            &&& nibbles_agree(a, b, from, if d < m { d as int } else { m as int })
            &&& d < m ==> nibble_at(a, d as int) != nibble_at(b, d as int)
            &&& d >= m ==> d == (if from < m { m as int } else { from }) && a.len() != b.len()
        },
    }
}

/// `r` is the bounded prefix check of `a` and `b` over `[from, to)`.
pub open spec fn prefix_spec(a: Seq<u8>, b: Seq<u8>, from: int, to: int, r: PrefixCheck) -> bool {
    match r {
        PrefixCheck::Matches => nibbles_agree(a, b, from, to),
        PrefixCheck::Diverges(d) => {
            &&& from <= d < to
            &&& nibble_at(a, d as int) != nibble_at(b, d as int)
            &&& nibbles_agree(a, b, from, d as int)
        },
    }
}

proof fn lemma_byte_nibbles(x: u8, y: u8)
    by (bit_vector)
    ensures
        x == y ==> (x >> 4u8 == y >> 4u8 && x & 0x0Fu8 == y & 0x0Fu8),
        x != y ==> (((x ^ y) >> 4u8 == 0u8) <==> (x >> 4u8 == y >> 4u8)),
        x != y && x >> 4u8 == y >> 4u8 ==> x & 0x0Fu8 != y & 0x0Fu8,
{
}

/// Nibbles of equal bytes agree; bytes `[lo, hi)` equal means nibbles `[2lo, 2hi)` agree.
proof fn lemma_equal_bytes_agree(a: Seq<u8>, b: Seq<u8>, lo: int, hi: int)
    requires
        0 <= lo <= hi <= a.len(),
        hi <= b.len(),
        forall|k: int| lo <= k < hi ==> a[k] == b[k],
    ensures
        nibbles_agree(a, b, 2 * lo, 2 * hi),
{
    assert forall|i: int| 2 * lo <= i < 2 * hi implies #[trigger] nibble_at(a, i) == nibble_at(b, i) by {
        assert(lo <= i / 2 < hi);
        lemma_byte_nibbles(a[i / 2], b[i / 2]);
    }
}

/// Nibble `idx` of `key`: high nibble first, `0` past the end.
fn key_nibble_at(key: &[u8], idx: usize) -> (r: u8)
    ensures
        r == nibble_at(key@, idx as int),
        r < 16,
{
    let byte_idx = idx / 2;
    if byte_idx < key.len() {
        if idx % 2 == 0 {
            let r = key[byte_idx] >> 4;
            proof {
                let b = key@[byte_idx as int];
                assert(b >> 4u8 < 16) by (bit_vector);
            }
            r
        } else {
            let r = key[byte_idx] & 0x0F;
            proof {
                let b = key@[byte_idx as int];
                assert(b & 0x0Fu8 < 16) by (bit_vector);
            }
            r
        }
    } else {
        0
    }
}

/// Number of nibbles in `key`.
fn nibble_count(key: &[u8]) -> (r: usize)
    requires
        key@.len() * 2 <= usize::MAX,
    ensures
        r == key@.len() * 2,
{
    key.len() * 2
}

/// The nibble position of the first divergence inside byte `byte_idx`, given
/// the nonzero XOR of the two differing bytes.
fn diverging_nibble(xor: u8, byte_idx: usize) -> (r: usize)
    requires
        byte_idx * 2 + 1 <= usize::MAX,
    ensures
        r == byte_idx * 2 + (if xor >> 4u8 == 0 { 1int } else { 0int }),
{
    byte_idx * 2 + (if xor >> 4 == 0 { 1 } else { 0 })
}

/// Scan two keys from nibble `from` on to find the first diverging nibble.
fn find_divergence(key_a: &[u8], key_b: &[u8], from: usize) -> (r: DivergeResult)
    requires
        key_a@.len() * 2 <= usize::MAX,
        key_b@.len() * 2 <= usize::MAX,
    ensures
        diverge_spec(key_a@, key_b@, from as int, r),
{
    let total_a = nibble_count(key_a);
    let total_b = nibble_count(key_b);
    let min = if total_a < total_b { total_a } else { total_b };
    let mut d = from;
    while d < min
        invariant
            from <= d,
            min == (if key_a@.len() < key_b@.len() { 2 * key_a@.len() } else { 2 * key_b@.len() }),
            d > from ==> d <= min,
            nibbles_agree(key_a@, key_b@, from as int, d as int),
        decreases min - d,
    {
        if key_nibble_at(key_a, d) != key_nibble_at(key_b, d) {
            return DivergeResult::At(d);
        }
        d += 1;
    }
    if total_a == total_b {
        DivergeResult::Duplicate
    } else {
        DivergeResult::At(d)
    }
}

/// Byte-wise equality of two slices.
fn simd_eq(a: &[u8], b: &[u8]) -> (r: bool)
    ensures
        r == (a@ == b@),
{
    if a.len() != b.len() {
        return false;
    }
    let len = a.len();
    let mut i: usize = 0;
    while i < len
        invariant
            len == a@.len() == b@.len(),
            i <= len,
            forall|k: int| 0 <= k < i ==> a@[k] == b@[k],
        decreases len - i,
    {
        if a[i] != b[i] {
            return false;
        }
        i += 1;
    }
    proof {
        assert(a@ =~= b@);
    }
    true
}

/// Find the first diverging nibble, comparing whole bytes in chunks of `N`
/// from the byte that holds nibble `from`.
fn simd_find_divergence<const N: usize>(key_a: &[u8], key_b: &[u8], from: usize) -> (r: DivergeResult)
    requires
        0 < N,
        key_a@.len() * 2 <= usize::MAX,
        key_b@.len() * 2 <= usize::MAX,
    ensures
        diverge_spec(key_a@, key_b@, 2 * (from / 2) as int, r),
{
    let minlen = if key_a.len() < key_b.len() { key_a.len() } else { key_b.len() };
    let from_byte = from / 2;
    let mut i = from_byte;
    while i <= minlen && N <= minlen - i
        invariant
            0 < N,
            key_a@.len() * 2 <= usize::MAX,
            key_b@.len() * 2 <= usize::MAX,
            from_byte == from / 2,
            from_byte <= i,
            minlen == (if key_a@.len() < key_b@.len() { key_a@.len() } else { key_b@.len() }),
            i > from_byte ==> i <= minlen,
            forall|k: int| from_byte <= k < i ==> key_a@[k] == key_b@[k],
        decreases minlen + N - i,
    {
        let mut j: usize = 0;
        while j < N
            invariant
                key_a@.len() * 2 <= usize::MAX,
                key_b@.len() * 2 <= usize::MAX,
                from_byte == from / 2,
                0 < N,
                i + N <= minlen,
                minlen <= key_a@.len(),
                minlen <= key_b@.len(),
                from_byte <= i,
                j <= N,
                forall|k: int| from_byte <= k < i + j ==> key_a@[k] == key_b@[k],
            decreases N - j,
        {
            let x = key_a[i + j];
            let y = key_b[i + j];
            if x != y {
                let k = i + j;
                let xor = x ^ y;
                let d = diverging_nibble(xor, k);
                proof {
                    lemma_byte_nibbles(x, y);
                    lemma_equal_bytes_agree(key_a@, key_b@, from_byte as int, k as int);
                    assert(nibble_at(key_a@, 2 * k as int) == x >> 4u8);
                    assert(nibble_at(key_a@, 2 * k + 1) == x & 0x0Fu8);
                    assert(nibble_at(key_b@, 2 * k as int) == y >> 4u8);
                    assert(nibble_at(key_b@, 2 * k + 1) == y & 0x0Fu8);
                    assert(nibbles_agree(key_a@, key_b@, 2 * from_byte as int, d as int));
                }
                return DivergeResult::At(d);
            }
            j += 1;
        }
        i += N;
    }
    let r = find_divergence(key_a, key_b, i * 2);
    proof {
        if i > from_byte {
            lemma_equal_bytes_agree(key_a@, key_b@, from_byte as int, i as int);
        } else {
            assert(nibbles_agree(key_a@, key_b@, 2 * from_byte as int, 2 * i as int));
        }
    }
    r
}

/// Scan nibbles `from..to` of two keys for a divergence.
fn check_prefix(key_a: &[u8], key_b: &[u8], from: usize, to: usize) -> (r: PrefixCheck)
    ensures
        prefix_spec(key_a@, key_b@, from as int, to as int, r),
{
    let mut nib = from;
    while nib < to
        invariant
            from <= nib,
            nib > from ==> nib <= to,
            nibbles_agree(key_a@, key_b@, from as int, nib as int),
        decreases to - nib,
    {
        if key_nibble_at(key_a, nib) != key_nibble_at(key_b, nib) {
            return PrefixCheck::Diverges(nib);
        }
        nib += 1;
    }
    PrefixCheck::Matches
}

/// Bounded prefix check over nibbles `from..to`, comparing whole bytes in chunks
/// of `N` from the byte that holds nibble `from`.
fn simd_check_prefix<const N: usize>(key_a: &[u8], key_b: &[u8], from: usize, to: usize) -> (r: PrefixCheck)
    requires
        0 < N,
        to < usize::MAX,
    ensures
        from >= to ==> r is Matches,
        from < to ==> prefix_spec(key_a@, key_b@, 2 * (from / 2) as int, to as int, r),
{
    if from >= to {
        return PrefixCheck::Matches;
    }
    let from_byte = from / 2;
    let to_byte = (to + 1) / 2;
    let m1 = if key_a.len() < key_b.len() { key_a.len() } else { key_b.len() };
    let minlen = if m1 < to_byte { m1 } else { to_byte };
    let mut i = from_byte;
    while i <= minlen && N <= minlen - i
        invariant
            0 < N,
            to < usize::MAX,
            from_byte == from / 2,
            from < to,
            to_byte == (to + 1) / 2,
            from_byte <= i,
            minlen <= key_a@.len(),
            minlen <= key_b@.len(),
            minlen <= to_byte,
            i > from_byte ==> i <= minlen,
            forall|k: int| from_byte <= k < i ==> key_a@[k] == key_b@[k],
        decreases minlen + N - i,
    {
        let mut j: usize = 0;
        while j < N
            invariant
                from_byte == from / 2,
                from < to,
                to < usize::MAX,
                to_byte == (to + 1) / 2,
                minlen <= to_byte,
                0 < N,
                i + N <= minlen,
                minlen <= key_a@.len(),
                minlen <= key_b@.len(),
                from_byte <= i,
                j <= N,
                forall|k: int| from_byte <= k < i + j ==> key_a@[k] == key_b@[k],
            decreases N - j,
        {
            let x = key_a[i + j];
            let y = key_b[i + j];
            if x != y {
                let k = i + j;
                let xor = x ^ y;
                let nib = diverging_nibble(xor, k);
                proof {
                    lemma_byte_nibbles(x, y);
                    lemma_equal_bytes_agree(key_a@, key_b@, from_byte as int, k as int);
                    assert(nibble_at(key_a@, 2 * k as int) == x >> 4u8);
                    assert(nibble_at(key_a@, 2 * k + 1) == x & 0x0Fu8);
                    assert(nibble_at(key_b@, 2 * k as int) == y >> 4u8);
                    assert(nibble_at(key_b@, 2 * k + 1) == y & 0x0Fu8);
                }
                if nib < to {
                    return PrefixCheck::Diverges(nib);
                }
                return PrefixCheck::Matches;
            }
            j += 1;
        }
        i += N;
    }
    let r = check_prefix(key_a, key_b, i * 2, to);
    proof {
        if i > from_byte {
            lemma_equal_bytes_agree(key_a@, key_b@, from_byte as int, i as int);
        } else {
            assert(nibbles_agree(key_a@, key_b@, 2 * from_byte as int, 2 * i as int));
        }
    }
    r
}

/// A single node in the nibble trie arena.
///
/// `children[n]` is `0` (empty), a key index (when bit `n` of `leaf_mask` is
/// set) or an arena index of an internal child. `prefix_len` is the absolute
/// nibble position this node discriminates on. `leaf` is the key index of a
/// reference key of the subtree (the node's own key when `terminal`).
#[derive(Clone, Copy)]
pub struct Node<PTR: TrieIndex, LEN: TrieIndex> {
    pub children: [OptNz<PTR>; 16],
    pub prefix_len: LEN,
    pub leaf_mask: u16,
    pub leaf: OptNz<PTR>,
    pub terminal: bool,
}

impl<PTR: TrieIndex, LEN: TrieIndex> Node<PTR, LEN> {
    /// A node with no children, prefix length `0`, no reference key and not terminal.
    pub fn new() -> (r: Self)
        ensures
            forall|i: int| 0 <= i < 16 ==> #[trigger] r.children[i].raw() == 0,
            r.prefix_len.ival() == 0,
            r.leaf_mask == 0,
            r.leaf.raw() == 0,
            !r.terminal,
    {
        let e = OptNz::<PTR>::empty();
        Node {
            children: [e, e, e, e, e, e, e, e, e, e, e, e, e, e, e, e],
            prefix_len: LEN::zero(),
            leaf_mask: 0,
            leaf: OptNz::empty(),
            terminal: false,
        }
    }

    /// Whether this node is terminal (its own key ends here).
    pub fn is_terminal(&self) -> (r: bool)
        ensures
            r == self.terminal,
    {
        self.terminal
    }

    /// Set the terminal flag.
    pub fn set_terminal(&mut self, val: bool)
        ensures
            *final(self) == (Node { terminal: val, ..*old(self) }),
    {
        self.terminal = val;
    }

    /// Whether nibble slot `nib` holds a key index.
    pub fn is_leaf(&self, nib: usize) -> (r: bool)
        requires
            nib < 16,
        ensures
            r == bit16(self.leaf_mask, nib as int),
    {
        (self.leaf_mask >> (nib as u16)) & 1 == 1
    }

    /// Set the leaf flag of slot `nib`.
    fn set_leaf(&mut self, nib: usize)
        requires
            nib < 16,
        ensures
            *final(self) == (Node { leaf_mask: final(self).leaf_mask, ..*old(self) }),
            forall|j: int| 0 <= j < 16 ==> (#[trigger] bit16(final(self).leaf_mask, j) <==> (bit16(old(self).leaf_mask, j) || j == nib)),
    {
        let old_mask = self.leaf_mask;
        self.leaf_mask = self.leaf_mask | (1u16 << (nib as u16));
        proof {
            assert forall|j: int| 0 <= j < 16 implies (#[trigger] bit16(self.leaf_mask, j) <==> (bit16(old_mask, j) || j == nib)) by {
                lemma_bit16_or(old_mask, nib as u16, j as u16);
            }
        }
    }

    /// Clear the leaf flag of slot `nib`.
    fn clear_leaf(&mut self, nib: usize)
        requires
            nib < 16,
        ensures
            *final(self) == (Node { leaf_mask: final(self).leaf_mask, ..*old(self) }),
            forall|j: int| 0 <= j < 16 ==> (#[trigger] bit16(final(self).leaf_mask, j) <==> (bit16(old(self).leaf_mask, j) && j != nib)),
    {
        let old_mask = self.leaf_mask;
        self.leaf_mask = self.leaf_mask & !(1u16 << (nib as u16));
        proof {
            assert forall|j: int| 0 <= j < 16 implies (#[trigger] bit16(self.leaf_mask, j) <==> (bit16(old_mask, j) && j != nib)) by {
                lemma_bit16_and_not(old_mask, nib as u16, j as u16);
            }
        }
    }

    /// Whether slot `nib` holds a child (leaf or internal).
    pub fn is_occupied(&self, nib: usize) -> (r: bool)
        requires
            nib < 16,
        ensures
            r == (self.children[nib as int].raw() != 0),
    {
        self.children[nib].is_some()
    }

    /// Store a nonzero key index at `nib` as a leaf child.
    pub fn set_leaf_child(&mut self, nib: usize, key_index: PTR)
        requires
            nib < 16,
            key_index.ival() != 0,
        ensures
            final(self).children@ == old(self).children@.update(nib as int, OptNz(key_index)),
            final(self).prefix_len == old(self).prefix_len,
            final(self).leaf == old(self).leaf,
            final(self).terminal == old(self).terminal,
            forall|j: int| 0 <= j < 16 ==> (#[trigger] bit16(final(self).leaf_mask, j) <==> (bit16(old(self).leaf_mask, j) || j == nib)),
    {
        self.set_leaf(nib);
        self.children[nib] = OptNz::from_index(key_index);
    }

    /// Store a nonzero arena index at `nib` as an internal child.
    fn set_internal_child(&mut self, nib: usize, arena_idx: PTR)
        requires
            nib < 16,
            arena_idx.ival() != 0,
        ensures
            final(self).children@ == old(self).children@.update(nib as int, OptNz(arena_idx)),
            final(self).prefix_len == old(self).prefix_len,
            final(self).leaf == old(self).leaf,
            final(self).terminal == old(self).terminal,
            forall|j: int| 0 <= j < 16 ==> (#[trigger] bit16(final(self).leaf_mask, j) <==> (bit16(old(self).leaf_mask, j) && j != nib)),
    {
        self.clear_leaf(nib);
        self.children[nib] = OptNz::from_index(arena_idx);
    }

    /// The key index held by slot `nib`, or `None` if it is empty or internal.
    fn leaf_key_index(&self, nib: usize) -> (r: Option<PTR>)
        requires
            nib < 16,
        ensures
            r == (if bit16(self.leaf_mask, nib as int) && self.children[nib as int].raw() != 0 {
                Some(self.children[nib as int].0)
            } else {
                None
            }),
    {
        if self.is_leaf(nib) && self.children[nib].is_some() {
            Some(self.children[nib].get())
        } else {
            None
        }
    }

    /// Bit `N` of the result is set iff slot `N` is occupied.
    pub fn children_mask(&self) -> (r: u16)
        ensures
            forall|i: int| 0 <= i < 16 ==> (bit16(r, i) <==> self.children[i].raw() != 0),
    {
        let c = &self.children;
        let raw: [PTR; 16] = [
            c[0].0, c[1].0, c[2].0, c[3].0, c[4].0, c[5].0, c[6].0, c[7].0,
            c[8].0, c[9].0, c[10].0, c[11].0, c[12].0, c[13].0, c[14].0, c[15].0,
        ];
        PTR::children_mask(&raw)
    }

    /// The same node with indices widened to `NewPTR`; every index must fit.
    pub fn promote<NewPTR: TrieIndex>(self) -> (r: Node<NewPTR, LEN>)
        requires
            forall|i: int| 0 <= i < 16 ==> #[trigger] self.children[i].raw() <= NewPTR::imax(),
            self.leaf.raw() <= NewPTR::imax(),
            PTR::imax() <= usize::MAX,
        ensures
            forall|i: int| 0 <= i < 16 ==> #[trigger] r.children[i].raw() == self.children[i].raw(),
            r.leaf.raw() == self.leaf.raw(),
            r.prefix_len == self.prefix_len,
            r.leaf_mask == self.leaf_mask,
            r.terminal == self.terminal,
    {
        let e = OptNz::<NewPTR>::empty();
        let mut children: [OptNz<NewPTR>; 16] = [e, e, e, e, e, e, e, e, e, e, e, e, e, e, e, e];
        let mut i: usize = 0;
        while i < 16
            invariant
                i <= 16,
                forall|k: int| 0 <= k < 16 ==> #[trigger] self.children[k].raw() <= NewPTR::imax(),
                PTR::imax() <= usize::MAX,
                forall|k: int| 0 <= k < i ==> #[trigger] children[k].raw() == self.children[k].raw(),
                forall|k: int| i <= k < 16 ==> #[trigger] children[k].raw() == 0,
            decreases 16 - i,
        {
            if self.children[i].is_some() {
                children[i] = OptNz::from_index(NewPTR::from_usize(self.children[i].get().as_usize()));
            }
            i += 1;
        }
        Node {
            children,
            prefix_len: self.prefix_len,
            leaf_mask: self.leaf_mask,
            leaf: if self.leaf.is_some() {
                OptNz::from_index(NewPTR::from_usize(self.leaf.get().as_usize()))
            } else {
                OptNz::empty()
            },
            terminal: self.terminal,
        }
    }

    /// The same node with indices narrowed to `NewPTR`, or `Err(self)` if some
    /// child index or the reference index does not fit.
    pub fn demote<NewPTR: TrieIndex>(self) -> (r: Result<Node<NewPTR, LEN>, Self>)
        requires
            NewPTR::imax() <= usize::MAX,
            PTR::imax() <= usize::MAX,
        ensures
            (forall|i: int| 0 <= i < 16 ==> #[trigger] self.children[i].raw() <= NewPTR::imax())
                && self.leaf.raw() <= NewPTR::imax() <==> r is Ok,
            r is Err ==> r == Err::<Node<NewPTR, LEN>, Self>(self),
            r matches Ok(n) ==> {
                &&& forall|i: int| 0 <= i < 16 ==> #[trigger] n.children[i].raw() == self.children[i].raw()
                &&& n.leaf.raw() == self.leaf.raw()
                &&& n.prefix_len == self.prefix_len
                &&& n.leaf_mask == self.leaf_mask
                &&& n.terminal == self.terminal
            },
    {
        let mut i: usize = 0;
        while i < 16
            invariant
                i <= 16,
                NewPTR::imax() <= usize::MAX,
                PTR::imax() <= usize::MAX,
                forall|k: int| 0 <= k < i ==> #[trigger] self.children[k].raw() <= NewPTR::imax(),
            decreases 16 - i,
        {
            if self.children[i].is_some() && self.children[i].get().as_usize() > NewPTR::max_value() {
                return Err(self);
            }
            i += 1;
        }
        if self.leaf.is_some() && self.leaf.get().as_usize() > NewPTR::max_value() {
            return Err(self);
        }
        Ok(self.promote())
    }
}

/// Number of occupied slots of a sparse index.
pub open spec fn count_some<X>(s: Seq<Option<X>>) -> nat
    decreases s.len(),
{
    if s.len() == 0 {
        0
    } else {
        count_some(s.drop_last()) + if s.last() is Some { 1nat } else { 0nat }
    }
}

proof fn lemma_count_some_push<X>(s: Seq<Option<X>>, x: Option<X>)
    ensures
        count_some(s.push(x)) == count_some(s) + if x is Some { 1nat } else { 0nat },
{
    assert(s.push(x).drop_last() =~= s);
}

proof fn lemma_count_some_update<X>(s: Seq<Option<X>>, i: int, x: Option<X>)
    requires
        0 <= i < s.len(),
    ensures
        count_some(s.update(i, x)) + (if s[i] is Some { 1nat } else { 0nat })
            == count_some(s) + (if x is Some { 1nat } else { 0nat }),
    decreases s.len(),
{
    if i == s.len() - 1 {
        assert(s.update(i, x).drop_last() =~= s.drop_last());
    } else {
        lemma_count_some_update(s.drop_last(), i, x);
        assert(s.update(i, x).drop_last() =~= s.drop_last().update(i, x));
    }
}

proof fn lemma_count_some_le<X>(s: Seq<Option<X>>)
    requires
        s.len() >= 1,
        s[0] is None,
    ensures
        count_some(s) < s.len(),
    decreases s.len(),
{
    if s.len() > 1 {
        assert(s.drop_last()[0] == s[0]);
        lemma_count_some_le(s.drop_last());
    } else {
        assert(count_some(s.drop_last()) == 0);
    }
}

/// Vec::capacity: trusted to be at least the length, as the std documentation
/// guarantees; the exact value depends on the allocator and is left free.
#[verifier::external_body]
fn vec_capacity<X>(v: &Vec<X>) -> (r: usize)
    ensures
        r >= v@.len(),
{
    v.capacity()
}

/// Whether a fill passes 90%: more keys than nine tenths of the index
/// capacity, or more buffer bytes than nine tenths of the buffer capacity.
pub open spec fn over_fill(n_keys: int, idx_cap: int, buf_len: int, buf_cap: int) -> bool {
    (idx_cap > 0 && 10 * n_keys > 9 * idx_cap) || (buf_cap > 0 && 10 * buf_len > 9 * buf_cap)
}

/// The 90% fill test on given counts and capacities.
pub fn fill_exceeds(n_keys: usize, idx_cap: usize, buf_len: usize, buf_cap: usize) -> (r: bool)
    ensures
        r == over_fill(n_keys as int, idx_cap as int, buf_len as int, buf_cap as int),
{
    (idx_cap > 0 && 10 * (n_keys as u128) > 9 * (idx_cap as u128)) || (buf_cap > 0 && 10
        * (buf_len as u128) > 9 * (buf_cap as u128))
}

/// A 16-way radix trie over byte keys of type `K`, with values `T`, arena and
/// key indices of type `PTR` and prefix lengths of type `LEN`.
pub struct NibbleTrie<K: ByteKey, T, PTR: TrieIndex = u32, LEN: TrieIndex = u16> {
    pub arena: Vec<Node<PTR, LEN>>,
    pub buf: Vec<u8>,
    pub index: Vec<Option<Slot<LEN, T>>>,
    pub n_keys: usize,
    pub _key: PhantomData<K>,
}

impl<K: ByteKey, T, PTR: TrieIndex, LEN: TrieIndex> NibbleTrie<K, T, PTR, LEN> {
    /// The prefix length of arena node `phys`.
    pub open spec fn prefix_of(self, phys: int) -> nat {
        self.arena@[phys].prefix_len.ival()
    }

    /// Slot `i` is a gap or addresses a range of `buf` past the dummy byte.
    pub open spec fn slot_in_bounds(self, i: int) -> bool {
        match self.index@[i] {
            Some(slot) => 1 <= slot.0 && slot.0 + slot.1.ival() <= self.buf@.len(),
            None => true,
        }
    }

    /// Slot `nib` of node `phys` is an internal child.
    pub open spec fn is_internal_edge(self, phys: int, nib: int) -> bool {
        &&& self.arena@[phys].children[nib].raw() != 0
        &&& !bit16(self.arena@[phys].leaf_mask, nib)
    }

    /// The arena address held by slot `nib` of node `phys`.
    pub open spec fn child_of(self, phys: int, nib: int) -> int {
        self.arena@[phys].children[nib].raw() as int
    }

    /// Internal child references stay in the arena, never address the root,
    /// strictly increase the prefix length, and no node has two parents.
    pub open spec fn arena_ok(self) -> bool {
        &&& forall|p: int, n: int|
            0 <= p < self.arena@.len() && 0 <= n < 16 && #[trigger] self.is_internal_edge(p, n)
                ==> {
                &&& 0 < self.child_of(p, n) < self.arena@.len()
                &&& self.prefix_of(self.child_of(p, n)) > self.prefix_of(p)
            }
        &&& forall|p1: int, n1: int, p2: int, n2: int|
            0 <= p1 < self.arena@.len() && 0 <= n1 < 16 && 0 <= p2 < self.arena@.len() && 0 <= n2
                < 16 && #[trigger] self.is_internal_edge(p1, n1) && #[trigger] self.is_internal_edge(p2, n2)
                && self.child_of(p1, n1) == self.child_of(p2, n2) ==> p1 == p2 && n1 == n2
    }

    /// Well-formedness: the structure is sound and `n_keys` counts the
    /// occupied slots.
    pub open spec fn wf(self) -> bool {
        &&& self.structure_ok()
        &&& self.n_keys == count_some(self.index@)
        &&& self.keys_valid()
    }

    /// Every stored key is the byte representation of some key of type `K`.
    pub open spec fn keys_valid(self) -> bool {
        forall|i: int| 0 <= i < self.index@.len() ==> match #[trigger] self.slot_key(i) {
            Some(k) => K::valid_repr(k),
            None => true,
        }
    }

    /// The dummy slot and byte are present, every slot addresses `buf`, index
    /// values fit `PTR`, an empty arena goes with an index of just the dummy,
    /// and the arena is well formed.
    pub open spec fn structure_ok(self) -> bool {
        &&& self.index@.len() >= 1
        &&& self.index@[0] is None
        &&& self.buf@.len() >= 1
        &&& forall|i: int| 0 <= i < self.index@.len() ==> #[trigger] self.slot_in_bounds(i)
        &&& self.arena@.len() == 0 ==> self.index@.len() == 1
        &&& self.index@.len() <= PTR::imax()
        &&& self.arena@.len() <= PTR::imax()
        &&& PTR::imax() <= usize::MAX
        &&& LEN::imax() <= usize::MAX
        &&& self.arena_ok()
    }

    /// The bytes of key slot `i`, if it is occupied.
    pub open spec fn slot_key(self, i: int) -> Option<Seq<u8>> {
        if 0 <= i < self.index@.len() {
            match self.index@[i] {
                Some(slot) => Some(self.buf@.subrange(slot.0 as int, slot.0 + slot.1.ival())),
                None => None,
            }
        } else {
            None
        }
    }

    /// The value of key slot `i`, if it is occupied.
    pub open spec fn slot_value(self, i: int) -> Option<T> {
        if 0 <= i < self.index@.len() {
            match self.index@[i] {
                Some(slot) => Some(slot.2),
                None => None,
            }
        } else {
            None
        }
    }

    /// The candidate key index reached by descending from node `phys` along the
    /// nibbles of `key`: a terminal node once the key's nibbles run out, or a
    /// leaf child.
    pub open spec fn descend(self, phys: int, key: Seq<u8>) -> Option<int>
        decreases (if self.prefix_of(phys) >= 2 * key.len() {
            0
        } else {
            2 * key.len() - self.prefix_of(phys)
        }),
    {
        if !(0 <= phys < self.arena@.len()) {
            None
        } else {
            let node = self.arena@[phys];
            let p = node.prefix_len.ival();
            if p >= 2 * key.len() {
                if node.terminal {
                    Some(node.leaf.raw() as int)
                } else {
                    None
                }
            } else {
                let nib = nibble_at(key, p as int) as int;
                let c = node.children[nib].raw() as int;
                if c == 0 {
                    None
                } else if bit16(node.leaf_mask, nib) {
                    Some(c)
                } else if 0 <= c < self.arena@.len() && self.prefix_of(c) > p {
                    self.descend(c, key)
                } else {
                    None
                }
            }
        }
    }

    /// The key index that `get_index` reports for `key`: the descent's candidate,
    /// when the key stored there is `key`.
    pub open spec fn lookup(self, key: Seq<u8>) -> Option<int> {
        if self.arena@.len() == 0 {
            None
        } else {
            match self.descend(0, key) {
                Some(ki) => if self.slot_key(ki) == Some(key) {
                    Some(ki)
                } else {
                    None
                },
                None => None,
            }
        }
    }

    /// The internal child that a descent along `key` takes from `node`: the one
    /// under the key's nibble at the node's prefix length, when its prefix
    /// length is larger.
    pub open spec fn step_to(self, node: int, key: Seq<u8>, c: int) -> bool {
        let p = self.prefix_of(node);
        let nib = nibble_at(key, p as int) as int;
        &&& self.is_internal_edge(node, nib)
        &&& c == self.child_of(node, nib)
        &&& 0 <= c < self.arena@.len()
        &&& self.prefix_of(c) > p
    }

    /// The descent along `key` from `node` arrives at `target` while the key
    /// still has nibbles left at every node before it.
    pub open spec fn reaches(self, node: int, key: Seq<u8>, target: int) -> bool
        decreases (if self.prefix_of(node) >= 2 * key.len() { 0 } else { 2 * key.len() - self.prefix_of(node) }),
    {
        if !(0 <= node < self.arena@.len()) {
            false
        } else if node == target {
            true
        } else if self.prefix_of(node) >= 2 * key.len() {
            false
        } else {
            let c = self.child_of(node, nibble_at(key, self.prefix_of(node) as int) as int);
            if self.step_to(node, key, c) {
                self.reaches(c, key, target)
            } else {
                false
            }
        }
    }

    /// A descent that reaches `target`, where the key still has nibbles left,
    /// extends by the step from `target` to its internal child `c`.
    proof fn lemma_reaches_extend(self, node: int, key: Seq<u8>, target: int, c: int)
        requires
            self.reaches(node, key, target),
            0 <= target < self.arena@.len(),
            self.prefix_of(target) < 2 * key.len(),
            self.step_to(target, key, c),
        ensures
            self.reaches(node, key, c),
        decreases (if self.prefix_of(node) >= 2 * key.len() { 0 } else { 2 * key.len() - self.prefix_of(node) }),
    {
        if node == target {
            if node != c {
                assert(self.reaches(c, key, c));
            }
        } else if node != c {
            let n1 = self.child_of(node, nibble_at(key, self.prefix_of(node) as int) as int);
            self.lemma_reaches_extend(n1, key, target, c);
        }
    }

    /// A descent that reaches `target` continues as the descent from `target`.
    proof fn lemma_reaches_descend(self, node: int, key: Seq<u8>, target: int)
        requires
            self.reaches(node, key, target),
        ensures
            self.descend(node, key) == self.descend(target, key),
        decreases (if self.prefix_of(node) >= 2 * key.len() { 0 } else { 2 * key.len() - self.prefix_of(node) }),
    {
        if node != target {
            let p = self.prefix_of(node);
            let nib = nibble_at(key, p as int) as int;
            lemma_nibble_lt_16(key, p as int);
            let c = self.child_of(node, nib);
            self.lemma_reaches_descend(c, key, target);
        }
    }

    /// `self` differs from `other` at most in the reference keys of non-terminal
    /// nodes, which no lookup reads.
    pub open spec fn same_routes(self, other: Self) -> bool {
        &&& self.arena@.len() == other.arena@.len()
        &&& forall|q: int| 0 <= q < self.arena@.len() ==> {
            &&& (#[trigger] self.arena@[q]).children == other.arena@[q].children
            &&& self.arena@[q].prefix_len == other.arena@[q].prefix_len
            &&& self.arena@[q].leaf_mask == other.arena@[q].leaf_mask
            &&& self.arena@[q].terminal == other.arena@[q].terminal
            &&& other.arena@[q].terminal ==> self.arena@[q].leaf == other.arena@[q].leaf
        }
    }

    proof fn lemma_same_routes_trans(a: Self, b: Self, c: Self)
        requires
            a.same_routes(b),
            b.same_routes(c),
        ensures
            a.same_routes(c),
    {
        assert forall|q: int| 0 <= q < a.arena@.len() implies {
            &&& (#[trigger] a.arena@[q]).children == c.arena@[q].children
            &&& a.arena@[q].prefix_len == c.arena@[q].prefix_len
            &&& a.arena@[q].leaf_mask == c.arena@[q].leaf_mask
            &&& a.arena@[q].terminal == c.arena@[q].terminal
            &&& c.arena@[q].terminal ==> a.arena@[q].leaf == c.arena@[q].leaf
        } by {
            assert(b.arena@[q].children == c.arena@[q].children);
        }
    }

    /// Tries that differ only in non-terminal reference keys descend alike.
    proof fn lemma_same_routes_descend(a: Self, b: Self, node: int, key: Seq<u8>)
        requires
            a.same_routes(b),
        ensures
            a.descend(node, key) == b.descend(node, key),
        decreases (if a.prefix_of(node) >= 2 * key.len() { 0 } else { 2 * key.len() - a.prefix_of(node) }),
    {
        if 0 <= node < a.arena@.len() {
            assert(a.arena@[node].children == b.arena@[node].children);
            let p = a.prefix_of(node);
            if p < 2 * key.len() {
                let nib = nibble_at(key, p as int) as int;
                lemma_nibble_lt_16(key, p as int);
                let c = a.arena@[node].children[nib].raw() as int;
                if 0 <= c < a.arena@.len() && a.prefix_of(c) > p {
                    assert(a.arena@[c].children == b.arena@[c].children);
                    Self::lemma_same_routes_descend(a, b, c, key);
                }
            }
        }
    }

    /// `t` keeps the prefix lengths and internal edges of every node of `o` but `x`.
    pub open spec fn routes_kept_except(o: Self, t: Self, x: int) -> bool {
        &&& t.arena@.len() >= o.arena@.len()
        &&& forall|q: int| 0 <= q < o.arena@.len() && q != x ==> #[trigger] t.prefix_of(q) == o.prefix_of(q)
        &&& forall|q: int, n: int| 0 <= q < o.arena@.len() && q != x && 0 <= n < 16 ==>
            (#[trigger] t.is_internal_edge(q, n) <==> o.is_internal_edge(q, n))
        &&& forall|q: int, n: int| 0 <= q < o.arena@.len() && q != x && 0 <= n < 16 && #[trigger] o.is_internal_edge(q, n) ==>
            t.child_of(q, n) == o.child_of(q, n)
    }

    /// A descent that reaches `x` still reaches it when only `x` changes, as long
    /// as `x` keeps a prefix length above those of its parents.
    proof fn lemma_reaches_kept(o: Self, t: Self, node: int, key: Seq<u8>, x: int)
        requires
            o.reaches(node, key, x),
            Self::routes_kept_except(o, t, x),
            0 <= x < o.arena@.len(),
            forall|q: int, n: int| 0 <= q < o.arena@.len() && 0 <= n < 16 && #[trigger] o.is_internal_edge(q, n)
                && o.child_of(q, n) == x ==> o.prefix_of(q) < t.prefix_of(x),
        ensures
            t.reaches(node, key, x),
        decreases (if o.prefix_of(node) >= 2 * key.len() { 0 } else { 2 * key.len() - o.prefix_of(node) }),
    {
        if node != x {
            let p = o.prefix_of(node);
            let nib = nibble_at(key, p as int) as int;
            lemma_nibble_lt_16(key, p as int);
            let c = o.child_of(node, nib);
            assert(t.prefix_of(node) == p);
            assert(t.is_internal_edge(node, nib));
            assert(t.child_of(node, nib) == c);
            if c != x {
                assert(t.prefix_of(c) == o.prefix_of(c));
            }
            Self::lemma_reaches_kept(o, t, c, key, x);
        }
    }

    /// A descent that reaches `target` still does after changes that keep
    /// every prefix length and internal edge.
    proof fn lemma_reaches_kept_all(o: Self, t: Self, node: int, key: Seq<u8>, target: int)
        requires
            o.reaches(node, key, target),
            Self::routes_kept_except(o, t, -1),
        ensures
            t.reaches(node, key, target),
        decreases (if o.prefix_of(node) >= 2 * key.len() { 0 } else { 2 * key.len() - o.prefix_of(node) }),
    {
        assert(t.prefix_of(node) == o.prefix_of(node));
        if node != target && o.prefix_of(node) < 2 * key.len() {
            let p = o.prefix_of(node);
            let nib = nibble_at(key, p as int) as int;
            lemma_nibble_lt_16(key, p as int);
            let c = o.child_of(node, nib);
            assert(t.is_internal_edge(node, nib));
            assert(t.child_of(node, nib) == c);
            assert(t.prefix_of(c) == o.prefix_of(c));
            Self::lemma_reaches_kept_all(o, t, c, key, target);
        }
    }

    /// When only node `x` at the end of a descent changes, keeping its place
    /// below its parents, and the key's descent from `x` now yields slot `p`,
    /// the descent from the root yields `p` too.
    proof fn lemma_attach(o: Self, t: Self, key: Seq<u8>, x: int, p: int)
        requires
            0 <= x < o.arena@.len(),
            o.reaches(0, key, x),
            Self::routes_kept_except(o, t, x),
            forall|q: int, n: int| 0 <= q < o.arena@.len() && 0 <= n < 16 && #[trigger] o.is_internal_edge(q, n)
                && o.child_of(q, n) == x ==> o.prefix_of(q) < t.prefix_of(x),
            t.descend(x, key) == Some(p),
        ensures
            t.descend(0, key) == Some(p),
    {
        Self::lemma_reaches_kept(o, t, 0, key, x);
        t.lemma_reaches_descend(0, key, x);
    }

    /// Tries that differ only in non-terminal reference keys agree on where a
    /// key's descent ends.
    proof fn lemma_same_routes_found(a: Self, b: Self, key: Seq<u8>)
        requires
            a.same_routes(b),
        ensures
            a.descend(0, key) == b.descend(0, key),
    {
        Self::lemma_same_routes_descend(a, b, 0, key);
    }

    /// The bytes of the key in slot `key_index`, or `None` for a gap.
    fn key_slice(&self, key_index: PTR) -> (r: Option<&[u8]>)
        requires
            self.structure_ok(),
        ensures
            r matches Some(s) ==> self.slot_key(key_index.ival() as int) == Some(s@),
            r is None ==> self.slot_key(key_index.ival() as int) is None,
    {
        let ki = key_index.as_usize();
        if ki >= self.index.len() {
            return None;
        }
        match &self.index[ki] {
            Some(slot) => {
                let off = slot.0;
                let len = slot.1.as_usize();
                proof {
                    assert(self.slot_in_bounds(ki as int));
                }
                let blen = self.buf.len();
                Some(vstd::slice::slice_subrange(self.buf.as_slice(), off, off + len))
            },
            None => None,
        }
    }

    /// An empty trie: no nodes, the dummy byte and the dummy gap slot.
    pub fn new() -> (r: Self)
        requires
            PTR::imax() <= usize::MAX,
            LEN::imax() <= usize::MAX,
        ensures
            r.structure_ok(),
            r.arena@.len() == 0,
            r.index@.len() == 1,
            r.n_keys == 0,
    {
        let mut buf: Vec<u8> = Vec::new();
        buf.push(0);
        let mut index: Vec<Option<Slot<LEN, T>>> = Vec::new();
        index.push(None);
        let r = NibbleTrie { arena: Vec::new(), buf, index, n_keys: 0, _key: PhantomData };
        proof {
            PTR::lemma_imax();
            assert(count_some(r.index@.drop_last()) == 0);
            assert(count_some(r.index@) == 0);
        }
        r
    }

    /// The number of keys.
    pub fn len(&self) -> (r: usize)
        requires
            self.wf(),
        ensures
            r == count_some(self.index@),
    {
        self.n_keys
    }

    /// Whether the trie holds no key.
    pub fn is_empty(&self) -> (r: bool)
        requires
            self.wf(),
        ensures
            r == (count_some(self.index@) == 0),
    {
        self.n_keys == 0
    }

    /// The key index of `key`, found by descending along its nibbles and
    /// comparing the stored key at the end.
    pub fn get_index(&self, key: &[u8]) -> (r: Option<usize>)
        requires
            self.wf(),
            key@.len() * 2 <= usize::MAX,
        ensures
            r matches Some(i) ==> self.lookup(key@) == Some(i as int),
            r is None ==> self.lookup(key@) is None,
            r matches Some(i) ==> self.slot_key(i as int) == Some(key@),
    {
        if self.arena.len() == 0 {
            return None;
        }
        let mut phys: usize = 0;
        let max_nib = key.len() * 2;
        loop
            invariant
                self.structure_ok(),
                self.arena@.len() > 0,
                max_nib == key@.len() * 2,
                phys < self.arena@.len(),
                self.descend(0, key@) == self.descend(phys as int, key@),
            decreases (if self.prefix_of(phys as int) >= 2 * key@.len() {
                0
            } else {
                2 * key@.len() - self.prefix_of(phys as int)
            }),
        {
            let node = &self.arena[phys];
            let prefix_len = node.prefix_len.as_usize();
            if prefix_len >= max_nib {
                if node.is_terminal() {
                    let ki = node.leaf.get();
                    match self.key_slice(ki) {
                        Some(key_in_buf) => {
                            if key.len() == key_in_buf.len() && simd_eq(key_in_buf, key) {
                                return Some(ki.as_usize());
                            }
                        },
                        None => {},
                    }
                }
                return None;
            }
            let nib = key_nibble_at(key, prefix_len) as usize;
            if !node.is_occupied(nib) {
                return None;
            }
            if node.is_leaf(nib) {
                let key_index = node.children[nib].get();
                return match self.key_slice(key_index) {
                    Some(s) => if simd_eq(s, key) {
                        Some(key_index.as_usize())
                    } else {
                        None
                    },
                    None => None,
                };
            }
            proof {
                assert(self.is_internal_edge(phys as int, nib as int));
            }
            phys = node.children[nib].get().as_usize();
        }
    }

    /// The key index of a key known to be stored: the descent's candidate,
    /// taken without comparing the stored key.
    pub fn get_unchecked(&self, key: &[u8]) -> (r: Option<usize>)
        requires
            self.wf(),
            key@.len() * 2 <= usize::MAX,
            self.lookup(key@) is Some,
        ensures
            r matches Some(i) && self.lookup(key@) == Some(i as int),
    {
        let mut phys: usize = 0;
        let max_nib = key.len() * 2;
        loop
            invariant
                self.structure_ok(),
                self.arena@.len() > 0,
                max_nib == key@.len() * 2,
                phys < self.arena@.len(),
                self.descend(0, key@) == self.descend(phys as int, key@),
                self.lookup(key@) is Some,
            decreases (if self.prefix_of(phys as int) >= 2 * key@.len() {
                0
            } else {
                2 * key@.len() - self.prefix_of(phys as int)
            }),
        {
            let node = &self.arena[phys];
            let prefix_len = node.prefix_len.as_usize();
            if prefix_len >= max_nib {
                return Some(node.leaf.get().as_usize());
            }
            let nib = key_nibble_at(key, prefix_len) as usize;
            if node.is_leaf(nib) {
                return Some(node.children[nib].get().as_usize());
            }
            phys = node.children[nib].get().as_usize();
        }
    }

    /// The value stored under `key`.
    pub fn get(&self, key: &[u8]) -> (r: Option<&T>)
        requires
            self.wf(),
            key@.len() * 2 <= usize::MAX,
        ensures
            r matches Some(v) ==> self.lookup(key@) matches Some(i) && self.slot_value(i) == Some(*v),
            r is None ==> self.lookup(key@) is None,
    {
        match self.get_index(key) {
            Some(idx) => match &self.index[idx] {
                Some(slot) => Some(&slot.2),
                None => None,
            },
            None => None,
        }
    }

    /// The value stored under `key` (same as [`Self::get`]).
    pub fn get_value(&self, key: &[u8]) -> (r: Option<&T>)
        requires
            self.wf(),
            key@.len() * 2 <= usize::MAX,
        ensures
            r matches Some(v) ==> self.lookup(key@) matches Some(i) && self.slot_value(i) == Some(*v),
            r is None ==> self.lookup(key@) is None,
    {
        self.get(key)
    }
}

/// `a` sorts strictly before `b` in lexicographic byte order.
pub open spec fn lex_lt(a: Seq<u8>, b: Seq<u8>) -> bool {
    ||| exists|k: int|
        0 <= k < a.len() && k < b.len() && a[k] < b[k] && (forall|j: int|
            0 <= j < k ==> a[j] == b[j])
    ||| a.len() < b.len() && (forall|j: int| 0 <= j < a.len() ==> a[j] == b[j])
}

/// Whether `a >= b` in lexicographic byte order.
pub fn bytes_ge(a: &[u8], b: &[u8]) -> (r: bool)
    ensures
        r == !lex_lt(a@, b@),
{
    let n = if a.len() < b.len() { a.len() } else { b.len() };
    let mut i: usize = 0;
    while i < n
        invariant
            n == (if a@.len() < b@.len() { a@.len() } else { b@.len() }),
            i <= n,
            forall|j: int| 0 <= j < i ==> a@[j] == b@[j],
        decreases n - i,
    {
        if a[i] != b[i] {
            proof {
                if a@[i as int] < b@[i as int] {
                    assert(lex_lt(a@, b@));
                } else {
                    assert forall|k: int|
                        0 <= k < a@.len() && k < b@.len() && a@[k] < b@[k] implies !(forall|j: int|
                        0 <= j < k ==> a@[j] == b@[j]) by {
                        if k < i {
                        } else if k == i {
                        } else {
                            assert(a@[i as int] != b@[i as int]);
                        }
                    }
                }
            }
            return a[i] > b[i];
        }
        i += 1;
    }
    proof {
        assert forall|k: int|
            0 <= k < a@.len() && k < b@.len() && a@[k] < b@[k] implies !(forall|j: int|
            0 <= j < k ==> a@[j] == b@[j]) by {
            assert(k < i);
        }
    }
    a.len() >= b.len()
}

/// Sentinel nibble meaning "positioned at the terminal key of this node".
pub const TERMINAL_NIB: usize = 16;

impl<K: ByteKey, T, PTR: TrieIndex, LEN: TrieIndex> NibbleTrie<K, T, PTR, LEN> {
    /// A walker frame `(node, occupancy mask, nibble)` names an arena node, carries
    /// that node's occupancy mask, and a nibble that is a child slot, the terminal
    /// sentinel or the before-first sentinel.
    pub open spec fn frame_ok(self, phys: int, mask: u16, nib: usize) -> bool {
        &&& 0 <= phys < self.arena@.len()
        &&& forall|i: int| 0 <= i < 16 ==> (bit16(mask, i) <==> (#[trigger] self.arena@[phys].children[i]).raw() != 0)
        &&& (nib < 16 || nib == TERMINAL_NIB || nib == usize::MAX)
    }

    /// The key index a frame is positioned on, if any.
    pub open spec fn frame_index(self, phys: int, nib: usize) -> Option<int> {
        if nib == usize::MAX {
            None
        } else if nib == TERMINAL_NIB {
            Some(self.arena@[phys].leaf.raw() as int)
        } else if nib < 16 && bit16(self.arena@[phys].leaf_mask, nib as int)
            && self.arena@[phys].children[nib as int].raw() != 0 {
            Some(self.arena@[phys].children[nib as int].raw() as int)
        } else {
            None
        }
    }
}

/// The lowest occupied slot of node `n` at or after `from`, if any.
pub open spec fn first_occupied<PTR: TrieIndex, LEN: TrieIndex>(n: Node<PTR, LEN>, from: int) -> Option<int>
    decreases 16 - from,
{
    if from >= 16 || from < 0 {
        None
    } else if n.children[from].raw() != 0 {
        Some(from)
    } else {
        first_occupied(n, from + 1)
    }
}

/// The lowest occupied slot at or after `from` is `m` when `m` is occupied and
/// the slots between are empty.
proof fn lemma_first_occupied<PTR: TrieIndex, LEN: TrieIndex>(n: Node<PTR, LEN>, from: int, m: Option<int>)
    requires
        0 <= from,
        m matches Some(k) ==> from <= k < 16 && n.children[k].raw() != 0
            && forall|j: int| from <= j < k ==> #[trigger] n.children[j].raw() == 0,
        m is None ==> forall|j: int| from <= j < 16 ==> #[trigger] n.children[j].raw() == 0,
    ensures
        first_occupied(n, from) == m,
    decreases 16 - from,
{
    if from < 16 {
        if m != Some(from) {
            assert(n.children[from].raw() == 0);
            lemma_first_occupied(n, from + 1, m);
        }
    }
}

/// The arena after the leftmost reference `v` is carried up the first `i`
/// entries of `path`, deepest first: each non-terminal ancestor whose lowest
/// occupied slot is the one descended through takes `v`, up to the first one
/// that does not.
pub open spec fn leftmost_walk<PTR: TrieIndex, LEN: TrieIndex>(
    arena: Seq<Node<PTR, LEN>>,
    path: Seq<(usize, usize)>,
    i: int,
    v: PTR,
) -> Seq<Node<PTR, LEN>>
    decreases i,
{
    if i <= 0 {
        arena
    } else {
        let (parent, nib) = path[i - 1];
        let n = arena[parent as int];
        if n.terminal || first_occupied(n, 0) != Some(nib as int) {
            arena
        } else {
            leftmost_walk(arena.update(parent as int, Node { leaf: OptNz(v), ..n }), path, i - 1, v)
        }
    }
}

/// The walk order of the positions within one node: its terminal key, the
/// before-first mark, then the child slots in order.
pub open spec fn walk_rank(w: usize) -> int {
    if w == TERMINAL_NIB {
        1
    } else if w == usize::MAX {
        2
    } else {
        w + 3
    }
}

/// Frame stacks `a` and `b` share their first `k` frames and, at frame `k`,
/// the same node, where `b` stands at a later position than `a`.
pub open spec fn walk_moved_at<A>(a: Seq<(A, u16, usize)>, b: Seq<(A, u16, usize)>, k: int) -> bool {
    &&& 0 <= k < a.len()
    &&& k < b.len()
    &&& a.subrange(0, k) == b.subrange(0, k)
    &&& a[k].0 == b[k].0
    &&& walk_rank(a[k].2) < walk_rank(b[k].2)
}

/// The frame stack `b` stands later in the walk than `a`.
pub open spec fn walk_before<A>(a: Seq<(A, u16, usize)>, b: Seq<(A, u16, usize)>) -> bool {
    exists|k: int| #[trigger] walk_moved_at(a, b, k)
}

/// Replacing frame `k` of `a` by a later position of the same node, on top of
/// the same frames below it, moves later in the walk.
pub proof fn lemma_walk_moved<A>(a: Seq<(A, u16, usize)>, b: Seq<(A, u16, usize)>, k: int, f: (A, u16, usize))
    requires
        0 <= k < a.len(),
        k < b.len(),
        b.subrange(0, k + 1) == a.subrange(0, k).push(f),
        f.0 == a[k].0,
        walk_rank(a[k].2) < walk_rank(f.2),
    ensures
        walk_before(a, b),
{
    assert(b.subrange(0, k) =~= b.subrange(0, k + 1).subrange(0, k));
    assert(a.subrange(0, k).push(f).subrange(0, k) =~= a.subrange(0, k));
    assert(b[k] == b.subrange(0, k + 1)[k]);
    assert(walk_moved_at(a, b, k));
}

impl<K: ByteKey, T, PTR: TrieIndex, LEN: TrieIndex> NibbleTrie<K, T, PTR, LEN> {
    /// Node `phys` holds an entry: a terminal key or a child.
    pub open spec fn node_has_entry(self, phys: int) -> bool {
        self.arena@[phys].terminal || exists|j: int| 0 <= j < 16 && #[trigger] self.arena@[phys].children[j].raw() != 0
    }

    /// The frame stands on its node's first entry: the terminal key, else the
    /// lowest occupied slot.
    pub open spec fn first_entry_frame(self, f: (PTR, u16, usize)) -> bool {
        let phys = f.0.ival() as int;
        if self.arena@[phys].terminal {
            f.2 == TERMINAL_NIB
        } else {
            &&& f.2 < 16
            &&& self.arena@[phys].children[f.2 as int].raw() != 0
            &&& forall|j: int| 0 <= j < f.2 ==> #[trigger] self.arena@[phys].children[j].raw() == 0
        }
    }
}

/// Internal tree-walking cursor over a [`NibbleTrie`]: a stack of
/// `(arena index, occupancy mask, nibble)` frames, used to position the public
/// [`Cursor`] by `seek` and to locate the keys shifted by an insertion.
pub struct NibbleIter<'a, K: ByteKey, T, PTR: TrieIndex, LEN: TrieIndex> {
    pub trie: &'a NibbleTrie<K, T, PTR, LEN>,
    pub stack: Vec<(PTR, u16, usize)>,
}

impl<'a, K: ByteKey, T, PTR: TrieIndex, LEN: TrieIndex> NibbleIter<'a, K, T, PTR, LEN> {
    /// The trie is well formed and every frame is valid.
    pub open spec fn wf(self) -> bool {
        &&& self.trie.structure_ok()
        &&& forall|i: int|
            0 <= i < self.stack@.len() ==> self.trie.frame_ok(
                (#[trigger] self.stack@[i]).0.ival() as int,
                self.stack@[i].1,
                self.stack@[i].2,
            )
    }

    /// No frame carries the before-first sentinel.
    pub open spec fn no_sentinel(self) -> bool {
        forall|i: int| 0 <= i < self.stack@.len() ==> (#[trigger] self.stack@[i]).2 <= TERMINAL_NIB
    }

    /// The key index the walker is positioned on.
    pub open spec fn position(self) -> Option<int> {
        if self.stack@.len() == 0 {
            None
        } else {
            let f = self.stack@.last();
            self.trie.frame_index(f.0.ival() as int, f.2)
        }
    }

    fn new(trie: &'a NibbleTrie<K, T, PTR, LEN>) -> (r: Self)
        requires
            trie.structure_ok(),
        ensures
            r.wf(),
            r.trie == trie,
    {
        if trie.arena.len() == 0 {
            return NibbleIter { trie, stack: Vec::new() };
        }
        let mask = trie.arena[0].children_mask();
        let nib = if trie.arena[0].is_terminal() { TERMINAL_NIB } else { usize::MAX };
        let mut stack = Vec::new();
        stack.push((PTR::zero(), mask, nib));
        NibbleIter { trie, stack }
    }

    /// Walk down the lowest-nibble spine of the subtree at `phys`, pushing a frame
    /// per node, until a terminal key or a leaf child is current.
    fn descend_first(&mut self, phys: usize)
        requires
            old(self).wf(),
            phys < old(self).trie.arena@.len(),
        ensures
            final(self).wf(),
            final(self).trie == old(self).trie,
            final(self).stack@.len() >= old(self).stack@.len(),
            final(self).stack@.subrange(0, old(self).stack@.len() as int) == old(self).stack@,
            forall|i: int| old(self).stack@.len() <= i < final(self).stack@.len() ==> (#[trigger] final(self).stack@[i]).2 <= TERMINAL_NIB,
            old(self).trie.node_has_entry(phys as int) ==> final(self).stack@.len() > old(self).stack@.len()
                && final(self).stack@[old(self).stack@.len() as int].0.ival() == phys,
            forall|i: int| old(self).stack@.len() <= i < final(self).stack@.len()
                ==> old(self).trie.first_entry_frame(#[trigger] final(self).stack@[i]),
            forall|i: int| old(self).stack@.len() < i < final(self).stack@.len() ==> (#[trigger] final(self).stack@[i]).0.ival()
                == old(self).trie.child_of(final(self).stack@[i - 1].0.ival() as int, final(self).stack@[i - 1].2 as int),
    {
        let ghost phys0 = phys;
        let mut cur = phys;
        let ghost old_stack = self.stack@;
        loop
            invariant
                self.wf(),
                self.trie == old(self).trie,
                cur < self.trie.arena@.len(),
                self.stack@.len() >= old_stack.len(),
                self.stack@.subrange(0, old_stack.len() as int) == old_stack,
                forall|i: int| old_stack.len() <= i < self.stack@.len() ==> (#[trigger] self.stack@[i]).2 <= TERMINAL_NIB,
                old_stack == old(self).stack@,
                phys0 == phys,
                self.stack@.len() == old_stack.len() ==> cur == phys0,
                self.stack@.len() > old_stack.len() ==> self.stack@[old_stack.len() as int].0.ival() == phys0
                    && cur == self.trie.child_of(self.stack@.last().0.ival() as int, self.stack@.last().2 as int),
                forall|i: int| old_stack.len() <= i < self.stack@.len()
                    ==> old(self).trie.first_entry_frame(#[trigger] self.stack@[i]),
                forall|i: int| old_stack.len() < i < self.stack@.len() ==> (#[trigger] self.stack@[i]).0.ival()
                    == old(self).trie.child_of(self.stack@[i - 1].0.ival() as int, self.stack@[i - 1].2 as int),
            decreases LEN::imax() - self.trie.prefix_of(cur as int),
        {
            let ghost before = self.stack@;
            let node = &self.trie.arena[cur];
            proof {
                node.prefix_len.lemma_ival_bounds();
                PTR::lemma_imax();
            }
            let mask = node.children_mask();
            if node.is_terminal() {
                self.stack.push((PTR::from_usize(cur), mask, TERMINAL_NIB));
                proof {
                    assert(self.stack@.subrange(0, old_stack.len() as int) =~= old_stack);
                    assert(self.stack@[before.len() as int].2 == TERMINAL_NIB && self.stack@[before.len() as int].0.ival() == cur);
                }
                return;
            }
            if mask == 0 {
                proof {
                    lemma_bit16_zero_all();
                    if self.stack@.len() == old_stack.len() {
                        assert forall|j: int| 0 <= j < 16 implies #[trigger] self.trie.arena@[phys0 as int].children[j].raw() == 0 by {
                            assert(!bit16(mask, j));
                        }
                    }
                }
                return;
            }
            let nib = mask.trailing_zeros() as usize;
            proof {
                lemma_tz16(mask);
            }
            self.stack.push((PTR::from_usize(cur), mask, nib));
            proof {
                assert(self.stack@.subrange(0, old_stack.len() as int) =~= old_stack);
                assert(self.stack@[before.len() as int].2 == nib && self.stack@[before.len() as int].0.ival() == cur);
                assert forall|j: int| 0 <= j < nib implies #[trigger] self.trie.arena@[cur as int].children[j].raw() == 0 by {
                    assert(!bit16(mask, j));
                }
            }
            if node.is_leaf(nib) {
                return;
            }
            proof {
                assert(self.trie.is_internal_edge(cur as int, nib as int));
            }
            cur = node.children[nib].get().as_usize();
            proof {
                self.trie.arena@[cur as int].prefix_len.lemma_ival_bounds();
            }
        }
    }

    /// Push the next occupied child at or after `start_nib` of node `encoded`,
    /// descending into it when internal. `false` if there is none.
    fn push_next_child(&mut self, encoded: PTR, mask: u16, start_nib: usize) -> (r: bool)
        requires
            old(self).wf(),
            old(self).trie.frame_ok(encoded.ival() as int, mask, 0),
        ensures
            final(self).wf(),
            final(self).trie == old(self).trie,
            !r ==> final(self).stack@ == old(self).stack@,
            r ==> final(self).stack@.len() > old(self).stack@.len(),
            final(self).stack@.len() >= old(self).stack@.len(),
            final(self).stack@.subrange(0, old(self).stack@.len() as int) == old(self).stack@,
            forall|i: int| old(self).stack@.len() <= i < final(self).stack@.len() ==> (#[trigger] final(self).stack@[i]).2 <= TERMINAL_NIB,
            r <==> exists|j: int| start_nib <= j < 16 && #[trigger] bit16(mask, j),
            r ==> final(self).stack@[old(self).stack@.len() as int].0 == encoded
                && final(self).stack@[old(self).stack@.len() as int].1 == mask
                && start_nib <= final(self).stack@[old(self).stack@.len() as int].2 < 16
                && bit16(mask, final(self).stack@[old(self).stack@.len() as int].2 as int)
                && forall|j: int| start_nib <= j < final(self).stack@[old(self).stack@.len() as int].2
                    ==> !#[trigger] bit16(mask, j),
    {
        let shifted: u16 = if start_nib >= 16 { 0 } else { mask >> (start_nib as u16) };
        if shifted == 0 {
            proof {
                assert forall|j: int| start_nib <= j < 16 implies !#[trigger] bit16(mask, j) by {
                    lemma_shifted_zero16(mask, start_nib as u16, j as u16);
                }
            }
            return false;
        }
        let t = shifted.trailing_zeros();
        proof {
            lemma_tz16(shifted);
            lemma_shifted_bit16(mask, start_nib as u16, t as u16);
            assert forall|j: int| start_nib <= j < start_nib + t implies !#[trigger] bit16(mask, j) by {
                assert(!bit16(shifted, j - start_nib));
                lemma_shifted_clear16(mask, start_nib as u16, (j - start_nib) as u16);
            }
        }
        let nib = start_nib + t as usize;
        let phys = encoded.as_usize();
        self.stack.push((encoded, mask, nib));
        let ghost mid = self.stack@;
        if !self.trie.arena[phys].is_leaf(nib) {
            proof {
                assert(self.trie.is_internal_edge(phys as int, nib as int));
            }
            let addr = self.trie.arena[phys].children[nib].get().as_usize();
            self.descend_first(addr);
            proof {
                assert(self.stack@[mid.len() - 1] == self.stack@.subrange(0, mid.len() as int)[mid.len() - 1]);
                assert(self.stack@[old(self).stack@.len() as int] == mid[old(self).stack@.len() as int]);
                assert(mid.subrange(0, old(self).stack@.len() as int) =~= old(self).stack@);
                assert(self.stack@.subrange(0, old(self).stack@.len() as int) =~= mid.subrange(0, old(self).stack@.len() as int));
            }
        } else {
            proof {
                assert(self.stack@.subrange(0, old(self).stack@.len() as int) =~= old(self).stack@);
            }
        }
        true
    }

    /// The key and value the walker is positioned on.
    pub fn current(&self) -> (r: Option<(&[u8], &T)>)
        requires
            self.wf(),
        ensures
            r matches Some(kv) ==> self.position() matches Some(i) && self.trie.slot_key(i) == Some(kv.0@)
                && self.trie.slot_value(i) == Some(*kv.1),
            r is None ==> !(self.position() matches Some(i) && self.trie.slot_key(i) is Some),
    {
        let ki = match self.current_index() {
            Some(ki) => ki,
            None => return None,
        };
        if ki >= self.trie.index.len() {
            return None;
        }
        match &self.trie.index[ki] {
            Some(slot) => {
                let off = slot.0;
                let len = slot.1.as_usize();
                proof {
                    assert(self.trie.slot_in_bounds(ki as int));
                }
                let blen = self.trie.buf.len();
                let key = vstd::slice::slice_subrange(self.trie.buf.as_slice(), off, off + len);
                Some((key, &slot.2))
            },
            None => None,
        }
    }

    /// The key index the walker is positioned on.
    pub fn current_index(&self) -> (r: Option<usize>)
        requires
            self.wf(),
        ensures
            r matches Some(i) ==> self.position() == Some(i as int),
            r is None ==> self.position() is None,
    {
        if self.stack.len() == 0 {
            return None;
        }
        let (encoded, _, nib) = self.stack[self.stack.len() - 1];
        if nib == usize::MAX {
            return None;
        }
        proof {
            assert(self.trie.frame_ok(encoded.ival() as int, self.stack@.last().1, nib));
        }
        let node = &self.trie.arena[encoded.as_usize()];
        if nib == TERMINAL_NIB {
            Some(node.leaf.get().as_usize())
        } else {
            match node.leaf_key_index(nib) {
                Some(ki) => Some(ki.as_usize()),
                None => None,
            }
        }
    }

    /// Step to the next key in walk order. `false` when the walk is exhausted.
    fn advance_next(&mut self) -> (r: bool)
        requires
            old(self).wf(),
        ensures
            final(self).wf(),
            final(self).trie == old(self).trie,
            r ==> walk_before(old(self).stack@, final(self).stack@),
            !r ==> final(self).stack@.len() == 0,
    {
        loop
            invariant
                self.wf(),
                self.trie == old(self).trie,
                self.stack@.len() <= old(self).stack@.len(),
                self.stack@ == old(self).stack@.subrange(0, self.stack@.len() as int),
            decreases self.stack@.len(),
        {
            let ghost before = self.stack@;
            let (encoded, mask, nib) = match self.stack.pop() {
                Some(v) => v,
                None => return false,
            };
            let ghost popped = self.stack@;
            let ghost k = popped.len() as int;
            proof {
                assert(before[k] == (encoded, mask, nib));
                assert(old(self).stack@[k] == (encoded, mask, nib));
                assert(self.stack@ =~= old(self).stack@.subrange(0, k));
            }
            if nib == TERMINAL_NIB {
                if self.push_next_child(encoded, mask, 0) {
                    proof {
                        let f = self.stack@[k];
                        assert(self.stack@.subrange(0, k + 1) =~= popped.push(f));
                        lemma_walk_moved(old(self).stack@, self.stack@, k, f);
                    }
                    return true;
                }
                continue;
            }
            let search_start = if nib == usize::MAX { 0 } else { nib + 1 };
            if self.push_next_child(encoded, mask, search_start) {
                proof {
                    let f = self.stack@[k];
                    assert(self.stack@.subrange(0, k + 1) =~= popped.push(f));
                    lemma_walk_moved(old(self).stack@, self.stack@, k, f);
                }
                return true;
            }
        }
    }

    /// Step to the next key and return it.
    pub fn next(&mut self) -> (r: Option<(&[u8], &T)>)
        requires
            old(self).wf(),
        ensures
            final(self).wf(),
            final(self).trie == old(self).trie,
            r matches Some(kv) ==> final(self).position() matches Some(i) && final(self).trie.slot_key(i) == Some(kv.0@)
                && final(self).trie.slot_value(i) == Some(*kv.1),
            r is None ==> final(self).stack@.len() == 0
                || !(final(self).position() matches Some(i) && final(self).trie.slot_key(i) is Some),
            final(self).stack@.len() == 0 || walk_before(old(self).stack@, final(self).stack@),
    {
        if self.advance_next() {
            self.current()
        } else {
            None
        }
    }

    /// Pop frames until a sibling after the popped one can be pushed.
    fn backtrack_to_next(&mut self) -> (r: Option<(&[u8], &T)>)
        requires
            old(self).wf(),
            old(self).no_sentinel(),
        ensures
            final(self).wf(),
            final(self).trie == old(self).trie,
            final(self).no_sentinel(),
            r matches Some(kv) ==> final(self).position() matches Some(i) && final(self).trie.slot_key(i) == Some(kv.0@)
                && final(self).trie.slot_value(i) == Some(*kv.1),
            r is None ==> final(self).stack@.len() == 0
                || !(final(self).position() matches Some(i) && final(self).trie.slot_key(i) is Some),
    {
        loop
            invariant
                self.wf(),
                self.no_sentinel(),
                self.trie == old(self).trie,
            decreases self.stack@.len(),
        {
            let (parent, parent_mask, child_nib) = match self.stack.pop() {
                Some(v) => v,
                None => return None,
            };
            let ghost before = self.stack@;
            if self.push_next_child(parent, parent_mask, child_nib + 1) {
                proof {
                    assert forall|i: int| 0 <= i < self.stack@.len() implies (#[trigger] self.stack@[i]).2 <= TERMINAL_NIB by {
                        if i < before.len() {
                            assert(self.stack@[i] == self.stack@.subrange(0, before.len() as int)[i]);
                        }
                    }
                }
                return self.current();
            }
        }
    }

    /// Land on the first key `>= key` in walk order and return it.
    pub fn seek(&mut self, key: &[u8]) -> (r: Option<(&[u8], &T)>)
        requires
            old(self).wf(),
            key@.len() * 2 <= usize::MAX,
        ensures
            final(self).wf(),
            final(self).trie == old(self).trie,
            r matches Some(kv) ==> final(self).position() matches Some(i) && final(self).trie.slot_key(i) == Some(kv.0@)
                && final(self).trie.slot_value(i) == Some(*kv.1),
            r is None ==> final(self).stack@.len() == 0
                || !(final(self).position() matches Some(i) && final(self).trie.slot_key(i) is Some),
            old(self).trie.lookup(key@) matches Some(i) ==> r is Some && final(self).position() == Some(i),
    {
        self.stack.clear();
        if self.trie.arena.len() == 0 {
            return None;
        }
        let mut phys: usize = 0;
        let max_nib = key.len() * 2;
        loop
            invariant
                self.wf(),
                self.no_sentinel(),
                self.trie == old(self).trie,
                phys < self.trie.arena@.len(),
                max_nib == key@.len() * 2,
                self.trie.lookup(key@) is Some ==> self.trie.descend(0, key@) == self.trie.descend(phys as int, key@),
            decreases LEN::imax() - self.trie.prefix_of(phys as int),
        {
            let node = &self.trie.arena[phys];
            proof {
                node.prefix_len.lemma_ival_bounds();
                PTR::lemma_imax();
            }
            let mask = node.children_mask();
            let prefix_len = node.prefix_len.as_usize();
            if node.is_terminal() && prefix_len >= max_nib {
                match self.trie.key_slice(node.leaf.get()) {
                    Some(node_key) => {
                        if bytes_ge(node_key, key) {
                            self.stack.push((PTR::from_usize(phys), mask, TERMINAL_NIB));
                            return self.current();
                        }
                    },
                    None => {},
                }
            }
            if prefix_len >= max_nib {
                if self.push_next_child(PTR::from_usize(phys), mask, 0) {
                    return self.current();
                }
                return self.backtrack_to_next();
            }
            let nib = key_nibble_at(key, prefix_len) as usize;
            if !node.is_occupied(nib) {
                if self.push_next_child(PTR::from_usize(phys), mask, nib + 1) {
                    return self.current();
                }
                return self.backtrack_to_next();
            }
            self.stack.push((PTR::from_usize(phys), mask, nib));
            if node.is_leaf(nib) {
                match self.trie.key_slice(node.children[nib].get()) {
                    Some(leaf_key) => {
                        if bytes_ge(leaf_key, key) {
                            return self.current();
                        }
                    },
                    None => {},
                }
                return self.next();
            }
            proof {
                assert(self.trie.is_internal_edge(phys as int, nib as int));
            }
            phys = node.children[nib].get().as_usize();
            proof {
                self.trie.arena@[phys as int].prefix_len.lemma_ival_bounds();
            }
        }
    }
}

/// The resolved insertion case, produced by a non-mutating descent before any
/// arena or index mutation.
#[derive(Clone, Copy)]
pub enum Case {
    /// The new key is a prefix of the node's reference key: `phys` becomes terminal.
    Terminal { phys: usize },
    /// The new key diverges at `phys`'s prefix length into an empty slot.
    NewLeafChild { phys: usize, nib: usize },
    /// The new key diverges from the node's reference key inside its prefix:
    /// `phys` is split by a new parent at `diverge`.
    SplitNode {
        phys: usize,
        diverge: usize,
        new_is_terminal: bool,
        new_nib: usize,
        ref_nib: usize,
        new_is_leftmost: bool,
    },
    /// The new key diverges from the leaf child at `nib` of `phys` at nibble `d`:
    /// that leaf is replaced by a split node holding both keys.
    SplitLeaf {
        phys: usize,
        nib: usize,
        d: usize,
        new_is_terminal: bool,
        existing_is_terminal: bool,
        new_nib: usize,
        exist_nib: usize,
        new_is_leftmost: bool,
    },
}

/// The node at which an insertion case attaches the new key.
pub open spec fn case_phys(case: Case) -> int {
    match case {
        Case::Terminal { phys } => phys as int,
        Case::NewLeafChild { phys, .. } => phys as int,
        Case::SplitNode { phys, .. } => phys as int,
        Case::SplitLeaf { phys, .. } => phys as int,
    }
}

impl<K: ByteKey, T, PTR: TrieIndex, LEN: TrieIndex> NibbleTrie<K, T, PTR, LEN> {
    /// Every entry of a descent path names an arena node and a nibble.
    pub open spec fn path_ok(self, path: Seq<(usize, usize)>) -> bool {
        forall|i: int| 0 <= i < path.len() ==> (#[trigger] path[i]).0 < self.arena@.len() && path[i].1 < 16
    }

    /// The structural facts `execute_case` relies on.
    pub open spec fn case_ok(self, case: Case) -> bool {
        match case {
            Case::Terminal { phys } => phys < self.arena@.len(),
            Case::NewLeafChild { phys, nib } => {
                &&& phys < self.arena@.len()
                &&& nib < 16
                &&& self.arena@[phys as int].children[nib as int].raw() == 0
            },
            Case::SplitNode { phys, diverge, new_is_terminal, new_nib, ref_nib, .. } => {
                &&& phys < self.arena@.len()
                &&& new_nib < 16
                &&& ref_nib < 16
                &&& (!new_is_terminal ==> new_nib != ref_nib)
                &&& diverge < self.prefix_of(phys as int)
                &&& forall|p: int, n: int|
                    0 <= p < self.arena@.len() && 0 <= n < 16 && #[trigger] self.is_internal_edge(p, n)
                        && self.child_of(p, n) == phys ==> self.prefix_of(p) < diverge
            },
            Case::SplitLeaf { phys, nib, d, new_nib, exist_nib, .. } => {
                &&& phys < self.arena@.len()
                &&& nib < 16
                &&& new_nib < 16
                &&& exist_nib < 16
                &&& bit16(self.arena@[phys as int].leaf_mask, nib as int)
                &&& self.arena@[phys as int].children[nib as int].raw() != 0
                &&& d > self.prefix_of(phys as int)
                &&& d <= LEN::imax()
            },
        }
    }

    /// The nibbles and flags an insertion case records agree with `key`.
    pub open spec fn case_key_ok(self, case: Case, key: Seq<u8>) -> bool {
        match case {
            Case::Terminal { phys } => self.prefix_of(phys as int) == 2 * key.len(),
            Case::NewLeafChild { phys, nib } => {
                &&& self.prefix_of(phys as int) < 2 * key.len()
                &&& nibble_at(key, self.prefix_of(phys as int) as int) == nib
            },
            Case::SplitNode { diverge, new_is_terminal, new_nib, new_is_leftmost, .. } => {
                &&& diverge <= 2 * key.len()
                &&& new_is_terminal == (diverge >= 2 * key.len())
                &&& new_is_terminal ==> new_is_leftmost
                &&& !new_is_terminal ==> nibble_at(key, diverge as int) == new_nib
            },
            Case::SplitLeaf { phys, nib, d, new_is_terminal, existing_is_terminal, new_nib, exist_nib, .. } => {
                &&& self.prefix_of(phys as int) < 2 * key.len()
                &&& nibble_at(key, self.prefix_of(phys as int) as int) == nib
                &&& new_is_terminal == (d >= 2 * key.len())
                &&& !new_is_terminal ==> nibble_at(key, d as int) == new_nib
                &&& !new_is_terminal && !existing_is_terminal ==> new_nib != exist_nib
            },
        }
    }

    /// `self` differs from `other` only in key references: the same nodes,
    /// prefix lengths, leaf masks, terminal flags, occupied slots and internal
    /// children, and the same index, buffer and count.
    pub open spec fn same_shape(self, other: Self) -> bool {
        &&& self.arena@.len() == other.arena@.len()
        &&& self.index@ == other.index@
        &&& self.buf@ == other.buf@
        &&& self.n_keys == other.n_keys
        &&& forall|p: int| 0 <= p < self.arena@.len() ==> {
            &&& (#[trigger] self.arena@[p]).prefix_len == other.arena@[p].prefix_len
            &&& self.arena@[p].leaf_mask == other.arena@[p].leaf_mask
            &&& self.arena@[p].terminal == other.arena@[p].terminal
            &&& forall|n: int| 0 <= n < 16 ==> {
                &&& ((#[trigger] self.arena@[p].children[n]).raw() == 0) == (other.arena@[p].children[n].raw() == 0)
                &&& !bit16(self.arena@[p].leaf_mask, n) ==> self.arena@[p].children[n] == other.arena@[p].children[n]
            }
        }
    }

    proof fn lemma_same_shape_wf(self, other: Self)
        requires
            other.structure_ok(),
            self.same_shape(other),
        ensures
            self.structure_ok(),
            forall|p: int, n: int|
                0 <= p < self.arena@.len() && 0 <= n < 16 ==> (#[trigger] self.is_internal_edge(p, n) <==> other.is_internal_edge(p, n)),
    {
        assert forall|p: int, n: int| 0 <= p < self.arena@.len() && 0 <= n < 16 implies (#[trigger] self.is_internal_edge(p, n) <==> other.is_internal_edge(p, n)) by {
            assert(self.arena@[p].children[n].raw() == 0 <==> other.arena@[p].children[n].raw() == 0);
        }
        assert forall|p: int, n: int|
            0 <= p < self.arena@.len() && 0 <= n < 16 && #[trigger] self.is_internal_edge(p, n) implies self.child_of(p, n) == other.child_of(p, n) by {
            assert(other.is_internal_edge(p, n));
        }
        assert forall|i: int| 0 <= i < self.index@.len() implies #[trigger] self.slot_in_bounds(i) by {
            assert(other.slot_in_bounds(i));
        }
    }
}

impl<K: ByteKey, T, PTR: TrieIndex, LEN: TrieIndex> NibbleTrie<K, T, PTR, LEN> {
    /// Set the `leaf` reference of node `phys`.
    fn set_leaf_ref(&mut self, phys: usize, v: OptNz<PTR>)
        requires
            old(self).structure_ok(),
            phys < old(self).arena@.len(),
        ensures
            final(self).structure_ok(),
            final(self).same_shape(*old(self)),
            final(self).arena@ == old(self).arena@.update(phys as int, Node { leaf: v, ..old(self).arena@[phys as int] }),
    {
        let mut node = self.arena[phys];
        node.leaf = v;
        self.arena[phys] = node;
        proof {
            self.lemma_same_shape_wf(*old(self));
        }
    }

    /// Replace the key index held by the occupied leaf slot `nib` of node `phys`.
    fn set_leaf_child_ref(&mut self, phys: usize, nib: usize, v: PTR)
        requires
            old(self).structure_ok(),
            phys < old(self).arena@.len(),
            nib < 16,
            bit16(old(self).arena@[phys as int].leaf_mask, nib as int),
            old(self).arena@[phys as int].children[nib as int].raw() != 0,
            v.ival() != 0,
        ensures
            final(self).structure_ok(),
            final(self).same_shape(*old(self)),
            final(self).arena@.len() == old(self).arena@.len(),
            forall|q: int| 0 <= q < old(self).arena@.len() && q != phys ==> #[trigger] final(self).arena@[q] == old(self).arena@[q],
            final(self).arena@[phys as int].children@ == old(self).arena@[phys as int].children@.update(nib as int, OptNz(v)),
            final(self).arena@[phys as int].prefix_len == old(self).arena@[phys as int].prefix_len,
            final(self).arena@[phys as int].leaf_mask == old(self).arena@[phys as int].leaf_mask,
            final(self).arena@[phys as int].leaf == old(self).arena@[phys as int].leaf,
            final(self).arena@[phys as int].terminal == old(self).arena@[phys as int].terminal,
            final(self).index@ == old(self).index@,
            final(self).buf@ == old(self).buf@,
            final(self).n_keys == old(self).n_keys,
    {
        let mut node = self.arena[phys];
        node.children[nib] = OptNz::from_index(v);
        self.arena[phys] = node;
        proof {
            assert forall|p: int| 0 <= p < self.arena@.len() implies {
                &&& (#[trigger] self.arena@[p]).prefix_len == old(self).arena@[p].prefix_len
                &&& self.arena@[p].leaf_mask == old(self).arena@[p].leaf_mask
                &&& self.arena@[p].terminal == old(self).arena@[p].terminal
                &&& forall|n: int| 0 <= n < 16 ==> {
                    &&& ((#[trigger] self.arena@[p].children[n]).raw() == 0) == (old(self).arena@[p].children[n].raw() == 0)
                    &&& !bit16(self.arena@[p].leaf_mask, n) ==> self.arena@[p].children[n] == old(self).arena@[p].children[n]
                }
            } by {
                if p == phys {
                    assert forall|n: int| 0 <= n < 16 implies {
                        &&& ((#[trigger] self.arena@[p].children[n]).raw() == 0) == (old(self).arena@[p].children[n].raw() == 0)
                        &&& !bit16(self.arena@[p].leaf_mask, n) ==> self.arena@[p].children[n] == old(self).arena@[p].children[n]
                    } by {
                        if n != nib {
                            assert(self.arena@[p].children[n] == old(self).arena@[p].children[n]);
                        }
                    }
                }
            }
            self.lemma_same_shape_wf(*old(self));
        }
    }

    /// Propagate `new_leftmost` up the leftmost spine along `path` (deepest
    /// first), stopping at a terminal ancestor or where the descent did not go
    /// through the ancestor's lowest occupied nibble.
    fn up_walk_leftmost(&mut self, attach_phys: usize, new_leftmost: PTR, path: &Vec<(usize, usize)>)
        requires
            old(self).structure_ok(),
            old(self).path_ok(path@),
            new_leftmost.ival() != 0,
        ensures
            final(self).structure_ok(),
            final(self).same_shape(*old(self)),
            final(self).same_routes(*old(self)),
            final(self).arena@ == leftmost_walk(old(self).arena@, path@, path@.len() as int, new_leftmost),
            final(self).index@ == old(self).index@,
            final(self).buf@ == old(self).buf@,
            final(self).n_keys == old(self).n_keys,
    {
        let _ = attach_phys;
        let mut idx = path.len();
        while idx > 0
            invariant_except_break
                leftmost_walk(old(self).arena@, path@, path@.len() as int, new_leftmost)
                    == leftmost_walk(self.arena@, path@, idx as int, new_leftmost),
            invariant
                self.structure_ok(),
                self.same_shape(*old(self)),
                self.same_routes(*old(self)),
                self.path_ok(path@),
                idx <= path@.len(),
                new_leftmost.ival() != 0,
            ensures
                self.structure_ok(),
                self.same_shape(*old(self)),
                self.same_routes(*old(self)),
                leftmost_walk(old(self).arena@, path@, path@.len() as int, new_leftmost) == self.arena@,
            decreases idx,
        {
            idx -= 1;
            let (parent_phys, nib) = path[idx];
            proof {
                assert(path@[idx as int] == (parent_phys, nib));
            }
            if self.arena[parent_phys].is_terminal() {
                proof {
                    assert(leftmost_walk(self.arena@, path@, idx + 1, new_leftmost) == self.arena@);
                }
                break;
            }
            let parent_mask = self.arena[parent_phys].children_mask();
            let lowest = parent_mask.trailing_zeros() as usize;
            proof {
                let n = self.arena@[parent_phys as int];
                if parent_mask == 0 {
                    lemma_bit16_zero_all();
                    assert forall|j: int| 0 <= j < 16 implies #[trigger] n.children[j].raw() == 0 by {
                        assert(!bit16(parent_mask, j));
                    }
                    lemma_first_occupied(n, 0, None);
                    vstd::std_specs::bits::axiom_u16_trailing_zeros(parent_mask);
                } else {
                    lemma_tz16(parent_mask);
                    assert forall|j: int| 0 <= j < lowest implies #[trigger] n.children[j].raw() == 0 by {
                        assert(!bit16(parent_mask, j));
                    }
                    lemma_first_occupied(n, 0, Some(lowest as int));
                }
            }
            if nib == lowest {
                let ghost before = *self;
                self.set_leaf_ref(parent_phys, OptNz::from_index(new_leftmost));
                proof {
                    lemma_same_shape_trans(*self, before, *old(self));
                    assert(self.same_routes(before));
                    Self::lemma_same_routes_trans(*self, before, *old(self));
                    assert(self.arena@ == before.arena@.update(parent_phys as int,
                        Node { leaf: OptNz(new_leftmost), ..before.arena@[parent_phys as int] }));
                    assert(leftmost_walk(before.arena@, path@, idx + 1, new_leftmost)
                        == leftmost_walk(self.arena@, path@, idx as int, new_leftmost));
                }
            } else {
                proof {
                    assert(leftmost_walk(self.arena@, path@, idx + 1, new_leftmost) == self.arena@);
                }
                break;
            }
        }
    }

    /// A new leaf child at `nib` that is the lowest occupied slot of a
    /// non-terminal node becomes the node's leftmost key; propagate it upward.
    fn update_leftmost_on_leaf_insert(&mut self, phys_idx: usize, nib: usize, new_index: PTR, path: &Vec<(usize, usize)>)
        requires
            old(self).structure_ok(),
            old(self).path_ok(path@),
            phys_idx < old(self).arena@.len(),
            nib < 16,
            new_index.ival() != 0,
        ensures
            final(self).structure_ok(),
            final(self).same_shape(*old(self)),
            final(self).same_routes(*old(self)),
            final(self).arena@ == (if old(self).arena@[phys_idx as int].terminal
                || first_occupied(old(self).arena@[phys_idx as int], 0) != Some(nib as int) {
                old(self).arena@
            } else {
                leftmost_walk(
                    old(self).arena@.update(phys_idx as int, Node { leaf: OptNz(new_index), ..old(self).arena@[phys_idx as int] }),
                    path@,
                    path@.len() as int,
                    new_index,
                )
            }),
    {
        if self.arena[phys_idx].is_terminal() {
            return;
        }
        let mask = self.arena[phys_idx].children_mask();
        let lowest = mask.trailing_zeros() as usize;
        proof {
            let n = self.arena@[phys_idx as int];
            if mask == 0 {
                lemma_bit16_zero_all();
                assert forall|j: int| 0 <= j < 16 implies #[trigger] n.children[j].raw() == 0 by {
                    assert(!bit16(mask, j));
                }
                lemma_first_occupied(n, 0, None);
                vstd::std_specs::bits::axiom_u16_trailing_zeros(mask);
            } else {
                lemma_tz16(mask);
                assert forall|j: int| 0 <= j < lowest implies #[trigger] n.children[j].raw() == 0 by {
                    assert(!bit16(mask, j));
                }
                lemma_first_occupied(n, 0, Some(lowest as int));
            }
        }
        if nib == lowest {
            self.set_leaf_ref(phys_idx, OptNz::from_index(new_index));
            let ghost mid = *self;
            proof {
                assert(mid.same_routes(*old(self)));
            }
            self.up_walk_leftmost(phys_idx, new_index, path);
            proof {
                lemma_same_shape_trans(*self, mid, *old(self));
                Self::lemma_same_routes_trans(*self, mid, *old(self));
            }
        }
    }

    /// The key index of the leftmost key under slot `next_nib` of `phys`: the
    /// leaf child itself, or the internal child's reference key.
    /// The lowest occupied slot of `phys` at or after `from`, if any.
    pub open spec fn next_occupied(self, phys: int, from: int) -> Option<int>
        decreases 16 - from,
    {
        if from >= 16 || from < 0 {
            None
        } else if self.arena@[phys].children[from].raw() != 0 {
            Some(from)
        } else {
            self.next_occupied(phys, from + 1)
        }
    }

    /// The key index of the leftmost key under slot `nib` of `phys`: the leaf
    /// child itself, or the internal child's reference key.
    pub open spec fn anchor(self, phys: int, nib: int) -> int {
        if bit16(self.arena@[phys].leaf_mask, nib) {
            self.arena@[phys].children[nib].raw() as int
        } else {
            self.arena@[self.arena@[phys].children[nib].raw() as int].leaf.raw() as int
        }
    }

    /// The anchor of the next occupied slot after the one `path` descended
    /// through, searching its first `i` entries deepest first.
    pub open spec fn path_successor(self, path: Seq<(usize, usize)>, i: int) -> Option<int>
        decreases i,
    {
        if i <= 0 {
            None
        } else {
            let (parent, nib) = path[i - 1];
            match self.next_occupied(parent as int, nib + 1) {
                Some(n) => Some(self.anchor(parent as int, n)),
                None => self.path_successor(path, i - 1),
            }
        }
    }

    /// The anchor of the next occupied slot of `phys` after `nib`, else the
    /// successor along `path`.
    pub open spec fn right_anchor_spec(self, phys: int, nib: int, path: Seq<(usize, usize)>) -> Option<int> {
        match self.next_occupied(phys, nib + 1) {
            Some(n) => Some(self.anchor(phys, n)),
            None => self.path_successor(path, path.len() as int),
        }
    }

    /// The slot that an insertion of `case` takes: the key index referenced
    /// by the first entry after the new key's place in the walk (the split or
    /// terminal node's own reference, the leaf it displaces, or the leftmost
    /// reference of the next occupied sibling up the path), or `None` when no
    /// entry follows.
    pub open spec fn insert_slot(self, case: Case, path: Seq<(usize, usize)>) -> Option<int> {
        match case {
            Case::Terminal { phys } => Some(self.arena@[phys as int].leaf.raw() as int),
            Case::NewLeafChild { phys, nib } => self.right_anchor_spec(phys as int, nib as int, path),
            Case::SplitNode { phys, new_is_terminal, new_nib, ref_nib, .. } => {
                if new_is_terminal || new_nib < ref_nib {
                    Some(self.arena@[phys as int].leaf.raw() as int)
                } else {
                    self.path_successor(path, path.len() as int)
                }
            },
            Case::SplitLeaf { phys, nib, new_is_terminal, existing_is_terminal, new_nib, exist_nib, .. } => {
                let existing = self.arena@[phys as int].children[nib as int].raw() as int;
                if new_is_terminal {
                    Some(existing)
                } else if existing_is_terminal {
                    self.right_anchor_spec(phys as int, nib as int, path)
                } else if new_nib < exist_nib {
                    Some(existing)
                } else {
                    self.right_anchor_spec(phys as int, nib as int, path)
                }
            },
        }
    }

    /// The first occupied slot at or after `from` is `n` when `n` is occupied
    /// and the slots between are empty.
    proof fn lemma_next_occupied(self, phys: int, from: int, n: Option<int>)
        requires
            0 <= from,
            n matches Some(m) ==> from <= m < 16 && self.arena@[phys].children[m].raw() != 0
                && forall|j: int| from <= j < m ==> #[trigger] self.arena@[phys].children[j].raw() == 0,
            n is None ==> forall|j: int| from <= j < 16 ==> #[trigger] self.arena@[phys].children[j].raw() == 0,
        ensures
            self.next_occupied(phys, from) == n,
        decreases 16 - from,
    {
        if from < 16 {
            if n != Some(from) {
                assert(self.arena@[phys].children[from].raw() == 0);
                self.lemma_next_occupied(phys, from + 1, n);
            }
        }
    }

    fn anchor_of(&self, phys: usize, next_nib: usize) -> (r: usize)
        requires
            self.structure_ok(),
            phys < self.arena@.len(),
            next_nib < 16,
            self.arena@[phys as int].children[next_nib as int].raw() != 0,
        ensures
            r == self.anchor(phys as int, next_nib as int),
    {
        let r = self.arena[phys].children[next_nib].get();
        if self.arena[phys].is_leaf(next_nib) {
            r.as_usize()
        } else {
            proof {
                assert(self.is_internal_edge(phys as int, next_nib as int));
            }
            self.arena[r.as_usize()].leaf.get().as_usize()
        }
    }

    /// The lowest occupied nibble of `phys` above `nib`, if any.
    fn higher_nib(&self, phys: usize, nib: usize) -> (r: Option<usize>)
        requires
            self.structure_ok(),
            phys < self.arena@.len(),
            nib < 16,
        ensures
            r matches Some(n) ==> n < 16 && n > nib && self.arena@[phys as int].children[n as int].raw() != 0,
            r matches Some(n) ==> self.next_occupied(phys as int, nib + 1) == Some(n as int),
            r is None ==> self.next_occupied(phys as int, nib + 1) is None,
    {
        let mask = self.arena[phys].children_mask();
        let mut low: u16 = 0;
        let higher: u16 = if nib >= 15 {
            0
        } else {
            proof {
                lemma_low_mask16((nib + 1) as u16);
            }
            low = (1u16 << ((nib + 1) as u16)) - 1;
            mask & !low
        };
        if higher != 0 {
            let next_nib = higher.trailing_zeros() as usize;
            proof {
                lemma_tz16(higher);
                assert(nib < 15);
                assert(higher == mask & !low);
                assert(bit16(higher, next_nib as int));
                lemma_and_bit16(mask, !low, next_nib as u16);
                lemma_above_mask(nib as u16, next_nib as u16, mask, low);
                assert(bit16(mask, next_nib as int));
                assert(next_nib > nib);
                assert(self.arena@[phys as int].children[next_nib as int].raw() != 0);
                assert forall|j: int| nib + 1 <= j < next_nib implies #[trigger] self.arena@[phys as int].children[j].raw() == 0 by {
                    assert(!bit16(higher, j));
                    if bit16(mask, j) {
                        lemma_above_kept(nib as u16, j as u16, mask, low);
                    }
                }
                self.lemma_next_occupied(phys as int, nib + 1, Some(next_nib as int));
            }
            Some(next_nib)
        } else {
            proof {
                assert forall|j: int| nib + 1 <= j < 16 implies #[trigger] self.arena@[phys as int].children[j].raw() == 0 by {
                    if bit16(mask, j) {
                        lemma_above_kept(nib as u16, j as u16, mask, low);
                        assert(higher == mask & !low);
                    }
                }
                self.lemma_next_occupied(phys as int, nib + 1, None);
            }
            None
        }
    }

    /// The successor key index of a key ending at `phys` via `nib`: the leftmost
    /// key of the next-higher occupied slot of `phys`, else of an ancestor.
    fn right_anchor(&self, phys: usize, nib: usize, path: &Vec<(usize, usize)>) -> (r: Option<usize>)
        requires
            self.structure_ok(),
            self.path_ok(path@),
            phys < self.arena@.len(),
            nib < 16,
        ensures
            r == (match self.right_anchor_spec(phys as int, nib as int, path@) {
                Some(a) => Some(a as usize),
                None => None,
            }),
    {
        match self.higher_nib(phys, nib) {
            Some(next_nib) => Some(self.anchor_of(phys, next_nib)),
            None => self.subtree_successor(path),
        }
    }

    /// Walk up `path` (deepest first) to the first ancestor with an occupied
    /// slot above the one descended through; its leftmost key is the successor.
    /// `None` means the new key is the largest.
    fn subtree_successor(&self, path: &Vec<(usize, usize)>) -> (r: Option<usize>)
        requires
            self.structure_ok(),
            self.path_ok(path@),
        ensures
            r == (match self.path_successor(path@, path@.len() as int) {
                Some(a) => Some(a as usize),
                None => None,
            }),
    {
        let mut i = path.len();
        while i > 0
            invariant
                self.structure_ok(),
                self.path_ok(path@),
                i <= path@.len(),
                self.path_successor(path@, path@.len() as int) == self.path_successor(path@, i as int),
            decreases i,
        {
            i -= 1;
            let (parent, nib) = path[i];
            match self.higher_nib(parent, nib) {
                Some(next_nib) => {
                    return Some(self.anchor_of(parent, next_nib));
                },
                None => {},
            }
        }
        None
    }

    /// The slot the new key will take, as [`Self::insert_slot`] describes it.
    fn compute_p(&self, case: &Case, path: &Vec<(usize, usize)>) -> (r: Option<usize>)
        requires
            self.structure_ok(),
            self.path_ok(path@),
            self.case_ok(*case),
        ensures
            r == (match self.insert_slot(*case, path@) {
                Some(a) => Some(a as usize),
                None => None,
            }),
    {
        match case {
            Case::Terminal { phys } => Some(self.arena[*phys].leaf.get().as_usize()),
            Case::NewLeafChild { phys, nib } => self.right_anchor(*phys, *nib, path),
            Case::SplitNode { phys, new_is_terminal, new_nib, ref_nib, .. } => {
                if *new_is_terminal || *new_nib < *ref_nib {
                    Some(self.arena[*phys].leaf.get().as_usize())
                } else {
                    self.subtree_successor(path)
                }
            },
            Case::SplitLeaf { phys, nib, new_is_terminal, existing_is_terminal, new_nib, exist_nib, .. } => {
                let existing_key_index = self.arena[*phys].children[*nib].get().as_usize();
                if *new_is_terminal {
                    Some(existing_key_index)
                } else if *existing_is_terminal {
                    self.right_anchor(*phys, *nib, path)
                } else if *new_nib < *exist_nib {
                    Some(existing_key_index)
                } else {
                    self.right_anchor(*phys, *nib, path)
                }
            },
        }
    }
}

proof fn lemma_same_shape_trans<K: ByteKey, T, PTR: TrieIndex, LEN: TrieIndex>(
    a: NibbleTrie<K, T, PTR, LEN>,
    b: NibbleTrie<K, T, PTR, LEN>,
    c: NibbleTrie<K, T, PTR, LEN>,
)
    requires
        a.same_shape(b),
        b.same_shape(c),
    ensures
        a.same_shape(c),
{
    assert forall|p: int| 0 <= p < a.arena@.len() implies {
        &&& (#[trigger] a.arena@[p]).prefix_len == c.arena@[p].prefix_len
        &&& a.arena@[p].leaf_mask == c.arena@[p].leaf_mask
        &&& a.arena@[p].terminal == c.arena@[p].terminal
        &&& forall|n: int| 0 <= n < 16 ==> {
            &&& ((#[trigger] a.arena@[p].children[n]).raw() == 0) == (c.arena@[p].children[n].raw() == 0)
            &&& !bit16(a.arena@[p].leaf_mask, n) ==> a.arena@[p].children[n] == c.arena@[p].children[n]
        }
    } by {
        assert(b.arena@[p].prefix_len == c.arena@[p].prefix_len);
        assert forall|n: int| 0 <= n < 16 implies {
            &&& ((#[trigger] a.arena@[p].children[n]).raw() == 0) == (c.arena@[p].children[n].raw() == 0)
            &&& !bit16(a.arena@[p].leaf_mask, n) ==> a.arena@[p].children[n] == c.arena@[p].children[n]
        } by {
            assert(b.arena@[p].children[n].raw() == 0 <==> c.arena@[p].children[n].raw() == 0);
        }
    }
}

/// A set bit of `m` that survives masking off bits `0..=nib` lies above `nib`.
/// A bit of `m` above `nib` is a bit of `m & !low`, `low` covering bits `0..=nib`.
proof fn lemma_above_kept(nib: u16, j: u16, m: u16, low: u16)
    by (bit_vector)
    requires
        nib < 15,
        nib < j < 16,
        low == ((1u16 << ((nib + 1) as u16)) - 1) as u16,
        (m >> j) & 1u16 == 1u16,
    ensures
        ((m & !low) >> j) & 1u16 == 1u16,
{
}

proof fn lemma_above_mask(nib: u16, t: u16, m: u16, low: u16)
    by (bit_vector)
    requires
        nib < 15,
        t < 16,
        low == ((1u16 << ((nib + 1) as u16)) - 1) as u16,
        ((m & !low) >> t) & 1u16 == 1u16,
    ensures
        t > nib,
{
}

impl<K: ByteKey, T, PTR: TrieIndex, LEN: TrieIndex> NibbleTrie<K, T, PTR, LEN> {
    /// Every frame of a bump-walk stack is valid.
    pub open spec fn stack_ok(self, stack: Seq<(usize, u16, usize)>) -> bool {
        forall|i: int| 0 <= i < stack.len() ==> self.frame_ok((#[trigger] stack[i]).0 as int, stack[i].1, stack[i].2)
    }

    proof fn lemma_same_shape_frames(self, other: Self, stack: Seq<(usize, u16, usize)>)
        requires
            self.same_shape(other),
            other.stack_ok(stack),
        ensures
            self.stack_ok(stack),
    {
        assert forall|i: int| 0 <= i < stack.len() implies self.frame_ok((#[trigger] stack[i]).0 as int, stack[i].1, stack[i].2) by {
            let p = stack[i].0 as int;
            assert(other.frame_ok(p, stack[i].1, stack[i].2));
            assert forall|j: int| 0 <= j < 16 implies (bit16(stack[i].1, j) <==> (#[trigger] self.arena@[p].children[j]).raw() != 0) by {
                assert(other.arena@[p].children[j].raw() == 0 <==> self.arena@[p].children[j].raw() == 0);
            }
        }
    }

    /// `descend_first` that also bumps each entered node's `leaf` when it lies in
    /// `[lo, hi]`.
    fn bump_descend_first(&mut self, stack: &mut Vec<(usize, u16, usize)>, phys: usize, lo: usize, hi: usize)
        requires
            old(self).structure_ok(),
            old(self).stack_ok(old(stack)@),
            phys < old(self).arena@.len(),
            1 <= lo <= hi,
            hi < PTR::imax(),
        ensures
            final(self).structure_ok(),
            final(self).same_shape(*old(self)),
            final(self).stack_ok(final(stack)@),
            final(stack)@.len() >= old(stack)@.len(),
            final(stack)@.subrange(0, old(stack)@.len() as int) == old(stack)@,
            old(self).node_has_entry(phys as int) ==> final(stack)@.len() > old(stack)@.len()
                && final(stack)@[old(stack)@.len() as int].0 == phys,
            lo <= old(self).arena@[phys as int].leaf.raw() <= hi
                ==> final(self).arena@[phys as int].leaf.raw() == old(self).arena@[phys as int].leaf.raw() + 1,
            !(lo <= old(self).arena@[phys as int].leaf.raw() <= hi)
                ==> final(self).arena@[phys as int].leaf == old(self).arena@[phys as int].leaf,
    {
        let ghost phys0 = phys;
        let ghost stack0 = stack@;
        let mut cur = phys;
        loop
            invariant
                self.structure_ok(),
                self.same_shape(*old(self)),
                self.stack_ok(stack@),
                cur < self.arena@.len(),
                1 <= lo <= hi,
                hi < PTR::imax(),
                phys0 == phys,
                stack0 == old(stack)@,
                stack@.len() >= stack0.len(),
                stack@.subrange(0, stack0.len() as int) == stack0,
                stack@.len() == stack0.len() ==> cur == phys0 && self.arena@[phys0 as int] == old(self).arena@[phys0 as int],
                stack@.len() > stack0.len() ==> stack@[stack0.len() as int].0 == phys0
                    && self.prefix_of(cur as int) > self.prefix_of(phys0 as int)
                    && (lo <= old(self).arena@[phys0 as int].leaf.raw() <= hi
                        ==> self.arena@[phys0 as int].leaf.raw() == old(self).arena@[phys0 as int].leaf.raw() + 1)
                    && (!(lo <= old(self).arena@[phys0 as int].leaf.raw() <= hi)
                        ==> self.arena@[phys0 as int].leaf == old(self).arena@[phys0 as int].leaf),
            decreases LEN::imax() - self.prefix_of(cur as int),
        {
            let ghost before_iter = *self;
            let ghost st_before = stack@;
            let node = self.arena[cur];
            proof {
                node.prefix_len.lemma_ival_bounds();
            }
            let l = node.leaf.get().as_usize();
            if l >= lo && l <= hi {
                let ghost before = *self;
                self.set_leaf_ref(cur, OptNz::from_index(PTR::from_usize(l + 1)));
                proof {
                    lemma_same_shape_trans(*self, before, *old(self));
                    self.lemma_same_shape_frames(before, stack@);
                    if cur != phys0 {
                        assert(self.arena@[phys0 as int] == before.arena@[phys0 as int]);
                    }
                }
            }
            proof {
                assert(self.arena@[cur as int].prefix_len == before_iter.arena@[cur as int].prefix_len);
            }
            let mask = node.children_mask();
            if node.is_terminal() {
                stack.push((cur, mask, TERMINAL_NIB));
                proof {
                    assert(stack@.subrange(0, stack0.len() as int) =~= st_before.subrange(0, stack0.len() as int));
                }
                return;
            }
            if mask == 0 {
                proof {
                    lemma_bit16_zero_all();
                    if st_before.len() == stack0.len() {
                        assert forall|j: int| 0 <= j < 16 implies #[trigger] old(self).arena@[phys0 as int].children[j].raw() == 0 by {
                            assert(!bit16(mask, j));
                        }
                    }
                }
                return;
            }
            let nib = mask.trailing_zeros() as usize;
            proof {
                lemma_tz16(mask);
            }
            stack.push((cur, mask, nib));
            proof {
                assert(stack@.subrange(0, stack0.len() as int) =~= st_before.subrange(0, stack0.len() as int));
            }
            if node.is_leaf(nib) {
                return;
            }
            proof {
                assert(self.is_internal_edge(cur as int, nib as int));
            }
            cur = node.children[nib].get().as_usize();
            proof {
                self.arena@[cur as int].prefix_len.lemma_ival_bounds();
            }
        }
    }

    /// `push_next_child` with leaf bumping: push the next occupied child at or
    /// after `start_nib` of `encoded`, descending into it when internal.
    fn bump_push_next(
        &mut self,
        stack: &mut Vec<(usize, u16, usize)>,
        encoded: usize,
        mask: u16,
        start_nib: usize,
        lo: usize,
        hi: usize,
    ) -> (r: bool)
        requires
            old(self).structure_ok(),
            old(self).stack_ok(old(stack)@),
            old(self).frame_ok(encoded as int, mask, 0),
            1 <= lo <= hi,
            hi < PTR::imax(),
        ensures
            final(self).structure_ok(),
            final(self).same_shape(*old(self)),
            final(self).stack_ok(final(stack)@),
            !r ==> final(stack)@ == old(stack)@,
            r <==> exists|j: int| start_nib <= j < 16 && #[trigger] bit16(mask, j),
            r ==> final(stack)@.len() > old(stack)@.len()
                && final(stack)@.subrange(0, old(stack)@.len() + 1int)
                == old(stack)@.push(final(stack)@[old(stack)@.len() as int])
                && final(stack)@[old(stack)@.len() as int].0 == encoded
                && final(stack)@[old(stack)@.len() as int].1 == mask
                && start_nib <= final(stack)@[old(stack)@.len() as int].2 < 16
                && bit16(mask, final(stack)@[old(stack)@.len() as int].2 as int)
                && forall|j: int| start_nib <= j < final(stack)@[old(stack)@.len() as int].2
                    ==> !#[trigger] bit16(mask, j),
    {
        let shifted: u16 = if start_nib >= 16 { 0 } else { mask >> (start_nib as u16) };
        if shifted == 0 {
            proof {
                assert forall|j: int| start_nib <= j < 16 implies !#[trigger] bit16(mask, j) by {
                    lemma_shifted_zero16(mask, start_nib as u16, j as u16);
                }
            }
            return false;
        }
        let t = shifted.trailing_zeros();
        proof {
            lemma_tz16(shifted);
            lemma_shifted_bit16(mask, start_nib as u16, t as u16);
            assert forall|j: int| start_nib <= j < start_nib + t implies !#[trigger] bit16(mask, j) by {
                assert(!bit16(shifted, j - start_nib));
                lemma_shifted_clear16(mask, start_nib as u16, (j - start_nib) as u16);
            }
        }
        let nib = start_nib + t as usize;
        stack.push((encoded, mask, nib));
        let ghost mid = stack@;
        if !self.arena[encoded].is_leaf(nib) {
            proof {
                assert(self.is_internal_edge(encoded as int, nib as int));
            }
            let addr = self.arena[encoded].children[nib].get().as_usize();
            self.bump_descend_first(stack, addr, lo, hi);
            proof {
                assert(stack@.subrange(0, old(stack)@.len() + 1int) =~= mid);
                assert(stack@[old(stack)@.len() as int] == mid[old(stack)@.len() as int]);
            }
        } else {
            proof {
                assert(stack@.subrange(0, old(stack)@.len() + 1int) =~= stack@);
            }
        }
        true
    }

    /// `advance_next` with leaf bumping. `false` when the stack empties.
    fn bump_advance(&mut self, stack: &mut Vec<(usize, u16, usize)>, lo: usize, hi: usize) -> (r: bool)
        requires
            old(self).structure_ok(),
            old(self).stack_ok(old(stack)@),
            1 <= lo <= hi,
            hi < PTR::imax(),
        ensures
            final(self).structure_ok(),
            final(self).same_shape(*old(self)),
            final(self).stack_ok(final(stack)@),
            r ==> walk_before(old(stack)@, final(stack)@),
            !r ==> final(stack)@.len() == 0,
    {
        loop
            invariant
                self.structure_ok(),
                self.same_shape(*old(self)),
                self.stack_ok(stack@),
                1 <= lo <= hi,
                hi < PTR::imax(),
                stack@.len() <= old(stack)@.len(),
                stack@ == old(stack)@.subrange(0, stack@.len() as int),
            decreases stack@.len(),
        {
            let ghost st_before = stack@;
            let (encoded, mask, nib) = match stack.pop() {
                Some(v) => v,
                None => return false,
            };
            let ghost popped = stack@;
            let ghost k = popped.len() as int;
            proof {
                assert(self.frame_ok(encoded as int, mask, nib));
                assert(st_before[k] == (encoded, mask, nib));
                assert(old(stack)@[k] == (encoded, mask, nib));
                assert(stack@ =~= old(stack)@.subrange(0, k));
            }
            let ghost before = *self;
            if nib == TERMINAL_NIB {
                if self.bump_push_next(stack, encoded, mask, 0, lo, hi) {
                    proof {
                        lemma_same_shape_trans(*self, before, *old(self));
                        let f = stack@[k];
                        lemma_walk_moved(old(stack)@, stack@, k, f);
                    }
                    return true;
                }
                proof {
                    lemma_same_shape_trans(*self, before, *old(self));
                }
                continue;
            }
            let search_start = if nib == usize::MAX { 0 } else { nib + 1 };
            if self.bump_push_next(stack, encoded, mask, search_start, lo, hi) {
                proof {
                    lemma_same_shape_trans(*self, before, *old(self));
                    let f = stack@[k];
                    lemma_walk_moved(old(stack)@, stack@, k, f);
                }
                return true;
            }
            proof {
                lemma_same_shape_trans(*self, before, *old(self));
            }
        }
    }

    /// Bump every arena reference to a key index in `[lo, lo + n - 1]` by one:
    /// walk forward from the seek position of slot `lo` over `n` keys, bumping
    /// each visited leaf child and each touched node's `leaf` that lies in range.
    fn bump_walk(&mut self, init_stack: Vec<(usize, u16, usize)>, lo: usize, n: usize)
        requires
            old(self).structure_ok(),
            old(self).stack_ok(init_stack@),
            1 <= lo,
            1 <= n,
            lo + n <= PTR::imax(),
        ensures
            final(self).structure_ok(),
            final(self).same_shape(*old(self)),
    {
        let hi = lo + n - 1;
        let mut stack = init_stack;
        let mut i: usize = 0;
        while i < stack.len()
            invariant
                self.structure_ok(),
                self.same_shape(*old(self)),
                self.stack_ok(stack@),
                1 <= lo <= hi,
                hi < PTR::imax(),
                i <= stack@.len(),
            decreases stack@.len() - i,
        {
            let (phys, _mask, _nib) = stack[i];
            proof {
                assert(self.frame_ok(stack@[i as int].0 as int, stack@[i as int].1, stack@[i as int].2));
            }
            let l = self.arena[phys].leaf.get().as_usize();
            if l >= lo && l <= hi {
                let ghost before = *self;
                self.set_leaf_ref(phys, OptNz::from_index(PTR::from_usize(l + 1)));
                proof {
                    lemma_same_shape_trans(*self, before, *old(self));
                    self.lemma_same_shape_frames(before, stack@);
                }
            }
            i += 1;
        }
        let mut seen: usize = 0;
        while seen < n
            invariant
                self.structure_ok(),
                self.same_shape(*old(self)),
                self.stack_ok(stack@),
                1 <= lo <= hi,
                hi < PTR::imax(),
                hi == lo + n - 1,
                seen <= n,
            decreases n - seen,
        {
            let (phys, _mask, nib) = match stack.last() {
                Some(f) => *f,
                None => break,
            };
            proof {
                assert(self.frame_ok(stack@.last().0 as int, stack@.last().1, stack@.last().2));
            }
            if nib != TERMINAL_NIB && nib < 16 && self.arena[phys].is_leaf(nib)
                && self.arena[phys].children[nib].is_some() {
                let k = self.arena[phys].children[nib].get().as_usize();
                if k >= lo && k <= hi {
                    let ghost before = *self;
                    self.set_leaf_child_ref(phys, nib, PTR::from_usize(k + 1));
                    proof {
                        lemma_same_shape_trans(*self, before, *old(self));
                        self.lemma_same_shape_frames(before, stack@);
                    }
                }
            }
            seen += 1;
            if seen == n {
                break;
            }
            let ghost before = *self;
            if !self.bump_advance(&mut stack, lo, hi) {
                proof {
                    lemma_same_shape_trans(*self, before, *old(self));
                }
                break;
            }
            proof {
                lemma_same_shape_trans(*self, before, *old(self));
            }
        }
    }
}

impl<K: ByteKey, T, PTR: TrieIndex, LEN: TrieIndex> NibbleTrie<K, T, PTR, LEN> {
    /// `self` has the arena edges, prefix lengths, index, buffer and count of
    /// `other`; flags and key references may differ.
    pub open spec fn same_edges(self, other: Self) -> bool {
        &&& self.arena@.len() == other.arena@.len()
        &&& self.index@ == other.index@
        &&& self.buf@ == other.buf@
        &&& self.n_keys == other.n_keys
        &&& forall|p: int| 0 <= p < self.arena@.len() ==> #[trigger] self.prefix_of(p) == other.prefix_of(p)
        &&& forall|p: int, n: int|
            0 <= p < self.arena@.len() && 0 <= n < 16 ==> (#[trigger] self.is_internal_edge(p, n) <==> other.is_internal_edge(p, n))
        &&& forall|p: int, n: int|
            0 <= p < self.arena@.len() && 0 <= n < 16 && #[trigger] self.is_internal_edge(p, n) ==> self.child_of(p, n) == other.child_of(p, n)
    }

    proof fn lemma_same_edges_wf(self, other: Self)
        requires
            other.structure_ok(),
            self.same_edges(other),
        ensures
            self.structure_ok(),
    {
        assert forall|i: int| 0 <= i < self.index@.len() implies #[trigger] self.slot_in_bounds(i) by {
            assert(other.slot_in_bounds(i));
        }
        assert forall|p: int, n: int|
            0 <= p < self.arena@.len() && 0 <= n < 16 && #[trigger] self.is_internal_edge(p, n) implies {
                &&& 0 < self.child_of(p, n) < self.arena@.len()
                &&& self.prefix_of(self.child_of(p, n)) > self.prefix_of(p)
            } by {
            assert(other.is_internal_edge(p, n));
        }
        assert forall|p1: int, n1: int, p2: int, n2: int|
            0 <= p1 < self.arena@.len() && 0 <= n1 < 16 && 0 <= p2 < self.arena@.len() && 0 <= n2
                < 16 && #[trigger] self.is_internal_edge(p1, n1) && #[trigger] self.is_internal_edge(p2, n2)
                && self.child_of(p1, n1) == self.child_of(p2, n2) implies p1 == p2 && n1 == n2 by {
            assert(other.is_internal_edge(p1, n1));
            assert(other.is_internal_edge(p2, n2));
        }
    }

    /// Node `phys` of `self` has at most the internal edge at `only`.
    pub open spec fn edges_only_at(self, phys: int, only: int) -> bool {
        forall|n: int| 0 <= n < 16 && n != only ==> !#[trigger] self.is_internal_edge(phys, n)
    }

    /// Splitting node `phys` by a new parent at prefix `diverge` keeps the trie
    /// well formed: the old node moves to the end of the arena as the parent's
    /// internal child at `ref_nib`.
    proof fn lemma_split_node(o: Self, t: Self, phys: int, ref_nib: int, diverge: int)
        requires
            o.structure_ok(),
            0 <= phys < o.arena@.len(),
            o.arena@.len() < PTR::imax(),
            0 <= ref_nib < 16,
            diverge < o.prefix_of(phys),
            forall|p: int, n: int|
                0 <= p < o.arena@.len() && 0 <= n < 16 && #[trigger] o.is_internal_edge(p, n)
                    && o.child_of(p, n) == phys ==> o.prefix_of(p) < diverge,
            t.index@ == o.index@,
            t.buf@ == o.buf@,
            t.n_keys == o.n_keys,
            t.arena@.len() == o.arena@.len() + 1,
            forall|q: int| 0 <= q < o.arena@.len() && q != phys ==> #[trigger] t.arena@[q] == o.arena@[q],
            t.arena@[o.arena@.len() as int] == o.arena@[phys],
            t.prefix_of(phys) == diverge,
            t.is_internal_edge(phys, ref_nib),
            t.child_of(phys, ref_nib) == o.arena@.len(),
            t.edges_only_at(phys, ref_nib),
        ensures
            t.structure_ok(),
    {
        let ol = o.arena@.len() as int;
        assert forall|i: int| 0 <= i < t.index@.len() implies #[trigger] t.slot_in_bounds(i) by {
            assert(o.slot_in_bounds(i));
        }
        assert forall|q: int, n: int|
            0 <= q < t.arena@.len() && 0 <= n < 16 && #[trigger] t.is_internal_edge(q, n) implies {
                &&& 0 < t.child_of(q, n) < t.arena@.len()
                &&& t.prefix_of(t.child_of(q, n)) > t.prefix_of(q)
            } by {
            if q == phys {
                assert(n == ref_nib);
            } else if q == ol {
                assert(o.is_internal_edge(phys, n));
                let c = o.child_of(phys, n);
                assert(c != phys);
                assert(t.arena@[c] == o.arena@[c]);
            } else {
                assert(t.arena@[q] == o.arena@[q]);
                assert(o.is_internal_edge(q, n));
                let c = o.child_of(q, n);
                if c != phys {
                    assert(t.arena@[c] == o.arena@[c]);
                }
            }
        }
        assert forall|p1: int, n1: int, p2: int, n2: int|
            0 <= p1 < t.arena@.len() && 0 <= n1 < 16 && 0 <= p2 < t.arena@.len() && 0 <= n2
                < 16 && #[trigger] t.is_internal_edge(p1, n1) && #[trigger] t.is_internal_edge(p2, n2)
                && t.child_of(p1, n1) == t.child_of(p2, n2) implies p1 == p2 && n1 == n2 by {
            let c = t.child_of(p1, n1);
            if p1 == phys || p2 == phys {
                if p1 == phys {
                    assert(n1 == ref_nib);
                    if p2 != phys {
                        if p2 == ol {
                            assert(o.is_internal_edge(phys, n2));
                        } else {
                            assert(t.arena@[p2] == o.arena@[p2]);
                            assert(o.is_internal_edge(p2, n2));
                        }
                    }
                } else {
                    assert(n2 == ref_nib);
                    if p1 == ol {
                        assert(o.is_internal_edge(phys, n1));
                    } else {
                        assert(t.arena@[p1] == o.arena@[p1]);
                        assert(o.is_internal_edge(p1, n1));
                    }
                }
            } else {
                let q1 = if p1 == ol { phys } else { p1 };
                let q2 = if p2 == ol { phys } else { p2 };
                if p1 != ol {
                    assert(t.arena@[p1] == o.arena@[p1]);
                }
                if p2 != ol {
                    assert(t.arena@[p2] == o.arena@[p2]);
                }
                assert(o.is_internal_edge(q1, n1));
                assert(o.is_internal_edge(q2, n2));
                assert(o.child_of(q1, n1) == o.child_of(q2, n2));
            }
        }
    }

    /// Replacing the leaf child at `nib` of `phys` by a new split node (pushed
    /// at the end of the arena, with no internal children, prefix `d`) keeps
    /// the trie well formed.
    proof fn lemma_split_leaf(o: Self, t: Self, phys: int, nib: int, d: int)
        requires
            o.structure_ok(),
            0 <= phys < o.arena@.len(),
            o.arena@.len() < PTR::imax(),
            0 <= nib < 16,
            !o.is_internal_edge(phys, nib),
            d > o.prefix_of(phys),
            t.index@ == o.index@,
            t.buf@ == o.buf@,
            t.n_keys == o.n_keys,
            t.arena@.len() == o.arena@.len() + 1,
            forall|q: int| 0 <= q < o.arena@.len() && q != phys ==> #[trigger] t.arena@[q] == o.arena@[q],
            t.prefix_of(phys) == o.prefix_of(phys),
            forall|n: int| 0 <= n < 16 && n != nib ==> (#[trigger] t.is_internal_edge(phys, n) <==> o.is_internal_edge(phys, n)),
            forall|n: int| 0 <= n < 16 && n != nib ==> #[trigger] t.child_of(phys, n) == o.child_of(phys, n),
            t.is_internal_edge(phys, nib),
            t.child_of(phys, nib) == o.arena@.len(),
            t.prefix_of(o.arena@.len() as int) == d,
            t.edges_only_at(o.arena@.len() as int, -1),
        ensures
            t.structure_ok(),
    {
        let ol = o.arena@.len() as int;
        assert forall|i: int| 0 <= i < t.index@.len() implies #[trigger] t.slot_in_bounds(i) by {
            assert(o.slot_in_bounds(i));
        }
        assert forall|q: int, n: int|
            0 <= q < t.arena@.len() && 0 <= n < 16 && #[trigger] t.is_internal_edge(q, n) implies {
                &&& 0 < t.child_of(q, n) < t.arena@.len()
                &&& t.prefix_of(t.child_of(q, n)) > t.prefix_of(q)
            } by {
            if q == ol {
                assert(false);
            } else if q == phys {
                if n != nib {
                    assert(o.is_internal_edge(phys, n));
                    let c = o.child_of(phys, n);
                    assert(c != phys);
                    assert(t.arena@[c] == o.arena@[c]);
                }
            } else {
                assert(t.arena@[q] == o.arena@[q]);
                assert(o.is_internal_edge(q, n));
                let c = o.child_of(q, n);
                if c != phys {
                    assert(t.arena@[c] == o.arena@[c]);
                }
            }
        }
        assert forall|p1: int, n1: int, p2: int, n2: int|
            0 <= p1 < t.arena@.len() && 0 <= n1 < 16 && 0 <= p2 < t.arena@.len() && 0 <= n2
                < 16 && #[trigger] t.is_internal_edge(p1, n1) && #[trigger] t.is_internal_edge(p2, n2)
                && t.child_of(p1, n1) == t.child_of(p2, n2) implies p1 == p2 && n1 == n2 by {
            if p1 == ol {
                assert(false);
            }
            if p2 == ol {
                assert(false);
            }
            let e1 = p1 == phys && n1 == nib;
            let e2 = p2 == phys && n2 == nib;
            if !e1 {
                if p1 != phys {
                    assert(t.arena@[p1] == o.arena@[p1]);
                }
                assert(o.is_internal_edge(p1, n1));
            }
            if !e2 {
                if p2 != phys {
                    assert(t.arena@[p2] == o.arena@[p2]);
                }
                assert(o.is_internal_edge(p2, n2));
            }
            if !e1 && !e2 {
                assert(o.child_of(p1, n1) == o.child_of(p2, n2));
            }
        }
    }
}

impl<K: ByteKey, T, PTR: TrieIndex, LEN: TrieIndex> NibbleTrie<K, T, PTR, LEN> {
    /// The internal walker over this trie.
    pub fn walk_iter(&self) -> (r: NibbleIter<'_, K, T, PTR, LEN>)
        requires
            self.structure_ok(),
        ensures
            r.wf(),
            r.trie == self,
    {
        NibbleIter::new(self)
    }

    /// Wire the new key (at slot `p`) into the arena according to `case`, then
    /// propagate the leftmost reference up the spine.
    fn execute_case(&mut self, case: Case, p: usize, path: &Vec<(usize, usize)>, Ghost(key): Ghost<Seq<u8>>)
        requires
            old(self).structure_ok(),
            old(self).case_ok(case),
            old(self).path_ok(path@),
            old(self).case_key_ok(case, key),
            old(self).reaches(0, key, case_phys(case)),
            1 <= p <= PTR::imax(),
            old(self).arena@.len() < PTR::imax(),
        ensures
            final(self).structure_ok(),
            final(self).index@ == old(self).index@,
            final(self).buf@ == old(self).buf@,
            final(self).n_keys == old(self).n_keys,
            final(self).arena@.len() >= old(self).arena@.len(),
            final(self).descend(0, key) == Some(p as int),
            Self::routes_kept_except(*old(self), *final(self), case_phys(case)),
    {
        let p_idx = PTR::from_usize(p);
        proof {
            lemma_bit16_zero_all();
        }
        match case {
            Case::Terminal { phys } => {
                let mut node = self.arena[phys];
                node.set_terminal(true);
                node.leaf = OptNz::from_index(p_idx);
                self.arena[phys] = node;
                proof {
                    assert forall|q: int, n: int| 0 <= q < self.arena@.len() && 0 <= n < 16 implies
                        (#[trigger] self.is_internal_edge(q, n) <==> old(self).is_internal_edge(q, n)) by {
                        if q != phys {
                            assert(self.arena@[q] == old(self).arena@[q]);
                        }
                    }
                    assert forall|q: int| 0 <= q < self.arena@.len() implies #[trigger] self.prefix_of(q) == old(self).prefix_of(q) by {
                        if q != phys {
                            assert(self.arena@[q] == old(self).arena@[q]);
                        }
                    }
                    assert forall|q: int, n: int| 0 <= q < self.arena@.len() && 0 <= n < 16 && #[trigger] self.is_internal_edge(q, n) implies
                        self.child_of(q, n) == old(self).child_of(q, n) by {
                        if q != phys {
                            assert(self.arena@[q] == old(self).arena@[q]);
                        }
                    }
                    self.lemma_same_edges_wf(*old(self));
                    assert(self.descend(phys as int, key) == Some(p as int));
                    Self::lemma_attach(*old(self), *self, key, phys as int, p as int);
                }
                let ghost mid = *self;
                self.up_walk_leftmost(phys, p_idx, path);
                proof {
                    Self::lemma_same_routes_found(*self, mid, key);
                }
            },
            Case::NewLeafChild { phys, nib } => {
                let mut node = self.arena[phys];
                node.set_leaf_child(nib, p_idx);
                self.arena[phys] = node;
                proof {
                    assert forall|q: int, n: int| 0 <= q < self.arena@.len() && 0 <= n < 16 implies
                        (#[trigger] self.is_internal_edge(q, n) <==> old(self).is_internal_edge(q, n)) by {
                        if q != phys {
                            assert(self.arena@[q] == old(self).arena@[q]);
                        } else if n != nib {
                            assert(self.arena@[q].children[n] == old(self).arena@[q].children[n]);
                        }
                    }
                    assert forall|q: int| 0 <= q < self.arena@.len() implies #[trigger] self.prefix_of(q) == old(self).prefix_of(q) by {
                        if q != phys {
                            assert(self.arena@[q] == old(self).arena@[q]);
                        }
                    }
                    assert forall|q: int, n: int| 0 <= q < self.arena@.len() && 0 <= n < 16 && #[trigger] self.is_internal_edge(q, n) implies
                        self.child_of(q, n) == old(self).child_of(q, n) by {
                        if q != phys {
                            assert(self.arena@[q] == old(self).arena@[q]);
                        } else {
                            assert(n != nib);
                            assert(self.arena@[q].children[n] == old(self).arena@[q].children[n]);
                        }
                    }
                    self.lemma_same_edges_wf(*old(self));
                    assert(self.arena@[phys as int].children[nib as int].raw() == p);
                    if self.prefix_of(phys as int) < 2 * key.len() {
                        assert(self.descend(phys as int, key) == Some(p as int));
                    }
                    Self::lemma_attach(*old(self), *self, key, phys as int, p as int);
                }
                let ghost mid = *self;
                self.update_leftmost_on_leaf_insert(phys, nib, p_idx, path);
                proof {
                    Self::lemma_same_routes_found(*self, mid, key);
                }
            },
            Case::SplitNode { phys, diverge, new_is_terminal, new_nib, ref_nib, new_is_leftmost } => {
                proof {
                    self.arena@[phys as int].prefix_len.lemma_ival_bounds();
                }
                let mut new_parent = Node::<PTR, LEN>::new();
                new_parent.prefix_len = LEN::from_usize(diverge);
                if new_is_terminal {
                    new_parent.set_terminal(true);
                    new_parent.leaf = OptNz::from_index(p_idx);
                } else {
                    new_parent.set_leaf_child(new_nib, p_idx);
                    if new_is_leftmost {
                        new_parent.leaf = OptNz::from_index(p_idx);
                    }
                }
                let old_node = self.arena[phys];
                self.arena[phys] = new_parent;
                let old_addr = PTR::from_usize(self.arena.len());
                self.arena.push(old_node);
                let mut np = self.arena[phys];
                np.set_internal_child(ref_nib, old_addr);
                self.arena[phys] = np;
                proof {
                    let ol = old(self).arena@.len() as int;
                    assert forall|q: int| 0 <= q < ol && q != phys implies #[trigger] self.arena@[q] == old(self).arena@[q] by {}
                    assert forall|n: int| 0 <= n < 16 && n != ref_nib implies !#[trigger] self.is_internal_edge(phys as int, n) by {
                        if new_is_terminal || n != new_nib {
                            assert(self.arena@[phys as int].children[n].raw() == 0);
                        }
                    }
                    assert(self.child_of(phys as int, ref_nib as int) == ol);
                    Self::lemma_split_node(*old(self), *self, phys as int, ref_nib as int, diverge as int);
                    assert(self.prefix_of(phys as int) == diverge);
                    if !new_is_terminal {
                        assert(self.arena@[phys as int].children[new_nib as int].raw() == p);
                    }
                    assert(self.descend(phys as int, key) == Some(p as int));
                    Self::lemma_attach(*old(self), *self, key, phys as int, p as int);
                }
                let ghost mid = *self;
                if new_is_leftmost {
                    self.up_walk_leftmost(phys, p_idx, path);
                } else {
                    let l = self.arena[old_addr.as_usize()].leaf;
                    self.set_leaf_ref(phys, l);
                    proof {
                        assert forall|q: int| 0 <= q < self.arena@.len() implies #[trigger] self.arena@[q].children == mid.arena@[q].children by {
                            if q != phys {
                                assert(self.arena@[q] == mid.arena@[q]);
                            }
                        }
                        assert(self.same_routes(mid));
                    }
                }
                proof {
                    Self::lemma_same_routes_found(*self, mid, key);
                }
            },
            Case::SplitLeaf { phys, nib, d, new_is_terminal, existing_is_terminal, new_nib, exist_nib, new_is_leftmost } => {
                let existing_key_index = self.arena[phys].children[nib].get();
                let mut split_node = Node::<PTR, LEN>::new();
                split_node.prefix_len = LEN::from_usize(d);
                if new_is_terminal {
                    split_node.set_terminal(true);
                    split_node.leaf = OptNz::from_index(p_idx);
                    split_node.set_leaf_child(exist_nib, existing_key_index);
                } else if existing_is_terminal {
                    split_node.set_terminal(true);
                    split_node.leaf = OptNz::from_index(existing_key_index);
                    split_node.set_leaf_child(new_nib, p_idx);
                } else {
                    split_node.set_leaf_child(new_nib, p_idx);
                    split_node.set_leaf_child(exist_nib, existing_key_index);
                    split_node.leaf = OptNz::from_index(if new_is_leftmost { p_idx } else { existing_key_index });
                }
                let split_addr = PTR::from_usize(self.arena.len());
                self.arena.push(split_node);
                let mut pn = self.arena[phys];
                pn.set_internal_child(nib, split_addr);
                self.arena[phys] = pn;
                proof {
                    let ol = old(self).arena@.len() as int;
                    assert forall|q: int| 0 <= q < ol && q != phys implies #[trigger] self.arena@[q] == old(self).arena@[q] by {}
                    assert forall|n: int| 0 <= n < 16 && n != -1 implies !#[trigger] self.is_internal_edge(ol, n) by {
                        assert(self.arena@[ol] == split_node);
                    }
                    assert forall|n: int| 0 <= n < 16 && n != nib implies (#[trigger] self.is_internal_edge(phys as int, n) <==> old(self).is_internal_edge(phys as int, n)) by {
                        assert(self.arena@[phys as int].children[n] == old(self).arena@[phys as int].children[n]);
                    }
                    assert forall|n: int| 0 <= n < 16 && n != nib implies #[trigger] self.child_of(phys as int, n) == old(self).child_of(phys as int, n) by {
                        assert(self.arena@[phys as int].children[n] == old(self).arena@[phys as int].children[n]);
                    }
                    Self::lemma_split_leaf(*old(self), *self, phys as int, nib as int, d as int);
                    assert(self.prefix_of(ol) == d);
                    if !new_is_terminal {
                        assert(self.arena@[ol].children[new_nib as int].raw() == p);
                    }
                    assert(self.descend(ol, key) == Some(p as int));
                    assert(self.prefix_of(phys as int) == old(self).prefix_of(phys as int));
                    assert(self.child_of(phys as int, nib as int) == ol);
                    if self.prefix_of(phys as int) < 2 * key.len() {
                        assert(self.descend(phys as int, key) == Some(p as int));
                    }
                    Self::lemma_attach(*old(self), *self, key, phys as int, p as int);
                }
                let ghost mid = *self;
                if new_is_leftmost {
                    self.up_walk_leftmost(split_addr.as_usize(), p_idx, path);
                }
                proof {
                    Self::lemma_same_routes_found(*self, mid, key);
                }
            },
        }
    }

    /// Empty trie: place the key at slot 1 and build a root that is terminal
    /// (empty key) or holds the key as a leaf child.
    fn insert_into_empty_trie(&mut self, off: usize, key_len: LEN, value: T, key: &[u8], max_nib: usize) -> (r: usize)
        requires
            old(self).structure_ok(),
            old(self).arena@.len() == 0,
            max_nib == key@.len() * 2,
            1 <= off,
            off + key_len.ival() <= old(self).buf@.len(),
        ensures
            final(self).structure_ok(),
            r == 1,
            final(self).index@ == old(self).index@.push(Some((off, key_len, value))),
            final(self).buf@ == old(self).buf@,
            final(self).n_keys == old(self).n_keys,
            final(self).descend(0, key@) == Some(1int),
    {
        let p: usize = 1;
        self.index.push(Some((off, key_len, value)));
        proof {
            PTR::lemma_imax();
            lemma_bit16_zero_all();
        }
        let p_idx = PTR::from_usize(p);
        let mut root = Node::<PTR, LEN>::new();
        if max_nib == 0 {
            root.set_terminal(true);
            root.leaf = OptNz::from_index(p_idx);
        } else {
            let first_nib = key_nibble_at(key, 0) as usize;
            root.set_leaf_child(first_nib, p_idx);
            root.leaf = OptNz::from_index(p_idx);
        }
        self.arena.push(root);
        proof {
            assert forall|i: int| 0 <= i < self.index@.len() implies #[trigger] self.slot_in_bounds(i) by {
                if i < 1 {
                    assert(old(self).slot_in_bounds(i));
                }
            }
            assert forall|q: int, n: int| 0 <= q < self.arena@.len() && 0 <= n < 16 implies !#[trigger] self.is_internal_edge(q, n) by {
                assert(q == 0);
            }
        }
        p
    }

    /// 90% capacity trigger, measuring fill as keys per index capacity and bytes
    /// per buffer capacity. The capacities are whatever the allocator gave, at
    /// least the lengths.
    fn needs_optimize(&self) -> (r: bool)
        ensures
            exists|ic: int, bc: int| ic >= self.index@.len() && bc >= self.buf@.len()
                && r == over_fill(self.n_keys as int, ic, self.buf@.len() as int, bc),
    {
        let idx_cap = vec_capacity(&self.index);
        let buf_cap = vec_capacity(&self.buf);
        let r = fill_exceeds(self.n_keys, idx_cap, self.buf.len(), buf_cap);
        proof {
            assert(idx_cap >= self.index@.len() && buf_cap >= self.buf@.len()
                && r == over_fill(self.n_keys as int, idx_cap as int, self.buf@.len() as int, buf_cap as int));
        }
        r
    }

    /// Non-mutating descent that resolves the insertion case and the descent
    /// path. `Err` for a duplicate key (or a missing reference key).
    fn find_insert_case(&self, key: &[u8], max_nib: usize) -> (r: Result<(Case, Vec<(usize, usize)>), ()>)
        requires
            self.structure_ok(),
            self.arena@.len() > 0,
            max_nib == key@.len() * 2,
            max_nib <= LEN::imax(),
        ensures
            r matches Ok(cp) ==> self.case_ok(cp.0) && self.path_ok(cp.1@) && self.case_key_ok(cp.0, key@)
                && self.reaches(0, key@, case_phys(cp.0)),
    {
        let mut phys: usize = 0;
        let mut confirmed: usize = 0;
        let mut path: Vec<(usize, usize)> = Vec::new();
        proof {
            self.arena@[0].prefix_len.lemma_ival_bounds();
        }
        loop
            invariant
                self.structure_ok(),
                self.arena@.len() > 0,
                max_nib == key@.len() * 2,
                max_nib <= LEN::imax(),
                phys < self.arena@.len(),
                self.path_ok(path@),
                forall|p: int, n: int|
                    0 <= p < self.arena@.len() && 0 <= n < 16 && #[trigger] self.is_internal_edge(p, n)
                        && self.child_of(p, n) == phys ==> self.prefix_of(p) < confirmed,
                self.reaches(0, key@, phys as int),
                confirmed <= max_nib,
                self.prefix_of(phys as int) <= LEN::imax(),
            decreases LEN::imax() - self.prefix_of(phys as int),
        {
            let node = &self.arena[phys];
            proof {
                node.prefix_len.lemma_ival_bounds();
            }
            let ki = node.leaf.get();
            let ref_key = match self.key_slice(ki) {
                Some(k) => k,
                None => return Err(()),
            };
            let prefix_len = node.prefix_len.as_usize();
            match check_prefix(key, ref_key, confirmed, prefix_len) {
                PrefixCheck::Diverges(diverge) => {
                    // A key that ends inside the span splits at its own end.
                    let diverge = if diverge > max_nib { max_nib } else { diverge };
                    let new_nib = key_nibble_at(key, diverge) as usize;
                    let ref_nib = key_nibble_at(ref_key, diverge) as usize;
                    let new_is_terminal = diverge >= max_nib;
                    let new_is_leftmost = new_is_terminal || new_nib < ref_nib;
                    return Ok((Case::SplitNode { phys, diverge, new_is_terminal, new_nib, ref_nib, new_is_leftmost }, path));
                },
                PrefixCheck::Matches => {
                    if max_nib < prefix_len {
                        // The key ends inside this node's span: a new node at
                        // the key's end takes it as its terminal value.
                        let new_nib = key_nibble_at(key, max_nib) as usize;
                        let ref_nib = key_nibble_at(ref_key, max_nib) as usize;
                        return Ok((
                            Case::SplitNode {
                                phys,
                                diverge: max_nib,
                                new_is_terminal: true,
                                new_nib,
                                ref_nib,
                                new_is_leftmost: true,
                            },
                            path,
                        ));
                    }
                    if max_nib == prefix_len {
                        if key.len() == ref_key.len() {
                            return Err(());
                        }
                        return Ok((Case::Terminal { phys }, path));
                    }
                    if prefix_len == usize::MAX {
                        return Err(());
                    }
                    confirmed = prefix_len + 1;
                    let nib = key_nibble_at(key, prefix_len) as usize;
                    if !node.is_occupied(nib) {
                        return Ok((Case::NewLeafChild { phys, nib }, path));
                    }
                    if node.is_leaf(nib) {
                        path.push((phys, nib));
                        let existing_key_index = node.children[nib].get();
                        let existing_key = match self.key_slice(existing_key_index) {
                            Some(k) => k,
                            None => return Err(()),
                        };
                        if existing_key.len() > usize::MAX / 2 {
                            return Err(());
                        }
                        match find_divergence(key, existing_key, confirmed) {
                            DivergeResult::Duplicate => return Err(()),
                            DivergeResult::At(d) => {
                                if d > LEN::max_value() {
                                    return Err(());
                                }
                                let new_is_terminal = d >= max_nib;
                                let existing_is_terminal = d >= existing_key.len() * 2;
                                let new_nib = key_nibble_at(key, d) as usize;
                                let exist_nib = key_nibble_at(existing_key, d) as usize;
                                let new_is_leftmost = if new_is_terminal {
                                    true
                                } else if existing_is_terminal {
                                    false
                                } else {
                                    new_nib < exist_nib
                                };
                                return Ok((
                                    Case::SplitLeaf {
                                        phys,
                                        nib,
                                        d,
                                        new_is_terminal,
                                        existing_is_terminal,
                                        new_nib,
                                        exist_nib,
                                        new_is_leftmost,
                                    },
                                    path,
                                ));
                            },
                        }
                    }
                    proof {
                        assert(self.is_internal_edge(phys as int, nib as int));
                    }
                    path.push((phys, nib));
                    let ghost old_phys = phys;
                    phys = node.children[nib].get().as_usize();
                    proof {
                        self.arena@[phys as int].prefix_len.lemma_ival_bounds();
                        self.lemma_reaches_extend(0, key@, old_phys as int, phys as int);
                        assert forall|p: int, n: int|
                            0 <= p < self.arena@.len() && 0 <= n < 16 && #[trigger] self.is_internal_edge(p, n)
                                && self.child_of(p, n) == phys implies self.prefix_of(p) < confirmed by {
                            assert(self.child_of(old_phys as int, nib as int) == phys);
                        }
                    }
                },
            }
        }
    }
}

impl<K: ByteKey, T, PTR: TrieIndex, LEN: TrieIndex> NibbleTrie<K, T, PTR, LEN> {
    proof fn lemma_same_shape_case(self, other: Self, case: Case, path: Seq<(usize, usize)>)
        requires
            self.same_shape(other),
            other.case_ok(case),
            other.path_ok(path),
        ensures
            self.case_ok(case),
            self.path_ok(path),
    {
        match case {
            Case::SplitNode { phys, diverge, .. } => {
                assert forall|p: int, n: int|
                    0 <= p < self.arena@.len() && 0 <= n < 16 && #[trigger] self.is_internal_edge(p, n)
                        && self.child_of(p, n) == phys implies self.prefix_of(p) < diverge by {
                    assert(self.arena@[p].children[n].raw() == 0 <==> other.arena@[p].children[n].raw() == 0);
                    assert(other.is_internal_edge(p, n));
                }
                assert(self.arena@[phys as int].prefix_len == other.arena@[phys as int].prefix_len);
            },
            Case::NewLeafChild { phys, nib } => {
                assert(self.arena@[phys as int].children[nib as int].raw() == 0 <==> other.arena@[phys as int].children[nib as int].raw() == 0);
            },
            Case::SplitLeaf { phys, nib, .. } => {
                assert(self.arena@[phys as int].children[nib as int].raw() == 0 <==> other.arena@[phys as int].children[nib as int].raw() == 0);
                assert(self.arena@[phys as int].prefix_len == other.arena@[phys as int].prefix_len);
            },
            _ => {},
        }
    }

    /// Appending bytes to `buf` keeps every stored key.
    proof fn lemma_buf_extend_keys(self, other: Self)
        requires
            other.structure_ok(),
            self.index@ == other.index@,
            other.buf@.len() <= self.buf@.len(),
            self.buf@.subrange(0, other.buf@.len() as int) == other.buf@,
        ensures
            forall|i: int| 0 <= i < self.index@.len() ==> #[trigger] self.slot_key(i) == other.slot_key(i),
    {
        assert forall|i: int| 0 <= i < self.index@.len() implies #[trigger] self.slot_key(i) == other.slot_key(i) by {
            assert(other.slot_in_bounds(i));
            match self.index@[i] {
                Some(slot) => {
                    assert(self.buf@.subrange(slot.0 as int, slot.0 + slot.1.ival()) =~= other.buf@.subrange(slot.0 as int, slot.0 + slot.1.ival()));
                },
                None => {},
            }
        }
    }

    /// Transfer well-formedness to a trie with the same views.
    proof fn lemma_wf_transfer(self, other: Self)
        requires
            other.wf(),
            self.arena@ == other.arena@,
            self.index@ == other.index@,
            self.buf@ == other.buf@,
            self.n_keys == other.n_keys,
        ensures
            self.wf(),
    {
        self.lemma_arena_eq(other);
        assert forall|i: int| 0 <= i < self.index@.len() implies #[trigger] self.slot_in_bounds(i) by {
            assert(other.slot_in_bounds(i));
        }
        assert forall|i: int| 0 <= i < self.index@.len() implies match #[trigger] self.slot_key(i) {
            Some(k) => K::valid_repr(k),
            None => true,
        } by {
            assert(self.slot_key(i) == other.slot_key(i));
        }
    }

    /// Insert `key` with `value`. Returns the slot index the key now occupies
    /// (slot indices of later keys shift by one), or `Err` for a key that is
    /// already stored (the trie is then unchanged) or when the key length or
    /// the index capacity of `PTR` would be exceeded. A lookup of the key then
    /// finds that slot.
    pub fn insert(&mut self, key: K, value: T) -> (r: Result<usize, ()>)
        requires
            old(self).wf(),
        ensures
            final(self).wf(),
            old(self).lookup(key.key_view()) is Some ==> r is Err && *final(self) == *old(self),
            r matches Ok(p) ==> final(self).slot_key(p as int) == Some(key.key_view())
                && final(self).slot_value(p as int) == Some(value)
                && count_some(final(self).index@) == count_some(old(self).index@) + 1,
            r matches Ok(p) ==> final(self).lookup(key.key_view()) == Some(p as int),
            r is Err ==> count_some(final(self).index@) == count_some(old(self).index@),
            old(self).arena@.len() >= PTR::imax() || old(self).index@.len() >= PTR::imax()
                || 2 * key.key_view().len() > LEN::imax() ==> r is Err && *final(self) == *old(self),
            old(self).arena@.len() == 0 && old(self).index@.len() < PTR::imax() && 2 * key.key_view().len() <= LEN::imax()
                ==> r == Ok::<usize, ()>(1),
    {
        let key_bytes = key.bytes();
        proof {
            K::lemma_repr_valid(&key);
        }
        if self.arena.len() >= PTR::max_value() || self.index.len() >= PTR::max_value() {
            return Err(());
        }
        if key_bytes.len() > usize::MAX / 2 || key_bytes.len() * 2 > LEN::max_value() {
            return Err(());
        }
        if self.get_index(key_bytes).is_some() {
            return Err(());
        }
        self.maybe_optimize();
        if self.arena.len() >= PTR::max_value() || self.index.len() >= PTR::max_value() {
            return Err(());
        }
        self.insert_bytes(key_bytes, value)
    }

    /// Re-spread the index with [`Self::optimize`] when it or the buffer is
    /// nearly full and the re-spread fits the index type.
    fn maybe_optimize(&mut self)
        requires
            old(self).wf(),
        ensures
            final(self).wf(),
            count_some(final(self).index@) == count_some(old(self).index@),
            old(self).arena@.len() == 0 ==> *final(self) == *old(self),
            *final(self) == *old(self) || {
                &&& final(self).index@.len() == 2 * old(self).n_keys + 1
                &&& final(self).n_keys == old(self).n_keys
                &&& final(self).same_topology(*old(self))
                &&& forall|s: int| 0 <= s < final(self).index@.len()
                    ==> ((#[trigger] final(self).index@[s]) is Some <==> s % 2 == 1)
            },
    {
        if self.needs_optimize() && 2 * (self.n_keys as u128) < PTR::max_value() as u128 {
            self.optimize();
        }
    }

    /// Insert the key with bytes `key_bytes`: append the bytes to `buf`, then
    /// resolve the case and place the key, or roll back for a duplicate.
    fn insert_bytes(&mut self, key_bytes: &[u8], value: T) -> (r: Result<usize, ()>)
        requires
            old(self).wf(),
            old(self).arena@.len() < PTR::imax(),
            old(self).index@.len() < PTR::imax(),
            key_bytes@.len() <= usize::MAX / 2,
            2 * key_bytes@.len() <= LEN::imax(),
            K::valid_repr(key_bytes@),
        ensures
            final(self).wf(),
            r matches Ok(p) ==> final(self).slot_key(p as int) == Some(key_bytes@)
                && final(self).slot_value(p as int) == Some(value)
                && count_some(final(self).index@) == count_some(old(self).index@) + 1,
            r matches Ok(p) ==> final(self).lookup(key_bytes@) == Some(p as int),
            r is Err ==> count_some(final(self).index@) == count_some(old(self).index@),
            old(self).arena@.len() == 0 ==> r == Ok::<usize, ()>(1),
    {
        let ghost start = *self;
        let key_len = LEN::from_usize(key_bytes.len());
        let off = self.buf.len();
        append_bytes(&mut self.buf, key_bytes);
        proof {
            lemma_count_some_le(self.index@);
            assert(self.buf@.subrange(0, start.buf@.len() as int) =~= start.buf@);
            assert(self.buf@.subrange(off as int, off + key_len.ival()) =~= key_bytes@);
        }
        self.n_keys += 1;
        proof {
            self.lemma_buf_extend_keys(start);
            self.lemma_arena_eq(start);
            assert forall|i: int| 0 <= i < self.index@.len() implies #[trigger] self.slot_in_bounds(i) by {
                assert(start.slot_in_bounds(i));
            }
            assert forall|i: int| 0 <= i < self.index@.len() implies match #[trigger] self.slot_key(i) {
                Some(k) => K::valid_repr(k),
                None => true,
            } by {
                assert(start.slot_key(i) == self.slot_key(i));
            }
        }
        let max_nib = key_bytes.len() * 2;
        if self.arena.len() == 0 {
            let p = self.insert_into_empty_trie(off, key_len, value, key_bytes, max_nib);
            proof {
                lemma_count_some_push(start.index@, Some((off, key_len, value)));
                assert(self.slot_key(1) == Some(key_bytes@));
                assert forall|i: int| 0 <= i < self.index@.len() implies match #[trigger] self.slot_key(i) {
                    Some(k) => K::valid_repr(k),
                    None => true,
                } by {
                    if i < start.index@.len() {
                        assert(start.slot_key(i) == self.slot_key(i)) by {
                            assert(self.index@[i] == start.index@[i]);
                        }
                    }
                }
            }
            return Ok(p);
        }
        match self.find_insert_case(key_bytes, max_nib) {
            Ok((case, path)) => {
                let p = self.place_new_key(case, path, off, key_len, value, Ghost(key_bytes@));
                Ok(p)
            },
            Err(()) => {
                self.buf.truncate(off);
                self.n_keys -= 1;
                proof {
                    assert(self.buf@ =~= start.buf@);
                    self.lemma_wf_transfer(start);
                }
                Err(())
            },
        }
    }

    /// Place the new key, whose bytes `kb` are at `buf[off..off + key_len]`,
    /// into a fresh slot `p` in key order and wire it into the arena as `case`
    /// says.
    fn place_new_key(
        &mut self,
        case: Case,
        path: Vec<(usize, usize)>,
        off: usize,
        key_len: LEN,
        value: T,
        Ghost(kb): Ghost<Seq<u8>>,
    ) -> (p: usize)
        requires
            old(self).structure_ok(),
            old(self).keys_valid(),
            old(self).n_keys == count_some(old(self).index@) + 1,
            old(self).case_ok(case),
            old(self).path_ok(path@),
            old(self).arena@.len() < PTR::imax(),
            old(self).index@.len() < PTR::imax(),
            1 <= off,
            off + key_len.ival() <= old(self).buf@.len(),
            old(self).buf@.subrange(off as int, off + key_len.ival()) == kb,
            K::valid_repr(kb),
            old(self).case_key_ok(case, kb),
            old(self).reaches(0, kb, case_phys(case)),
        ensures
            final(self).wf(),
            final(self).slot_key(p as int) == Some(kb),
            final(self).slot_value(p as int) == Some(value),
            count_some(final(self).index@) == count_some(old(self).index@) + 1,
            final(self).descend(0, kb) == Some(p as int),
    {
        let p_opt = match self.compute_p(&case, &path) {
            Some(p) => if 1 <= p && p < self.index.len() {
                Some(p)
            } else {
                None
            },
            None => None,
        };
        let ghost pre_slots = *self;
        let p = match p_opt {
            None => {
                let p = self.index.len();
                self.index.push(Some((off, key_len, value)));
                proof {
                    self.lemma_arena_eq(pre_slots);
                    self.lemma_same_shape_case_eq(pre_slots, case, path@);
                    lemma_count_some_push(pre_slots.index@, Some((off, key_len, value)));
                    assert forall|i: int| 0 <= i < self.index@.len() implies #[trigger] self.slot_in_bounds(i) by {
                        if i < pre_slots.index@.len() {
                            assert(pre_slots.slot_in_bounds(i));
                        }
                    }
                    assert forall|i: int| 0 <= i < self.index@.len() implies match #[trigger] self.slot_key(i) {
                        Some(k) => K::valid_repr(k),
                        None => true,
                    } by {
                        if i < pre_slots.index@.len() {
                            assert(pre_slots.slot_key(i) == self.slot_key(i));
                        }
                    }
                }
                proof {
                    Self::lemma_arena_eq_routes(pre_slots, *self);
                }
                p
            },
            Some(p) => {
                let mut n: usize = 0;
                let len = self.index.len();
                while n < len - p && self.index[p + n].is_some()
                    invariant
                        p < len,
                        len == self.index@.len(),
                        n <= len - p,
                        forall|j: int| p <= j < p + n ==> (#[trigger] self.index@[j]) is Some,
                    decreases len - p - n,
                {
                    n += 1;
                }
                if p + n >= self.index.len() {
                    self.index.push(None);
                    proof {
                        self.lemma_arena_eq(pre_slots);
                        self.lemma_same_shape_case_eq(pre_slots, case, path@);
                        lemma_count_some_push(pre_slots.index@, None);
                        assert forall|i: int| 0 <= i < self.index@.len() implies #[trigger] self.slot_in_bounds(i) by {
                            if i < pre_slots.index@.len() {
                                assert(pre_slots.slot_in_bounds(i));
                            }
                        }
                        assert forall|i: int| 0 <= i < self.index@.len() implies match #[trigger] self.slot_key(i) {
                            Some(k) => K::valid_repr(k),
                            None => true,
                        } by {
                            if i < pre_slots.index@.len() {
                                assert(pre_slots.slot_key(i) == self.slot_key(i));
                            }
                        }
                    }
                }
                let ghost before_open = *self;
                self.open_slot(p, n, case, &path);
                let ghost before_place = *self;
                self.index.set(p, Some((off, key_len, value)));
                proof {
                    self.lemma_arena_eq(before_place);
                    self.lemma_same_shape_case_eq(before_place, case, path@);
                    lemma_count_some_update(before_place.index@, p as int, Some((off, key_len, value)));
                    assert forall|i: int| 0 <= i < self.index@.len() implies #[trigger] self.slot_in_bounds(i) by {
                        if i != p {
                            assert(before_place.slot_in_bounds(i));
                        }
                    }
                    assert forall|i: int| 0 <= i < self.index@.len() implies match #[trigger] self.slot_key(i) {
                        Some(k) => K::valid_repr(k),
                        None => true,
                    } by {
                        if i != p {
                            assert(before_place.slot_key(i) == self.slot_key(i));
                        }
                    }
                }
                proof {
                    Self::lemma_arena_eq_routes(pre_slots, before_open);
                    Self::lemma_routes_trans(pre_slots, before_open, before_place);
                    Self::lemma_arena_eq_routes(before_place, *self);
                    Self::lemma_routes_trans(pre_slots, before_place, *self);
                }
                p
            },
        };
        let ghost before_exec = *self;
        proof {
            Self::lemma_reaches_kept_all(pre_slots, *self, 0, kb, case_phys(case));
            Self::lemma_case_key_kept(pre_slots, *self, case, kb);
        }
        self.execute_case(case, p, &path, Ghost(kb));
        proof {
            assert forall|i: int| 0 <= i < self.index@.len() implies #[trigger] self.slot_key(i) == before_exec.slot_key(i) by {}
        }
        p
    }

    /// Make slot `p` a gap by shifting the run of `n` occupied slots starting
    /// at `p` right by one (into the gap at `p + n`), after bumping the arena
    /// references to the shifted keys.
    fn open_slot(&mut self, p: usize, n: usize, case: Case, path: &Vec<(usize, usize)>)
        requires
            old(self).structure_ok(),
            old(self).keys_valid(),
            old(self).case_ok(case),
            old(self).path_ok(path@),
            1 <= p,
            p + n < old(self).index@.len(),
            old(self).index@[p + n] is None,
            forall|j: int| p <= j < p + n ==> (#[trigger] old(self).index@[j]) is Some,
        ensures
            final(self).structure_ok(),
            final(self).keys_valid(),
            final(self).case_ok(case),
            final(self).path_ok(path@),
            final(self).index@.len() == old(self).index@.len(),
            final(self).buf@ == old(self).buf@,
            final(self).n_keys == old(self).n_keys,
            final(self).arena@.len() == old(self).arena@.len(),
            final(self).index@[p as int] is None,
            count_some(final(self).index@) == count_some(old(self).index@),
            forall|i: int| 0 <= i < final(self).index@.len() && i != p ==> #[trigger] final(self).slot_key(i)
                == old(self).slot_key(if p < i <= p + n { i - 1 } else { i }),
            Self::routes_kept_except(*old(self), *final(self), -1),
    {
        if n == 0 {
            return;
        }
        let mut succ_bytes: Vec<u8> = match self.key_slice(PTR::from_usize(p)) {
            Some(k) => vstd::slice::slice_to_vec(k),
            None => Vec::new(),
        };
        if succ_bytes.len() > usize::MAX / 2 {
            succ_bytes = Vec::new();
        }
        let stack: Vec<(usize, u16, usize)> = {
            let mut it = self.walk_iter();
            it.seek(succ_bytes.as_slice());
            let mut out: Vec<(usize, u16, usize)> = Vec::new();
            let mut k: usize = 0;
            while k < it.stack.len()
                invariant
                    it.wf(),
                    *it.trie == *self,
                    k <= it.stack@.len(),
                    self.stack_ok(out@),
                decreases it.stack@.len() - k,
            {
                let (a, b, c) = it.stack[k];
                proof {
                    assert(self.frame_ok(it.stack@[k as int].0.ival() as int, it.stack@[k as int].1, it.stack@[k as int].2));
                    PTR::lemma_imax();
                }
                out.push((a.as_usize(), b, c));
                k += 1;
            }
            out
        };
        let ghost before_bump = *self;
        self.bump_walk(stack, p, n);
        proof {
            self.lemma_same_shape_case(before_bump, case, path@);
            assert forall|i: int| 0 <= i < self.index@.len() implies #[trigger] self.slot_key(i) == before_bump.slot_key(i) by {}
        }
        let ghost pre_shift = *self;
        let mut j = n;
        while j > 0
            invariant
                1 <= p,
                p + n < self.index@.len(),
                j <= n,
                self.structure_ok(),
                self.arena@ == pre_shift.arena@,
                self.buf@ == pre_shift.buf@,
                self.n_keys == pre_shift.n_keys,
                self.index@.len() == pre_shift.index@.len(),
                self.index@[p + j] is None,
                count_some(self.index@) == count_some(pre_shift.index@),
                self.keys_valid(),
                forall|i: int| 0 <= i < self.index@.len() && i != p + j ==> #[trigger] self.slot_key(i)
                    == pre_shift.slot_key(if p + j < i <= p + n { i - 1 } else { i }),
            decreases j,
        {
            let ghost before = *self;
            let x = self.index[p + j - 1].take();
            proof {
                lemma_count_some_update(before.index@, p + j - 1, None);
            }
            let ghost mid = self.index@;
            self.index.set(p + j, x);
            proof {
                self.lemma_arena_eq(before);
                lemma_count_some_update(mid, p + j as int, x);
                assert forall|i: int| 0 <= i < self.index@.len() implies #[trigger] self.slot_in_bounds(i) by {
                    if i == p + j {
                        assert(before.slot_in_bounds(p + j - 1));
                    } else if i != p + j - 1 {
                        assert(before.slot_in_bounds(i));
                    }
                }
                assert forall|i: int| 0 <= i < self.index@.len() && i != p + j - 1 implies #[trigger] self.slot_key(i)
                    == pre_shift.slot_key(if p + j - 1 < i <= p + n { i - 1 } else { i }) by {
                    if i == p + j {
                        assert(self.slot_key(i) == before.slot_key(p + j - 1));
                    } else {
                        assert(self.slot_key(i) == before.slot_key(i));
                    }
                }
                assert forall|i: int| 0 <= i < self.index@.len() implies match #[trigger] self.slot_key(i) {
                    Some(k) => K::valid_repr(k),
                    None => true,
                } by {
                    if i == p + j {
                        assert(self.slot_key(i) == before.slot_key(p + j - 1));
                    } else if i != p + j - 1 {
                        assert(self.slot_key(i) == before.slot_key(i));
                    }
                }
            }
            j -= 1;
        }
        proof {
            self.lemma_same_shape_case_eq(pre_shift, case, path@);
            pre_shift.lemma_same_shape_routes(before_bump);
            assert forall|q: int, m: int| 0 <= q < self.arena@.len() && 0 <= m < 16 implies
                (#[trigger] self.is_internal_edge(q, m) <==> pre_shift.is_internal_edge(q, m)) by {
                assert(self.arena@[q] == pre_shift.arena@[q]);
            }
        }
    }

    /// A trie with the same arena keeps the prefix lengths and internal edges.
    proof fn lemma_arena_eq_routes(o: Self, t: Self)
        requires
            t.arena@ == o.arena@,
        ensures
            Self::routes_kept_except(o, t, -1),
    {
    }

    proof fn lemma_routes_trans(a: Self, b: Self, c: Self)
        requires
            Self::routes_kept_except(a, b, -1),
            Self::routes_kept_except(b, c, -1),
        ensures
            Self::routes_kept_except(a, c, -1),
    {
        assert forall|q: int| 0 <= q < a.arena@.len() implies #[trigger] c.prefix_of(q) == a.prefix_of(q) by {
            assert(c.prefix_of(q) == b.prefix_of(q));
        }
        assert forall|q: int, n: int| 0 <= q < a.arena@.len() && 0 <= n < 16 implies
            (#[trigger] c.is_internal_edge(q, n) <==> a.is_internal_edge(q, n)) by {
            assert(c.is_internal_edge(q, n) <==> b.is_internal_edge(q, n));
        }
        assert forall|q: int, n: int| 0 <= q < a.arena@.len() && 0 <= n < 16 && #[trigger] a.is_internal_edge(q, n) implies
            c.child_of(q, n) == a.child_of(q, n) by {
            assert(b.is_internal_edge(q, n));
        }
    }

    /// A trie with the same shape keeps the prefix lengths and internal edges.
    proof fn lemma_same_shape_routes(self, other: Self)
        requires
            other.structure_ok(),
            self.same_shape(other),
        ensures
            Self::routes_kept_except(other, self, -1),
    {
        self.lemma_same_shape_wf(other);
        assert forall|q: int| 0 <= q < other.arena@.len() implies #[trigger] self.prefix_of(q) == other.prefix_of(q) by {
            assert(self.arena@[q].prefix_len == other.arena@[q].prefix_len);
        }
        assert forall|q: int, m: int| 0 <= q < other.arena@.len() && 0 <= m < 16 && #[trigger] other.is_internal_edge(q, m) implies
            self.child_of(q, m) == other.child_of(q, m) by {
            assert(self.arena@[q].leaf_mask == other.arena@[q].leaf_mask);
            assert(!bit16(self.arena@[q].leaf_mask, m));
            assert(self.arena@[q].children[m] == other.arena@[q].children[m]);
        }
    }

    /// The case's recorded nibbles stay true of a trie with the same prefix lengths.
    proof fn lemma_case_key_kept(o: Self, t: Self, case: Case, key: Seq<u8>)
        requires
            o.case_key_ok(case, key),
            Self::routes_kept_except(o, t, -1),
            0 <= case_phys(case) < o.arena@.len(),
        ensures
            t.case_key_ok(case, key),
    {
        assert(t.prefix_of(case_phys(case)) == o.prefix_of(case_phys(case)));
    }

    /// A trie with the same arena and possibly different index and buffer
    /// satisfies the same case and path facts.
    proof fn lemma_same_shape_case_eq(self, other: Self, case: Case, path: Seq<(usize, usize)>)
        requires
            self.arena@ == other.arena@,
            other.case_ok(case),
            other.path_ok(path),
        ensures
            self.case_ok(case),
            self.path_ok(path),
    {
        match case {
            Case::SplitNode { phys, diverge, .. } => {
                assert forall|p: int, n: int|
                    0 <= p < self.arena@.len() && 0 <= n < 16 && #[trigger] self.is_internal_edge(p, n)
                        && self.child_of(p, n) == phys implies self.prefix_of(p) < diverge by {
                    assert(other.is_internal_edge(p, n));
                }
            },
            _ => {},
        }
    }
}


/// `to` holds the length and value of `from`, and bytes of `to_buf` equal to the
/// bytes `from` addresses in `from_buf`.
pub open spec fn slot_moved<LEN: TrieIndex, T>(
    from: Option<Slot<LEN, T>>,
    from_buf: Seq<u8>,
    to: Option<Slot<LEN, T>>,
    to_buf: Seq<u8>,
) -> bool {
    match (from, to) {
        (Some(a), Some(b)) => {
            &&& a.1 == b.1
            &&& a.2 == b.2
            &&& 1 <= b.0
            &&& b.0 + b.1.ival() <= to_buf.len()
            &&& to_buf.subrange(b.0 as int, b.0 + b.1.ival()) == from_buf.subrange(a.0 as int, a.0 + a.1.ival())
        },
        _ => false,
    }
}

impl<K: ByteKey, T, PTR: TrieIndex, LEN: TrieIndex> NibbleTrie<K, T, PTR, LEN> {
    /// `self` has the nodes of `other` up to key references: the same prefix
    /// lengths, leaf masks, terminal flags, occupied slots and internal children.
    pub open spec fn same_topology(self, other: Self) -> bool {
        &&& self.arena@.len() == other.arena@.len()
        &&& forall|p: int| 0 <= p < self.arena@.len() ==> {
            &&& (#[trigger] self.arena@[p]).prefix_len == other.arena@[p].prefix_len
            &&& self.arena@[p].leaf_mask == other.arena@[p].leaf_mask
            &&& self.arena@[p].terminal == other.arena@[p].terminal
            &&& forall|n: int| 0 <= n < 16 ==> {
                &&& ((#[trigger] self.arena@[p].children[n]).raw() == 0) == (other.arena@[p].children[n].raw() == 0)
                &&& !bit16(self.arena@[p].leaf_mask, n) ==> self.arena@[p].children[n] == other.arena@[p].children[n]
            }
        }
    }

    proof fn lemma_same_topology_arena(self, other: Self)
        requires
            other.arena_ok(),
            self.same_topology(other),
        ensures
            self.arena_ok(),
            forall|p: int, n: int|
                0 <= p < self.arena@.len() && 0 <= n < 16 ==> (#[trigger] self.is_internal_edge(p, n) <==> other.is_internal_edge(p, n)),
            forall|p: int, n: int|
                0 <= p < self.arena@.len() && 0 <= n < 16 && #[trigger] self.is_internal_edge(p, n) ==> self.child_of(p, n) == other.child_of(p, n),
    {
        assert forall|p: int, n: int| 0 <= p < self.arena@.len() && 0 <= n < 16 implies (#[trigger] self.is_internal_edge(p, n) <==> other.is_internal_edge(p, n)) by {
            assert(self.arena@[p].children[n].raw() == 0 <==> other.arena@[p].children[n].raw() == 0);
        }
        assert forall|p: int, n: int|
            0 <= p < self.arena@.len() && 0 <= n < 16 && #[trigger] self.is_internal_edge(p, n) implies self.child_of(p, n) == other.child_of(p, n) by {
            assert(other.is_internal_edge(p, n));
        }
    }

    /// Well-formedness of the arena depends on the arena alone.
    proof fn lemma_arena_eq(self, other: Self)
        requires
            self.arena@ == other.arena@,
            other.arena_ok(),
        ensures
            self.arena_ok(),
            self.same_topology(other),
    {
        assert(self.same_topology(other));
        self.lemma_same_topology_arena(other);
    }

    proof fn lemma_topology_trans(a: Self, b: Self, c: Self)
        requires
            a.same_topology(b),
            b.same_topology(c),
        ensures
            a.same_topology(c),
    {
        assert forall|p: int| 0 <= p < a.arena@.len() implies {
            &&& (#[trigger] a.arena@[p]).prefix_len == c.arena@[p].prefix_len
            &&& a.arena@[p].leaf_mask == c.arena@[p].leaf_mask
            &&& a.arena@[p].terminal == c.arena@[p].terminal
            &&& forall|n: int| 0 <= n < 16 ==> {
                &&& ((#[trigger] a.arena@[p].children[n]).raw() == 0) == (c.arena@[p].children[n].raw() == 0)
                &&& !bit16(a.arena@[p].leaf_mask, n) ==> a.arena@[p].children[n] == c.arena@[p].children[n]
            }
        } by {
            assert(b.arena@[p].prefix_len == c.arena@[p].prefix_len);
            assert forall|n: int| 0 <= n < 16 implies {
                &&& ((#[trigger] a.arena@[p].children[n]).raw() == 0) == (c.arena@[p].children[n].raw() == 0)
                &&& !bit16(a.arena@[p].leaf_mask, n) ==> a.arena@[p].children[n] == c.arena@[p].children[n]
            } by {
                assert(b.arena@[p].children[n].raw() == 0 <==> c.arena@[p].children[n].raw() == 0);
            }
        }
    }

    /// The state of an `optimize` walk over the trie `src`: `self` is `src` with
    /// some slots taken, and every slot placed so far in `new_index` holds a
    /// taken slot of `src`, its bytes copied into `new_buf`. `i` keys have been
    /// placed, at odd slots below `2 * i + 1`.
    spec fn opt_state(
        self,
        src: Self,
        new_index: Seq<Option<Slot<LEN, T>>>,
        new_buf: Seq<u8>,
        i: usize,
        origin: Seq<int>,
    ) -> bool {
        &&& src.structure_ok()
        &&& self.structure_ok()
        &&& self.same_topology(src)
        &&& self.buf@ == src.buf@
        &&& self.index@.len() == src.index@.len()
        &&& forall|j: int| 0 <= j < self.index@.len() && (#[trigger] self.index@[j]) is Some ==> self.index@[j] == src.index@[j]
        &&& new_index.len() <= PTR::imax()
        &&& 2 * i <= new_index.len()
        &&& new_index.len() >= 1
        &&& new_index[0] is None
        &&& forall|s: int| 2 * i + 1 <= s < new_index.len() ==> (#[trigger] new_index[s]) is None
        &&& forall|s: int| 0 <= s < 2 * i + 1 && s < new_index.len() ==> ((#[trigger] new_index[s]) is Some <==> s % 2 == 1)
        &&& count_some(new_index) == i
        &&& i + count_some(self.index@) == count_some(src.index@)
        &&& new_buf.len() >= 1
        &&& origin.len() == new_index.len()
        &&& forall|s: int| 0 <= s < new_index.len() && (#[trigger] new_index[s]) is Some ==> {
            &&& 0 <= origin[s] < src.index@.len()
            &&& self.index@[origin[s]] is None
            &&& slot_moved(src.index@[origin[s]], src.buf@, new_index[s], new_buf)
        }
        &&& forall|j: int| 0 <= j < src.index@.len() && (#[trigger] src.index@[j]) is Some && self.index@[j] is None
            ==> exists|s: int| 0 <= s < new_index.len() && origin[s] == j && (#[trigger] new_index[s]) is Some
    }

    /// Move the slot `old_ki` of `self` to slot `2 * i + 1` of `new_index`,
    /// copying its bytes to the end of `new_buf`. Returns the new slot, or
    /// `None` (and changes nothing) when `old_ki` is a gap or out of range or
    /// `new_index` is full.
    fn place_key(
        &mut self,
        old_ki: usize,
        new_index: &mut Vec<Option<Slot<LEN, T>>>,
        new_buf: &mut Vec<u8>,
        i: &mut usize,
        Ghost(src): Ghost<Self>,
        Ghost(origin): Ghost<Seq<int>>,
    ) -> (r: (Option<usize>, Ghost<Seq<int>>))
        requires
            old(self).opt_state(src, old(new_index)@, old(new_buf)@, *old(i), origin),
        ensures
            final(self).opt_state(src, final(new_index)@, final(new_buf)@, *final(i), r.1@),
            final(self).arena@ == old(self).arena@,
            final(self).n_keys == old(self).n_keys,
            *final(i) >= *old(i),
            final(new_index)@.len() == old(new_index)@.len(),
            r.0 matches Some(s) ==> 1 <= s < final(new_index)@.len(),
            r.0 is Some <==> (2 * *old(i) + 1 < old(new_index)@.len() && old_ki < old(self).index@.len()
                && old(self).index@[old_ki as int] is Some),
            final(self).index@ == (if r.0 is Some {
                old(self).index@.update(old_ki as int, None)
            } else {
                old(self).index@
            }),
    {
        let slot = 2 * *i + 1;
        if slot >= new_index.len() || old_ki >= self.index.len() {
            return (None, Ghost(origin));
        }
        let ghost before = *self;
        let ghost nb0 = new_buf@;
        let ghost ni0 = new_index@;
        if self.index[old_ki].is_none() {
            return (None, Ghost(origin));
        }
        let taken = self.index[old_ki].take();
        match taken {
            None => {
                proof {
                    assert(false);
                }
                (None, Ghost(origin))
            },
            Some(entry) => {
                let (off, len, val) = entry;
                proof {
                    lemma_count_some_update(before.index@, old_ki as int, None);
                    assert(before.slot_in_bounds(old_ki as int));
                    assert(before.index@[old_ki as int] == src.index@[old_ki as int]);
                }
                let l = len.as_usize();
                let _blen = self.buf.len();
                let start = new_buf.len();
                append_bytes(new_buf, vstd::slice::slice_subrange(self.buf.as_slice(), off, off + l));
                proof {
                    lemma_count_some_update(ni0, slot as int, Some((start, len, val)));
                }
                new_index.set(slot, Some((start, len, val)));
                *i = *i + 1;
                let ghost org = origin.update(slot as int, old_ki as int);
                proof {
                    self.lemma_arena_eq(before);
                    Self::lemma_topology_trans(*self, before, src);
                    assert forall|j: int| 0 <= j < self.index@.len() implies #[trigger] self.slot_in_bounds(j) by {
                        assert(before.slot_in_bounds(j));
                    }
                    assert forall|s: int| 0 <= s < new_index@.len() && (#[trigger] new_index@[s]) is Some implies {
                        &&& 0 <= org[s] < src.index@.len()
                        &&& self.index@[org[s]] is None
                        &&& slot_moved(src.index@[org[s]], src.buf@, new_index@[s], new_buf@)
                    } by {
                        if s == slot {
                            assert(new_buf@.subrange(start as int, start + l) =~= self.buf@.subrange(off as int, off + l));
                        } else {
                            assert(ni0[s] is Some);
                            let b = new_index@[s]->Some_0;
                            assert(new_buf@.subrange(b.0 as int, b.0 + b.1.ival()) =~= nb0.subrange(b.0 as int, b.0 + b.1.ival()));
                        }
                    }
                    assert forall|s: int| 2 * *i + 1 <= s < new_index@.len() implies (#[trigger] new_index@[s]) is None by {
                        assert(ni0[s] is None);
                    }
                    assert forall|s: int| 0 <= s < 2 * *i + 1 && s < new_index@.len() implies
                        ((#[trigger] new_index@[s]) is Some <==> s % 2 == 1) by {
                        if s != slot {
                            assert(new_index@[s] == ni0[s]);
                        }
                    }
                    assert forall|j: int| 0 <= j < src.index@.len() && (#[trigger] src.index@[j]) is Some && self.index@[j] is None
                        implies exists|s: int| 0 <= s < new_index@.len() && org[s] == j && (#[trigger] new_index@[s]) is Some by {
                        if j == old_ki {
                            assert(org[slot as int] == j && new_index@[slot as int] is Some);
                        } else {
                            assert(before.index@[j] is None);
                            let s = choose|s: int| 0 <= s < ni0.len() && origin[s] == j && (#[trigger] ni0[s]) is Some;
                            assert(s != slot);
                            assert(org[s] == j && new_index@[s] is Some);
                        }
                    }
                }
                (Some(slot), Ghost(org))
            },
        }
    }

    /// Walk the subtree of `phys` in key order, placing each key with
    /// [`Self::place_key`] and pointing the arena's key references at the new
    /// slots. Returns the slot of the first key placed in the subtree.
    fn walk_optimize(
        &mut self,
        phys: usize,
        new_index: &mut Vec<Option<Slot<LEN, T>>>,
        new_buf: &mut Vec<u8>,
        i: &mut usize,
        Ghost(src): Ghost<Self>,
        Ghost(origin): Ghost<Seq<int>>,
    ) -> (r: (Option<usize>, Ghost<Seq<int>>))
        requires
            old(self).opt_state(src, old(new_index)@, old(new_buf)@, *old(i), origin),
            phys < old(self).arena@.len(),
        ensures
            final(self).opt_state(src, final(new_index)@, final(new_buf)@, *final(i), r.1@),
            *final(i) >= *old(i),
            final(self).n_keys == old(self).n_keys,
            final(new_index)@.len() == old(new_index)@.len(),
            r.0 matches Some(s) ==> 1 <= s < final(new_index)@.len(),
        decreases LEN::imax() + 1 - src.prefix_of(phys as int),
    {
        proof {
            LEN::lemma_ival_bounds(src.arena@[phys as int].prefix_len);
        }
        let node = self.arena[phys];
        let mut first: Option<usize> = None;
        let ghost mut org = origin;
        if node.is_terminal() {
            let old_ki = node.leaf.get().as_usize();
            let (placed, o) = self.place_key(old_ki, new_index, new_buf, i, Ghost(src), Ghost(org));
            proof {
                org = o@;
            }
            first = placed;
        }
        let mut nib: usize = 0;
        while nib < 16
            invariant
                self.opt_state(src, new_index@, new_buf@, *i, org),
                phys < self.arena@.len(),
                nib <= 16,
                *i >= *old(i),
                self.n_keys == old(self).n_keys,
                new_index@.len() == old(new_index)@.len(),
                node.prefix_len == src.arena@[phys as int].prefix_len,
                node.leaf_mask == src.arena@[phys as int].leaf_mask,
                forall|n: int| 0 <= n < 16 ==> {
                    &&& ((#[trigger] node.children[n]).raw() == 0) == (src.arena@[phys as int].children[n].raw() == 0)
                    &&& !bit16(node.leaf_mask, n) ==> node.children[n] == src.arena@[phys as int].children[n]
                },
                first matches Some(s) ==> 1 <= s < new_index@.len(),
                src.prefix_of(phys as int) <= LEN::imax(),
            decreases 16 - nib,
        {
            if node.is_occupied(nib) {
                if node.is_leaf(nib) {
                    let old_ki = node.children[nib].get().as_usize();
                    let (placed, o) = self.place_key(old_ki, new_index, new_buf, i, Ghost(src), Ghost(org));
                    proof {
                        org = o@;
                    }
                    match placed {
                        Some(slot) => {
                            let ghost before = *self;
                            proof {
                                assert(self.arena@[phys as int].children[nib as int].raw() == 0
                                    <==> src.arena@[phys as int].children[nib as int].raw() == 0);
                                PTR::lemma_imax();
                            }
                            self.set_leaf_child_ref(phys, nib, PTR::from_usize(slot));
                            proof {
                                Self::lemma_topology_trans(*self, before, src);
                            }
                            if first.is_none() {
                                first = Some(slot);
                            }
                        },
                        None => {},
                    }
                } else {
                    proof {
                        assert(src.is_internal_edge(phys as int, nib as int));
                        assert(src.structure_ok());
                        PTR::lemma_imax();
                    }
                    let c = node.children[nib].get().as_usize();
                    proof {
                        assert(c == src.child_of(phys as int, nib as int));
                        assert(src.prefix_of(c as int) > src.prefix_of(phys as int));
                        LEN::lemma_ival_bounds(src.arena@[c as int].prefix_len);
                        assert(c < self.arena@.len());
                    }
                    let (cf, o) = self.walk_optimize(c, new_index, new_buf, i, Ghost(src), Ghost(org));
                    proof {
                        org = o@;
                    }
                    if first.is_none() {
                        first = cf;
                    }
                }
            }
            nib += 1;
        }
        match first {
            Some(s) => {
                let ghost before = *self;
                proof {
                    PTR::lemma_imax();
                }
                self.set_leaf_ref(phys, OptNz::from_index(PTR::from_usize(s)));
                proof {
                    Self::lemma_topology_trans(*self, before, src);
                }
            },
            None => {},
        }
        (first, Ghost(org))
    }

    /// Rewrite `buf` in key order and spread the keys over a fresh index of
    /// `2 * n + 1` slots, the key of rank `i` at slot `2 * i + 1`, then point
    /// the arena's key references at the new slots. The node structure is
    /// unchanged. The result holds only keys and values that the trie held.
    pub fn optimize(&mut self)
        requires
            old(self).wf(),
            2 * old(self).n_keys + 1 <= PTR::imax(),
        ensures
            final(self).wf(),
            final(self).same_topology(*old(self)),
            old(self).arena@.len() == 0 ==> *final(self) == *old(self),
            old(self).arena@.len() > 0 ==> final(self).index@.len() == 2 * old(self).n_keys + 1,
            old(self).arena@.len() > 0 ==> forall|s: int| 0 <= s < final(self).index@.len()
                ==> ((#[trigger] final(self).index@[s]) is Some <==> s % 2 == 1),
            final(self).n_keys == old(self).n_keys,
            forall|s: int| #[trigger] final(self).slot_key(s) is Some ==> exists|j: int|
                0 <= j < old(self).index@.len() && old(self).slot_key(j) == final(self).slot_key(s)
                    && old(self).slot_value(j) == final(self).slot_value(s),
            forall|j: int| #[trigger] old(self).slot_key(j) is Some ==> exists|s: int|
                0 <= s < final(self).index@.len() && final(self).slot_key(s) == old(self).slot_key(j)
                    && final(self).slot_value(s) == old(self).slot_value(j),
    {
        if self.arena.len() == 0 {
            return;
        }
        let n = self.n_keys;
        let cap = 2 * n + 1;
        let mut new_index: Vec<Option<Slot<LEN, T>>> = Vec::with_capacity(cap);
        let mut k: usize = 0;
        while k < cap
            invariant
                k <= cap,
                new_index@.len() == k,
                forall|s: int| 0 <= s < k ==> (#[trigger] new_index@[s]) is None,
            decreases cap - k,
        {
            new_index.push(None);
            k += 1;
        }
        let mut new_buf: Vec<u8> = Vec::with_capacity(self.buf.len());
        new_buf.push(0);
        let mut i: usize = 0;
        let ghost src = *self;
        proof {
            lemma_count_some_none(new_index@);
            assert(self.same_topology(src));
        }
        let (_, o) = self.walk_optimize(0, &mut new_index, &mut new_buf, &mut i, Ghost(src), Ghost(Seq::new(cap as nat, |s: int| 0int)));
        let ghost mut org = o@;
        // Keys that the walk did not reach keep their relative order after the
        // walked ones.
        let mut j: usize = 0;
        while j < self.index.len()
            invariant
                self.opt_state(src, new_index@, new_buf@, i, org),
                new_index@.len() == cap,
                cap == 2 * src.n_keys + 1,
                src.wf(),
                self.n_keys == src.n_keys,
                j <= self.index@.len(),
                forall|k: int| 0 <= k < j ==> (#[trigger] self.index@[k]) is None,
            decreases self.index@.len() - j,
        {
            if self.index[j].is_some() {
                proof {
                    lemma_count_some_pos(self.index@, j as int);
                }
                let (_, o2) = self.place_key(j, &mut new_index, &mut new_buf, &mut i, Ghost(src), Ghost(org));
                proof {
                    org = o2@;
                }
            }
            j += 1;
        }
        proof {
            lemma_count_some_none(self.index@);
        }
        let ghost walked = *self;
        self.buf = new_buf;
        self.index = new_index;
        proof {
            assert(i == n);
        }
        proof {
            self.lemma_same_topology_arena(src);
            assert forall|j: int| 0 <= j < self.index@.len() implies #[trigger] self.slot_in_bounds(j) by {
                if self.index@[j] is Some {
                    assert(slot_moved(src.index@[org[j]], src.buf@, self.index@[j], self.buf@));
                }
            }
            assert forall|s: int| #[trigger] self.slot_key(s) is Some implies exists|j: int|
                0 <= j < src.index@.len() && src.slot_key(j) == self.slot_key(s)
                    && src.slot_value(j) == self.slot_value(s) by {
                let j = org[s];
                assert(slot_moved(src.index@[j], src.buf@, self.index@[s], self.buf@));
                assert(src.slot_key(j) == self.slot_key(s));
            }
            assert forall|s: int| 0 <= s < self.index@.len() implies match #[trigger] self.slot_key(s) {
                Some(k) => K::valid_repr(k),
                None => true,
            } by {
                if self.index@[s] is Some {
                    let j = org[s];
                    assert(slot_moved(src.index@[j], src.buf@, self.index@[s], self.buf@));
                    assert(src.slot_key(j) == self.slot_key(s));
                }
            }
            assert forall|j: int| #[trigger] src.slot_key(j) is Some implies exists|s: int|
                0 <= s < self.index@.len() && self.slot_key(s) == src.slot_key(j)
                    && self.slot_value(s) == src.slot_value(j) by {
                assert(src.index@[j] is Some);
                assert(walked.index@[j] is None);
                let s = choose|s: int| 0 <= s < self.index@.len() && org[s] == j && (#[trigger] self.index@[s]) is Some;
                assert(slot_moved(src.index@[j], src.buf@, self.index@[s], self.buf@));
                assert(self.slot_key(s) == src.slot_key(j));
            }
        }
    }
}

proof fn lemma_count_some_pos<X>(s: Seq<Option<X>>, i: int)
    requires
        0 <= i < s.len(),
        s[i] is Some,
    ensures
        count_some(s) >= 1,
    decreases s.len(),
{
    if i < s.len() - 1 {
        lemma_count_some_pos(s.drop_last(), i);
    }
}

proof fn lemma_count_some_none<X>(s: Seq<Option<X>>)
    requires
        forall|i: int| 0 <= i < s.len() ==> (#[trigger] s[i]) is None,
    ensures
        count_some(s) == 0,
    decreases s.len(),
{
    if s.len() > 0 {
        lemma_count_some_none(s.drop_last());
    }
}


/// The first occupied slot of `s` at or after `from`, or `s.len()` if none.
pub open spec fn next_some<X>(s: Seq<Option<X>>, from: int) -> int
    decreases s.len() - from,
{
    if from >= s.len() {
        s.len() as int
    } else if from >= 0 && s[from] is Some {
        from
    } else {
        next_some(s, from + 1)
    }
}

/// The last occupied slot of `s` in `[1, from]`, or `0` if none.
pub open spec fn prev_some<X>(s: Seq<Option<X>>, from: int) -> int
    decreases from,
{
    if from < 1 {
        0
    } else if from < s.len() && s[from] is Some {
        from
    } else {
        prev_some(s, from - 1)
    }
}

/// Every slot from `from` up to `next_some(s, from)` is a gap.
proof fn lemma_next_some_gaps<X>(s: Seq<Option<X>>, from: int)
    requires
        0 <= from,
    ensures
        forall|k: int| from <= k < next_some(s, from) && k < s.len() ==> #[trigger] s[k] is None,
    decreases s.len() - from,
{
    if from < s.len() && s[from] is None {
        lemma_next_some_gaps(s, from + 1);
    }
}

/// From `m` back to an occupied slot `i` with only gaps in between, the last
/// occupied slot is `i`.
proof fn lemma_prev_some_over_gaps<X>(s: Seq<Option<X>>, i: int, m: int)
    requires
        1 <= i <= m < s.len(),
        s[i] is Some,
        forall|k: int| i < k <= m ==> #[trigger] s[k] is None,
    ensures
        prev_some(s, m) == i,
    decreases m - i,
{
    if m > i {
        lemma_prev_some_over_gaps(s, i, m - 1);
    }
}

/// From `m` forward to an occupied slot `i` with only gaps in between, the
/// first occupied slot is `i`.
proof fn lemma_next_some_over_gaps<X>(s: Seq<Option<X>>, m: int, i: int)
    requires
        0 <= m <= i < s.len(),
        s[i] is Some,
        forall|k: int| m <= k < i ==> #[trigger] s[k] is None,
    ensures
        next_some(s, m) == i,
    decreases i - m,
{
    if m < i {
        lemma_next_some_over_gaps(s, m + 1, i);
    }
}

/// Every slot after `prev_some(s, from)` up to `from` is a gap.
proof fn lemma_prev_some_gaps<X>(s: Seq<Option<X>>, from: int)
    ensures
        forall|k: int| prev_some(s, from) < k <= from && 1 <= k < s.len() ==> #[trigger] s[k] is None,
    decreases from,
{
    if from >= 1 && !(from < s.len() && s[from] is Some) {
        lemma_prev_some_gaps(s, from - 1);
    }
}

/// A cursor's `prev` undoes its `next`: from an occupied slot `i`, stepping to
/// the next occupied slot and back returns to `i`.
pub proof fn lemma_prev_undoes_next<X>(s: Seq<Option<X>>, i: int)
    requires
        1 <= i < s.len(),
        s[i] is Some,
        next_some(s, i + 1) < s.len(),
    ensures
        prev_some(s, next_some(s, i + 1) - 1) == i,
{
    let j = next_some(s, i + 1);
    lemma_next_some_bounds(s, i + 1);
    lemma_next_some_gaps(s, i + 1);
    lemma_prev_some_over_gaps(s, i, j - 1);
}

/// A cursor's `next` undoes its `prev`: from an occupied slot `i`, stepping to
/// the previous occupied slot and forward again returns to `i`.
pub proof fn lemma_next_undoes_prev<X>(s: Seq<Option<X>>, i: int)
    requires
        1 <= i < s.len(),
        s[i] is Some,
        prev_some(s, i - 1) >= 1,
    ensures
        next_some(s, prev_some(s, i - 1) + 1) == i,
{
    let j = prev_some(s, i - 1);
    lemma_prev_some_bounds(s, i - 1);
    lemma_prev_some_gaps(s, i - 1);
    lemma_next_some_over_gaps(s, j + 1, i);
}

proof fn lemma_next_some_bounds<X>(s: Seq<Option<X>>, from: int)
    requires
        0 <= from,
    ensures
        from <= next_some(s, from) <= s.len() || (from > s.len() && next_some(s, from) == s.len()),
        next_some(s, from) < s.len() ==> s[next_some(s, from)] is Some,
    decreases s.len() - from,
{
    if from < s.len() && s[from] is None {
        lemma_next_some_bounds(s, from + 1);
    }
}

proof fn lemma_prev_some_bounds<X>(s: Seq<Option<X>>, from: int)
    ensures
        0 <= prev_some(s, from),
        from >= 0 ==> prev_some(s, from) <= from,
        prev_some(s, from) >= 1 ==> prev_some(s, from) < s.len() && s[prev_some(s, from)] is Some,
    decreases from,
{
    if from >= 1 && !(from < s.len() && s[from] is Some) {
        lemma_prev_some_bounds(s, from - 1);
    }
}

/// Public cursor over a [`NibbleTrie`]: a linear scan of the sparse `index`,
/// skipping gaps. It is parked on an occupied slot, or on a sentinel: `0`
/// (before the first key) or `index.len()` (past the last key). The key and
/// value of the parked slot are cached.
pub struct Cursor<'a, K: ByteKey, T, PTR: TrieIndex, LEN: TrieIndex> {
    trie: &'a NibbleTrie<K, T, PTR, LEN>,
    pos: usize,
    cur: Option<(&'a [u8], &'a T)>,
}

impl<'a, K: ByteKey, T, PTR: TrieIndex, LEN: TrieIndex> Cursor<'a, K, T, PTR, LEN> {
    /// The trie being walked.
    pub closed spec fn trie(self) -> NibbleTrie<K, T, PTR, LEN> {
        *self.trie
    }

    /// The slot the cursor is parked on (or a sentinel).
    pub closed spec fn pos(self) -> int {
        self.pos as int
    }

    /// The cached key and value.
    pub closed spec fn cached(self) -> Option<(&'a [u8], &'a T)> {
        self.cur
    }

    /// The cache holds the key and value of the parked slot, or `None` when it
    /// is a gap or a sentinel.
    pub open spec fn cache_ok(self) -> bool {
        match self.cached() {
            Some(kv) => self.trie().slot_key(self.pos()) == Some(kv.0@)
                && self.trie().slot_value(self.pos()) == Some(*kv.1),
            None => self.trie().slot_key(self.pos()) is None,
        }
    }

    /// The trie is well formed, the position is a slot or a sentinel, and the
    /// cache matches it.
    pub open spec fn wf(self) -> bool {
        &&& self.trie().structure_ok()
        &&& 0 <= self.pos() <= self.trie().index@.len()
        &&& self.cache_ok()
    }

    /// Park at slot `pos`, caching its key and value.
    fn park(&mut self, pos: usize)
        requires
            old(self).trie().structure_ok(),
            pos <= old(self).trie().index@.len(),
        ensures
            final(self).wf(),
            final(self).trie() == old(self).trie(),
            final(self).pos() == pos,
    {
        let t = self.trie;
        self.pos = pos;
        self.cur = if pos < t.index.len() {
            match &t.index[pos] {
                Some(slot) => {
                    let off = slot.0;
                    let klen = slot.1.as_usize();
                    proof {
                        assert(t.slot_in_bounds(pos as int));
                    }
                    let _blen = t.buf.len();
                    Some((vstd::slice::slice_subrange(t.buf.as_slice(), off, off + klen), &slot.2))
                },
                None => None,
            }
        } else {
            None
        };
    }

    /// A forward cursor parked before the first key.
    pub fn new(trie: &'a NibbleTrie<K, T, PTR, LEN>) -> (r: Self)
        requires
            trie.structure_ok(),
        ensures
            r.wf(),
            r.trie() == *trie,
            r.pos() == 0,
            r.cached() is None,
    {
        Cursor { trie, pos: 0, cur: None }
    }

    /// A reverse cursor parked on the last key (or before the first key of an
    /// empty trie).
    pub fn new_last(trie: &'a NibbleTrie<K, T, PTR, LEN>) -> (r: Self)
        requires
            trie.structure_ok(),
        ensures
            r.wf(),
            r.trie() == *trie,
            r.pos() == prev_some(trie.index@, trie.index@.len() - 1),
    {
        let mut c = Cursor { trie, pos: 0, cur: None };
        c.last();
        c
    }

    /// Jump to the first key and return it; `None` (parked before the first
    /// key) for an empty trie.
    pub fn first(&mut self) -> (r: Option<(&'a [u8], &'a T)>)
        requires
            old(self).wf(),
        ensures
            final(self).wf(),
            final(self).trie() == old(self).trie(),
            final(self).pos() == (if next_some(old(self).trie().index@, 1) < old(self).trie().index@.len() {
                next_some(old(self).trie().index@, 1)
            } else {
                0
            }),
            r == final(self).cached(),
    {
        let len = self.trie.index.len();
        let mut i: usize = 1;
        while i < len
            invariant
                self.wf(),
                self.trie() == old(self).trie(),
                len == self.trie().index@.len(),
                1 <= i,
                next_some(self.trie().index@, 1) == next_some(self.trie().index@, i as int),
            decreases len - i,
        {
            if self.trie.index[i].is_some() {
                self.park(i);
                return self.cur;
            }
            i += 1;
        }
        self.park(0);
        None
    }

    /// Jump to the last key and return it; `None` (parked before the first
    /// key) for an empty trie.
    pub fn last(&mut self) -> (r: Option<(&'a [u8], &'a T)>)
        requires
            old(self).wf(),
        ensures
            final(self).wf(),
            final(self).trie() == old(self).trie(),
            final(self).pos() == prev_some(old(self).trie().index@, old(self).trie().index@.len() - 1),
            r == final(self).cached(),
    {
        let mut i = self.trie.index.len();
        while i > 1
            invariant
                self.wf(),
                self.trie() == old(self).trie(),
                i <= self.trie().index@.len(),
                prev_some(self.trie().index@, self.trie().index@.len() - 1) == prev_some(self.trie().index@, i - 1),
            decreases i,
        {
            i -= 1;
            if self.trie.index[i].is_some() {
                self.park(i);
                return self.cur;
            }
        }
        self.park(0);
        None
    }

    /// The key and value the cursor is parked on, if any.
    pub fn current(&self) -> (r: Option<(&'a [u8], &'a T)>)
        requires
            self.wf(),
        ensures
            r == self.cached(),
            r matches Some(kv) ==> self.trie().slot_key(self.pos()) == Some(kv.0@)
                && self.trie().slot_value(self.pos()) == Some(*kv.1),
            r is None ==> self.trie().slot_key(self.pos()) is None,
    {
        self.cur
    }

    /// The slot the cursor is parked on, if it is parked on a key.
    pub fn current_index(&self) -> (r: Option<usize>)
        requires
            self.wf(),
        ensures
            r == (if self.trie().slot_key(self.pos()) is Some {
                Some(self.pos() as usize)
            } else {
                None
            }),
    {
        if self.cur.is_some() {
            Some(self.pos)
        } else {
            None
        }
    }

    /// Advance to the next occupied slot and return its key and value; `None`
    /// (parked past the last key) when there is none.
    pub fn next(&mut self) -> (r: Option<(&'a [u8], &'a T)>)
        requires
            old(self).wf(),
        ensures
            final(self).wf(),
            final(self).trie() == old(self).trie(),
            final(self).pos() == next_some(old(self).trie().index@, old(self).pos() + 1),
            r == final(self).cached(),
    {
        if self.advance_next() {
            self.cur
        } else {
            None
        }
    }

    /// Step back to the previous occupied slot and return its key and value;
    /// `None` (parked before the first key) when there is none.
    pub fn prev(&mut self) -> (r: Option<(&'a [u8], &'a T)>)
        requires
            old(self).wf(),
        ensures
            final(self).wf(),
            final(self).trie() == old(self).trie(),
            final(self).pos() == prev_some(old(self).trie().index@, old(self).pos() - 1),
            r == final(self).cached(),
    {
        if self.advance_prev() {
            self.cur
        } else {
            None
        }
    }

    /// Advance as [`Self::next`] and return the slot reached.
    pub fn next_index(&mut self) -> (r: Option<usize>)
        requires
            old(self).wf(),
        ensures
            final(self).wf(),
            final(self).trie() == old(self).trie(),
            final(self).pos() == next_some(old(self).trie().index@, old(self).pos() + 1),
            r == (if final(self).pos() < final(self).trie().index@.len() {
                Some(final(self).pos() as usize)
            } else {
                None
            }),
    {
        if self.advance_next() {
            Some(self.pos)
        } else {
            None
        }
    }

    /// Step back as [`Self::prev`] and return the slot reached.
    pub fn prev_index(&mut self) -> (r: Option<usize>)
        requires
            old(self).wf(),
        ensures
            final(self).wf(),
            final(self).trie() == old(self).trie(),
            final(self).pos() == prev_some(old(self).trie().index@, old(self).pos() - 1),
            r == (if final(self).pos() >= 1 {
                Some(final(self).pos() as usize)
            } else {
                None
            }),
    {
        if self.advance_prev() {
            Some(self.pos)
        } else {
            None
        }
    }

    /// Land on the key the tree walk reaches by seeking `key` (the first key
    /// `>= key` in walk order) and return it; `None` (parked past the last key)
    /// when the walk finds none.
    pub fn seek(&mut self, key: &[u8]) -> (r: Option<(&'a [u8], &'a T)>)
        requires
            old(self).wf(),
            key@.len() * 2 <= usize::MAX,
        ensures
            final(self).wf(),
            final(self).trie() == old(self).trie(),
            r == final(self).cached(),
            r is None ==> final(self).pos() == final(self).trie().index@.len()
                || final(self).trie().slot_key(final(self).pos()) is None,
            old(self).trie().lookup(key@) matches Some(i) ==> r is Some && final(self).pos() == i,
    {
        let t = self.trie;
        let pos = {
            let mut w = t.walk_iter();
            w.seek(key);
            w.current_index()
        };
        match pos {
            Some(p) => {
                if p <= t.index.len() {
                    self.park(p);
                } else {
                    self.park(t.index.len());
                }
                self.cur
            },
            None => {
                self.park(t.index.len());
                None
            },
        }
    }

    /// Scan forward from the slot after `pos` to the next occupied slot and park
    /// there, or past the last key.
    fn advance_next(&mut self) -> (r: bool)
        requires
            old(self).wf(),
        ensures
            final(self).wf(),
            final(self).trie() == old(self).trie(),
            final(self).pos() == next_some(old(self).trie().index@, old(self).pos() + 1),
            r == (final(self).pos() < final(self).trie().index@.len()),
    {
        let len = self.trie.index.len();
        let mut i = if self.pos < len {
            self.pos + 1
        } else {
            len
        };
        proof {
            if old(self).pos() >= len {
                assert(next_some(self.trie().index@, old(self).pos() + 1) == len);
            }
        }
        while i < len
            invariant
                self.wf(),
                len == self.trie().index@.len(),
                self.trie() == old(self).trie(),
                i <= len,
                next_some(self.trie().index@, old(self).pos() + 1) == next_some(self.trie().index@, i as int),
            decreases len - i,
        {
            if self.trie.index[i].is_some() {
                self.park(i);
                return true;
            }
            i += 1;
        }
        self.park(len);
        false
    }

    /// Scan backward from the slot before `pos` to the previous occupied slot and
    /// park there, or before the first key.
    fn advance_prev(&mut self) -> (r: bool)
        requires
            old(self).wf(),
        ensures
            final(self).wf(),
            final(self).trie() == old(self).trie(),
            final(self).pos() == prev_some(old(self).trie().index@, old(self).pos() - 1),
            r == (final(self).pos() >= 1),
    {
        let mut i = self.pos;
        while i > 1
            invariant
                self.wf(),
                self.trie() == old(self).trie(),
                i <= self.trie().index@.len(),
                prev_some(self.trie().index@, old(self).pos() - 1) == prev_some(self.trie().index@, i - 1),
            decreases i,
        {
            i -= 1;
            if self.trie.index[i].is_some() {
                self.park(i);
                return true;
            }
        }
        self.park(0);
        false
    }
}

impl<K: ByteKey, T, PTR: TrieIndex, LEN: TrieIndex> NibbleTrie<K, T, PTR, LEN> {
    /// A forward cursor parked before the first key.
    pub fn iter(&self) -> (r: Cursor<'_, K, T, PTR, LEN>)
        requires
            self.structure_ok(),
        ensures
            r.wf(),
            r.trie() == *self,
            r.pos() == 0,
    {
        Cursor::new(self)
    }

    /// A reverse cursor parked on the last key.
    pub fn iter_last(&self) -> (r: Cursor<'_, K, T, PTR, LEN>)
        requires
            self.structure_ok(),
        ensures
            r.wf(),
            r.trie() == *self,
            r.pos() == prev_some(self.index@, self.index@.len() - 1),
    {
        Cursor::new_last(self)
    }

    /// Whether an arena address or key index may no longer fit `PTR`.
    pub fn near_capacity(&self) -> (r: bool)
        requires
            PTR::imax() <= usize::MAX,
        ensures
            r == (self.arena@.len() >= PTR::imax() || self.index@.len() >= PTR::imax()),
    {
        self.arena.len() >= PTR::max_value() || self.index.len() >= PTR::max_value()
    }
}

/// The indices of the occupied slots of `s`, in slot order.
pub open spec fn occupied<X>(s: Seq<Option<X>>) -> Seq<int>
    decreases s.len(),
{
    if s.len() == 0 {
        Seq::empty()
    } else if s.last() is Some {
        occupied(s.drop_last()).push(s.len() - 1)
    } else {
        occupied(s.drop_last())
    }
}

proof fn lemma_occupied_bounds<X>(s: Seq<Option<X>>)
    ensures
        occupied(s).len() == count_some(s),
        forall|k: int| 0 <= k < occupied(s).len() ==> 0 <= #[trigger] occupied(s)[k] < s.len()
            && s[occupied(s)[k]] is Some,
    decreases s.len(),
{
    if s.len() > 0 {
        lemma_occupied_bounds(s.drop_last());
    }
}

impl<K: ByteKey, T, PTR: TrieIndex, LEN: TrieIndex> NibbleTrie<K, T, PTR, LEN> {
    /// Every child and reference index of every node is at most `m`.
    pub open spec fn refs_fit(self, m: nat) -> bool {
        forall|p: int| 0 <= p < self.arena@.len() ==> {
            &&& (#[trigger] self.arena@[p]).leaf.raw() <= m
            &&& forall|i: int| 0 <= i < 16 ==> #[trigger] self.arena@[p].children[i].raw() <= m
        }
    }

    /// `other` has the nodes of `self` with the same index values in another
    /// index type, and the same slots, buffer and count.
    pub open spec fn same_content<P2: TrieIndex>(self, other: NibbleTrie<K, T, P2, LEN>) -> bool {
        &&& other.arena@.len() == self.arena@.len()
        &&& other.index@ == self.index@
        &&& other.buf@ == self.buf@
        &&& other.n_keys == self.n_keys
        &&& forall|p: int| 0 <= p < self.arena@.len() ==> {
            &&& (#[trigger] other.arena@[p]).leaf.raw() == self.arena@[p].leaf.raw()
            &&& other.arena@[p].prefix_len == self.arena@[p].prefix_len
            &&& other.arena@[p].leaf_mask == self.arena@[p].leaf_mask
            &&& other.arena@[p].terminal == self.arena@[p].terminal
            &&& forall|i: int| 0 <= i < 16 ==> #[trigger] other.arena@[p].children[i].raw() == self.arena@[p].children[i].raw()
        }
    }

    /// Tries with the same content descend alike from every node.
    proof fn lemma_same_content_descend<P2: TrieIndex>(self, other: NibbleTrie<K, T, P2, LEN>, phys: int, key: Seq<u8>)
        requires
            self.same_content(other),
        ensures
            self.descend(phys, key) == other.descend(phys, key),
        decreases (if self.prefix_of(phys) >= 2 * key.len() {
            0
        } else {
            2 * key.len() - self.prefix_of(phys)
        }),
    {
        if 0 <= phys < self.arena@.len() {
            let node = self.arena@[phys];
            let p = node.prefix_len.ival();
            assert(other.arena@[phys].prefix_len == node.prefix_len);
            if p < 2 * key.len() {
                let nb = nibble_at(key, p as int);
                lemma_nibble_lt_16(key, p as int);
                let nib = nb as int;
                assert(other.arena@[phys].children[nib].raw() == node.children[nib].raw());
                let c = node.children[nib].raw() as int;
                if c != 0 && !bit16(node.leaf_mask, nib) && 0 <= c < self.arena@.len() && self.prefix_of(c) > p {
                    assert(other.arena@[c].prefix_len == self.arena@[c].prefix_len);
                    self.lemma_same_content_descend(other, c, key);
                }
            }
        }
    }

    /// Tries with the same content, such as a trie and its promotion or
    /// demotion to another index type, answer every lookup alike.
    pub proof fn lemma_same_content_lookup<P2: TrieIndex>(self, other: NibbleTrie<K, T, P2, LEN>, key: Seq<u8>)
        requires
            self.same_content(other),
        ensures
            self.lookup(key) == other.lookup(key),
            forall|i: int| #[trigger] self.slot_key(i) == other.slot_key(i) && self.slot_value(i) == other.slot_value(i),
    {
        self.lemma_same_content_descend(other, 0, key);
    }

    /// Promoting to a wider index type and demoting back yields the content
    /// that was promoted.
    pub proof fn lemma_same_content_trans<P2: TrieIndex, P3: TrieIndex>(
        self,
        mid: NibbleTrie<K, T, P2, LEN>,
        last: NibbleTrie<K, T, P3, LEN>,
    )
        requires
            self.same_content(mid),
            mid.same_content(last),
        ensures
            self.same_content(last),
    {
        assert forall|p: int| 0 <= p < self.arena@.len() implies {
            &&& (#[trigger] last.arena@[p]).leaf.raw() == self.arena@[p].leaf.raw()
            &&& last.arena@[p].prefix_len == self.arena@[p].prefix_len
            &&& last.arena@[p].leaf_mask == self.arena@[p].leaf_mask
            &&& last.arena@[p].terminal == self.arena@[p].terminal
            &&& forall|i: int| 0 <= i < 16 ==> #[trigger] last.arena@[p].children[i].raw() == self.arena@[p].children[i].raw()
        } by {
            assert(mid.arena@[p].leaf.raw() == self.arena@[p].leaf.raw());
            assert(last.arena@[p].leaf.raw() == mid.arena@[p].leaf.raw());
            assert forall|i: int| 0 <= i < 16 implies #[trigger] last.arena@[p].children[i].raw() == self.arena@[p].children[i].raw() by {
                assert(mid.arena@[p].children[i].raw() == self.arena@[p].children[i].raw());
                assert(last.arena@[p].children[i].raw() == mid.arena@[p].children[i].raw());
            }
        }
    }

    proof fn lemma_same_content_wf<P2: TrieIndex>(self, other: NibbleTrie<K, T, P2, LEN>)
        requires
            self.wf(),
            self.same_content(other),
            self.index@.len() <= P2::imax(),
            self.arena@.len() <= P2::imax(),
            P2::imax() <= usize::MAX,
        ensures
            other.wf(),
    {
        assert forall|p: int, n: int| 0 <= p < other.arena@.len() && 0 <= n < 16 implies
            (#[trigger] other.is_internal_edge(p, n) <==> self.is_internal_edge(p, n))
            && other.child_of(p, n) == self.child_of(p, n) by {
            assert(other.arena@[p].children[n].raw() == self.arena@[p].children[n].raw());
        }
        assert forall|i: int| 0 <= i < other.index@.len() implies #[trigger] other.slot_in_bounds(i) by {
            assert(self.slot_in_bounds(i));
        }
        assert forall|i: int| 0 <= i < other.index@.len() implies match #[trigger] other.slot_key(i) {
            Some(k) => K::valid_repr(k),
            None => true,
        } by {
            assert(other.slot_key(i) == self.slot_key(i));
        }
    }

    /// Consume the trie and return its keys and values in slot order.
    pub fn into_keys_values(self) -> (r: (Vec<K>, Vec<T>))
        requires
            self.wf(),
        ensures
            r.0@.len() == count_some(self.index@),
            r.1@.len() == count_some(self.index@),
            forall|k: int| 0 <= k < r.0@.len() ==> Some((#[trigger] r.0@[k]).key_view())
                == self.slot_key(occupied(self.index@)[k]),
            forall|k: int| 0 <= k < r.1@.len() ==> Some(#[trigger] r.1@[k])
                == self.slot_value(occupied(self.index@)[k]),
    {
        let ghost orig = self;
        let buf = self.buf;
        let mut index = self.index;
        let mut keys: Vec<K> = Vec::with_capacity(self.n_keys);
        let mut values: Vec<T> = Vec::with_capacity(self.n_keys);
        let mut i: usize = 0;
        while i < index.len()
            invariant
                orig.wf(),
                buf@ == orig.buf@,
                index@.len() == orig.index@.len(),
                i <= index@.len(),
                forall|j: int| i <= j < index@.len() ==> #[trigger] index@[j] == orig.index@[j],
                keys@.len() == occupied(orig.index@.subrange(0, i as int)).len(),
                values@.len() == keys@.len(),
                forall|k: int| 0 <= k < keys@.len() ==> Some((#[trigger] keys@[k]).key_view())
                    == orig.slot_key(occupied(orig.index@.subrange(0, i as int))[k]),
                forall|k: int| 0 <= k < values@.len() ==> Some(#[trigger] values@[k])
                    == orig.slot_value(occupied(orig.index@.subrange(0, i as int))[k]),
            decreases index@.len() - i,
        {
            let ghost pre = occupied(orig.index@.subrange(0, i as int));
            proof {
                assert(orig.index@.subrange(0, i + 1).drop_last() =~= orig.index@.subrange(0, i as int));
                assert(orig.slot_in_bounds(i as int));
            }
            match index[i].take() {
                Some(slot) => {
                    let (off, len, val) = slot;
                    let l = len.as_usize();
                    let _blen = buf.len();
                    proof {
                        assert(orig.slot_key(i as int) == Some(buf@.subrange(off as int, off + l)));
                    }
                    let key = K::from_bytes(vstd::slice::slice_subrange(buf.as_slice(), off, off + l));
                    keys.push(key);
                    values.push(val);
                    proof {
                        assert(occupied(orig.index@.subrange(0, i + 1)) == pre.push(i as int));
                    }
                },
                None => {
                    proof {
                        assert(occupied(orig.index@.subrange(0, i + 1)) == pre);
                    }
                },
            }
            i += 1;
        }
        proof {
            assert(orig.index@.subrange(0, i as int) =~= orig.index@);
            lemma_occupied_bounds(orig.index@);
        }
        (keys, values)
    }

    /// The same trie with arena and key indices widened to `NewPTR`.
    pub fn promote<NewPTR: TrieIndex>(self) -> (r: NibbleTrie<K, T, NewPTR, LEN>)
        requires
            self.wf(),
            PTR::imax() <= NewPTR::imax(),
            NewPTR::imax() <= usize::MAX,
        ensures
            self.same_content(r),
            r.wf(),
    {
        let mut arena: Vec<Node<NewPTR, LEN>> = Vec::with_capacity(self.arena.len());
        let mut p: usize = 0;
        while p < self.arena.len()
            invariant
                self.wf(),
                PTR::imax() <= NewPTR::imax(),
                NewPTR::imax() <= usize::MAX,
                p <= self.arena@.len(),
                arena@.len() == p,
                forall|q: int| 0 <= q < p ==> {
                    &&& (#[trigger] arena@[q]).leaf.raw() == self.arena@[q].leaf.raw()
                    &&& arena@[q].prefix_len == self.arena@[q].prefix_len
                    &&& arena@[q].leaf_mask == self.arena@[q].leaf_mask
                    &&& arena@[q].terminal == self.arena@[q].terminal
                    &&& forall|i: int| 0 <= i < 16 ==> #[trigger] arena@[q].children[i].raw() == self.arena@[q].children[i].raw()
                },
            decreases self.arena@.len() - p,
        {
            let node = self.arena[p];
            proof {
                assert forall|i: int| 0 <= i < 16 implies #[trigger] node.children[i].raw() <= NewPTR::imax() by {
                    PTR::lemma_ival_bounds(node.children[i].0);
                }
                PTR::lemma_ival_bounds(node.leaf.0);
            }
            arena.push(node.promote());
            p += 1;
        }
        let r = NibbleTrie { arena, buf: self.buf, index: self.index, n_keys: self.n_keys, _key: PhantomData };
        proof {
            self.lemma_same_content_wf(r);
        }
        r
    }

    /// The same trie with arena and key indices narrowed to `NewPTR`, or
    /// `Err(self)` if the arena, the index or some stored index does not fit.
    pub fn demote<NewPTR: TrieIndex>(self) -> (r: Result<NibbleTrie<K, T, NewPTR, LEN>, Self>)
        requires
            self.wf(),
            NewPTR::imax() <= usize::MAX,
        ensures
            r is Ok <==> self.arena@.len() <= NewPTR::imax() && self.index@.len() <= NewPTR::imax()
                && self.refs_fit(NewPTR::imax()),
            r matches Ok(t) ==> self.same_content(t) && t.wf(),
            r matches Err(t) ==> t == self,
    {
        if self.arena.len() > NewPTR::max_value() || self.index.len() > NewPTR::max_value() {
            return Err(self);
        }
        let mut arena: Vec<Node<NewPTR, LEN>> = Vec::with_capacity(self.arena.len());
        let mut p: usize = 0;
        while p < self.arena.len()
            invariant
                self.wf(),
                NewPTR::imax() <= usize::MAX,
                p <= self.arena@.len(),
                arena@.len() == p,
                forall|q: int| 0 <= q < p ==> {
                    &&& (#[trigger] self.arena@[q]).leaf.raw() <= NewPTR::imax()
                    &&& forall|i: int| 0 <= i < 16 ==> #[trigger] self.arena@[q].children[i].raw() <= NewPTR::imax()
                },
                forall|q: int| 0 <= q < p ==> {
                    &&& (#[trigger] arena@[q]).leaf.raw() == self.arena@[q].leaf.raw()
                    &&& arena@[q].prefix_len == self.arena@[q].prefix_len
                    &&& arena@[q].leaf_mask == self.arena@[q].leaf_mask
                    &&& arena@[q].terminal == self.arena@[q].terminal
                    &&& forall|i: int| 0 <= i < 16 ==> #[trigger] arena@[q].children[i].raw() == self.arena@[q].children[i].raw()
                },
            decreases self.arena@.len() - p,
        {
            match self.arena[p].demote() {
                Ok(n) => {
                    arena.push(n);
                },
                Err(_) => {
                    return Err(self);
                },
            }
            p += 1;
        }
        let r = NibbleTrie { arena, buf: self.buf, index: self.index, n_keys: self.n_keys, _key: PhantomData };
        proof {
            self.lemma_same_content_wf(r);
        }
        Ok(r)
    }
}

impl<K: ByteKey, T, PTR: TrieIndex, LEN: TrieIndex> Default for NibbleTrie<K, T, PTR, LEN> {
    fn default() -> (r: Self)
        ensures
            PTR::imax() <= usize::MAX && LEN::imax() <= usize::MAX ==> r.wf() && count_some(r.index@) == 0,
    {
        proof {
            PTR::lemma_imax();
            LEN::lemma_imax();
        }
        let mut buf: Vec<u8> = Vec::new();
        buf.push(0);
        let mut index: Vec<Option<Slot<LEN, T>>> = Vec::new();
        index.push(None);
        let r = NibbleTrie { arena: Vec::new(), buf, index, n_keys: 0, _key: PhantomData };
        proof {
            assert(count_some(r.index@.drop_last()) == 0);
        }
        r
    }
}
} // verus!






