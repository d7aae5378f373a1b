//! Nib Trie — a fixed-fanout radix trie indexed by 2-bit words (nibs).
//!
//! Each node has 4 child slots (one per 2-bit value 0–3), addressed by direct
//! indexing. `occupancy` and `leaf_mask` use the low 4 bits of a byte; the
//! sentinel `PTR::max_value_sentinel()` marks an empty slot. Keys that are
//! prefixes of other keys are marked by the `terminal` flag of the node where
//! they end, so `0x00` bytes are valid in keys.
//!
//! Key bytes live in `buf`; `index[i]` is the `(offset, length)` of key `i`
//! and `values[i - 1]` its value. Index `0` is a dummy entry, so real keys are
//! numbered from `1` in insertion order (until `optimize` renumbers them in key
//! order).
//!
//! Nib addressing: nib `4k` is bits 7–6 of byte `k`, nib `4k + 1` bits 5–4,
//! nib `4k + 2` bits 3–2 and nib `4k + 3` bits 1–0.

use vstd::prelude::*;
use crate::bits::{bit8, lemma_bit8_or, lemma_bit8_and_not, lemma_bit8_zero_all};
use crate::key_store::append_bytes;
use crate::nibble_trie::{bytes_ge, lex_lt};
use crate::trie_index::TrieIndex;

verus! {

/// A single node of the nib trie arena.
#[derive(Clone, Copy)]
pub struct NibNode<PTR: TrieIndex = u32, LEN: TrieIndex = u16> {
    pub children: [PTR; 4],
    pub leaf: PTR,
    pub prefix_len: LEN,
    pub leaf_mask: u8,
    pub occupancy: u8,
    pub terminal: u8,
}

impl<PTR: TrieIndex, LEN: TrieIndex> NibNode<PTR, LEN> {
    /// A node with every slot empty, no reference key, prefix length `0`.
    pub fn new() -> (r: Self)
        ensures
            forall|i: int| 0 <= i < 4 ==> #[trigger] r.children[i].ival() == PTR::imax(),
            r.leaf.ival() == PTR::imax(),
            r.prefix_len.ival() == 0,
            r.leaf_mask == 0,
            r.occupancy == 0,
            r.terminal == 0,
    {
        let s = PTR::max_value_sentinel();
        NibNode {
            children: [s, s, s, s],
            leaf: PTR::max_value_sentinel(),
            prefix_len: LEN::zero(),
            leaf_mask: 0,
            occupancy: 0,
            terminal: 0,
        }
    }

    /// Whether the node is terminal (its own key ends here).
    pub fn is_terminal(&self) -> (r: bool)
        ensures
            r == (self.terminal != 0),
    {
        self.terminal != 0
    }

    /// Set or clear the terminal flag.
    pub fn set_terminal(&mut self, val: bool)
        ensures
            final(self).terminal == (if val { 1u8 } else { 0u8 }),
            final(self).children == old(self).children,
            final(self).leaf == old(self).leaf,
            final(self).prefix_len == old(self).prefix_len,
            final(self).leaf_mask == old(self).leaf_mask,
            final(self).occupancy == old(self).occupancy,
    {
        if val {
            self.terminal = 1;
        } else {
            self.terminal = 0;
        }
    }

    /// Whether slot `nib` holds a leaf key index.
    pub fn is_leaf(&self, nib: usize) -> (r: bool)
        requires
            nib < 4,
        ensures
            r == bit8(self.leaf_mask, nib as int),
    {
        (self.leaf_mask >> nib as u8) & 1 == 1
    }

    fn set_leaf(&mut self, nib: usize)
        requires
            nib < 4,
        ensures
            forall|j: int| 0 <= j < 8 ==> (#[trigger] bit8(final(self).leaf_mask, j) <==> (bit8(old(self).leaf_mask, j) || j == nib)),
            final(self).children == old(self).children,
            final(self).leaf == old(self).leaf,
            final(self).prefix_len == old(self).prefix_len,
            final(self).occupancy == old(self).occupancy,
            final(self).terminal == old(self).terminal,
    {
        proof {
            assert forall|j: int| 0 <= j < 8 implies (#[trigger] bit8(self.leaf_mask | (1u8 << nib as u8), j) <==> (bit8(self.leaf_mask, j) || j == nib)) by {
                lemma_bit8_or(self.leaf_mask, nib as u8, j as u8);
            }
        }
        self.leaf_mask = self.leaf_mask | (1u8 << nib as u8);
    }

    fn clear_leaf(&mut self, nib: usize)
        requires
            nib < 4,
        ensures
            forall|j: int| 0 <= j < 8 ==> (#[trigger] bit8(final(self).leaf_mask, j) <==> (bit8(old(self).leaf_mask, j) && j != nib)),
            final(self).children == old(self).children,
            final(self).leaf == old(self).leaf,
            final(self).prefix_len == old(self).prefix_len,
            final(self).occupancy == old(self).occupancy,
            final(self).terminal == old(self).terminal,
    {
        proof {
            assert forall|j: int| 0 <= j < 8 implies (#[trigger] bit8(self.leaf_mask & !(1u8 << nib as u8), j) <==> (bit8(self.leaf_mask, j) && j != nib)) by {
                lemma_bit8_and_not(self.leaf_mask, nib as u8, j as u8);
            }
        }
        self.leaf_mask = self.leaf_mask & !(1u8 << nib as u8);
    }

    /// Whether slot `nib` is occupied.
    pub fn is_occupied(&self, nib: usize) -> (r: bool)
        requires
            nib < 4,
        ensures
            r == bit8(self.occupancy, nib as int),
    {
        (self.occupancy >> nib as u8) & 1 == 1
    }

    fn set_occupied(&mut self, nib: usize)
        requires
            nib < 4,
        ensures
            forall|j: int| 0 <= j < 8 ==> (#[trigger] bit8(final(self).occupancy, j) <==> (bit8(old(self).occupancy, j) || j == nib)),
            final(self).children == old(self).children,
            final(self).leaf == old(self).leaf,
            final(self).prefix_len == old(self).prefix_len,
            final(self).leaf_mask == old(self).leaf_mask,
            final(self).terminal == old(self).terminal,
    {
        proof {
            assert forall|j: int| 0 <= j < 8 implies (#[trigger] bit8(self.occupancy | (1u8 << nib as u8), j) <==> (bit8(self.occupancy, j) || j == nib)) by {
                lemma_bit8_or(self.occupancy, nib as u8, j as u8);
            }
        }
        self.occupancy = self.occupancy | (1u8 << nib as u8);
    }

    /// Store key index `key_index` at `nib` as a leaf child.
    pub fn set_leaf_child(&mut self, nib: usize, key_index: PTR)
        requires
            nib < 4,
        ensures
            final(self).children@ == old(self).children@.update(nib as int, key_index),
            forall|j: int| 0 <= j < 8 ==> (#[trigger] bit8(final(self).leaf_mask, j) <==> (bit8(old(self).leaf_mask, j) || j == nib)),
            forall|j: int| 0 <= j < 8 ==> (#[trigger] bit8(final(self).occupancy, j) <==> (bit8(old(self).occupancy, j) || j == nib)),
            final(self).leaf == old(self).leaf,
            final(self).prefix_len == old(self).prefix_len,
            final(self).terminal == old(self).terminal,
    {
        self.set_leaf(nib);
        self.set_occupied(nib);
        self.children[nib] = key_index;
    }

    /// Store arena index `addr` at `nib` as an internal child.
    pub fn set_internal_child(&mut self, nib: usize, addr: PTR)
        requires
            nib < 4,
        ensures
            final(self).children@ == old(self).children@.update(nib as int, addr),
            forall|j: int| 0 <= j < 8 ==> (#[trigger] bit8(final(self).leaf_mask, j) <==> (bit8(old(self).leaf_mask, j) && j != nib)),
            forall|j: int| 0 <= j < 8 ==> (#[trigger] bit8(final(self).occupancy, j) <==> (bit8(old(self).occupancy, j) || j == nib)),
            final(self).leaf == old(self).leaf,
            final(self).prefix_len == old(self).prefix_len,
            final(self).terminal == old(self).terminal,
    {
        self.clear_leaf(nib);
        self.set_occupied(nib);
        self.children[nib] = addr;
    }

    /// The key index held by slot `nib`, or `None` if it is empty or internal.
    fn leaf_key_index(&self, nib: usize) -> (r: Option<PTR>)
        requires
            nib < 4,
        ensures
            r == (if bit8(self.leaf_mask, nib as int) && bit8(self.occupancy, nib as int) {
                Some(self.children[nib as int])
            } else {
                None
            }),
    {
        if self.is_leaf(nib) && self.is_occupied(nib) {
            Some(self.children[nib])
        } else {
            None
        }
    }

    /// The occupancy mask: bit `N` is set iff slot `N` is occupied.
    pub fn children_mask(&self) -> (r: u8)
        ensures
            r == self.occupancy,
    {
        self.occupancy
    }

    /// The same node with indices widened to `NewPTR`; every stored index must
    /// fit. Empty slots and an absent reference key stay sentinels.
    pub fn promote<NewPTR: TrieIndex>(self) -> (r: NibNode<NewPTR, LEN>)
        requires
            forall|i: int| 0 <= i < 4 && #[trigger] bit8(self.occupancy, i) ==> self.children[i].ival() <= NewPTR::imax(),
            self.leaf.ival() != PTR::imax() ==> self.leaf.ival() <= NewPTR::imax(),
            PTR::imax() <= usize::MAX,
            NewPTR::imax() <= usize::MAX,
        ensures
            forall|i: int| 0 <= i < 4 ==> #[trigger] r.children[i].ival() == (if bit8(self.occupancy, i) {
                self.children[i].ival()
            } else {
                NewPTR::imax()
            }),
            r.leaf.ival() == (if self.leaf.ival() == PTR::imax() { NewPTR::imax() } else { self.leaf.ival() }),
            r.prefix_len == self.prefix_len,
            r.leaf_mask == self.leaf_mask,
            r.occupancy == self.occupancy,
            r.terminal == self.terminal,
    {
        let s = NewPTR::max_value_sentinel();
        let mut children: [NewPTR; 4] = [s, s, s, s];
        let mut i: usize = 0;
        while i < 4
            invariant
                i <= 4,
                forall|k: int| 0 <= k < 4 && #[trigger] bit8(self.occupancy, k) ==> self.children[k].ival() <= NewPTR::imax(),
                PTR::imax() <= usize::MAX,
                forall|k: int| 0 <= k < i ==> #[trigger] children[k].ival() == (if bit8(self.occupancy, k) {
                    self.children[k].ival()
                } else {
                    NewPTR::imax()
                }),
                forall|k: int| i <= k < 4 ==> #[trigger] children[k].ival() == NewPTR::imax(),
            decreases 4 - i,
        {
            if self.is_occupied(i) {
                children[i] = NewPTR::from_usize(self.children[i].as_usize());
            }
            i += 1;
        }
        let leaf = if self.leaf.as_usize() == PTR::max_value() {
            NewPTR::max_value_sentinel()
        } else {
            NewPTR::from_usize(self.leaf.as_usize())
        };
        NibNode {
            children,
            leaf,
            prefix_len: self.prefix_len,
            leaf_mask: self.leaf_mask,
            occupancy: self.occupancy,
            terminal: self.terminal,
        }
    }

    /// The same node with indices narrowed to `NewPTR`, or `Err(self)` if an
    /// occupied slot or the reference key does not fit.
    pub fn demote<NewPTR: TrieIndex>(self) -> (r: Result<NibNode<NewPTR, LEN>, Self>)
        requires
            PTR::imax() <= usize::MAX,
            NewPTR::imax() <= usize::MAX,
        ensures
            r is Ok <==> (forall|i: int| 0 <= i < 4 && #[trigger] bit8(self.occupancy, i) ==> self.children[i].ival() <= NewPTR::imax())
                && (self.leaf.ival() != PTR::imax() ==> self.leaf.ival() <= NewPTR::imax()),
            r matches Err(n) ==> n == self,
            r matches Ok(n) ==> {
                &&& forall|i: int| 0 <= i < 4 ==> #[trigger] n.children[i].ival() == (if bit8(self.occupancy, i) {
                    self.children[i].ival()
                } else {
                    NewPTR::imax()
                })
                &&& n.leaf.ival() == (if self.leaf.ival() == PTR::imax() { NewPTR::imax() } else { self.leaf.ival() })
                &&& n.prefix_len == self.prefix_len
                &&& n.leaf_mask == self.leaf_mask
                &&& n.occupancy == self.occupancy
                &&& n.terminal == self.terminal
            },
    {
        let mut i: usize = 0;
        while i < 4
            invariant
                i <= 4,
                PTR::imax() <= usize::MAX,
                NewPTR::imax() <= usize::MAX,
                forall|k: int| 0 <= k < i && #[trigger] bit8(self.occupancy, k) ==> self.children[k].ival() <= NewPTR::imax(),
            decreases 4 - i,
        {
            if self.is_occupied(i) {
                if self.children[i].as_usize() > NewPTR::max_value() {
                    return Err(self);
                }
            }
            i += 1;
        }
        if self.leaf.as_usize() != PTR::max_value() && self.leaf.as_usize() > NewPTR::max_value() {
            return Err(self);
        }
        Ok(self.promote())
    }
}

/// Nib `idx` of `key` (2-bit groups, most significant first); `0` past the end.
pub open spec fn nib_at(key: Seq<u8>, idx: int) -> u8 {
    if 0 <= idx && idx / 4 < key.len() {
        (key[idx / 4] >> ((6 - 2 * (idx % 4)) as u8)) & 3u8
    } else {
        0
    }
}

/// Keys `a` and `b` agree on every nib in `[lo, hi)`.
pub open spec fn nibs_agree(a: Seq<u8>, b: Seq<u8>, lo: int, hi: int) -> bool {
    forall|i: int| lo <= i < hi ==> #[trigger] nib_at(a, i) == nib_at(b, i)
}

/// Outcome of comparing two keys for divergence from a nib position.
pub enum DivergeResult {
    /// The keys have the same length and agree from the start position on.
    Duplicate,
    /// The first nib position where the keys differ, or the shorter key's nib
    /// count when one key is a prefix of the other.
    At(usize),
}

/// Outcome of a bounded prefix check over the nibs `from..to`.
pub enum PrefixCheck {
    /// The keys agree on every nib in the range.
    Matches,
    /// The first nib in the range where they differ.
    Diverges(usize),
}

/// `r` is the divergence of `a` and `b` scanning from nib `from`.
pub open spec fn diverge_spec(a: Seq<u8>, b: Seq<u8>, from: int, r: DivergeResult) -> bool {
    let m: int = if a.len() < b.len() { 4 * a.len() as int } else { 4 * b.len() as int };
    match r {
        DivergeResult::Duplicate => a.len() == b.len() && nibs_agree(a, b, from, m),
        DivergeResult::At(d) => {
            &&& from <= d
            &&& nibs_agree(a, b, from, if d < m { d as int } else { m as int })
            &&& d < m ==> nib_at(a, d as int) != nib_at(b, d as int)
            &&& d >= m ==> d == (if from < m { m as int } else { from }) && a.len() != b.len()
        },
    }
}

/// `r` is the bounded prefix check of `a` and `b` over `[from, to)`.
pub open spec fn prefix_spec(a: Seq<u8>, b: Seq<u8>, from: int, to: int, r: PrefixCheck) -> bool {
    match r {
        PrefixCheck::Matches => nibs_agree(a, b, from, to),
        PrefixCheck::Diverges(d) => {
            &&& from <= d < to
            &&& nib_at(a, d as int) != nib_at(b, d as int)
            &&& nibs_agree(a, b, from, d as int)
        },
    }
}

/// Bytes `[lo, hi)` equal means nibs `[4lo, 4hi)` agree.
proof fn lemma_equal_bytes_nibs(a: Seq<u8>, b: Seq<u8>, lo: int, hi: int)
    requires
        0 <= lo <= hi <= a.len(),
        hi <= b.len(),
        forall|k: int| lo <= k < hi ==> a[k] == b[k],
    ensures
        nibs_agree(a, b, 4 * lo, 4 * hi),
{
    assert forall|i: int| 4 * lo <= i < 4 * hi implies #[trigger] nib_at(a, i) == nib_at(b, i) by {
        assert(lo <= i / 4 < hi);
    }
}

/// Differing bytes differ in one of their four nibs.
proof fn lemma_bytes_differ_nib(x: u8, y: u8)
    by (bit_vector)
    requires
        x != y,
    ensures
        (x >> 6u8) & 3u8 != (y >> 6u8) & 3u8 || (x >> 4u8) & 3u8 != (y >> 4u8) & 3u8
            || (x >> 2u8) & 3u8 != (y >> 2u8) & 3u8 || (x >> 0u8) & 3u8 != (y >> 0u8) & 3u8,
{
}

proof fn lemma_nib_le_three(x: u8, s: u8)
    by (bit_vector)
    ensures
        (x >> s) & 3u8 <= 3u8,
{
}

/// A nib is below 4.
pub proof fn lemma_nib_lt_4(key: Seq<u8>, idx: int)
    ensures
        nib_at(key, idx) < 4,
{
    if 0 <= idx && idx / 4 < key.len() {
        lemma_nib_le_three(key[idx / 4], (6 - 2 * (idx % 4)) as u8);
    }
}

/// Keys of one length that agree on all their nibs are equal.
pub proof fn lemma_nibs_equal(a: Seq<u8>, b: Seq<u8>)
    requires
        a.len() == b.len(),
        nibs_agree(a, b, 0, 4 * a.len() as int),
    ensures
        a == b,
{
    assert forall|k: int| 0 <= k < a.len() implies a[k] == b[k] by {
        let x = a[k];
        let y = b[k];
        assert((4 * k) / 4 == k && (4 * k) % 4 == 0);
        assert((4 * k + 1) / 4 == k && (4 * k + 1) % 4 == 1);
        assert((4 * k + 2) / 4 == k && (4 * k + 2) % 4 == 2);
        assert((4 * k + 3) / 4 == k && (4 * k + 3) % 4 == 3);
        assert(nib_at(a, 4 * k) == nib_at(b, 4 * k));
        assert(nib_at(a, 4 * k + 1) == nib_at(b, 4 * k + 1));
        assert(nib_at(a, 4 * k + 2) == nib_at(b, 4 * k + 2));
        assert(nib_at(a, 4 * k + 3) == nib_at(b, 4 * k + 3));
        assert(x == y) by (bit_vector)
            requires
                (x >> 6u8) & 3u8 == (y >> 6u8) & 3u8,
                (x >> 4u8) & 3u8 == (y >> 4u8) & 3u8,
                (x >> 2u8) & 3u8 == (y >> 2u8) & 3u8,
                (x >> 0u8) & 3u8 == (y >> 0u8) & 3u8,
        ;
    }
    assert(a =~= b);
}

/// A byte whose nibs above offset `j` (counted from the most significant)
/// match those of `y`, and whose nib at offset `j` is below `y`'s, is the
/// smaller byte.
proof fn lemma_byte_nib_lt(x: u8, y: u8, j: u8)
    by (bit_vector)
    requires
        j < 4,
        j > 0 ==> (x >> 6u8) & 3u8 == (y >> 6u8) & 3u8,
        j > 1 ==> (x >> 4u8) & 3u8 == (y >> 4u8) & 3u8,
        j > 2 ==> (x >> 2u8) & 3u8 == (y >> 2u8) & 3u8,
        (x >> ((6u8 - 2u8 * j) as u8)) & 3u8 < (y >> ((6u8 - 2u8 * j) as u8)) & 3u8,
    ensures
        x < y,
{
}

/// Byte `k` of two keys is equal when its four nibs agree.
proof fn lemma_byte_from_nibs(a: Seq<u8>, b: Seq<u8>, k: int)
    requires
        0 <= k < a.len(),
        k < b.len(),
        nibs_agree(a, b, 4 * k, 4 * k + 4),
    ensures
        a[k] == b[k],
{
    let x = a[k];
    let y = b[k];
    assert((4 * k) / 4 == k && (4 * k) % 4 == 0);
    assert((4 * k + 1) / 4 == k && (4 * k + 1) % 4 == 1);
    assert((4 * k + 2) / 4 == k && (4 * k + 2) % 4 == 2);
    assert((4 * k + 3) / 4 == k && (4 * k + 3) % 4 == 3);
    assert(nib_at(a, 4 * k) == nib_at(b, 4 * k));
    assert(nib_at(a, 4 * k + 1) == nib_at(b, 4 * k + 1));
    assert(nib_at(a, 4 * k + 2) == nib_at(b, 4 * k + 2));
    assert(nib_at(a, 4 * k + 3) == nib_at(b, 4 * k + 3));
    assert(x == y) by (bit_vector)
        requires
            (x >> 6u8) & 3u8 == (y >> 6u8) & 3u8,
            (x >> 4u8) & 3u8 == (y >> 4u8) & 3u8,
            (x >> 2u8) & 3u8 == (y >> 2u8) & 3u8,
            (x >> 0u8) & 3u8 == (y >> 0u8) & 3u8,
    ;
}

/// Keys whose nibs agree below `m` and whose nib at `m` is lower in `a` than
/// in `b` are in lexicographic byte order.
pub proof fn lemma_nibs_lex(a: Seq<u8>, b: Seq<u8>, m: int)
    requires
        0 <= m,
        m / 4 < a.len(),
        m / 4 < b.len(),
        nibs_agree(a, b, 0, m),
        nib_at(a, m) < nib_at(b, m),
    ensures
        lex_lt(a, b),
{
    let k = m / 4;
    let j = m % 4;
    assert(m == 4 * k + j);
    assert forall|i: int| 0 <= i < k implies a[i] == b[i] by {
        assert forall|t: int| 4 * i <= t < 4 * i + 4 implies #[trigger] nib_at(a, t) == nib_at(b, t) by {
            assert(t < m);
            assert(nib_at(a, t) == nib_at(b, t));
        }
        lemma_byte_from_nibs(a, b, i);
    }
    let x = a[k];
    let y = b[k];
    assert((4 * k) / 4 == k && (4 * k) % 4 == 0);
    assert((4 * k + 1) / 4 == k && (4 * k + 1) % 4 == 1);
    assert((4 * k + 2) / 4 == k && (4 * k + 2) % 4 == 2);
    assert(m / 4 == k && m % 4 == j);
    if j > 0 { assert(nib_at(a, 4 * k) == nib_at(b, 4 * k)); }
    if j > 1 { assert(nib_at(a, 4 * k + 1) == nib_at(b, 4 * k + 1)); }
    if j > 2 { assert(nib_at(a, 4 * k + 2) == nib_at(b, 4 * k + 2)); }
    let jj = j as u8;
    assert((6u8 - 2u8 * jj) as u8 == (6 - 2 * j) as u8);
    lemma_byte_nib_lt(x, y, jj);
    assert(0 <= k < a.len() && k < b.len() && a[k] < b[k] && (forall|i: int| 0 <= i < k ==> a[i] == b[i]));
}

/// A key whose nibs are the first nibs of a longer key comes before it in
/// lexicographic byte order.
pub proof fn lemma_nib_prefix_lex(a: Seq<u8>, b: Seq<u8>)
    requires
        a.len() < b.len(),
        nibs_agree(a, b, 0, 4 * a.len() as int),
    ensures
        lex_lt(a, b),
{
    assert forall|i: int| 0 <= i < a.len() implies a[i] == b[i] by {
        assert forall|t: int| 4 * i <= t < 4 * i + 4 implies #[trigger] nib_at(a, t) == nib_at(b, t) by {
            assert(t < 4 * a.len());
            assert(nib_at(a, t) == nib_at(b, t));
        }
        lemma_byte_from_nibs(a, b, i);
    }
}

/// Nib `idx` of `key`.
fn key_nib_at(key: &[u8], idx: usize) -> (r: u8)
    ensures
        r == nib_at(key@, idx as int),
        r < 4,
{
    let byte_idx = idx / 4;
    if byte_idx < key.len() {
        let shift = (6 - 2 * (idx % 4)) as u8;
        proof {
            lemma_nib_le_three(key@[byte_idx as int], shift);
        }
        (key[byte_idx] >> shift) & 0x03
    } else {
        0
    }
}

/// Number of nibs in `key`.
fn nib_count(key: &[u8]) -> (r: usize)
    requires
        key@.len() * 4 <= usize::MAX,
    ensures
        r == key@.len() * 4,
{
    key.len() * 4
}

/// Scan two keys from nib `from` on to find the first diverging nib.
fn find_divergence(key_a: &[u8], key_b: &[u8], from: usize) -> (r: DivergeResult)
    requires
        key_a@.len() * 4 <= usize::MAX,
        key_b@.len() * 4 <= usize::MAX,
    ensures
        diverge_spec(key_a@, key_b@, from as int, r),
{
    let total_a = nib_count(key_a);
    let total_b = nib_count(key_b);
    let min = if total_a < total_b { total_a } else { total_b };
    let mut d = from;
    while d < min
        invariant
            from <= d,
            min == (if key_a@.len() < key_b@.len() { 4 * key_a@.len() } else { 4 * key_b@.len() }),
            d > from ==> d <= min,
            nibs_agree(key_a@, key_b@, from as int, d as int),
        decreases min - d,
    {
        if key_nib_at(key_a, d) != key_nib_at(key_b, d) {
            return DivergeResult::At(d);
        }
        d += 1;
    }
    if total_a == total_b {
        DivergeResult::Duplicate
    } else {
        DivergeResult::At(d)
    }
}

/// Byte-wise equality of two slices.
fn simd_eq(a: &[u8], b: &[u8]) -> (r: bool)
    ensures
        r == (a@ == b@),
{
    if a.len() != b.len() {
        return false;
    }
    let len = a.len();
    let mut i: usize = 0;
    while i < len
        invariant
            len == a@.len() == b@.len(),
            i <= len,
            forall|k: int| 0 <= k < i ==> a@[k] == b@[k],
        decreases len - i,
    {
        if a[i] != b[i] {
            return false;
        }
        i += 1;
    }
    proof {
        assert(a@ =~= b@);
    }
    true
}

/// Find the first diverging nib, comparing whole bytes in chunks of `N` from
/// the byte that holds nib `from`; the nibs of the first differing byte are
/// then scanned one by one.
fn simd_find_divergence<const N: usize>(key_a: &[u8], key_b: &[u8], from: usize) -> (r: DivergeResult)
    requires
        0 < N,
        key_a@.len() * 4 <= usize::MAX,
        key_b@.len() * 4 <= usize::MAX,
    ensures
        diverge_spec(key_a@, key_b@, 4 * (from / 4) as int, r),
{
    let minlen = if key_a.len() < key_b.len() { key_a.len() } else { key_b.len() };
    let from_byte = from / 4;
    let mut i = from_byte;
    while i <= minlen && N <= minlen - i
        invariant
            0 < N,
            key_a@.len() * 4 <= usize::MAX,
            key_b@.len() * 4 <= usize::MAX,
            from_byte == from / 4,
            from_byte <= i,
            minlen == (if key_a@.len() < key_b@.len() { key_a@.len() } else { key_b@.len() }),
            i > from_byte ==> i <= minlen,
            forall|k: int| from_byte <= k < i ==> key_a@[k] == key_b@[k],
        decreases minlen + N - i,
    {
        let mut j: usize = 0;
        while j < N
            invariant
                key_a@.len() * 4 <= usize::MAX,
                key_b@.len() * 4 <= usize::MAX,
                from_byte == from / 4,
                0 < N,
                i + N <= minlen,
                minlen <= key_a@.len(),
                minlen <= key_b@.len(),
                from_byte <= i,
                j <= N,
                forall|k: int| from_byte <= k < i + j ==> key_a@[k] == key_b@[k],
            decreases N - j,
        {
            if key_a[i + j] != key_b[i + j] {
                let k = i + j;
                let r = find_divergence(key_a, key_b, k * 4);
                proof {
                    lemma_equal_bytes_nibs(key_a@, key_b@, from_byte as int, k as int);
                    let x = key_a@[k as int];
                    let y = key_b@[k as int];
                    lemma_bytes_differ_nib(x, y);
                    assert(nib_at(key_a@, 4 * k as int) == (x >> 6u8) & 3u8);
                    assert(nib_at(key_a@, 4 * k + 1) == (x >> 4u8) & 3u8);
                    assert(nib_at(key_a@, 4 * k + 2) == (x >> 2u8) & 3u8);
                    assert(nib_at(key_a@, 4 * k + 3) == (x >> 0u8) & 3u8);
                    assert(nib_at(key_b@, 4 * k as int) == (y >> 6u8) & 3u8);
                    assert(nib_at(key_b@, 4 * k + 1) == (y >> 4u8) & 3u8);
                    assert(nib_at(key_b@, 4 * k + 2) == (y >> 2u8) & 3u8);
                    assert(nib_at(key_b@, 4 * k + 3) == (y >> 0u8) & 3u8);
                }
                return r;
            }
            j += 1;
        }
        i += N;
    }
    let r = find_divergence(key_a, key_b, i * 4);
    proof {
        if i > from_byte {
            lemma_equal_bytes_nibs(key_a@, key_b@, from_byte as int, i as int);
        }
    }
    r
}

/// Scan nibs `from..to` of two keys for a divergence.
fn check_prefix(key_a: &[u8], key_b: &[u8], from: usize, to: usize) -> (r: PrefixCheck)
    ensures
        prefix_spec(key_a@, key_b@, from as int, to as int, r),
{
    let mut nib = from;
    while nib < to
        invariant
            from <= nib,
            nib > from ==> nib <= to,
            nibs_agree(key_a@, key_b@, from as int, nib as int),
        decreases to - nib,
    {
        if key_nib_at(key_a, nib) != key_nib_at(key_b, nib) {
            return PrefixCheck::Diverges(nib);
        }
        nib += 1;
    }
    PrefixCheck::Matches
}

/// Bounded prefix check over nibs `from..to`, comparing whole bytes in chunks
/// of `N` from the byte that holds nib `from`.
fn simd_check_prefix<const N: usize>(key_a: &[u8], key_b: &[u8], from: usize, to: usize) -> (r: PrefixCheck)
    requires
        0 < N,
        key_a@.len() * 4 <= usize::MAX,
    ensures
        from >= to ==> r is Matches,
        from < to ==> prefix_spec(key_a@, key_b@, 4 * (from / 4) as int, to as int, r),
{
    if from >= to {
        return PrefixCheck::Matches;
    }
    let from_byte = from / 4;
    let to_byte = to / 4 + if to % 4 == 0 { 0 } else { 1 };
    let m1 = if key_a.len() < key_b.len() { key_a.len() } else { key_b.len() };
    let minlen = if m1 < to_byte { m1 } else { to_byte };
    let mut i = from_byte;
    while i <= minlen && N <= minlen - i
        invariant
            0 < N,
            key_a@.len() * 4 <= usize::MAX,
            from_byte == from / 4,
            from < to,
            to_byte == (to + 3) / 4,
            from_byte <= i,
            minlen <= key_a@.len(),
            minlen <= key_b@.len(),
            minlen <= to_byte,
            i > from_byte ==> i <= minlen,
            forall|k: int| from_byte <= k < i ==> key_a@[k] == key_b@[k],
        decreases minlen + N - i,
    {
        let mut j: usize = 0;
        while j < N
            invariant
                key_a@.len() * 4 <= usize::MAX,
                from_byte == from / 4,
                from < to,
                to_byte == (to + 3) / 4,
                minlen <= to_byte,
                0 < N,
                i + N <= minlen,
                minlen <= key_a@.len(),
                minlen <= key_b@.len(),
                from_byte <= i,
                j <= N,
                forall|k: int| from_byte <= k < i + j ==> key_a@[k] == key_b@[k],
            decreases N - j,
        {
            if key_a[i + j] != key_b[i + j] {
                let k = i + j;
                proof {
                    lemma_equal_bytes_nibs(key_a@, key_b@, from_byte as int, k as int);
                }
                let r = check_prefix(key_a, key_b, k * 4, to);
                return r;
            }
            j += 1;
        }
        i += N;
    }
    let r = check_prefix(key_a, key_b, i * 4, to);
    proof {
        if i > from_byte {
            lemma_equal_bytes_nibs(key_a@, key_b@, from_byte as int, i as int);
        }
    }
    r
}


/// A 4-way radix trie over byte keys with values `T`, arena and key indices of
/// type `PTR` and prefix lengths (in nibs) of type `LEN`.
pub struct NibTrie<T, PTR: TrieIndex = u32, LEN: TrieIndex = u16> {
    pub arena: Vec<NibNode<PTR, LEN>>,
    pub buf: Vec<u8>,
    pub index: Vec<(usize, LEN)>,
    pub values: Vec<T>,
}

impl<T, PTR: TrieIndex, LEN: TrieIndex> NibTrie<T, PTR, LEN> {
    /// Index entry `i` addresses a range of `buf`.
    pub open spec fn entry_ok(self, i: int) -> bool {
        self.index@[i].0 + self.index@[i].1.ival() <= self.buf@.len()
    }

    /// The bytes of key `i`.
    pub open spec fn key_at(self, i: int) -> Seq<u8> {
        self.buf@.subrange(self.index@[i].0 as int, self.index@[i].0 + self.index@[i].1.ival())
    }

    /// The stored keys, the dummy at index `0` included.
    pub open spec fn key_seq(self) -> Seq<Seq<u8>> {
        Seq::new(self.index@.len(), |i: int| self.key_at(i))
    }

    /// The prefix length of node `phys`.
    pub open spec fn prefix_of(self, phys: int) -> nat {
        self.arena@[phys].prefix_len.ival()
    }

    /// Slot `n` of node `p` leads to an internal child: it is not a leaf, and
    /// it is occupied or holds a non-sentinel index.
    pub open spec fn is_link(self, p: int, n: int) -> bool {
        &&& !bit8(self.arena@[p].leaf_mask, n)
        &&& (bit8(self.arena@[p].occupancy, n) || self.arena@[p].children[n].ival() != PTR::imax())
    }

    /// Internal children stay inside the arena and never address the root, and
    /// every slot that holds an index is marked occupied.
    pub open spec fn arena_ok(self) -> bool {
        &&& forall|p: int, n: int|
            0 <= p < self.arena@.len() && 0 <= n < 4 && #[trigger] self.is_link(p, n)
                ==> 0 < self.arena@[p].children[n].ival() < self.arena@.len()
        &&& forall|p: int, n: int|
            0 <= p < self.arena@.len() && 0 <= n < 4 && #[trigger] self.child_of(p, n) != PTR::imax()
                ==> bit8(self.arena@[p].occupancy, n)
    }

    /// The key index that node `y` refers to.
    pub open spec fn ref_of(self, y: int) -> int {
        self.arena@[y].leaf.ival() as int
    }

    /// The key that node `y` refers to.
    pub open spec fn ref_key(self, y: int) -> Seq<u8> {
        self.key_at(self.ref_of(y))
    }

    /// The link at slot `n` of node `y` leads to a node with a larger prefix
    /// length whose reference key agrees with `y`'s below `y`'s prefix length
    /// and has nib `n` there.
    pub open spec fn edge_keyed(self, y: int, n: int) -> bool {
        let c = self.child_of(y, n);
        &&& self.prefix_of(c) > self.prefix_of(y)
        &&& nibs_agree(self.ref_key(c), self.ref_key(y), 0, self.prefix_of(y) as int)
        &&& nib_at(self.ref_key(c), self.prefix_of(y) as int) == n
    }

    /// The leaf at slot `n` of node `y` holds a stored key longer than `y`'s
    /// prefix length, with nib `n` there, that agrees with `y`'s reference key
    /// below it.
    pub open spec fn leaf_keyed(self, y: int, n: int) -> bool {
        let j = self.child_of(y, n);
        &&& 1 <= j < self.index@.len()
        &&& 4 * self.key_at(j).len() > self.prefix_of(y)
        &&& nib_at(self.key_at(j), self.prefix_of(y) as int) == n
        &&& nibs_agree(self.key_at(j), self.ref_key(y), 0, self.prefix_of(y) as int)
    }

    /// Node `y` follows the keys: it refers to a stored key at least as long
    /// as its prefix length, and its links and leaves are keyed.
    pub open spec fn node_keyed(self, y: int) -> bool {
        &&& 1 <= self.ref_of(y) < self.index@.len()
        &&& 4 * self.ref_key(y).len() >= self.prefix_of(y)
        &&& self.arena@[y].terminal != 0 ==> 4 * self.ref_key(y).len() == self.prefix_of(y)
        &&& forall|n: int| 0 <= n < 4 && #[trigger] self.is_link(y, n) ==> self.edge_keyed(y, n)
        &&& forall|n: int| 0 <= n < 4 && bit8(self.arena@[y].leaf_mask, n) && bit8(self.arena@[y].occupancy, n)
            ==> #[trigger] self.leaf_keyed(y, n)
    }

    /// The arena follows the keys: every stored key fits the prefix length
    /// type in nibs, and every node is keyed.
    #[verifier::opaque]
    pub open spec fn keyed(self) -> bool {
        &&& forall|i: int| 1 <= i < self.index@.len() ==> 4 * (#[trigger] self.key_at(i)).len() <= LEN::imax()
        &&& forall|y: int| 0 <= y < self.arena@.len() ==> #[trigger] self.node_keyed(y)
    }

    /// Every stored key is found by a lookup at its own index.
    #[verifier::opaque]
    pub open spec fn complete(self) -> bool {
        forall|i: int| 1 <= i < self.index@.len() ==> #[trigger] self.lookup(self.key_at(i)) == Some(i)
    }

    /// The probe `p` follows the trie: at every node its descent reaches, it
    /// agrees with the node's reference key below the node's prefix length, as
    /// far as `p` reaches.
    pub open spec fn follows(self, p: Seq<u8>) -> bool {
        forall|y: int| #[trigger] self.reaches(0, p, y, 4 * p.len() as int + 1)
            ==> nibs_agree(p, self.ref_key(y), 0,
                if self.prefix_of(y) < 4 * p.len() { self.prefix_of(y) as int } else { 4 * p.len() as int })
    }

    /// What a keyed trie says of one node and one key.
    pub proof fn lemma_keyed_at(self, y: int, i: int)
        requires
            self.keyed(),
        ensures
            0 <= y < self.arena@.len() ==> self.node_keyed(y),
            1 <= i < self.index@.len() ==> 4 * self.key_at(i).len() <= LEN::imax(),
    {
        reveal(NibTrie::keyed);
    }

    /// A complete trie finds stored key `i` at its own index.
    pub proof fn lemma_complete_at(self, i: int)
        requires
            self.complete(),
            1 <= i < self.index@.len(),
        ensures
            self.lookup(self.key_at(i)) == Some(i),
    {
        reveal(NibTrie::complete);
    }

    /// Well-formedness: the dummy entry is present, values pair up with the
    /// real keys, every entry addresses `buf`, indices fit `PTR` below its
    /// sentinel, and the arena is sound.
    pub open spec fn wf(self) -> bool {
        &&& self.index@.len() >= 1
        &&& self.values@.len() + 1 == self.index@.len()
        &&& forall|i: int| 0 <= i < self.index@.len() ==> #[trigger] self.entry_ok(i)
        &&& self.index@.len() <= PTR::imax()
        &&& self.arena@.len() <= PTR::imax()
        &&& PTR::imax() <= usize::MAX
        &&& LEN::imax() <= usize::MAX
        &&& self.arena_ok()
    }

    /// The candidate key index reached by descending from node `phys` along
    /// the nibs of `key`.
    pub open spec fn descend(self, phys: int, key: Seq<u8>) -> Option<int>
        decreases (if self.prefix_of(phys) >= 4 * key.len() { 0 } else { 4 * key.len() - self.prefix_of(phys) }),
    {
        if !(0 <= phys < self.arena@.len()) {
            None
        } else {
            let node = self.arena@[phys];
            let p = node.prefix_len.ival();
            if p >= 4 * key.len() {
                if node.terminal != 0 {
                    Some(node.leaf.ival() as int)
                } else {
                    None
                }
            } else {
                let nib = nib_at(key, p as int) as int;
                let c = node.children[nib].ival() as int;
                if c == PTR::imax() {
                    None
                } else if bit8(node.leaf_mask, nib) {
                    Some(c)
                } else if 0 <= c < self.arena@.len() && self.prefix_of(c) > p {
                    self.descend(c, key)
                } else {
                    None
                }
            }
        }
    }

    /// The key index that `get_index` reports for `key`.
    pub open spec fn lookup(self, key: Seq<u8>) -> Option<int> {
        if self.arena@.len() == 0 {
            None
        } else {
            match self.descend(0, key) {
                Some(ki) => if 1 <= ki < self.index@.len() && self.key_at(ki) == key {
                    Some(ki)
                } else {
                    None
                },
                None => None,
            }
        }
    }

    /// The value held by slot `n` of node `p`.
    pub open spec fn child_of(self, p: int, n: int) -> int {
        self.arena@[p].children[n].ival() as int
    }

    /// The internal child that a descent along `key` takes from `node`: the
    /// non-leaf slot under the key's nib at the node's prefix length, when it
    /// addresses a node with a larger prefix length.
    pub open spec fn step_to(self, node: int, key: Seq<u8>, c: int) -> bool {
        let p = self.prefix_of(node);
        let nib = nib_at(key, p as int) as int;
        &&& !bit8(self.arena@[node].leaf_mask, nib)
        &&& c == self.child_of(node, nib)
        &&& c != PTR::imax()
        &&& 0 <= c < self.arena@.len()
        &&& self.prefix_of(c) > p
    }

    /// The descent along `key` from `node` arrives at `target`, passing only
    /// nodes whose prefix lengths lie below the key's nib count and below `b`.
    pub open spec fn reaches(self, node: int, key: Seq<u8>, target: int, b: int) -> bool
        decreases (if self.prefix_of(node) >= 4 * key.len() { 0 } else { 4 * key.len() - self.prefix_of(node) }),
    {
        if !(0 <= node < self.arena@.len()) {
            false
        } else if node == target {
            true
        } else if self.prefix_of(node) >= 4 * key.len() || self.prefix_of(node) >= b {
            false
        } else {
            let c = self.child_of(node, nib_at(key, self.prefix_of(node) as int) as int);
            if self.step_to(node, key, c) {
                self.reaches(c, key, target, b)
            } else {
                false
            }
        }
    }

    /// `t` holds every node of `o` but `x` unchanged.
    pub open spec fn kept_except(o: Self, t: Self, x: int) -> bool {
        &&& t.arena@.len() >= o.arena@.len()
        &&& forall|q: int| 0 <= q < o.arena@.len() && q != x ==> #[trigger] t.arena@[q] == o.arena@[q]
    }

    /// A descent that reaches `target` below bound `b`, where the key still has
    /// nibs left, extends by the step from `target` to its internal child `c`
    /// under the bound `b2`.
    proof fn lemma_reaches_extend(self, node: int, key: Seq<u8>, target: int, c: int, b: int, b2: int)
        requires
            self.reaches(node, key, target, b),
            0 <= target < self.arena@.len(),
            self.prefix_of(target) < 4 * key.len(),
            self.prefix_of(target) < b2,
            b <= b2,
            self.step_to(target, key, c),
        ensures
            self.reaches(node, key, c, b2),
        decreases (if self.prefix_of(node) >= 4 * key.len() { 0 } else { 4 * key.len() - self.prefix_of(node) }),
    {
        if node == target {
            if node != c {
                assert(self.reaches(c, key, c, b2));
            }
        } else if node != c {
            let n1 = self.child_of(node, nib_at(key, self.prefix_of(node) as int) as int);
            self.lemma_reaches_extend(n1, key, target, c, b, b2);
        }
    }

    /// A descent that reaches `target` continues as the descent from `target`.
    proof fn lemma_reaches_descend(self, node: int, key: Seq<u8>, target: int, b: int)
        requires
            self.reaches(node, key, target, b),
        ensures
            self.descend(node, key) == self.descend(target, key),
        decreases (if self.prefix_of(node) >= 4 * key.len() { 0 } else { 4 * key.len() - self.prefix_of(node) }),
    {
        if node != target {
            let p = self.prefix_of(node);
            lemma_nib_lt_4(key, p as int);
            let c = self.child_of(node, nib_at(key, p as int) as int);
            self.lemma_reaches_descend(c, key, target, b);
        }
    }

    /// A descent that reaches `x` still does when only `x` changes, keeping a
    /// prefix length of at least the path's bound.
    proof fn lemma_reaches_kept(o: Self, t: Self, node: int, key: Seq<u8>, x: int, b: int)
        requires
            o.reaches(node, key, x, b),
            Self::kept_except(o, t, x),
            0 <= x < o.arena@.len(),
            b <= t.prefix_of(x),
        ensures
            t.reaches(node, key, x, b),
        decreases (if o.prefix_of(node) >= 4 * key.len() { 0 } else { 4 * key.len() - o.prefix_of(node) }),
    {
        if node != x {
            assert(t.arena@[node] == o.arena@[node]);
            let c = o.child_of(node, nib_at(key, o.prefix_of(node) as int) as int);
            if c != x {
                assert(t.arena@[c] == o.arena@[c]);
            }
            Self::lemma_reaches_kept(o, t, c, key, x, b);
        }
    }

    /// A descent from the root that ends at the slot holding `key` finds it.
    proof fn lemma_found(self, key: Seq<u8>, ki: int)
        requires
            self.arena@.len() > 0,
            1 <= ki < self.index@.len(),
            self.key_seq()[ki] == key,
            self.descend(0, key) == Some(ki),
        ensures
            self.lookup(key) == Some(ki),
    {
        assert(self.key_at(ki) == self.key_seq()[ki]);
    }

    /// When only node `x` at the end of a descent changes, keeping a prefix
    /// length of at least the descent's bound and at most the key's nib
    /// count, and the key's descent from `x` now yields slot `p`, the descent
    /// from the root yields `p` too.
    proof fn lemma_attach(o: Self, t: Self, key: Seq<u8>, x: int, p: int, b: int)
        requires
            0 <= x < o.arena@.len(),
            o.reaches(0, key, x, b),
            Self::kept_except(o, t, x),
            b <= t.prefix_of(x),
            t.prefix_of(x) <= 4 * key.len(),
            t.descend(x, key) == Some(p),
        ensures
            t.descend(0, key) == Some(p),
    {
        Self::lemma_reaches_kept(o, t, 0, key, x, b);
        t.lemma_reaches_descend(0, key, x, b);
    }

    proof fn lemma_arena_eq(self, other: Self)
        requires
            other.arena_ok(),
            self.arena@ == other.arena@,
        ensures
            self.arena_ok(),
    {
        assert forall|p: int, n: int|
            0 <= p < self.arena@.len() && 0 <= n < 4 && #[trigger] self.is_link(p, n)
                implies 0 < self.arena@[p].children[n].ival() < self.arena@.len() by {
            assert(other.is_link(p, n));
        }
        assert forall|p: int, n: int|
            0 <= p < self.arena@.len() && 0 <= n < 4 && #[trigger] self.child_of(p, n) != PTR::imax()
                implies bit8(self.arena@[p].occupancy, n) by {
            assert(other.child_of(p, n) != PTR::imax());
        }
    }

    /// The node `n` links only to nodes `1..len`, and marks every slot that
    /// holds an index as occupied.
    pub open spec fn node_links_ok(n: NibNode<PTR, LEN>, len: int) -> bool {
        &&& forall|j: int| 0 <= j < 4 && !#[trigger] bit8(n.leaf_mask, j)
            && (bit8(n.occupancy, j) || n.children[j].ival() != PTR::imax())
            ==> 0 < n.children[j].ival() < len
        &&& forall|j: int| 0 <= j < 4 && #[trigger] n.children[j].ival() != PTR::imax() ==> bit8(n.occupancy, j)
    }

    proof fn lemma_arena_update(self, other: Self, idx: int)
        requires
            other.arena_ok(),
            0 <= idx < other.arena@.len(),
            self.arena@ == other.arena@.update(idx, self.arena@[idx]),
            Self::node_links_ok(self.arena@[idx], self.arena@.len() as int),
        ensures
            self.arena_ok(),
    {
        assert forall|p: int, n: int|
            0 <= p < self.arena@.len() && 0 <= n < 4 && #[trigger] self.is_link(p, n)
                implies 0 < self.arena@[p].children[n].ival() < self.arena@.len() by {
            if p != idx {
                assert(other.is_link(p, n));
            } else {
                assert(!bit8(self.arena@[idx].leaf_mask, n));
            }
        }
        assert forall|p: int, n: int|
            0 <= p < self.arena@.len() && 0 <= n < 4 && #[trigger] self.child_of(p, n) != PTR::imax()
                implies bit8(self.arena@[p].occupancy, n) by {
            if p != idx {
                assert(other.child_of(p, n) != PTR::imax());
            }
        }
    }

    proof fn lemma_arena_push(self, other: Self)
        requires
            other.arena_ok(),
            self.arena@ == other.arena@.push(self.arena@.last()),
            Self::node_links_ok(self.arena@.last(), self.arena@.len() as int),
        ensures
            self.arena_ok(),
    {
        assert forall|p: int, n: int|
            0 <= p < self.arena@.len() && 0 <= n < 4 && #[trigger] self.is_link(p, n)
                implies 0 < self.arena@[p].children[n].ival() < self.arena@.len() by {
            if p < other.arena@.len() {
                assert(other.is_link(p, n));
            } else {
                assert(!bit8(self.arena@.last().leaf_mask, n));
            }
        }
        assert forall|p: int, n: int|
            0 <= p < self.arena@.len() && 0 <= n < 4 && #[trigger] self.child_of(p, n) != PTR::imax()
                implies bit8(self.arena@[p].occupancy, n) by {
            if p < other.arena@.len() {
                assert(other.child_of(p, n) != PTR::imax());
            }
        }
    }

    /// The bytes of key `key_index`, or `None` if it is out of range.
    fn key_slice(&self, key_index: PTR) -> (r: Option<&[u8]>)
        requires
            self.wf(),
        ensures
            r matches Some(s) ==> key_index.ival() < self.index@.len() && s@ == self.key_at(key_index.ival() as int),
            r is None ==> key_index.ival() >= self.index@.len(),
    {
        let ki = key_index.as_usize();
        if ki >= self.index.len() {
            return None;
        }
        let (off, len) = self.index[ki];
        proof {
            assert(self.entry_ok(ki as int));
        }
        let _blen = self.buf.len();
        Some(vstd::slice::slice_subrange(self.buf.as_slice(), off, off + len.as_usize()))
    }

    /// An empty trie: no nodes, the dummy byte and the dummy entry.
    pub fn new() -> (r: Self)
        requires
            PTR::imax() <= usize::MAX,
            LEN::imax() <= usize::MAX,
        ensures
            r.wf(),
            r.arena@.len() == 0,
            r.index@.len() == 1,
            r.keyed(),
            r.complete(),
    {
        let mut buf: Vec<u8> = Vec::new();
        buf.push(0);
        let mut index: Vec<(usize, LEN)> = Vec::new();
        index.push((0, LEN::zero()));
        proof {
            PTR::lemma_imax();
        }
        let r = NibTrie { arena: Vec::new(), buf, index, values: Vec::new() };
        proof {
            reveal(NibTrie::keyed);
            reveal(NibTrie::complete);
            assert(r.index@.len() == 1);
        }
        r
    }

    /// The number of keys.
    pub fn len(&self) -> (r: usize)
        requires
            self.wf(),
        ensures
            r == self.index@.len() - 1,
    {
        self.index.len() - 1
    }

    /// Whether the trie holds no key.
    pub fn is_empty(&self) -> (r: bool)
        requires
            self.wf(),
        ensures
            r == (self.index@.len() == 1),
    {
        self.index.len() == 1
    }

    /// The key index of `key`, found by descending along its nibs and comparing
    /// the stored key at the end.
    pub fn get_index(&self, key: &[u8]) -> (r: Option<usize>)
        requires
            self.wf(),
            key@.len() * 4 <= usize::MAX,
        ensures
            r matches Some(i) ==> self.lookup(key@) == Some(i as int),
            r is None ==> self.lookup(key@) is None,
    {
        if self.arena.len() == 0 {
            return None;
        }
        let mut node_idx: usize = 0;
        let max_nib = key.len() * 4;
        loop
            invariant
                self.wf(),
                self.arena@.len() > 0,
                max_nib == key@.len() * 4,
                node_idx < self.arena@.len(),
                self.descend(0, key@) == self.descend(node_idx as int, key@),
            decreases (if self.prefix_of(node_idx as int) >= 4 * key@.len() {
                0
            } else {
                4 * key@.len() - self.prefix_of(node_idx as int)
            }),
        {
            let node = &self.arena[node_idx];
            let prefix_len = node.prefix_len.as_usize();
            if prefix_len >= max_nib {
                if node.is_terminal() {
                    let ki = node.leaf;
                    match self.key_slice(ki) {
                        Some(key_in_buf) => {
                            if ki.as_usize() >= 1 && key.len() == key_in_buf.len() && simd_eq(key_in_buf, key) {
                                return Some(ki.as_usize());
                            }
                        },
                        None => {},
                    }
                }
                return None;
            }
            let nib = key_nib_at(key, prefix_len) as usize;
            let slot = node.children[nib];
            if slot.as_usize() == PTR::max_value() {
                return None;
            }
            if node.is_leaf(nib) {
                return match self.key_slice(slot) {
                    Some(s) => if slot.as_usize() >= 1 && simd_eq(s, key) {
                        Some(slot.as_usize())
                    } else {
                        None
                    },
                    None => None,
                };
            }
            proof {
                assert(self.is_link(node_idx as int, nib as int));
            }
            let next = slot.as_usize();
            if self.arena[next].prefix_len.as_usize() <= prefix_len {
                return None;
            }
            node_idx = next;
        }
    }

    /// The key index of a key known to be stored: the descent's candidate,
    /// taken without comparing the stored key.
    pub fn get_unchecked(&self, key: &[u8]) -> (r: Option<usize>)
        requires
            self.wf(),
            key@.len() * 4 <= usize::MAX,
            self.lookup(key@) is Some,
        ensures
            r matches Some(i) && self.lookup(key@) == Some(i as int),
    {
        let mut node_idx: usize = 0;
        let max_nib = key.len() * 4;
        loop
            invariant
                self.wf(),
                self.arena@.len() > 0,
                max_nib == key@.len() * 4,
                node_idx < self.arena@.len(),
                self.descend(0, key@) == self.descend(node_idx as int, key@),
                self.lookup(key@) is Some,
            decreases (if self.prefix_of(node_idx as int) >= 4 * key@.len() {
                0
            } else {
                4 * key@.len() - self.prefix_of(node_idx as int)
            }),
        {
            let node = &self.arena[node_idx];
            let prefix_len = node.prefix_len.as_usize();
            if prefix_len >= max_nib {
                return Some(node.leaf.as_usize());
            }
            let nib = key_nib_at(key, prefix_len) as usize;
            let slot = node.children[nib];
            if node.is_leaf(nib) {
                return Some(slot.as_usize());
            }
            node_idx = slot.as_usize();
        }
    }

    /// The value stored under `key`.
    pub fn get(&self, key: &[u8]) -> (r: Option<&T>)
        requires
            self.wf(),
            key@.len() * 4 <= usize::MAX,
        ensures
            r matches Some(v) ==> self.lookup(key@) matches Some(i) && self.values@[i - 1] == *v,
            r is None ==> self.lookup(key@) is None,
    {
        match self.get_index(key) {
            Some(idx) => Some(&self.values[idx - 1]),
            None => None,
        }
    }

    /// The value stored under `key` (same as [`Self::get`]).
    pub fn get_value(&self, key: &[u8]) -> (r: Option<&T>)
        requires
            self.wf(),
            key@.len() * 4 <= usize::MAX,
        ensures
            r matches Some(v) ==> self.lookup(key@) matches Some(i) && self.values@[i - 1] == *v,
            r is None ==> self.lookup(key@) is None,
    {
        self.get(key)
    }

    /// Consume the trie and return its keys and values in key-index order.
    pub fn into_keys_values(self) -> (r: (Vec<Vec<u8>>, Vec<T>))
        requires
            self.wf(),
        ensures
            r.0@.len() == self.index@.len() - 1,
            forall|i: int| 0 <= i < r.0@.len() ==> (#[trigger] r.0@[i])@ == self.key_at(i + 1),
            r.1@ == self.values@,
    {
        let mut keys: Vec<Vec<u8>> = Vec::new();
        let mut i: usize = 1;
        let _blen = self.buf.len();
        while i < self.index.len()
            invariant
                self.wf(),
                1 <= i <= self.index@.len(),
                keys@.len() == i - 1,
                forall|k: int| 0 <= k < keys@.len() ==> (#[trigger] keys@[k])@ == self.key_at(k + 1),
            decreases self.index@.len() - i,
        {
            let (off, len) = self.index[i];
            proof {
                assert(self.entry_ok(i as int));
            }
            let _blen = self.buf.len();
            keys.push(vstd::slice::slice_to_vec(vstd::slice::slice_subrange(self.buf.as_slice(), off, off + len.as_usize())));
            i += 1;
        }
        (keys, self.values)
    }

    /// Whether an arena address or key index may no longer fit `PTR`.
    pub fn near_capacity(&self) -> (r: bool)
        requires
            PTR::imax() <= usize::MAX,
        ensures
            r == (self.arena@.len() >= PTR::imax() || self.index@.len() >= PTR::imax()),
    {
        self.arena.len() >= PTR::max_value() || self.index.len() >= PTR::max_value()
    }
}

impl<T, PTR: TrieIndex, LEN: TrieIndex> Default for NibTrie<T, PTR, LEN> {
    fn default() -> (r: Self)
        ensures
            PTR::imax() <= usize::MAX && LEN::imax() <= usize::MAX ==> r.wf() && r.index@.len() == 1,
    {
        let mut buf: Vec<u8> = Vec::new();
        buf.push(0);
        let mut index: Vec<(usize, LEN)> = Vec::new();
        index.push((0, LEN::zero()));
        proof {
            PTR::lemma_imax();
        }
        NibTrie { arena: Vec::new(), buf, index, values: Vec::new() }
    }
}

impl<T, PTR: TrieIndex, LEN: TrieIndex> NibTrie<T, PTR, LEN> {
    /// A trie with the same index, buffer and values has the same keys.
    proof fn lemma_same_keys(self, other: Self)
        requires
            self.index@ == other.index@,
            self.buf@ == other.buf@,
        ensures
            self.key_seq() == other.key_seq(),
    {
        assert(self.key_seq() =~= other.key_seq());
    }

    /// Transfer well-formedness to a trie with the same views.
    proof fn lemma_wf_transfer(self, other: Self)
        requires
            other.wf(),
            self.arena@ == other.arena@,
            self.index@ == other.index@,
            self.buf@ == other.buf@,
            self.values@ == other.values@,
        ensures
            self.wf(),
            self.key_seq() == other.key_seq(),
    {
        self.lemma_arena_eq(other);
        assert forall|i: int| 0 <= i < self.index@.len() implies #[trigger] self.entry_ok(i) by {
            assert(other.entry_ok(i));
        }
        self.lemma_same_keys(other);
    }

    /// A trie whose arena is sound and fits, with the entries and values of a
    /// well-formed trie, is well formed.
    proof fn lemma_wf_arena(self, other: Self)
        requires
            other.wf(),
            self.arena_ok(),
            self.arena@.len() <= PTR::imax(),
            self.index@ == other.index@,
            self.buf@ == other.buf@,
            self.values@ == other.values@,
        ensures
            self.wf(),
            self.key_seq() == other.key_seq(),
    {
        assert forall|i: int| 0 <= i < self.index@.len() implies #[trigger] self.entry_ok(i) by {
            assert(other.entry_ok(i));
        }
        self.lemma_same_keys(other);
    }

    /// Drop the key, index entry and value appended by a failed insertion.
    fn rollback_last_insert(&mut self)
        requires
            old(self).wf(),
            old(self).index@.len() >= 2,
            old(self).index@.last().0 <= old(self).buf@.len(),
        ensures
            final(self).index@ == old(self).index@.drop_last(),
            final(self).buf@ == old(self).buf@.subrange(0, old(self).index@.last().0 as int),
            final(self).values@ == old(self).values@.drop_last(),
            final(self).arena@ == old(self).arena@,
    {
        let off = match self.index.pop() {
            Some(e) => e.0,
            None => 0,
        };
        self.buf.truncate(off);
        let _ = self.values.pop();
    }

    /// Make the first key the whole trie: a terminal root for the empty key,
    /// else a root with one leaf child.
    fn insert_into_empty_trie(&mut self, key: &[u8], new_index: PTR, max_nib: usize) -> (r: usize)
        requires
            old(self).wf(),
            old(self).arena@.len() == 0,
            max_nib == key@.len() * 4,
            new_index.ival() < PTR::imax(),
        ensures
            final(self).wf(),
            final(self).index@ == old(self).index@,
            final(self).buf@ == old(self).buf@,
            final(self).values@ == old(self).values@,
            r == new_index.ival(),
            final(self).descend(0, key@) == Some(new_index.ival() as int),
            old(self).index@.len() == 2 && new_index.ival() == 1 && old(self).key_at(1) == key@
                && 4 * key@.len() <= LEN::imax() ==> final(self).keyed(),
    {
        let mut root = NibNode::<PTR, LEN>::new();
        if max_nib == 0 {
            root.set_terminal(true);
        } else {
            let first_nib = key_nib_at(key, 0) as usize;
            root.set_leaf_child(first_nib, new_index);
        }
        root.leaf = new_index;
        root.prefix_len = LEN::zero();
        let ghost before = *self;
        self.arena.push(root);
        proof {
            assert forall|j: int| 0 <= j < 4 && !#[trigger] bit8(root.leaf_mask, j)
                && (bit8(root.occupancy, j) || root.children[j].ival() != PTR::imax())
                implies 0 < root.children[j].ival() < self.arena@.len() by {
                lemma_bit8_zero_all();
            }
            self.lemma_arena_push(before);
            PTR::lemma_imax();
            PTR::lemma_ival_bounds(new_index);
            self.lemma_wf_arena(before);
            if before.index@.len() == 2 && new_index.ival() == 1 && before.key_at(1) == key@
                && 4 * key@.len() <= LEN::imax() {
                lemma_bit8_zero_all();
                assert(self.key_at(1) == key@);
                assert(self.ref_key(0) == key@);
                assert forall|n: int| 0 <= n < 4 && #[trigger] self.is_link(0, n) implies self.edge_keyed(0, n) by {
                }
                assert forall|n: int| 0 <= n < 4 && bit8(self.arena@[0].leaf_mask, n) && bit8(self.arena@[0].occupancy, n)
                    implies #[trigger] self.leaf_keyed(0, n) by {
                }
                assert(self.node_keyed(0));
                reveal(NibTrie::keyed);
            }
        }
        new_index.as_usize()
    }

    /// Split node `node_idx` at nib `diverge`, before its prefix ends: a new
    /// parent takes its place, holding the new key and the old node (moved to
    /// the end of the arena) under `ref_nib`.
    fn split_node_before_prefix(
        &mut self,
        node_idx: usize,
        diverge: usize,
        ref_nib: usize,
        new_index: PTR,
        key: &[u8],
        max_nib: usize,
    ) -> (r: usize)
        requires
            old(self).wf(),
            node_idx < old(self).arena@.len(),
            old(self).arena@.len() < PTR::imax(),
            diverge <= LEN::imax(),
            ref_nib < 4,
            max_nib == key@.len() * 4,
            new_index.ival() < PTR::imax(),
            diverge < max_nib ==> nib_at(key@, diverge as int) != ref_nib,
        ensures
            final(self).wf(),
            final(self).index@ == old(self).index@,
            final(self).buf@ == old(self).buf@,
            final(self).values@ == old(self).values@,
            r == new_index.ival(),
            final(self).descend(node_idx as int, key@) == Some(new_index.ival() as int),
            final(self).prefix_of(node_idx as int) == diverge,
            Self::kept_except(*old(self), *final(self), node_idx as int),
    {
        let new_nib = key_nib_at(key, diverge) as usize;
        let mut new_parent = NibNode::<PTR, LEN>::new();
        new_parent.prefix_len = LEN::from_usize(diverge);
        if diverge >= max_nib {
            new_parent.set_terminal(true);
        } else {
            new_parent.set_leaf_child(new_nib, new_index);
        }
        new_parent.leaf = new_index;
        let ghost before = *self;
        let old_node = self.arena[node_idx];
        let old_addr = self.arena.len();
        self.arena.push(old_node);
        proof {
            assert forall|j: int| 0 <= j < 4 && !#[trigger] bit8(old_node.leaf_mask, j)
                && (bit8(old_node.occupancy, j) || old_node.children[j].ival() != PTR::imax())
                implies 0 < old_node.children[j].ival() < self.arena@.len() by {
                assert(before.is_link(node_idx as int, j));
            }
            assert forall|j: int| 0 <= j < 4 && #[trigger] old_node.children[j].ival() != PTR::imax() implies bit8(old_node.occupancy, j) by {
                assert(before.child_of(node_idx as int, j) != PTR::imax());
            }
            self.lemma_arena_push(before);
            PTR::lemma_imax();
        }
        let ghost pushed = *self;
        new_parent.set_internal_child(ref_nib, PTR::from_usize(old_addr));
        self.arena.set(node_idx, new_parent);
        proof {
            assert forall|j: int| 0 <= j < 4 && !#[trigger] bit8(new_parent.leaf_mask, j)
                && (bit8(new_parent.occupancy, j) || new_parent.children[j].ival() != PTR::imax())
                implies 0 < new_parent.children[j].ival() < self.arena@.len() by {
                lemma_bit8_zero_all();
            }
            self.lemma_arena_update(pushed, node_idx as int);
            PTR::lemma_ival_bounds(new_index);
            self.lemma_wf_arena(before);
        }
        new_index.as_usize()
    }

    /// Replace the leaf child `nib` of node `node_idx` (key `existing_key_index`)
    /// with a new node splitting it from the new key where they diverge. `Err`
    /// (after rolling back) for a duplicate.
    fn split_leaf_child(
        &mut self,
        nib: usize,
        node_idx: usize,
        existing_key_index: PTR,
        new_index: PTR,
        key: &[u8],
        max_nib: usize,
        confirmed: usize,
    ) -> (r: Result<usize, ()>)
        requires
            old(self).wf(),
            nib < 4,
            node_idx < old(self).arena@.len(),
            old(self).arena@.len() < PTR::imax(),
            bit8(old(self).arena@[node_idx as int].leaf_mask, nib as int),
            max_nib == key@.len() * 4,
            old(self).index@.len() >= 2,
            old(self).index@.last().0 <= old(self).buf@.len(),
            new_index.ival() < PTR::imax(),
            nib == nib_at(key@, old(self).prefix_of(node_idx as int) as int),
            old(self).prefix_of(node_idx as int) < 4 * key@.len() ==> confirmed > old(self).prefix_of(node_idx as int),
        ensures
            r is Ok ==> final(self).wf() && final(self).index@ == old(self).index@
                && final(self).buf@ == old(self).buf@ && final(self).values@ == old(self).values@,
            r is Ok ==> Self::kept_except(*old(self), *final(self), node_idx as int)
                && final(self).prefix_of(node_idx as int) == old(self).prefix_of(node_idx as int)
                && (final(self).prefix_of(node_idx as int) < 4 * key@.len()
                    ==> final(self).descend(node_idx as int, key@) == Some(new_index.ival() as int)),
            r matches Ok(i) ==> i == new_index.ival(),
            r is Err ==> final(self).index@ == old(self).index@.drop_last()
                && final(self).buf@ == old(self).buf@.subrange(0, old(self).index@.last().0 as int)
                && final(self).values@ == old(self).values@.drop_last()
                && final(self).arena@ == old(self).arena@,
            r is Err ==> !({
                let e = existing_key_index.ival() as int;
                let k = old(self).key_at(e);
                &&& 1 <= e < old(self).index@.len()
                &&& nibs_agree(key@, k, 0, confirmed as int)
                &&& confirmed <= 4 * k.len() <= LEN::imax()
                &&& confirmed <= max_nib <= LEN::imax()
                &&& k != key@
            }),
    {
        let ghost e = existing_key_index.ival() as int;
        let ghost k = old(self).key_at(e);
        let ghost ant = {
            &&& 1 <= e < old(self).index@.len()
            &&& nibs_agree(key@, k, 0, confirmed as int)
            &&& confirmed <= 4 * k.len() <= LEN::imax()
            &&& confirmed <= max_nib <= LEN::imax()
            &&& k != key@
        };
        let existing_key = match self.key_slice(existing_key_index) {
            Some(k) => k,
            None => {
                self.rollback_last_insert();
                return Err(());
            },
        };
        if existing_key.len() > usize::MAX / 4 {
            self.rollback_last_insert();
            return Err(());
        }
        match simd_find_divergence::<8>(key, existing_key, confirmed) {
            DivergeResult::Duplicate => {
                proof {
                    if ant {
                        assert forall|m: int| 0 <= m < 4 * key@.len() implies #[trigger] nib_at(key@, m) == nib_at(k, m) by {
                            if m < confirmed {
                                assert(nib_at(key@, m) == nib_at(k, m));
                            } else {
                                assert(4 * (confirmed / 4) <= m);
                                assert(nib_at(key@, m) == nib_at(existing_key@, m));
                            }
                        }
                        lemma_nibs_equal(key@, k);
                    }
                }
                self.rollback_last_insert();
                Err(())
            },
            DivergeResult::At(d) => {
                if d > LEN::max_value() {
                    self.rollback_last_insert();
                    return Err(());
                }
                if d < confirmed {
                    proof {
                        if ant {
                            assert(4 * (confirmed / 4) <= d);
                            if d < 4 * key@.len() && d < 4 * k.len() {
                                assert(nib_at(key@, d as int) == nib_at(k, d as int));
                            }
                        }
                    }
                    // The leaf's key parts from the new key above this node:
                    // it cannot be stored below it.
                    self.rollback_last_insert();
                    return Err(());
                }
                let mut split_node = NibNode::<PTR, LEN>::new();
                split_node.prefix_len = LEN::from_usize(d);
                if d >= max_nib {
                    let exist_nib = key_nib_at(existing_key, d) as usize;
                    split_node.set_terminal(true);
                    split_node.leaf = new_index;
                    split_node.set_leaf_child(exist_nib, existing_key_index);
                } else if d >= existing_key.len() * 4 {
                    let new_nib = key_nib_at(key, d) as usize;
                    split_node.set_terminal(true);
                    split_node.leaf = existing_key_index;
                    split_node.set_leaf_child(new_nib, new_index);
                } else {
                    let new_nib = key_nib_at(key, d) as usize;
                    let exist_nib = key_nib_at(existing_key, d) as usize;
                    split_node.set_leaf_child(new_nib, new_index);
                    split_node.set_leaf_child(exist_nib, existing_key_index);
                    split_node.leaf = existing_key_index;
                }
                let ghost before = *self;
                let split_addr = self.arena.len();
                self.arena.push(split_node);
                proof {
                    assert forall|j: int| 0 <= j < 4 && !#[trigger] bit8(split_node.leaf_mask, j)
                        && (bit8(split_node.occupancy, j) || split_node.children[j].ival() != PTR::imax())
                        implies 0 < split_node.children[j].ival() < self.arena@.len() by {
                        lemma_bit8_zero_all();
                    }
                    self.lemma_arena_push(before);
                    PTR::lemma_imax();
                }
                let ghost pushed = *self;
                let mut node = self.arena[node_idx];
                node.set_internal_child(nib, PTR::from_usize(split_addr));
                self.arena.set(node_idx, node);
                proof {
                    assert forall|j: int| 0 <= j < 4 && !#[trigger] bit8(node.leaf_mask, j)
                        && (bit8(node.occupancy, j) || node.children[j].ival() != PTR::imax())
                        implies 0 < node.children[j].ival() < self.arena@.len() by {
                        if j != nib {
                            assert(before.is_link(node_idx as int, j));
                        }
                    }
                    assert forall|j: int| 0 <= j < 4 && #[trigger] node.children[j].ival() != PTR::imax() implies bit8(node.occupancy, j) by {
                        if j != nib {
                            assert(pushed.child_of(node_idx as int, j) != PTR::imax());
                        }
                    }
                    self.lemma_arena_update(pushed, node_idx as int);
                    PTR::lemma_ival_bounds(new_index);
                    self.lemma_wf_arena(before);
                    let ol = split_addr as int;
                    assert(self.arena@[ol] == split_node);
                    assert(self.prefix_of(ol) == d);
                    assert(self.descend(ol, key@) == Some(new_index.ival() as int));
                    if self.prefix_of(node_idx as int) < 4 * key@.len() {
                        assert(self.child_of(node_idx as int, nib as int) == ol);
                        assert(self.arena@[node_idx as int].prefix_len == pushed.arena@[node_idx as int].prefix_len);
                        assert(pushed.arena@[node_idx as int] == before.arena@[node_idx as int]);
                        assert(before.arena@ == old(self).arena@);
                        assert(self.prefix_of(node_idx as int) == old(self).prefix_of(node_idx as int));
                        assert(d > self.prefix_of(node_idx as int));
                        assert(!bit8(self.arena@[node_idx as int].leaf_mask, nib as int));
                        assert(ol != PTR::imax());
                        assert(self.descend(node_idx as int, key@) == Some(new_index.ival() as int));
                    }
                }
                Ok(new_index.as_usize())
            },
        }
    }

    /// Insert `key` with `value`. Returns the new key index (keys are numbered
    /// from `1` in insertion order), or `Err` for a key that is already stored
    /// (the trie is then unchanged) or when the key length or the index
    /// capacity of `PTR` would be exceeded. A lookup of the key then finds it.
    pub fn insert(&mut self, key: Vec<u8>, value: T) -> (r: Result<usize, ()>)
        requires
            old(self).wf(),
        ensures
            final(self).wf(),
            old(self).lookup(key@) is Some ==> r is Err && *final(self) == *old(self),
            r matches Ok(i) ==> i == old(self).index@.len()
                && final(self).key_seq() == old(self).key_seq().push(key@)
                && final(self).values@ == old(self).values@.push(value),
            r matches Ok(i) ==> final(self).lookup(key@) == Some(i as int),
            r is Err ==> final(self).key_seq() == old(self).key_seq()
                && final(self).values@ == old(self).values@,
            old(self).arena@.len() >= PTR::imax() || old(self).index@.len() >= PTR::imax()
                || 4 * key@.len() > LEN::imax() ==> r is Err && *final(self) == *old(self),
            old(self).arena@.len() == 0 && old(self).index@.len() < PTR::imax() && 4 * key@.len() <= LEN::imax()
                ==> r is Ok,
            old(self).keyed() && old(self).complete() && old(self).lookup(key@) is None
                && old(self).arena@.len() < PTR::imax() && old(self).index@.len() < PTR::imax()
                && 4 * key@.len() <= LEN::imax() ==> r is Ok,
            old(self).arena@.len() == 0 && old(self).index@.len() == 1 && r is Ok
                ==> final(self).keyed() && final(self).complete(),
    {
        if self.arena.len() >= PTR::max_value() || self.index.len() >= PTR::max_value() {
            return Err(());
        }
        if key.len() > usize::MAX / 4 || key.len() * 4 > LEN::max_value() {
            return Err(());
        }
        if self.get_index(key.as_slice()).is_some() {
            return Err(());
        }
        let ghost start = *self;
        let new_index = PTR::from_usize(self.index.len());
        let key_len = LEN::from_usize(key.len());
        let offset = self.buf.len();
        append_bytes(&mut self.buf, key.as_slice());
        self.index.push((offset, key_len));
        self.values.push(value);
        proof {
            self.lemma_arena_eq(start);
            assert forall|i: int| 0 <= i < self.index@.len() implies #[trigger] self.entry_ok(i) by {
                if i < start.index@.len() {
                    assert(start.entry_ok(i));
                }
            }
            assert forall|i: int| 0 <= i < start.index@.len() implies #[trigger] self.key_at(i) == start.key_at(i) by {
                assert(start.entry_ok(i));
                assert(self.key_at(i) =~= start.key_at(i));
            }
            assert(self.key_at(start.index@.len() as int) =~= key@);
            assert(self.key_seq() =~= start.key_seq().push(key@));
        }
        let ghost pushed = *self;
        let max_nib = key.len() * 4;
        if self.arena.len() == 0 {
            let r = self.insert_into_empty_trie(key.as_slice(), new_index, max_nib);
            proof {
                self.lemma_same_keys(pushed);
                self.lemma_found(key@, new_index.ival() as int);
                if start.index@.len() == 1 {
                    assert(self.key_at(1) == key@);
                    reveal(NibTrie::complete);
                }
            }
            return Ok(r);
        }
        let mut node_idx: usize = 0;
        let mut confirmed: usize = 0;
        let ghost mut bnd: int = 0;
        let ghost kc = start.keyed() && start.complete();
        proof {
            LEN::lemma_ival_bounds(self.arena@[0].prefix_len);
        }
        loop
            invariant
                pushed.wf(),
                self.wf(),
                self.arena@ == pushed.arena@,
                self.index@ == pushed.index@,
                self.buf@ == pushed.buf@,
                self.values@ == pushed.values@,
                pushed.key_seq() == start.key_seq().push(key@),
                pushed.values@ == start.values@.push(value),
                pushed.index@ == start.index@.push((offset, key_len)),
                pushed.buf@ == start.buf@ + key@,
                pushed.arena@ == start.arena@,
                start.index@.len() < PTR::imax(),
                offset == start.buf@.len(),
                start.wf(),
                start == *old(self),
                start.lookup(key@) is None,
                self.arena@.len() > 0,
                self.arena@.len() < PTR::imax(),
                new_index.ival() == start.index@.len(),
                max_nib == key@.len() * 4,
                max_nib <= LEN::imax(),
                node_idx < self.arena@.len(),
                pushed.reaches(0, key@, node_idx as int, bnd),
                bnd <= confirmed,
                confirmed <= max_nib,
                bnd <= pushed.prefix_of(node_idx as int),
                pushed.prefix_of(node_idx as int) <= LEN::imax(),
                kc == (start.keyed() && start.complete()),
                forall|i: int| 0 <= i < start.index@.len() ==> #[trigger] pushed.key_at(i) == start.key_at(i),
                kc ==> nibs_agree(key@, start.ref_key(node_idx as int), 0, confirmed as int),
                kc ==> confirmed <= start.prefix_of(node_idx as int),
            decreases LEN::imax() - self.prefix_of(node_idx as int),
        {
            let node = self.arena[node_idx];
            proof {
                LEN::lemma_ival_bounds(node.prefix_len);
                if kc {
                    start.lemma_keyed_at(node_idx as int, 0);
                }
            }
            let ref_key = match self.key_slice(node.leaf) {
                Some(k) => k,
                None => {
                    self.rollback_last_insert();
                    proof {
                        assert(self.buf@ =~= start.buf@);
                        assert(self.index@ =~= start.index@);
                        assert(self.values@ =~= start.values@);
                        self.lemma_wf_transfer(start);
                    }
                    return Err(());
                },
            };
            let prefix_len = node.prefix_len.as_usize();
            proof {
                if kc {
                    let rr = start.ref_of(node_idx as int);
                    assert(pushed.key_at(rr) == start.key_at(rr));
                    assert(self.key_at(rr) == pushed.key_at(rr));
                    assert(ref_key@ == start.ref_key(node_idx as int));
                }
            }
            match simd_check_prefix::<8>(key.as_slice(), ref_key, confirmed, prefix_len) {
                PrefixCheck::Diverges(diverge) => {
                    proof {
                        if kc {
                            if diverge < confirmed {
                                assert(nib_at(key@, diverge as int) == nib_at(start.ref_key(node_idx as int), diverge as int));
                            }
                        }
                    }
                    // A key that ends inside the span splits at its own end.
                    let diverge = if diverge > max_nib { max_nib } else { diverge };
                    if diverge < confirmed {
                        // The reference key parts from the new key above this
                        // node: the node cannot be split there.
                        self.rollback_last_insert();
                        proof {
                            assert(self.buf@ =~= start.buf@);
                            assert(self.index@ =~= start.index@);
                            assert(self.values@ =~= start.values@);
                            self.lemma_wf_transfer(start);
                        }
                        return Err(());
                    }
                    let ref_nib = key_nib_at(ref_key, diverge) as usize;
                    let r = self.split_node_before_prefix(node_idx, diverge, ref_nib, new_index, key.as_slice(), max_nib);
                    proof {
                        self.lemma_same_keys(pushed);
                        Self::lemma_attach(pushed, *self, key@, node_idx as int, new_index.ival() as int, bnd);
                        self.lemma_found(key@, new_index.ival() as int);
                    }
                    return Ok(r);
                },
                PrefixCheck::Matches => {
                    proof {
                        if kc {
                            assert forall|m: int| 0 <= m < prefix_len implies
                                #[trigger] nib_at(key@, m) == nib_at(start.ref_key(node_idx as int), m) by {
                                if m < confirmed {
                                    assert(nib_at(key@, m) == nib_at(start.ref_key(node_idx as int), m));
                                } else {
                                    assert(nib_at(key@, m) == nib_at(ref_key@, m));
                                }
                            }
                        }
                    }
                    if max_nib < prefix_len {
                        // The key ends inside this node's span: a new node at
                        // the key's end takes it as its terminal value.
                        let ref_nib = key_nib_at(ref_key, max_nib) as usize;
                        let r = self.split_node_before_prefix(node_idx, max_nib, ref_nib, new_index, key.as_slice(), max_nib);
                        proof {
                            self.lemma_same_keys(pushed);
                            Self::lemma_attach(pushed, *self, key@, node_idx as int, new_index.ival() as int, bnd);
                            self.lemma_found(key@, new_index.ival() as int);
                        }
                        return Ok(r);
                    }
                    if max_nib == prefix_len {
                        if key.len() == ref_key.len() {
                            proof {
                                if kc {
                                    lemma_nibs_equal(key@, ref_key@);
                                    start.lemma_complete_at(start.ref_of(node_idx as int));
                                }
                            }
                            self.rollback_last_insert();
                            proof {
                                assert(self.buf@ =~= start.buf@);
                                assert(self.index@ =~= start.index@);
                                assert(self.values@ =~= start.values@);
                                self.lemma_wf_transfer(start);
                            }
                            return Err(());
                        }
                        let ghost before = *self;
                        let mut n = node;
                        n.set_terminal(true);
                        n.leaf = new_index;
                        self.arena.set(node_idx, n);
                        proof {
                            assert forall|j: int| 0 <= j < 4 && !#[trigger] bit8(n.leaf_mask, j)
                                && (bit8(n.occupancy, j) || n.children[j].ival() != PTR::imax())
                                implies 0 < n.children[j].ival() < self.arena@.len() by {
                                assert(before.is_link(node_idx as int, j));
                            }
                            assert forall|j: int| 0 <= j < 4 && #[trigger] n.children[j].ival() != PTR::imax() implies bit8(n.occupancy, j) by {
                                assert(before.child_of(node_idx as int, j) != PTR::imax());
                            }
                            self.lemma_arena_update(before, node_idx as int);
                            self.lemma_wf_arena(pushed);
                            PTR::lemma_ival_bounds(new_index);
                            assert(self.descend(node_idx as int, key@) == Some(new_index.ival() as int));
                                Self::lemma_attach(pushed, *self, key@, node_idx as int, new_index.ival() as int, bnd);
                            self.lemma_found(key@, new_index.ival() as int);
                        }
                        return Ok(new_index.as_usize());
                    }
                    confirmed = if prefix_len < usize::MAX { prefix_len + 1 } else { prefix_len };
                    let nib = key_nib_at(key.as_slice(), prefix_len) as usize;
                    if !node.is_occupied(nib) {
                        let ghost before = *self;
                        let mut n = node;
                        n.set_leaf_child(nib, new_index);
                        self.arena.set(node_idx, n);
                        proof {
                            assert forall|j: int| 0 <= j < 4 && !#[trigger] bit8(n.leaf_mask, j)
                                && (bit8(n.occupancy, j) || n.children[j].ival() != PTR::imax())
                                implies 0 < n.children[j].ival() < self.arena@.len() by {
                                assert(before.is_link(node_idx as int, j));
                            }
                            assert forall|j: int| 0 <= j < 4 && #[trigger] n.children[j].ival() != PTR::imax() implies bit8(n.occupancy, j) by {
                                if j != nib {
                                    assert(before.child_of(node_idx as int, j) != PTR::imax());
                                }
                            }
                            self.lemma_arena_update(before, node_idx as int);
                            self.lemma_wf_arena(pushed);
                            PTR::lemma_ival_bounds(new_index);
                            if self.prefix_of(node_idx as int) < 4 * key@.len() {
                                assert(self.descend(node_idx as int, key@) == Some(new_index.ival() as int));
                            }
                                Self::lemma_attach(pushed, *self, key@, node_idx as int, new_index.ival() as int, bnd);
                            self.lemma_found(key@, new_index.ival() as int);
                        }
                        return Ok(new_index.as_usize());
                    }
                    let slot = node.children[nib];
                    proof {
                        if kc {
                            lemma_nib_lt_4(key@, prefix_len as int);
                            assert(nib_at(key@, prefix_len as int) == nib);
                        }
                    }
                    if node.is_leaf(nib) {
                        proof {
                            if kc {
                                assert(start.leaf_keyed(node_idx as int, nib as int));
                                let e = slot.ival() as int;
                                start.lemma_keyed_at(node_idx as int, e);
                                start.lemma_complete_at(e);
                                assert forall|m: int| 0 <= m < confirmed implies
                                    #[trigger] nib_at(key@, m) == nib_at(start.key_at(e), m) by {
                                    if m < prefix_len {
                                        assert(nib_at(key@, m) == nib_at(start.ref_key(node_idx as int), m));
                                        assert(nib_at(start.key_at(e), m) == nib_at(start.ref_key(node_idx as int), m));
                                    }
                                }
                                assert(pushed.key_at(e) == start.key_at(e));
                                assert(self.key_at(e) == pushed.key_at(e));
                            }
                        }
                        let r = self.split_leaf_child(nib, node_idx, slot, new_index, key.as_slice(), max_nib, confirmed);
                        proof {
                            if r is Ok {
                                self.lemma_same_keys(pushed);
                                        Self::lemma_attach(pushed, *self, key@, node_idx as int, new_index.ival() as int, bnd);
                                self.lemma_found(key@, new_index.ival() as int);
                            } else {
                                assert(self.buf@ =~= start.buf@);
                                assert(self.index@ =~= start.index@);
                                assert(self.values@ =~= start.values@);
                                self.lemma_wf_transfer(start);
                            }
                        }
                        return r;
                    }
                    proof {
                        assert(self.is_link(node_idx as int, nib as int));
                    }
                    let next = slot.as_usize();
                    proof {
                        if kc {
                            assert(start.is_link(node_idx as int, nib as int));
                            assert(start.edge_keyed(node_idx as int, nib as int));
                            assert forall|m: int| 0 <= m < prefix_len + 1 implies
                                #[trigger] nib_at(key@, m) == nib_at(start.ref_key(next as int), m) by {
                                if m < prefix_len {
                                    assert(nib_at(key@, m) == nib_at(start.ref_key(node_idx as int), m));
                                    assert(nib_at(start.ref_key(next as int), m) == nib_at(start.ref_key(node_idx as int), m));
                                }
                            }
                        }
                    }
                    if self.arena[next].prefix_len.as_usize() <= prefix_len {
                        self.rollback_last_insert();
                        proof {
                            assert(self.buf@ =~= start.buf@);
                            assert(self.index@ =~= start.index@);
                            assert(self.values@ =~= start.values@);
                            self.lemma_wf_transfer(start);
                        }
                        return Err(());
                    }
                    proof {
                        LEN::lemma_ival_bounds(self.arena@[next as int].prefix_len);
                        assert(pushed.step_to(node_idx as int, key@, next as int));
                        pushed.lemma_reaches_extend(0, key@, node_idx as int, next as int, bnd, prefix_len + 1);
                        bnd = prefix_len + 1;
                    }
                    node_idx = next;
                },
            }
        }
    }
}

/// `b` is node `a` with its indices carried over to another index type: the
/// occupied slots and a present reference key keep their values, the rest are
/// sentinels, and every other field is unchanged.
pub open spec fn node_converted<P1: TrieIndex, P2: TrieIndex, LEN: TrieIndex>(
    a: NibNode<P1, LEN>,
    b: NibNode<P2, LEN>,
) -> bool {
    &&& forall|i: int| 0 <= i < 4 ==> #[trigger] b.children[i].ival() == (if bit8(a.occupancy, i) {
        a.children[i].ival()
    } else {
        P2::imax()
    })
    &&& b.leaf.ival() == (if a.leaf.ival() == P1::imax() { P2::imax() } else { a.leaf.ival() })
    &&& b.prefix_len == a.prefix_len
    &&& b.leaf_mask == a.leaf_mask
    &&& b.occupancy == a.occupancy
    &&& b.terminal == a.terminal
}

/// Every occupied slot and the reference key of node `n` fit in `m`.
pub open spec fn node_fits<P: TrieIndex, LEN: TrieIndex>(n: NibNode<P, LEN>, m: nat) -> bool {
    &&& forall|i: int| 0 <= i < 4 && #[trigger] bit8(n.occupancy, i) ==> n.children[i].ival() <= m
    &&& n.leaf.ival() != P::imax() ==> n.leaf.ival() <= m
}

impl<T, PTR: TrieIndex, LEN: TrieIndex> NibTrie<T, PTR, LEN> {
    /// `other` holds the nodes of `self` converted to another index type, and
    /// the same entries, buffer and values.
    pub open spec fn converted<P2: TrieIndex>(self, other: NibTrie<T, P2, LEN>) -> bool {
        &&& other.arena@.len() == self.arena@.len()
        &&& other.index@ == self.index@
        &&& other.buf@ == self.buf@
        &&& other.values@ == self.values@
        &&& forall|p: int| 0 <= p < self.arena@.len() ==> node_converted(#[trigger] self.arena@[p], other.arena@[p])
    }

    proof fn lemma_converted_wf<P2: TrieIndex>(self, other: NibTrie<T, P2, LEN>)
        requires
            self.wf(),
            self.converted(other),
            self.index@.len() <= P2::imax(),
            self.arena@.len() <= P2::imax(),
            P2::imax() <= usize::MAX,
        ensures
            other.wf(),
            other.key_seq() == self.key_seq(),
    {
        assert forall|p: int, n: int|
            0 <= p < other.arena@.len() && 0 <= n < 4 && #[trigger] other.is_link(p, n)
                implies 0 < other.arena@[p].children[n].ival() < other.arena@.len() by {
            assert(node_converted(self.arena@[p], other.arena@[p]));
            assert(self.is_link(p, n));
        }
        assert forall|p: int, n: int|
            0 <= p < other.arena@.len() && 0 <= n < 4 && #[trigger] other.child_of(p, n) != P2::imax()
                implies bit8(other.arena@[p].occupancy, n) by {
            assert(node_converted(self.arena@[p], other.arena@[p]));
        }
        assert forall|i: int| 0 <= i < other.index@.len() implies #[trigger] other.entry_ok(i) by {
            assert(self.entry_ok(i));
        }
        assert(other.key_seq() =~= self.key_seq());
    }

    /// The same trie with arena and key indices widened to `NewPTR`.
    pub fn promote<NewPTR: TrieIndex>(self) -> (r: NibTrie<T, NewPTR, LEN>)
        requires
            self.wf(),
            PTR::imax() <= NewPTR::imax(),
            NewPTR::imax() <= usize::MAX,
        ensures
            self.converted(r),
            r.wf(),
    {
        let mut arena: Vec<NibNode<NewPTR, LEN>> = Vec::with_capacity(self.arena.len());
        let mut p: usize = 0;
        while p < self.arena.len()
            invariant
                self.wf(),
                PTR::imax() <= NewPTR::imax(),
                NewPTR::imax() <= usize::MAX,
                p <= self.arena@.len(),
                arena@.len() == p,
                forall|q: int| 0 <= q < p ==> node_converted(#[trigger] self.arena@[q], arena@[q]),
            decreases self.arena@.len() - p,
        {
            let node = self.arena[p];
            proof {
                assert forall|i: int| 0 <= i < 4 && #[trigger] bit8(node.occupancy, i) implies node.children[i].ival() <= NewPTR::imax() by {
                    PTR::lemma_ival_bounds(node.children[i]);
                }
                PTR::lemma_ival_bounds(node.leaf);
            }
            arena.push(node.promote());
            p += 1;
        }
        let r = NibTrie { arena, buf: self.buf, index: self.index, values: self.values };
        proof {
            self.lemma_converted_wf(r);
        }
        r
    }

    /// The same trie with arena and key indices narrowed to `NewPTR`, or
    /// `Err(self)` if the arena, the index or a stored index does not fit.
    pub fn demote<NewPTR: TrieIndex>(self) -> (r: Result<NibTrie<T, NewPTR, LEN>, Self>)
        requires
            self.wf(),
            NewPTR::imax() <= usize::MAX,
        ensures
            r is Ok <==> self.arena@.len() <= NewPTR::imax() && self.index@.len() <= NewPTR::imax()
                && forall|p: int| 0 <= p < self.arena@.len() ==> node_fits(#[trigger] self.arena@[p], NewPTR::imax()),
            r matches Ok(t) ==> self.converted(t) && t.wf(),
            r matches Err(t) ==> t == self,
    {
        if self.arena.len() > NewPTR::max_value() || self.index.len() > NewPTR::max_value() {
            return Err(self);
        }
        let mut arena: Vec<NibNode<NewPTR, LEN>> = Vec::with_capacity(self.arena.len());
        let mut p: usize = 0;
        while p < self.arena.len()
            invariant
                self.wf(),
                NewPTR::imax() <= usize::MAX,
                p <= self.arena@.len(),
                arena@.len() == p,
                forall|q: int| 0 <= q < p ==> node_fits(#[trigger] self.arena@[q], NewPTR::imax()),
                forall|q: int| 0 <= q < p ==> node_converted(#[trigger] self.arena@[q], arena@[q]),
            decreases self.arena@.len() - p,
        {
            match self.arena[p].demote() {
                Ok(n) => {
                    arena.push(n);
                },
                Err(_) => {
                    return Err(self);
                },
            }
            p += 1;
        }
        let r = NibTrie { arena, buf: self.buf, index: self.index, values: self.values };
        proof {
            self.lemma_converted_wf(r);
        }
        Ok(r)
    }
}

/// Iterator frame position: the terminal value of the node.
pub const TERMINAL_NIB: usize = 4;

/// A key whose nibs are those of `p` and which is at least as long is not
/// below `p`.
pub proof fn lemma_nibs_not_below(p: Seq<u8>, k: Seq<u8>)
    requires
        nibs_agree(p, k, 0, 4 * p.len() as int),
        k.len() >= p.len(),
    ensures
        !lex_lt(k, p),
{
    assert forall|i: int| 0 <= i < p.len() implies k[i] == p[i] by {
        assert forall|t: int| 4 * i <= t < 4 * i + 4 implies #[trigger] nib_at(k, t) == nib_at(p, t) by {
            assert(t < 4 * p.len());
            assert(nib_at(p, t) == nib_at(k, t));
        }
        lemma_byte_from_nibs(k, p, i);
    }
}

/// Along a path whose top frame is positioned on key `ki`, that key lies
/// under each frame's node and, at a child slot, has the slot's nib at the
/// node's prefix length.
pub proof fn lemma_nib_path_key<T, PTR: TrieIndex, LEN: TrieIndex>(t: NibTrie<T, PTR, LEN>, s: Seq<(usize, u8, usize)>, ki: int, i: int)
    requires
        t.wf(),
        t.keyed(),
        nib_linked(t, s),
        forall|j: int| 0 <= j < s.len() ==> nib_frame_ok(t, #[trigger] s[j]),
        s.len() > 0,
        nib_frame_index(t, s.last()) == Some(ki),
        0 <= i < s.len(),
    ensures
        1 <= ki < t.index@.len(),
        s[i].2 != usize::MAX,
        t.under(ki, s[i].0 as int),
        s[i].2 < 4 ==> nib_at(t.key_at(ki), t.prefix_of(s[i].0 as int) as int) == s[i].2
            && 4 * t.key_at(ki).len() > t.prefix_of(s[i].0 as int),
    decreases s.len() - i,
{
    let y = s[i].0 as int;
    assert(nib_frame_ok(t, s[i]));
    t.lemma_keyed_at(y, 0);
    if i == s.len() - 1 {
        let w = s[i].2;
        if w < 4 {
            assert(t.leaf_keyed(y, w as int));
        }
    } else {
        lemma_nib_path_key(t, s, ki, i + 1);
        assert(nib_leads_to(t, s.subrange(0, i + 1), s[i + 1].0 as int));
        assert(s.subrange(0, i + 1).last() == s[i]);
        let w = s[i].2 as int;
        assert(t.is_link(y, w));
        assert(t.edge_keyed(y, w));
        t.lemma_under_child(ki, y, w);
    }
}

/// Frame `f` stands on the descent of the probe `p`, at the child slot of
/// `p`'s nib, at a node the descent reaches below `p`'s nib count.
pub open spec fn on_probe<T, PTR: TrieIndex, LEN: TrieIndex>(t: NibTrie<T, PTR, LEN>, p: Seq<u8>, f: (usize, u8, usize)) -> bool {
    &&& f.2 < 4
    &&& f.2 == nib_at(p, t.prefix_of(f.0 as int) as int)
    &&& t.prefix_of(f.0 as int) < 4 * p.len()
    &&& t.reaches(0, p, f.0 as int, 4 * p.len() as int + 1)
}

/// A positioned path below node `y` on the descent of a probe that follows
/// the trie: at a slot above the probe's nib its key is above the probe, and
/// where the probe runs out at `y` its key is not below the probe.
pub proof fn lemma_seek_child_above<T, PTR: TrieIndex, LEN: TrieIndex>(
    t: NibTrie<T, PTR, LEN>,
    p: Seq<u8>,
    y: int,
    n: Seq<(usize, u8, usize)>,
    m: int,
    kn: int,
)
    requires
        t.wf(),
        t.keyed(),
        t.follows(p),
        t.reaches(0, p, y, 4 * p.len() as int + 1),
        nib_linked(t, n),
        forall|j: int| 0 <= j < n.len() ==> nib_frame_ok(t, #[trigger] n[j]),
        0 <= m < n.len(),
        n[m].0 == y,
        nib_frame_index(t, n.last()) == Some(kn),
    ensures
        1 <= kn < t.index@.len(),
        t.prefix_of(y) < 4 * p.len() && n[m].2 < 4 && n[m].2 > nib_at(p, t.prefix_of(y) as int)
            ==> lex_lt(p, t.key_at(kn)),
        t.prefix_of(y) >= 4 * p.len() ==> !lex_lt(t.key_at(kn), p),
{
    lemma_nib_path_key(t, n, kn, m);
    let k = t.key_at(kn);
    let r = t.ref_key(y);
    let pl = t.prefix_of(y) as int;
    assert(nibs_agree(p, r, 0, if pl < 4 * p.len() { pl } else { 4 * p.len() as int }));
    if pl < 4 * p.len() {
        if n[m].2 < 4 && n[m].2 > nib_at(p, pl) {
            assert forall|q: int| 0 <= q < pl implies #[trigger] nib_at(p, q) == nib_at(k, q) by {
                assert(nib_at(p, q) == nib_at(r, q));
                assert(nib_at(k, q) == nib_at(r, q));
            }
            lemma_nibs_lex(p, k, pl);
        }
    } else {
        assert forall|q: int| 0 <= q < 4 * p.len() implies #[trigger] nib_at(p, q) == nib_at(k, q) by {
            assert(nib_at(p, q) == nib_at(r, q));
            assert(nib_at(k, q) == nib_at(r, q));
        }
        lemma_nibs_not_below(p, k);
    }
}

/// A positioned path later in the walk than frames on the descent of a probe
/// that follows the trie holds a key above the probe.
pub proof fn lemma_seek_walk_above<T, PTR: TrieIndex, LEN: TrieIndex>(
    t: NibTrie<T, PTR, LEN>,
    p: Seq<u8>,
    fr: Seq<(usize, u8, usize)>,
    n: Seq<(usize, u8, usize)>,
    kn: int,
)
    requires
        t.wf(),
        t.keyed(),
        t.follows(p),
        forall|i: int| 0 <= i < fr.len() ==> #[trigger] on_probe(t, p, fr[i]),
        nib_walk_before(fr, n),
        nib_linked(t, n),
        forall|j: int| 0 <= j < n.len() ==> nib_frame_ok(t, #[trigger] n[j]),
        nib_frame_index(t, n.last()) == Some(kn),
    ensures
        1 <= kn < t.index@.len(),
        lex_lt(p, t.key_at(kn)),
{
    let k = choose|k: int| #[trigger] nib_moved_on_at(fr, n, k);
    assert(on_probe(t, p, fr[k]));
    let y = fr[k].0 as int;
    assert(n[k].0 as int == y);
    lemma_nib_path_key(t, n, kn, k);
    lemma_seek_child_above(t, p, y, n, k, kn);
}

/// Cursor over a [`NibTrie`] in key order: a stack of `(node, occupancy mask,
/// nib)` frames from the root to the current entry.
pub struct NibIter<'a, T, PTR: TrieIndex, LEN: TrieIndex> {
    trie: &'a NibTrie<T, PTR, LEN>,
    stack: Vec<(usize, u8, usize)>,
}

/// A walker frame names an arena node, carries its occupancy mask, and a nib
/// that is a child slot, the terminal position or the before-first position.
pub open spec fn nib_frame_ok<T, PTR: TrieIndex, LEN: TrieIndex>(t: NibTrie<T, PTR, LEN>, f: (usize, u8, usize)) -> bool {
    &&& f.0 < t.arena@.len()
    &&& f.1 == t.arena@[f.0 as int].occupancy
    &&& (f.2 < 4 || f.2 == TERMINAL_NIB || f.2 == usize::MAX)
    &&& f.2 == TERMINAL_NIB ==> t.arena@[f.0 as int].terminal != 0
}

/// The frame stack `s` may go on with a frame at node `n`: an empty stack
/// starts at the root, and otherwise its top frame stands at a link that
/// addresses `n`.
pub open spec fn nib_leads_to<T, PTR: TrieIndex, LEN: TrieIndex>(t: NibTrie<T, PTR, LEN>, s: Seq<(usize, u8, usize)>, n: int) -> bool {
    if s.len() == 0 {
        n == 0
    } else {
        &&& s.last().2 < 4
        &&& t.is_link(s.last().0 as int, s.last().2 as int)
        &&& n == t.child_of(s.last().0 as int, s.last().2 as int)
    }
}

/// The frames form a path down from the root.
pub open spec fn nib_linked<T, PTR: TrieIndex, LEN: TrieIndex>(t: NibTrie<T, PTR, LEN>, s: Seq<(usize, u8, usize)>) -> bool {
    forall|i: int| 0 <= i < s.len() ==> #[trigger] nib_leads_to(t, s.subrange(0, i), s[i].0 as int)
}

/// A path goes on with a frame that its frames lead to.
pub proof fn lemma_nib_linked_push<T, PTR: TrieIndex, LEN: TrieIndex>(t: NibTrie<T, PTR, LEN>, s: Seq<(usize, u8, usize)>, f: (usize, u8, usize))
    requires
        nib_linked(t, s),
        nib_leads_to(t, s, f.0 as int),
    ensures
        nib_linked(t, s.push(f)),
{
    let s2 = s.push(f);
    assert forall|i: int| 0 <= i < s2.len() implies #[trigger] nib_leads_to(t, s2.subrange(0, i), s2[i].0 as int) by {
        if i < s.len() {
            assert(s2.subrange(0, i) =~= s.subrange(0, i));
            assert(nib_leads_to(t, s.subrange(0, i), s[i].0 as int));
        } else {
            assert(s2.subrange(0, i) =~= s);
        }
    }
}

/// Without its top frame a path is still one, and leads to the top frame's node.
pub proof fn lemma_nib_linked_pop<T, PTR: TrieIndex, LEN: TrieIndex>(t: NibTrie<T, PTR, LEN>, s: Seq<(usize, u8, usize)>)
    requires
        nib_linked(t, s),
        s.len() > 0,
    ensures
        nib_linked(t, s.drop_last()),
        nib_leads_to(t, s.drop_last(), s.last().0 as int),
{
    let s2 = s.drop_last();
    assert forall|i: int| 0 <= i < s2.len() implies #[trigger] nib_leads_to(t, s2.subrange(0, i), s2[i].0 as int) by {
        assert(s2.subrange(0, i) =~= s.subrange(0, i));
        assert(nib_leads_to(t, s.subrange(0, i), s[i].0 as int));
    }
    assert(s.subrange(0, s.len() - 1) =~= s2);
    assert(nib_leads_to(t, s.subrange(0, s.len() - 1), s[s.len() - 1].0 as int));
}

/// The key index a frame is positioned on, if any.
pub open spec fn nib_frame_index<T, PTR: TrieIndex, LEN: TrieIndex>(t: NibTrie<T, PTR, LEN>, f: (usize, u8, usize)) -> Option<int> {
    if f.2 == TERMINAL_NIB {
        Some(t.arena@[f.0 as int].leaf.ival() as int)
    } else if f.2 < 4 && bit8(t.arena@[f.0 as int].leaf_mask, f.2 as int) && bit8(t.arena@[f.0 as int].occupancy, f.2 as int) {
        Some(t.arena@[f.0 as int].children[f.2 as int].ival() as int)
    } else {
        None
    }
}

/// The walk order of the positions within one node: its terminal value, the
/// before-first mark, then the child slots in order.
pub open spec fn nib_pos_rank(w: usize) -> int {
    if w == TERMINAL_NIB {
        1
    } else if w == usize::MAX {
        2
    } else {
        w + 3
    }
}

/// Frame stacks `a` and `b` share their first `k` frames and, at frame `k`,
/// the same node, where `b` stands at a later position than `a`.
pub open spec fn nib_moved_on_at(a: Seq<(usize, u8, usize)>, b: Seq<(usize, u8, usize)>, k: int) -> bool {
    &&& 0 <= k < a.len()
    &&& k < b.len()
    &&& a.subrange(0, k) == b.subrange(0, k)
    &&& a[k].0 == b[k].0
    &&& nib_pos_rank(a[k].2) < nib_pos_rank(b[k].2)
}

/// The frame stack `b` stands later in the walk than `a`.
pub open spec fn nib_walk_before(a: Seq<(usize, u8, usize)>, b: Seq<(usize, u8, usize)>) -> bool {
    exists|k: int| #[trigger] nib_moved_on_at(a, b, k)
}

/// Replacing frame `k` of `a` by a later position of the same node, on top of
/// the same frames below it, moves later in the walk.
pub proof fn lemma_nib_moved_on(a: Seq<(usize, u8, usize)>, b: Seq<(usize, u8, usize)>, k: int, f: (usize, u8, usize))
    requires
        0 <= k < a.len(),
        k < b.len(),
        b.subrange(0, k + 1) == a.subrange(0, k).push(f) || b == a.subrange(0, k).push(f),
        f.0 == a[k].0,
        nib_pos_rank(a[k].2) < nib_pos_rank(f.2),
    ensures
        nib_walk_before(a, b),
{
    if b == a.subrange(0, k).push(f) {
        assert(b.subrange(0, k + 1) =~= b);
    }
    assert(b.subrange(0, k) =~= b.subrange(0, k + 1).subrange(0, k));
    assert(a.subrange(0, k).push(f).subrange(0, k) =~= a.subrange(0, k));
    assert(b[k] == b.subrange(0, k + 1)[k]);
    assert(nib_moved_on_at(a, b, k));
}

/// The lowest occupied slot of a mask with one of its four low bits set.
pub open spec fn nib_lowest(m: u8) -> usize {
    if bit8(m, 0) {
        0
    } else if bit8(m, 1) {
        1
    } else if bit8(m, 2) {
        2
    } else {
        3
    }
}

/// The highest occupied slot of a mask with one of its four low bits set.
pub open spec fn nib_highest(m: u8) -> usize {
    if bit8(m, 3) {
        3
    } else if bit8(m, 2) {
        2
    } else if bit8(m, 1) {
        1
    } else {
        0
    }
}

/// One of the four low bits of `m` is set.
pub open spec fn nib_any(m: u8) -> bool {
    bit8(m, 0) || bit8(m, 1) || bit8(m, 2) || bit8(m, 3)
}

/// Frame `f` has a later child in its node: an occupied slot after the
/// frame's child, or any occupied slot for a terminal or before-first frame.
pub open spec fn nib_has_later(f: (usize, u8, usize)) -> bool {
    let start = if f.2 == TERMINAL_NIB || f.2 == usize::MAX { 0 } else { f.2 + 1 };
    exists|j: int| start <= j < 4 && #[trigger] bit8(f.1, j)
}

/// Frame `f` has an earlier entry in its node: an occupied slot before the
/// frame's child, or the node's terminal value before any child.
pub open spec fn nib_has_earlier<T, PTR: TrieIndex, LEN: TrieIndex>(t: NibTrie<T, PTR, LEN>, f: (usize, u8, usize)) -> bool {
    if f.2 == TERMINAL_NIB {
        false
    } else if f.2 == 0 || f.2 == usize::MAX {
        t.arena@[f.0 as int].terminal != 0
    } else {
        (exists|j: int| 0 <= j < f.2 && #[trigger] bit8(f.1, j)) || t.arena@[f.0 as int].terminal != 0
    }
}

/// The frames descend from the root, each standing at the last entry of its
/// node and each below the first naming the child that the frame above it
/// stands at.
pub open spec fn nib_is_last_descent<T, PTR: TrieIndex, LEN: TrieIndex>(t: NibTrie<T, PTR, LEN>, s: Seq<(usize, u8, usize)>) -> bool {
    &&& s.len() > 0 ==> s[0].0 == 0
    &&& forall|i: int| 0 <= i < s.len() ==> #[trigger] s[i] == nib_last_frame(t, s[i].0 as int)
    &&& forall|i: int| 0 < i < s.len() ==> #[trigger] s[i].0 == t.child_of(s[i - 1].0 as int, s[i - 1].2 as int)
}

/// The start frame of a walk from the root: on the root's terminal value
/// when it has one, else before its first child.
pub open spec fn nib_start_frame<T, PTR: TrieIndex, LEN: TrieIndex>(t: NibTrie<T, PTR, LEN>) -> (usize, u8, usize) {
    (0usize, t.arena@[0].occupancy, if t.arena@[0].terminal != 0 { TERMINAL_NIB } else { usize::MAX })
}

/// The node holds an entry: a terminal value or a child.
pub open spec fn nib_has_entry<T, PTR: TrieIndex, LEN: TrieIndex>(t: NibTrie<T, PTR, LEN>, n: int) -> bool {
    t.arena@[n].terminal != 0 || nib_any(t.arena@[n].occupancy)
}

/// The frame of a node's first entry: its terminal value, else its lowest child.
pub open spec fn nib_first_frame<T, PTR: TrieIndex, LEN: TrieIndex>(t: NibTrie<T, PTR, LEN>, n: int) -> (usize, u8, usize) {
    let m = t.arena@[n].occupancy;
    if t.arena@[n].terminal != 0 {
        (n as usize, m, TERMINAL_NIB)
    } else {
        (n as usize, m, nib_lowest(m))
    }
}

/// The frame of a node's last entry: its highest child, else its terminal value.
pub open spec fn nib_last_frame<T, PTR: TrieIndex, LEN: TrieIndex>(t: NibTrie<T, PTR, LEN>, n: int) -> (usize, u8, usize) {
    let m = t.arena@[n].occupancy;
    if nib_any(m) {
        (n as usize, m, nib_highest(m))
    } else {
        (n as usize, m, TERMINAL_NIB)
    }
}

impl<'a, T, PTR: TrieIndex, LEN: TrieIndex> NibIter<'a, T, PTR, LEN> {
    /// The trie being walked.
    pub closed spec fn trie(self) -> NibTrie<T, PTR, LEN> {
        *self.trie
    }

    /// The frames from the root down.
    pub closed spec fn frames(self) -> Seq<(usize, u8, usize)> {
        self.stack@
    }

    /// The trie is well formed and every frame is valid.
    pub open spec fn wf(self) -> bool {
        &&& self.trie().wf()
        &&& forall|i: int| 0 <= i < self.frames().len() ==> nib_frame_ok(self.trie(), #[trigger] self.frames()[i])
        &&& nib_linked(self.trie(), self.frames())
    }

    /// The key index the cursor is positioned on.
    pub open spec fn position(self) -> Option<int> {
        if self.frames().len() == 0 {
            None
        } else {
            nib_frame_index(self.trie(), self.frames().last())
        }
    }

    /// Push a valid frame.
    fn push_frame(&mut self, f: (usize, u8, usize))
        requires
            old(self).wf(),
            nib_frame_ok(old(self).trie(), f),
            nib_leads_to(old(self).trie(), old(self).frames(), f.0 as int),
        ensures
            final(self).wf(),
            final(self).trie() == old(self).trie(),
            final(self).frames() == old(self).frames().push(f),
    {
        self.stack.push(f);
        proof {
            lemma_nib_linked_push(self.trie(), old(self).frames(), f);
            assert forall|i: int| 0 <= i < self.frames().len() implies nib_frame_ok(self.trie(), #[trigger] self.frames()[i]) by {
                if i < old(self).frames().len() {
                    assert(self.frames()[i] == old(self).frames()[i]);
                }
            }
        }
    }

    /// A cursor on the root's own key when the root is terminal, else before
    /// the first key.
    fn new(trie: &'a NibTrie<T, PTR, LEN>) -> (r: Self)
        requires
            trie.wf(),
        ensures
            r.wf(),
            r.trie() == *trie,
            trie.arena@.len() > 0 ==> r.frames() == seq![nib_start_frame(*trie)],
            trie.arena@.len() == 0 ==> r.frames().len() == 0,
    {
        let mut it = NibIter { trie, stack: Vec::new() };
        if trie.arena.len() == 0 {
            return it;
        }
        let mask = trie.arena[0].occupancy;
        let nib = if trie.arena[0].is_terminal() { TERMINAL_NIB } else { usize::MAX };
        it.push_frame((0, mask, nib));
        it
    }

    /// A cursor on the last key.
    fn new_last(trie: &'a NibTrie<T, PTR, LEN>) -> (r: Self)
        requires
            trie.wf(),
        ensures
            r.wf(),
            r.trie() == *trie,
            nib_is_last_descent(*trie, r.frames()),
            trie.arena@.len() > 0 && nib_has_entry(*trie, 0) ==> r.frames().len() > 0,
            trie.arena@.len() == 0 ==> r.frames().len() == 0,
    {
        let mut it = NibIter { trie, stack: Vec::new() };
        if trie.arena.len() == 0 {
            return it;
        }
        it.descend_last(0);
        proof {
            assert(it.frames().subrange(0, 0) =~= Seq::<(usize, u8, usize)>::empty());
        }
        it
    }

    /// The lowest set bit of `mask` among bits `start..4`.
    fn lowest_set(mask: u8, start: usize) -> (r: Option<usize>)
        ensures
            r matches Some(n) ==> start <= n < 4 && bit8(mask, n as int)
                && forall|j: int| start <= j < n ==> !#[trigger] bit8(mask, j),
            r is None ==> forall|j: int| start <= j < 4 ==> !#[trigger] bit8(mask, j),
    {
        let mut n = start;
        while n < 4
            invariant
                start <= n,
                forall|j: int| start <= j < n ==> !#[trigger] bit8(mask, j),
            decreases 4 - n,
        {
            if (mask >> n as u8) & 1 == 1 {
                return Some(n);
            }
            n += 1;
        }
        None
    }

    /// The highest set bit of `mask` among bits `0..end`.
    fn highest_set(mask: u8, end: usize) -> (r: Option<usize>)
        requires
            end <= 4,
        ensures
            r matches Some(n) ==> n < end && bit8(mask, n as int)
                && forall|j: int| n < j < end ==> !#[trigger] bit8(mask, j),
            r is None ==> forall|j: int| 0 <= j < end ==> !#[trigger] bit8(mask, j),
    {
        let mut n = end;
        while n > 0
            invariant
                n <= end,
                end <= 4,
                forall|j: int| n <= j < end ==> !#[trigger] bit8(mask, j),
            decreases n,
        {
            n -= 1;
            if (mask >> n as u8) & 1 == 1 {
                return Some(n);
            }
        }
        None
    }

    /// Descend from node `node_idx` to its first entry.
    fn descend_first(&mut self, node_idx: usize)
        requires
            old(self).wf(),
            node_idx < old(self).trie().arena@.len(),
            nib_leads_to(old(self).trie(), old(self).frames(), node_idx as int),
        ensures
            final(self).wf(),
            final(self).trie() == old(self).trie(),
            final(self).frames().len() >= old(self).frames().len(),
            final(self).frames().subrange(0, old(self).frames().len() as int) == old(self).frames(),
            nib_has_entry(old(self).trie(), node_idx as int) ==> final(self).frames().len() > old(self).frames().len()
                && final(self).frames()[old(self).frames().len() as int].0 == node_idx,
            forall|i: int| old(self).frames().len() <= i < final(self).frames().len() ==> #[trigger] final(self).frames()[i]
                == nib_first_frame(old(self).trie(), final(self).frames()[i].0 as int),
            forall|i: int| old(self).frames().len() < i < final(self).frames().len() ==> #[trigger] final(self).frames()[i].0
                == old(self).trie().child_of(final(self).frames()[i - 1].0 as int, final(self).frames()[i - 1].2 as int),
    {
        let mut idx = node_idx;
        let mut steps: usize = 0;
        let n = self.trie.arena.len();
        let ghost base = self.frames().len() as int;
        while steps < n
            invariant
                self.wf(),
                self.trie() == old(self).trie(),
                n == self.trie().arena@.len(),
                idx < n,
                base == old(self).frames().len(),
                self.frames().len() >= base,
                self.frames().subrange(0, base) == old(self).frames(),
                nib_leads_to(self.trie(), self.frames(), idx as int),
                steps == 0 ==> self.frames().len() == base && idx == node_idx,
                steps > 0 ==> self.frames().len() > base && self.frames()[base].0 == node_idx
                    && idx == self.trie().child_of(self.frames().last().0 as int, self.frames().last().2 as int),
                forall|i: int| base <= i < self.frames().len() ==> #[trigger] self.frames()[i]
                    == nib_first_frame(old(self).trie(), self.frames()[i].0 as int),
                forall|i: int| base < i < self.frames().len() ==> #[trigger] self.frames()[i].0
                    == old(self).trie().child_of(self.frames()[i - 1].0 as int, self.frames()[i - 1].2 as int),
            decreases n - steps,
        {
            let ghost before = self.frames();
            let node = &self.trie.arena[idx];
            let mask = node.occupancy;
            if node.is_terminal() {
                self.push_frame((idx, mask, TERMINAL_NIB));
                proof {
                    assert(self.frames().subrange(0, base) =~= before.subrange(0, base));
                    assert(self.frames()[before.len() as int] == (idx, mask, TERMINAL_NIB));
                }
                return;
            }
            let nib = match Self::lowest_set(mask, 0) {
                Some(nb) => nb,
                None => return,
            };
            self.push_frame((idx, mask, nib));
            proof {
                assert(self.frames().subrange(0, base) =~= before.subrange(0, base));
                assert(self.frames()[before.len() as int] == (idx, mask, nib));
            }
            if node.is_leaf(nib) {
                return;
            }
            proof {
                assert(self.trie().is_link(idx as int, nib as int));
            }
            idx = node.children[nib].as_usize();
            steps += 1;
        }
    }

    /// Descend from node `node_idx` to its last entry.
    fn descend_last(&mut self, node_idx: usize)
        requires
            old(self).wf(),
            node_idx < old(self).trie().arena@.len(),
            nib_leads_to(old(self).trie(), old(self).frames(), node_idx as int),
        ensures
            final(self).wf(),
            final(self).trie() == old(self).trie(),
            final(self).frames().len() >= old(self).frames().len(),
            final(self).frames().subrange(0, old(self).frames().len() as int) == old(self).frames(),
            nib_has_entry(old(self).trie(), node_idx as int) ==> final(self).frames().len() > old(self).frames().len()
                && final(self).frames()[old(self).frames().len() as int].0 == node_idx,
            final(self).frames().len() > old(self).frames().len() ==> final(self).frames()[old(self).frames().len() as int].0 == node_idx,
            forall|i: int| old(self).frames().len() <= i < final(self).frames().len() ==> #[trigger] final(self).frames()[i]
                == nib_last_frame(old(self).trie(), final(self).frames()[i].0 as int),
            forall|i: int| old(self).frames().len() < i < final(self).frames().len() ==> #[trigger] final(self).frames()[i].0
                == old(self).trie().child_of(final(self).frames()[i - 1].0 as int, final(self).frames()[i - 1].2 as int),
    {
        let mut idx = node_idx;
        let mut steps: usize = 0;
        let n = self.trie.arena.len();
        let ghost base = self.frames().len() as int;
        while steps < n
            invariant
                self.wf(),
                self.trie() == old(self).trie(),
                n == self.trie().arena@.len(),
                idx < n,
                base == old(self).frames().len(),
                self.frames().len() >= base,
                self.frames().subrange(0, base) == old(self).frames(),
                nib_leads_to(self.trie(), self.frames(), idx as int),
                steps == 0 ==> self.frames().len() == base && idx == node_idx,
                steps > 0 ==> self.frames().len() > base && self.frames()[base].0 == node_idx
                    && idx == self.trie().child_of(self.frames().last().0 as int, self.frames().last().2 as int),
                forall|i: int| base <= i < self.frames().len() ==> #[trigger] self.frames()[i]
                    == nib_last_frame(old(self).trie(), self.frames()[i].0 as int),
                forall|i: int| base < i < self.frames().len() ==> #[trigger] self.frames()[i].0
                    == old(self).trie().child_of(self.frames()[i - 1].0 as int, self.frames()[i - 1].2 as int),
            decreases n - steps,
        {
            let ghost before = self.frames();
            let node = &self.trie.arena[idx];
            let mask = node.occupancy;
            let nib = match Self::highest_set(mask, 4) {
                Some(nb) => nb,
                None => {
                    if node.is_terminal() {
                        self.push_frame((idx, mask, TERMINAL_NIB));
                        proof {
                            assert(self.frames().subrange(0, base) =~= before.subrange(0, base));
                            assert(self.frames()[before.len() as int] == (idx, mask, TERMINAL_NIB));
                        }
                    }
                    return;
                },
            };
            self.push_frame((idx, mask, nib));
            proof {
                assert(self.frames().subrange(0, base) =~= before.subrange(0, base));
                assert(self.frames()[before.len() as int] == (idx, mask, nib));
            }
            if node.is_leaf(nib) {
                return;
            }
            proof {
                assert(self.trie().is_link(idx as int, nib as int));
            }
            idx = node.children[nib].as_usize();
            steps += 1;
        }
    }

    /// Push the first occupied slot of node `node_idx` at or after
    /// `start_nib`, descending into it when internal. `false` when there is none.
    fn push_next_child(&mut self, node_idx: usize, mask: u8, start_nib: usize) -> (r: bool)
        requires
            old(self).wf(),
            node_idx < old(self).trie().arena@.len(),
            mask == old(self).trie().arena@[node_idx as int].occupancy,
            nib_leads_to(old(self).trie(), old(self).frames(), node_idx as int),
        ensures
            final(self).wf(),
            final(self).trie() == old(self).trie(),
            !r ==> final(self).frames() == old(self).frames(),
            r <==> exists|j: int| start_nib <= j < 4 && #[trigger] bit8(mask, j),
            r ==> final(self).frames().len() > old(self).frames().len()
                && final(self).frames().subrange(0, old(self).frames().len() + 1int)
                == old(self).frames().push(final(self).frames()[old(self).frames().len() as int])
                && final(self).frames()[old(self).frames().len() as int].0 == node_idx
                && final(self).frames()[old(self).frames().len() as int].1 == mask
                && start_nib <= final(self).frames()[old(self).frames().len() as int].2 < 4
                && bit8(mask, final(self).frames()[old(self).frames().len() as int].2 as int)
                && forall|j: int| start_nib <= j < final(self).frames()[old(self).frames().len() as int].2
                    ==> !#[trigger] bit8(mask, j),
    {
        let nib = match Self::lowest_set(mask, start_nib) {
            Some(nb) => nb,
            None => return false,
        };
        proof {
            assert(bit8(mask, nib as int));
        }
        self.push_frame((node_idx, mask, nib));
        let node = &self.trie.arena[node_idx];
        if !node.is_leaf(nib) {
            proof {
                assert(self.trie().is_link(node_idx as int, nib as int));
            }
            let ghost mid = self.frames();
            self.descend_first(node.children[nib].as_usize());
            proof {
                assert(self.frames().subrange(0, old(self).frames().len() + 1int)
                    =~= self.frames().subrange(0, mid.len() as int).subrange(0, old(self).frames().len() + 1int));
                assert(mid[old(self).frames().len() as int] == self.frames()[old(self).frames().len() as int]);
            }
        } else {
            proof {
                assert(self.frames().subrange(0, old(self).frames().len() + 1int) =~= self.frames());
            }
        }
        true
    }

    /// Pop frames until one has an entry after it, and position on that entry.
    /// `false`, with no frames left, when there is none.
    fn backtrack_to_next(&mut self) -> (r: bool)
        requires
            old(self).wf(),
        ensures
            final(self).wf(),
            final(self).trie() == old(self).trie(),
            !r ==> final(self).frames().len() == 0,
            r ==> final(self).frames().len() > 0 && nib_walk_before(old(self).frames(), final(self).frames()),
    {
        loop
            invariant
                self.wf(),
                self.trie() == old(self).trie(),
                self.frames().len() <= old(self).frames().len(),
                self.frames() == old(self).frames().subrange(0, self.frames().len() as int),
            decreases self.frames().len(),
        {
            let ghost before = self.frames();
            let (parent_idx, parent_mask, child_nib) = match self.stack.pop() {
                Some(f) => f,
                None => return false,
            };
            let ghost k = self.frames().len() as int;
            proof {
                lemma_nib_linked_pop(self.trie(), before);
                assert(self.frames() =~= before.drop_last());
                assert(nib_frame_ok(self.trie(), (parent_idx, parent_mask, child_nib)));
                assert(before[k] == (parent_idx, parent_mask, child_nib));
                assert(old(self).frames()[k] == (parent_idx, parent_mask, child_nib));
                assert(self.frames() =~= old(self).frames().subrange(0, k));
            }
            let start = if child_nib < 4 { child_nib + 1 } else { 4 };
            if self.push_next_child(parent_idx, parent_mask, start) {
                proof {
                    let f = self.frames()[k];
                    lemma_nib_moved_on(old(self).frames(), self.frames(), k, f);
                }
                return true;
            }
        }
    }

    /// The key and value the cursor is positioned on.
    pub fn current(&self) -> (r: Option<(&[u8], &T)>)
        requires
            self.wf(),
        ensures
            r matches Some(kv) ==> self.position() matches Some(ki) && 1 <= ki < self.trie().index@.len()
                && kv.0@ == self.trie().key_at(ki) && *kv.1 == self.trie().values@[ki - 1],
            r is None ==> !(self.position() matches Some(ki) && 1 <= ki < self.trie().index@.len()),
    {
        let ki = match self.current_index() {
            Some(ki) => ki,
            None => return None,
        };
        if ki == 0 || ki >= self.trie.index.len() {
            return None;
        }
        let (off, len) = self.trie.index[ki];
        proof {
            assert(self.trie().entry_ok(ki as int));
        }
        let _blen = self.trie.buf.len();
        let key = vstd::slice::slice_subrange(self.trie.buf.as_slice(), off, off + len.as_usize());
        let value = &self.trie.values[ki - 1];
        Some((key, value))
    }

    /// The key index the cursor is positioned on.
    pub fn current_index(&self) -> (r: Option<usize>)
        requires
            self.wf(),
        ensures
            r matches Some(i) ==> self.position() == Some(i as int),
            r is None ==> self.position() is None,
    {
        if self.stack.len() == 0 {
            return None;
        }
        let (node_idx, _, nib) = self.stack[self.stack.len() - 1];
        if nib == usize::MAX {
            return None;
        }
        proof {
            assert(nib_frame_ok(self.trie(), self.frames().last()));
        }
        let node = &self.trie.arena[node_idx];
        if nib == TERMINAL_NIB {
            Some(node.leaf.as_usize())
        } else {
            match node.leaf_key_index(nib) {
                Some(ki) => Some(ki.as_usize()),
                None => None,
            }
        }
    }

    /// Move to the next entry in walk order. `false` when the walk is exhausted.
    fn advance_next(&mut self) -> (r: bool)
        requires
            old(self).wf(),
        ensures
            final(self).wf(),
            final(self).trie() == old(self).trie(),
            r ==> nib_walk_before(old(self).frames(), final(self).frames()),
            r ==> final(self).frames().len() > 0,
            !r ==> final(self).frames().len() == 0,
            !r ==> forall|i: int| 0 <= i < old(self).frames().len() ==> !nib_has_later(#[trigger] old(self).frames()[i]),
    {
        loop
            invariant
                self.wf(),
                self.trie() == old(self).trie(),
                self.frames().len() <= old(self).frames().len(),
                self.frames() == old(self).frames().subrange(0, self.frames().len() as int),
                forall|i: int| self.frames().len() <= i < old(self).frames().len() ==> !nib_has_later(#[trigger] old(self).frames()[i]),
            decreases self.frames().len(),
        {
            let ghost before = self.frames();
            let (node_idx, mask, nib) = match self.stack.pop() {
                Some(v) => v,
                None => return false,
            };
            let ghost k = self.frames().len() as int;
            proof {
                lemma_nib_linked_pop(self.trie(), before);
                assert(self.frames() =~= before.drop_last());
                assert(nib_frame_ok(self.trie(), (node_idx, mask, nib)));
                assert(before[k] == (node_idx, mask, nib));
                assert(old(self).frames()[k] == (node_idx, mask, nib));
                assert(self.frames() =~= old(self).frames().subrange(0, k));
            }
            let start = if nib == TERMINAL_NIB || nib == usize::MAX { 0 } else { nib + 1 };
            if self.push_next_child(node_idx, mask, start) {
                proof {
                    let f = self.frames()[k];
                    lemma_nib_moved_on(old(self).frames(), self.frames(), k, f);
                }
                return true;
            }
        }
    }

    /// Move to the previous entry in walk order. `false` when the walk is
    /// exhausted.
    fn advance_prev(&mut self) -> (r: bool)
        requires
            old(self).wf(),
        ensures
            final(self).wf(),
            final(self).trie() == old(self).trie(),
            r ==> nib_walk_before(final(self).frames(), old(self).frames()),
            r ==> final(self).frames().len() > 0,
            !r ==> final(self).frames().len() == 0,
            !r ==> forall|i: int| 0 <= i < old(self).frames().len() ==> !nib_has_earlier(old(self).trie(), #[trigger] old(self).frames()[i]),
    {
        loop
            invariant
                self.wf(),
                self.trie() == old(self).trie(),
                self.frames().len() <= old(self).frames().len(),
                self.frames() == old(self).frames().subrange(0, self.frames().len() as int),
                forall|i: int| self.frames().len() <= i < old(self).frames().len() ==> !nib_has_earlier(old(self).trie(), #[trigger] old(self).frames()[i]),
            decreases self.frames().len(),
        {
            let ghost before = self.frames();
            let (node_idx, mask, nib) = match self.stack.pop() {
                Some(v) => v,
                None => return false,
            };
            let ghost k = self.frames().len() as int;
            proof {
                lemma_nib_linked_pop(self.trie(), before);
                assert(self.frames() =~= before.drop_last());
                assert(nib_frame_ok(self.trie(), (node_idx, mask, nib)));
                assert(before[k] == (node_idx, mask, nib));
                assert(old(self).frames()[k] == (node_idx, mask, nib));
                assert(self.frames() =~= old(self).frames().subrange(0, k));
            }
            if nib != TERMINAL_NIB {
                let node = &self.trie.arena[node_idx];
                if nib == 0 || nib == usize::MAX {
                    if node.is_terminal() {
                        self.push_frame((node_idx, mask, TERMINAL_NIB));
                        proof {
                            assert(self.frames().subrange(0, k) =~= old(self).frames().subrange(0, k));
                            assert(old(self).frames().subrange(0, k + 1) =~= self.frames().subrange(0, k).push((node_idx, mask, nib)));
                            lemma_nib_moved_on(self.frames(), old(self).frames(), k, (node_idx, mask, nib));
                        }
                        return true;
                    }
                } else {
                    match Self::highest_set(mask, nib) {
                        Some(prev_nib) => {
                            self.push_frame((node_idx, mask, prev_nib));
                            let ghost mid = self.frames();
                            if !node.is_leaf(prev_nib) {
                                proof {
                                    assert(self.trie().is_link(node_idx as int, prev_nib as int));
                                }
                                self.descend_last(node.children[prev_nib].as_usize());
                            }
                            proof {
                                assert(self.frames().subrange(0, k + 1) =~= mid);
                                assert(self.frames()[k] == self.frames().subrange(0, k + 1)[k]);
                                assert(mid[k] == (node_idx, mask, prev_nib));
                                assert(self.frames().subrange(0, k) =~= old(self).frames().subrange(0, k));
                                assert(old(self).frames().subrange(0, k + 1) =~= self.frames().subrange(0, k).push((node_idx, mask, nib)));
                                lemma_nib_moved_on(self.frames(), old(self).frames(), k, (node_idx, mask, nib));
                            }
                            return true;
                        },
                        None => {
                            if node.is_terminal() {
                                self.push_frame((node_idx, mask, TERMINAL_NIB));
                                proof {
                                    assert(self.frames().subrange(0, k) =~= old(self).frames().subrange(0, k));
                                    assert(old(self).frames().subrange(0, k + 1) =~= self.frames().subrange(0, k).push((node_idx, mask, nib)));
                                    lemma_nib_moved_on(self.frames(), old(self).frames(), k, (node_idx, mask, nib));
                                }
                                return true;
                            }
                        },
                    }
                }
            }
        }
    }

    /// Advance as [`Self::next`] and return the key index reached.
    pub fn next_index(&mut self) -> (r: Option<usize>)
        requires
            old(self).wf(),
        ensures
            final(self).wf(),
            final(self).trie() == old(self).trie(),
            r matches Some(i) ==> final(self).position() == Some(i as int),
            r is None ==> final(self).frames().len() == 0 || final(self).position() is None,
            final(self).frames().len() == 0 || nib_walk_before(old(self).frames(), final(self).frames()),
            final(self).frames().len() == 0 ==> forall|i: int| 0 <= i < old(self).frames().len()
                ==> !nib_has_later(#[trigger] old(self).frames()[i]),
    {
        if self.advance_next() {
            self.current_index()
        } else {
            None
        }
    }

    /// Step back as [`Self::prev`] and return the key index reached.
    pub fn prev_index(&mut self) -> (r: Option<usize>)
        requires
            old(self).wf(),
        ensures
            final(self).wf(),
            final(self).trie() == old(self).trie(),
            r matches Some(i) ==> final(self).position() == Some(i as int),
            r is None ==> final(self).frames().len() == 0 || final(self).position() is None,
            final(self).frames().len() == 0 || nib_walk_before(final(self).frames(), old(self).frames()),
            final(self).frames().len() == 0 ==> forall|i: int| 0 <= i < old(self).frames().len()
                ==> !nib_has_earlier(old(self).trie(), #[trigger] old(self).frames()[i]),
    {
        if self.advance_prev() {
            self.current_index()
        } else {
            None
        }
    }

    /// Advance to the next key and return its key and value.
    pub fn next(&mut self) -> (r: Option<(&[u8], &T)>)
        requires
            old(self).wf(),
        ensures
            final(self).wf(),
            final(self).trie() == old(self).trie(),
            r matches Some(kv) ==> final(self).position() matches Some(ki) && 1 <= ki < final(self).trie().index@.len()
                && kv.0@ == final(self).trie().key_at(ki) && *kv.1 == final(self).trie().values@[ki - 1],
            r is None ==> final(self).frames().len() == 0
                || !(final(self).position() matches Some(ki) && 1 <= ki < final(self).trie().index@.len()),
            final(self).frames().len() == 0 || nib_walk_before(old(self).frames(), final(self).frames()),
            final(self).frames().len() == 0 ==> forall|i: int| 0 <= i < old(self).frames().len()
                ==> !nib_has_later(#[trigger] old(self).frames()[i]),
    {
        if self.advance_next() {
            self.current()
        } else {
            None
        }
    }

    /// Step back to the previous key and return its key and value.
    pub fn prev(&mut self) -> (r: Option<(&[u8], &T)>)
        requires
            old(self).wf(),
        ensures
            final(self).wf(),
            final(self).trie() == old(self).trie(),
            r matches Some(kv) ==> final(self).position() matches Some(ki) && 1 <= ki < final(self).trie().index@.len()
                && kv.0@ == final(self).trie().key_at(ki) && *kv.1 == final(self).trie().values@[ki - 1],
            r is None ==> final(self).frames().len() == 0
                || !(final(self).position() matches Some(ki) && 1 <= ki < final(self).trie().index@.len()),
            final(self).frames().len() == 0 || nib_walk_before(final(self).frames(), old(self).frames()),
            final(self).frames().len() == 0 ==> forall|i: int| 0 <= i < old(self).frames().len()
                ==> !nib_has_earlier(old(self).trie(), #[trigger] old(self).frames()[i]),
    {
        if self.advance_prev() {
            self.current()
        } else {
            None
        }
    }

    /// Position on the first key `>= key` in walk order and return it.
    ///
    /// On a keyed trie that the probe follows, the key found is never below
    /// the probe.
    pub fn seek(&mut self, key: &[u8]) -> (r: Option<(&[u8], &T)>)
        requires
            old(self).wf(),
            key@.len() * 4 <= usize::MAX,
        ensures
            final(self).wf(),
            final(self).trie() == old(self).trie(),
            r matches Some(kv) ==> final(self).position() matches Some(ki) && 1 <= ki < final(self).trie().index@.len()
                && kv.0@ == final(self).trie().key_at(ki) && *kv.1 == final(self).trie().values@[ki - 1],
            r is None ==> final(self).frames().len() == 0
                || !(final(self).position() matches Some(ki) && 1 <= ki < final(self).trie().index@.len()),
            old(self).trie().lookup(key@) matches Some(i) ==> r is Some && final(self).position() == Some(i),
            old(self).trie().keyed() && old(self).trie().follows(key@) ==> (r matches Some(kv) ==> !lex_lt(kv.0@, key@)),
    {
        self.stack.clear();
        if self.trie.arena.len() == 0 {
            return None;
        }
        let mut node_idx: usize = 0;
        let max_nib = key.len() * 4;
        let ghost t = self.trie();
        let ghost p = key@;
        let ghost bnd = 4 * key@.len() as int + 1;
        proof {
            assert(t.reaches(0, p, 0, bnd));
        }
        loop
            invariant
                self.wf(),
                self.trie() == old(self).trie(),
                t == self.trie(),
                p == key@,
                bnd == 4 * key@.len() as int + 1,
                self.trie().arena@.len() > 0,
                node_idx < self.trie().arena@.len(),
                max_nib == key@.len() * 4,
                t.lookup(key@) matches Some(i) ==> t.descend(node_idx as int, key@) == Some(i),
                nib_leads_to(t, self.frames(), node_idx as int),
                t.reaches(0, p, node_idx as int, bnd),
                forall|i: int| 0 <= i < self.frames().len() ==> #[trigger] on_probe(t, p, self.frames()[i]),
            decreases LEN::imax() - self.trie().prefix_of(node_idx as int),
        {
            let ghost fr = self.frames();
            let node = &self.trie.arena[node_idx];
            let mask = node.occupancy;
            let prefix_len = node.prefix_len.as_usize();
            proof {
                LEN::lemma_ival_bounds(node.prefix_len);
            }
            if node.is_terminal() && prefix_len >= max_nib {
                match self.trie.key_slice(node.leaf) {
                    Some(node_key) => {
                        if bytes_ge(node_key, key) {
                            self.push_frame((node_idx, mask, TERMINAL_NIB));
                            return self.current();
                        }
                    },
                    None => {},
                }
            }
            if prefix_len >= max_nib {
                if self.push_next_child(node_idx, mask, 0) {
                    let r = self.current();
                    proof {
                        if t.keyed() && t.follows(p) && r is Some {
                            let kn = self.position()->0;
                            lemma_seek_child_above(t, p, node_idx as int, self.frames(), fr.len() as int, kn);
                        }
                    }
                    return r;
                }
                if !self.backtrack_to_next() {
                    return None;
                }
                let r = self.current();
                proof {
                    if t.keyed() && t.follows(p) && r is Some {
                        let kn = self.position()->0;
                        lemma_seek_walk_above(t, p, fr, self.frames(), kn);
                        crate::bit_trie::lemma_lex_asym(p, t.key_at(kn));
                    }
                }
                return r;
            }
            let nib = key_nib_at(key, prefix_len) as usize;
            if !node.is_occupied(nib) {
                proof {
                    if t.child_of(node_idx as int, nib as int) != PTR::imax() {
                        assert(bit8(t.arena@[node_idx as int].occupancy, nib as int));
                    }
                }
                if self.push_next_child(node_idx, mask, nib + 1) {
                    let r = self.current();
                    proof {
                        if t.keyed() && t.follows(p) && r is Some {
                            let kn = self.position()->0;
                            lemma_seek_child_above(t, p, node_idx as int, self.frames(), fr.len() as int, kn);
                            crate::bit_trie::lemma_lex_asym(p, t.key_at(kn));
                        }
                    }
                    return r;
                }
                if !self.backtrack_to_next() {
                    return None;
                }
                let r = self.current();
                proof {
                    if t.keyed() && t.follows(p) && r is Some {
                        let kn = self.position()->0;
                        lemma_seek_walk_above(t, p, fr, self.frames(), kn);
                        crate::bit_trie::lemma_lex_asym(p, t.key_at(kn));
                    }
                }
                return r;
            }
            self.push_frame((node_idx, mask, nib));
            let ghost fr2 = self.frames();
            proof {
                assert forall|i: int| 0 <= i < fr2.len() implies #[trigger] on_probe(t, p, fr2[i]) by {
                    if i < fr.len() {
                        assert(fr2[i] == fr[i]);
                    }
                }
            }
            let slot = node.children[nib];
            if node.is_leaf(nib) {
                match self.trie.key_slice(slot) {
                    Some(leaf_key) => {
                        if bytes_ge(leaf_key, key) {
                            return self.current();
                        }
                    },
                    None => {},
                }
                if !self.advance_next() {
                    return None;
                }
                let r = self.current();
                proof {
                    if t.keyed() && t.follows(p) && r is Some {
                        let kn = self.position()->0;
                        lemma_seek_walk_above(t, p, fr2, self.frames(), kn);
                        crate::bit_trie::lemma_lex_asym(p, t.key_at(kn));
                    }
                }
                return r;
            }
            proof {
                assert(self.trie().is_link(node_idx as int, nib as int));
            }
            let next = slot.as_usize();
            if self.trie.arena[next].prefix_len.as_usize() <= prefix_len {
                self.stack.clear();
                return None;
            }
            proof {
                LEN::lemma_ival_bounds(self.trie().arena@[next as int].prefix_len);
                assert(t.step_to(node_idx as int, p, next as int));
                t.lemma_reaches_extend(0, p, node_idx as int, next as int, bnd, bnd);
            }
            node_idx = next;
        }
    }
}

impl<T, PTR: TrieIndex, LEN: TrieIndex> NibTrie<T, PTR, LEN> {
    /// A cursor on the root's own key when the root is terminal, else before
    /// the first key.
    pub fn iter(&self) -> (r: NibIter<'_, T, PTR, LEN>)
        requires
            self.wf(),
        ensures
            r.wf(),
            r.trie() == *self,
            self.arena@.len() > 0 ==> r.frames() == seq![nib_start_frame(*self)],
            self.arena@.len() == 0 ==> r.frames().len() == 0,
    {
        NibIter::new(self)
    }

    /// A cursor on the last key: the frames descend from the root along the
    /// last entry of each node.
    pub fn iter_last(&self) -> (r: NibIter<'_, T, PTR, LEN>)
        requires
            self.wf(),
        ensures
            r.wf(),
            r.trie() == *self,
            nib_is_last_descent(*self, r.frames()),
            self.arena@.len() > 0 && nib_has_entry(*self, 0) ==> r.frames().len() > 0,
            self.arena@.len() == 0 ==> r.frames().len() == 0,
    {
        NibIter::new_last(self)
    }
}

/// `k` occurs in `order`.
pub open spec fn listed(order: Seq<usize>, k: int) -> bool {
    exists|a: int| 0 <= a < order.len() && order[a] == k
}

/// `order` lists distinct key indices of `1..seen.len()`, and `seen` marks
/// exactly the indices listed.
pub open spec fn order_ok(order: Seq<usize>, seen: Seq<bool>) -> bool {
    &&& forall|a: int| 0 <= a < order.len() ==> 1 <= #[trigger] order[a] < seen.len() && seen[order[a] as int]
    &&& forall|a: int, b: int| 0 <= a < b < order.len() ==> #[trigger] order[a] != #[trigger] order[b]
    &&& forall|k: int| 0 <= k < seen.len() && #[trigger] seen[k] ==> exists|a: int| 0 <= a < order.len() && order[a] == k
}

impl<T, PTR: TrieIndex, LEN: TrieIndex> NibTrie<T, PTR, LEN> {
    /// Every node of `arena` links only to later nodes inside it.
    pub open spec fn new_arena_ok(arena: Seq<NibNode<PTR, LEN>>) -> bool {
        forall|q: int| 0 <= q < arena.len() ==> Self::node_links_ok(#[trigger] arena[q], arena.len() as int)
    }

    /// Record key `old_ki` as the next key in walk order, returning its new
    /// index (its rank, counting from `1`); `None` for an index out of range,
    /// one already recorded, or when the order is full.
    fn visit_key(old_ki: usize, order: &mut Vec<usize>, seen: &mut Vec<bool>) -> (r: Option<PTR>)
        requires
            order_ok(old(order)@, old(seen)@),
            old(order)@.len() < old(seen)@.len(),
            old(seen)@.len() <= PTR::imax(),
            PTR::imax() <= usize::MAX,
        ensures
            order_ok(final(order)@, final(seen)@),
            final(seen)@.len() == old(seen)@.len(),
            final(order)@.len() < final(seen)@.len(),
            r matches Some(k) ==> k.ival() == final(order)@.len() && k.ival() >= 1
                && final(order)@ == old(order)@.push(old_ki),
            r is None ==> final(order)@ == old(order)@ && final(seen)@ == old(seen)@,
            r is None <==> (old_ki == 0 || old_ki >= old(seen)@.len() || old(order)@.len() >= old(seen)@.len() - 1
                || old(seen)@[old_ki as int]),
            r is Some ==> final(seen)@ == old(seen)@.update(old_ki as int, true),
    {
        if old_ki == 0 || old_ki >= seen.len() || order.len() >= seen.len() - 1 || seen[old_ki] {
            return None;
        }
        let ghost o0 = order@;
        let ghost s0 = seen@;
        seen.set(old_ki, true);
        order.push(old_ki);
        proof {
            assert forall|a: int, b: int| 0 <= a < b < order@.len() implies #[trigger] order@[a] != #[trigger] order@[b] by {
                if b == order@.len() - 1 && a < o0.len() {
                    assert(s0[o0[a] as int]);
                }
            }
            assert forall|k: int| 0 <= k < seen@.len() && #[trigger] seen@[k] implies exists|a: int| 0 <= a < order@.len() && order@[a] == k by {
                if k == old_ki {
                    assert(order@[o0.len() as int] == k);
                } else {
                    assert(s0[k]);
                    let a = choose|a: int| 0 <= a < o0.len() && o0[a] == k;
                    assert(order@[a] == k);
                }
            }
            PTR::lemma_imax();
        }
        Some(PTR::from_usize(order.len()))
    }

    /// Key `k` lies under node `y`: it agrees with `y`'s reference key below
    /// `y`'s prefix length and is at least that long.
    pub open spec fn under(self, k: int, y: int) -> bool {
        &&& nibs_agree(self.key_at(k), self.ref_key(y), 0, self.prefix_of(y) as int)
        &&& 4 * self.key_at(k).len() >= self.prefix_of(y)
    }

    /// Key `k` lies under node `y` and ends at `y`'s prefix length or has a
    /// nib below `n` there.
    pub open spec fn before_nib(self, k: int, y: int, n: int) -> bool {
        &&& self.under(k, y)
        &&& (4 * self.key_at(k).len() == self.prefix_of(y)
            || (4 * self.key_at(k).len() > self.prefix_of(y) && nib_at(self.key_at(k), self.prefix_of(y) as int) < n))
    }

    /// The keys named by `order[lo..hi]` are in strictly increasing
    /// lexicographic order.
    pub open spec fn keys_sorted(self, order: Seq<usize>, lo: int, hi: int) -> bool {
        forall|a: int, b: int| lo <= a < b < hi
            ==> #[trigger] lex_lt(self.key_at(order[a] as int), self.key_at(order[b] as int))
    }

    /// A key under node `y` that ends there or has a lower nib there comes
    /// before a key under `y` with nib `n` there.
    proof fn lemma_before_nib_lt(self, ka: int, kb: int, y: int, n: int)
        requires
            self.before_nib(ka, y, n),
            self.under(kb, y),
            4 * self.key_at(kb).len() > self.prefix_of(y),
            nib_at(self.key_at(kb), self.prefix_of(y) as int) == n,
        ensures
            lex_lt(self.key_at(ka), self.key_at(kb)),
    {
        let a = self.key_at(ka);
        let b = self.key_at(kb);
        let p = self.prefix_of(y) as int;
        let r = self.ref_key(y);
        assert forall|m: int| 0 <= m < p implies #[trigger] nib_at(a, m) == nib_at(b, m) by {
            assert(nib_at(a, m) == nib_at(r, m));
            assert(nib_at(b, m) == nib_at(r, m));
        }
        if 4 * a.len() == p {
            lemma_nib_prefix_lex(a, b);
        } else {
            lemma_nibs_lex(a, b, p);
        }
    }

    /// A key under the child at link `n` of node `y` lies under `y`, is longer
    /// than `y`'s prefix length and has nib `n` there.
    proof fn lemma_under_child(self, k: int, y: int, n: int)
        requires
            self.edge_keyed(y, n),
            self.under(k, self.child_of(y, n)),
        ensures
            self.under(k, y),
            4 * self.key_at(k).len() > self.prefix_of(y),
            nib_at(self.key_at(k), self.prefix_of(y) as int) == n,
    {
        let c = self.child_of(y, n);
        let kk = self.key_at(k);
        let p = self.prefix_of(y) as int;
        assert forall|m: int| 0 <= m < p implies #[trigger] nib_at(kk, m) == nib_at(self.ref_key(y), m) by {
            assert(nib_at(kk, m) == nib_at(self.ref_key(c), m));
            assert(nib_at(self.ref_key(c), m) == nib_at(self.ref_key(y), m));
        }
        assert(nib_at(kk, p) == nib_at(self.ref_key(c), p));
    }

    /// Copy the subtree of `phys` into `new_arena` in walk order, renumbering
    /// its keys by rank. Returns the new node index and its reference key, or
    /// `None` when the subtree does not form a proper tree of distinct keys.
    fn rebuild_walk(
        &self,
        phys: usize,
        new_arena: &mut Vec<NibNode<PTR, LEN>>,
        order: &mut Vec<usize>,
        seen: &mut Vec<bool>,
    ) -> (r: Option<(usize, PTR)>)
        requires
            self.wf(),
            phys < self.arena@.len(),
            old(seen)@.len() == self.index@.len(),
            order_ok(old(order)@, old(seen)@),
            old(order)@.len() < old(seen)@.len(),
            Self::new_arena_ok(old(new_arena)@),
            old(new_arena)@.len() < PTR::imax(),
        ensures
            final(seen)@.len() == self.index@.len(),
            order_ok(final(order)@, final(seen)@),
            final(order)@.len() < final(seen)@.len(),
            Self::new_arena_ok(final(new_arena)@),
            final(new_arena)@.len() < PTR::imax(),
            final(new_arena)@.len() >= old(new_arena)@.len(),
            r matches Some(x) ==> old(new_arena)@.len() == x.0 && x.0 < final(new_arena)@.len(),
            final(order)@.len() >= old(order)@.len(),
            final(order)@.subrange(0, old(order)@.len() as int) == old(order)@,
            self.keyed() && r is Some ==> {
                &&& forall|a: int| old(order)@.len() <= a < final(order)@.len()
                    ==> #[trigger] self.under(final(order)@[a] as int, phys as int)
                &&& self.keys_sorted(final(order)@, old(order)@.len() as int, final(order)@.len() as int)
            },
        decreases LEN::imax() - self.prefix_of(phys as int),
    {
        let ghost o0 = order@;
        let ghost kd = self.keyed();
        let ghost y = phys as int;
        proof {
            LEN::lemma_ival_bounds(self.arena@[phys as int].prefix_len);
            PTR::lemma_imax();
            if kd {
                self.lemma_keyed_at(y, 0);
            }
            assert(order@.subrange(0, o0.len() as int) =~= o0);
        }
        if new_arena.len() >= PTR::max_value() - 2 {
            return None;
        }
        let node = self.arena[phys];
        let new_idx = new_arena.len();
        let placeholder = NibNode::<PTR, LEN>::new();
        new_arena.push(placeholder);
        proof {
            let na = new_arena@;
            assert forall|q: int| 0 <= q < na.len() implies Self::node_links_ok(#[trigger] na[q], na.len() as int) by {
                if q < na.len() - 1 {
                    assert(Self::node_links_ok(old(new_arena)@[q], old(new_arena)@.len() as int));
                } else {
                    lemma_bit8_zero_all();
                }
            }
        }
        let mut nn = NibNode::<PTR, LEN>::new();
        nn.prefix_len = node.prefix_len;
        nn.occupancy = node.occupancy;
        nn.leaf_mask = node.leaf_mask;
        nn.terminal = node.terminal;
        let mut leaf: Option<PTR> = None;
        if node.is_terminal() {
            match Self::visit_key(node.leaf.as_usize(), order, seen) {
                Some(k) => {
                    leaf = Some(k);
                },
                None => {
                    return None;
                },
            }
        }
        proof {
            assert(order@.subrange(0, o0.len() as int) =~= o0);
            if kd {
                assert forall|a: int| o0.len() <= a < order@.len() implies #[trigger] self.before_nib(order@[a] as int, y, 0) by {
                    assert(order@[a] as int == self.ref_of(y));
                }
            }
        }
        let mut nib: usize = 0;
        while nib < 4
            invariant
                self.wf(),
                phys < self.arena@.len(),
                node == self.arena@[phys as int],
                seen@.len() == self.index@.len(),
                order_ok(order@, seen@),
                order@.len() < seen@.len(),
                Self::new_arena_ok(new_arena@),
                new_arena@.len() < PTR::imax(),
                new_idx < new_arena@.len(),
                new_idx == old(new_arena)@.len(),
                nib <= 4,
                nn.occupancy == node.occupancy,
                nn.leaf_mask == node.leaf_mask,
                nn.prefix_len == node.prefix_len,
                forall|j: int| 0 <= j < nib && !#[trigger] bit8(nn.leaf_mask, j)
                    && (bit8(nn.occupancy, j) || nn.children[j].ival() != PTR::imax())
                    ==> new_idx < nn.children[j].ival() < new_arena@.len(),
                forall|j: int| 0 <= j < nib && !bit8(nn.occupancy, j) ==> #[trigger] nn.children[j].ival() == PTR::imax(),
                forall|j: int| nib <= j < 4 ==> #[trigger] nn.children[j].ival() == PTR::imax(),
                self.prefix_of(phys as int) <= LEN::imax(),
                o0 == old(order)@,
                y == phys as int,
                kd == self.keyed(),
                kd ==> self.node_keyed(y),
                order@.len() >= o0.len(),
                order@.subrange(0, o0.len() as int) == o0,
                kd ==> forall|a: int| o0.len() <= a < order@.len() ==> #[trigger] self.before_nib(order@[a] as int, y, nib as int),
                kd ==> self.keys_sorted(order@, o0.len() as int, order@.len() as int),
            decreases 4 - nib,
        {
            let ghost ob = order@;
            if node.is_occupied(nib) {
                if node.is_leaf(nib) {
                    match Self::visit_key(node.children[nib].as_usize(), order, seen) {
                        Some(k) => {
                            proof {
                                assert(order@.subrange(0, o0.len() as int) =~= o0);
                                if kd {
                                    let j = self.child_of(y, nib as int);
                                    assert(self.leaf_keyed(y, nib as int));
                                    assert(order@[ob.len() as int] as int == j);
                                    assert(self.under(j, y));
                                    assert forall|a: int, b: int| o0.len() <= a < b < order@.len()
                                        implies #[trigger] lex_lt(self.key_at(order@[a] as int), self.key_at(order@[b] as int)) by {
                                        assert(order@[a] == ob[a]);
                                        if b < ob.len() {
                                            assert(order@[b] == ob[b]);
                                        } else {
                                            assert(self.before_nib(ob[a] as int, y, nib as int));
                                            self.lemma_before_nib_lt(ob[a] as int, j, y, nib as int);
                                        }
                                    }
                                    assert forall|a: int| o0.len() <= a < order@.len()
                                        implies #[trigger] self.before_nib(order@[a] as int, y, nib + 1) by {
                                        if a < ob.len() {
                                            assert(order@[a] == ob[a]);
                                            assert(self.before_nib(ob[a] as int, y, nib as int));
                                        }
                                    }
                                }
                            }
                            nn.children.set(nib, k);
                            if leaf.is_none() {
                                leaf = Some(k);
                            }
                        },
                        None => {
                            return None;
                        },
                    }
                } else {
                    proof {
                        assert(self.is_link(phys as int, nib as int));
                    }
                    let child = node.children[nib].as_usize();
                    if self.arena[child].prefix_len.as_usize() <= node.prefix_len.as_usize() {
                        return None;
                    }
                    proof {
                        LEN::lemma_ival_bounds(self.arena@[child as int].prefix_len);
                    }
                    match self.rebuild_walk(child, new_arena, order, seen) {
                        Some((cidx, cleaf)) => {
                            proof {
                                assert(order@.subrange(0, o0.len() as int) =~= order@.subrange(0, ob.len() as int).subrange(0, o0.len() as int));
                                assert forall|a: int| 0 <= a < ob.len() implies order@[a] == ob[a] by {
                                    assert(order@.subrange(0, ob.len() as int)[a] == order@[a]);
                                }
                                if kd {
                                    assert(self.edge_keyed(y, nib as int));
                                    assert forall|b: int| ob.len() <= b < order@.len() implies {
                                        &&& self.under(order@[b] as int, y)
                                        &&& 4 * self.key_at(order@[b] as int).len() > self.prefix_of(y)
                                        &&& nib_at(self.key_at(order@[b] as int), self.prefix_of(y) as int) == nib
                                    } by {
                                        assert(self.under(order@[b] as int, child as int));
                                        self.lemma_under_child(order@[b] as int, y, nib as int);
                                    }
                                    assert forall|a: int, b: int| o0.len() <= a < b < order@.len()
                                        implies #[trigger] lex_lt(self.key_at(order@[a] as int), self.key_at(order@[b] as int)) by {
                                        if b < ob.len() {
                                            assert(lex_lt(self.key_at(ob[a] as int), self.key_at(ob[b] as int)));
                                        } else if a >= ob.len() {
                                        } else {
                                            assert(self.before_nib(ob[a] as int, y, nib as int));
                                            self.lemma_before_nib_lt(ob[a] as int, order@[b] as int, y, nib as int);
                                        }
                                    }
                                    assert forall|a: int| o0.len() <= a < order@.len()
                                        implies #[trigger] self.before_nib(order@[a] as int, y, nib + 1) by {
                                        if a < ob.len() {
                                            assert(self.before_nib(ob[a] as int, y, nib as int));
                                        }
                                    }
                                }
                            }
                            nn.children.set(nib, PTR::from_usize(cidx));
                            if leaf.is_none() {
                                leaf = Some(cleaf);
                            }
                        },
                        None => {
                            return None;
                        },
                    }
                }
            } else {
                proof {
                    if kd {
                        assert forall|a: int| o0.len() <= a < order@.len()
                            implies #[trigger] self.before_nib(order@[a] as int, y, nib + 1) by {
                            assert(self.before_nib(order@[a] as int, y, nib as int));
                        }
                    }
                }
            }
            nib += 1;
        }
        proof {
            if kd {
                assert forall|a: int| o0.len() <= a < order@.len()
                    implies #[trigger] self.under(order@[a] as int, y) by {
                    assert(self.before_nib(order@[a] as int, y, 4));
                }
            }
        }
        nn.leaf = match leaf {
            Some(k) => k,
            None => PTR::max_value_sentinel(),
        };
        new_arena.set(new_idx, nn);
        proof {
            let na = new_arena@;
            assert forall|q: int| 0 <= q < na.len() implies Self::node_links_ok(#[trigger] na[q], na.len() as int) by {
                if q != new_idx {
                }
            }
        }
        Some((new_idx, nn.leaf))
    }

    /// Key `j` of `self` and its value are key `i` of `other` and its value.
    pub open spec fn pair_at(self, j: int, other: Self, i: int) -> bool {
        &&& 1 <= i < other.index@.len()
        &&& self.key_at(j) == other.key_at(i)
        &&& self.values@[j - 1] == other.values@[i - 1]
    }

    /// Key `j` of `self`, with its value, is some key of `other` with its value.
    pub open spec fn has_pair_in(self, j: int, other: Self) -> bool {
        exists|i: int| #[trigger] self.pair_at(j, other, i)
    }

    /// Every key of `self`, with its value, is a key of `other` with its value.
    pub open spec fn pairs_in(self, other: Self) -> bool {
        forall|j: int| 1 <= j < self.index@.len() ==> #[trigger] self.has_pair_in(j, other)
    }

    proof fn lemma_pairs_refl(self)
        ensures
            self.pairs_in(self),
    {
        assert forall|j: int| 1 <= j < self.index@.len() implies #[trigger] self.has_pair_in(j, self) by {
            assert(self.pair_at(j, self, j));
        }
    }

    /// The walk order of the arena's keys, when it reaches every key exactly
    /// once, with the arena rebuilt in that order.
    fn collect_order(&self) -> (r: Option<(Vec<NibNode<PTR, LEN>>, Vec<usize>)>)
        requires
            self.wf(),
            self.arena@.len() > 0,
        ensures
            r matches Some(x) ==> {
                &&& Self::new_arena_ok(x.0@)
                &&& 0 < x.0@.len() < PTR::imax()
                &&& x.1@.len() + 1 == self.index@.len()
                &&& forall|a: int| 0 <= a < x.1@.len() ==> 1 <= #[trigger] x.1@[a] < self.index@.len()
                &&& forall|a: int, b: int| 0 <= a < b < x.1@.len() ==> #[trigger] x.1@[a] != #[trigger] x.1@[b]
                &&& forall|k: int| 1 <= k < self.index@.len() ==> #[trigger] listed(x.1@, k)
            },
            r matches Some(x) ==> (self.keyed() ==> self.keys_sorted(x.1@, 0, x.1@.len() as int)),
    {
        let n = self.index.len();
        let mut seen: Vec<bool> = Vec::with_capacity(n);
        let mut k: usize = 0;
        while k < n
            invariant
                k <= n,
                seen@.len() == k,
                forall|j: int| 0 <= j < k ==> !#[trigger] seen@[j],
            decreases n - k,
        {
            seen.push(false);
            k += 1;
        }
        let mut order: Vec<usize> = Vec::new();
        let mut new_arena: Vec<NibNode<PTR, LEN>> = Vec::new();
        proof {
            PTR::lemma_imax();
        }
        let walked = self.rebuild_walk(0, &mut new_arena, &mut order, &mut seen);
        if walked.is_none() || order.len() != n - 1 {
            return None;
        }
        let mut c: usize = 1;
        let mut all_seen = true;
        while c < n
            invariant
                n == seen@.len(),
                1 <= c <= n,
                all_seen ==> forall|j: int| 1 <= j < c ==> #[trigger] seen@[j],
            decreases n - c,
        {
            if !seen[c] {
                all_seen = false;
            }
            c += 1;
        }
        if !all_seen {
            return None;
        }
        proof {
            assert forall|kk: int| 1 <= kk < self.index@.len() implies #[trigger] listed(order@, kk) by {
                assert(seen@[kk]);
            }
        }
        Some((new_arena, order))
    }

    /// The keys listed by `order`, in that order, copied into a fresh buffer
    /// behind the dummy byte, with their index entries behind the dummy entry.
    fn gather_keys(&self, order: &Vec<usize>) -> (r: (Vec<u8>, Vec<(usize, LEN)>))
        requires
            self.wf(),
            forall|a: int| 0 <= a < order@.len() ==> 1 <= #[trigger] order@[a] < self.index@.len(),
        ensures
            r.1@.len() == order@.len() + 1,
            r.0@.len() >= 1,
            r.1@[0].0 == 0 && r.1@[0].1.ival() == 0,
            forall|a: int| 0 <= a < r.1@.len() ==> #[trigger] r.1@[a].0 + r.1@[a].1.ival() <= r.0@.len(),
            forall|a: int| 0 <= a < order@.len() ==> #[trigger] r.0@.subrange(r.1@[a + 1].0 as int, r.1@[a + 1].0 + r.1@[a + 1].1.ival())
                == self.key_at(order@[a] as int),
    {
        let mut new_buf: Vec<u8> = Vec::with_capacity(self.buf.len());
        new_buf.push(0);
        let mut new_index: Vec<(usize, LEN)> = Vec::new();
        new_index.push((0, LEN::zero()));
        let mut j: usize = 0;
        while j < order.len()
            invariant
                self.wf(),
                forall|a: int| 0 <= a < order@.len() ==> 1 <= #[trigger] order@[a] < self.index@.len(),
                j <= order@.len(),
                new_index@.len() == j + 1,
                new_buf@.len() >= 1,
                new_index@[0].0 == 0 && new_index@[0].1.ival() == 0,
                forall|a: int| 0 <= a < new_index@.len() ==> #[trigger] new_index@[a].0 + new_index@[a].1.ival() <= new_buf@.len(),
                forall|a: int| 0 <= a < j ==> #[trigger] new_buf@.subrange(new_index@[a + 1].0 as int, new_index@[a + 1].0 + new_index@[a + 1].1.ival())
                    == self.key_at(order@[a] as int),
            decreases order@.len() - j,
        {
            let ki = order[j];
            let (off, len) = self.index[ki];
            proof {
                assert(self.entry_ok(ki as int));
            }
            let _blen = self.buf.len();
            let start = new_buf.len();
            let ghost nb0 = new_buf@;
            let ghost ni0 = new_index@;
            append_bytes(&mut new_buf, vstd::slice::slice_subrange(self.buf.as_slice(), off, off + len.as_usize()));
            new_index.push((start, len));
            proof {
                assert forall|a: int| 0 <= a < new_index@.len() implies #[trigger] new_index@[a].0 + new_index@[a].1.ival() <= new_buf@.len() by {
                    if a < ni0.len() {
                        assert(ni0[a].0 + ni0[a].1.ival() <= nb0.len());
                    }
                }
                assert forall|a: int| 0 <= a < j + 1 implies #[trigger] new_buf@.subrange(new_index@[a + 1].0 as int, new_index@[a + 1].0 + new_index@[a + 1].1.ival())
                    == self.key_at(order@[a] as int) by {
                    if a < j {
                        assert(ni0[a + 1].0 + ni0[a + 1].1.ival() <= nb0.len());
                        assert(new_buf@.subrange(new_index@[a + 1].0 as int, new_index@[a + 1].0 + new_index@[a + 1].1.ival())
                            =~= nb0.subrange(ni0[a + 1].0 as int, ni0[a + 1].0 + ni0[a + 1].1.ival()));
                    } else {
                        assert(new_buf@.subrange(start as int, start + len.ival()) =~= self.key_at(ki as int));
                    }
                }
            }
            j += 1;
        }
        (new_buf, new_index)
    }

    /// The values reordered by `order`: value `j` of the result is value
    /// `order[j] - 1` of `values`. `order` must list distinct positions.
    fn permute_values(values: Vec<T>, order: &Vec<usize>) -> (r: Vec<T>)
        requires
            order@.len() == values@.len(),
            forall|a: int| 0 <= a < order@.len() ==> 1 <= #[trigger] order@[a] <= values@.len(),
            forall|a: int, b: int| 0 <= a < b < order@.len() ==> #[trigger] order@[a] != #[trigger] order@[b],
        ensures
            r@.len() == order@.len(),
            forall|a: int| 0 <= a < r@.len() ==> #[trigger] r@[a] == values@[order@[a] - 1],
    {
        let ghost vals = values@;
        let n = values.len();
        let mut values = values;
        let mut rev: Vec<T> = Vec::with_capacity(n);
        while values.len() > 0
            invariant
                rev@.len() + values@.len() == vals.len(),
                forall|a: int| 0 <= a < rev@.len() ==> #[trigger] rev@[a] == vals[vals.len() - 1 - a],
                values@ == vals.subrange(0, values@.len() as int),
            decreases values@.len(),
        {
            match values.pop() {
                Some(v) => {
                    rev.push(v);
                    proof {
                        assert(values@ =~= vals.subrange(0, values@.len() as int));
                    }
                },
                None => {},
            }
        }
        let mut slots: Vec<Option<T>> = Vec::with_capacity(n);
        while rev.len() > 0
            invariant
                slots@.len() + rev@.len() == vals.len(),
                forall|a: int| 0 <= a < rev@.len() ==> #[trigger] rev@[a] == vals[vals.len() - 1 - a],
                forall|a: int| 0 <= a < slots@.len() ==> #[trigger] slots@[a] == Some(vals[a]),
            decreases rev@.len(),
        {
            match rev.pop() {
                Some(v) => {
                    slots.push(Some(v));
                },
                None => {},
            }
        }
        let mut out: Vec<T> = Vec::with_capacity(n);
        let mut j: usize = 0;
        while j < order.len()
            invariant
                order@.len() == vals.len(),
                slots@.len() == vals.len(),
                forall|a: int| 0 <= a < order@.len() ==> 1 <= #[trigger] order@[a] <= vals.len(),
                forall|a: int, b: int| 0 <= a < b < order@.len() ==> #[trigger] order@[a] != #[trigger] order@[b],
                j <= order@.len(),
                out@.len() == j,
                forall|a: int| 0 <= a < j ==> #[trigger] out@[a] == vals[order@[a] - 1],
                forall|a: int| j <= a < order@.len() ==> #[trigger] slots@[order@[a] - 1] == Some(vals[order@[a] - 1]),
            decreases order@.len() - j,
        {
            let ki = order[j];
            let ghost s0 = slots@;
            let taken = slots[ki - 1].take();
            proof {
                assert(s0[order@[j as int] - 1] == Some(vals[order@[j as int] - 1]));
                assert forall|a: int| j + 1 <= a < order@.len() implies #[trigger] slots@[order@[a] - 1] == Some(vals[order@[a] - 1]) by {
                    assert(order@[a] != order@[j as int]);
                    assert(s0[order@[a] - 1] == Some(vals[order@[a] - 1]));
                }
            }
            match taken {
                Some(v) => {
                    out.push(v);
                },
                None => {},
            }
            j += 1;
        }
        out
    }

    /// Renumber the keys in walk order: rebuild the arena in walk order,
    /// rewrite `buf` and `index` so the keys lie in that order, and reorder the
    /// values to match. A trie whose arena does not reach every key exactly
    /// once is left unchanged. The result holds the same key/value pairs.
    pub fn optimize(&mut self)
        requires
            old(self).wf(),
        ensures
            final(self).wf(),
            final(self).index@.len() == old(self).index@.len(),
            final(self).pairs_in(*old(self)),
            old(self).pairs_in(*final(self)),
            old(self).keyed() ==> *final(self) == *old(self)
                || forall|i: int, j: int| 1 <= i < j < final(self).index@.len()
                    ==> #[trigger] lex_lt(final(self).key_at(i), final(self).key_at(j)),
    {
        proof {
            self.lemma_pairs_refl();
        }
        if self.arena.len() == 0 {
            return;
        }
        let (new_arena, order) = match self.collect_order() {
            Some(x) => x,
            None => return,
        };
        let ghost orig = *self;
        let (new_buf, new_index) = self.gather_keys(&order);
        let mut values: Vec<T> = Vec::new();
        std::mem::swap(&mut values, &mut self.values);
        let new_values = Self::permute_values(values, &order);
        let ghost nb = new_buf@;
        let ghost ni = new_index@;
        self.arena = new_arena;
        self.buf = new_buf;
        self.index = new_index;
        self.values = new_values;
        proof {
            assert forall|p: int, q: int|
                0 <= p < self.arena@.len() && 0 <= q < 4 && #[trigger] self.is_link(p, q)
                    implies 0 < self.arena@[p].children[q].ival() < self.arena@.len() by {
                assert(Self::node_links_ok(self.arena@[p], self.arena@.len() as int));
            }
            assert forall|i: int| 0 <= i < self.index@.len() implies #[trigger] self.entry_ok(i) by {}
            assert forall|jj: int| 1 <= jj < self.index@.len() implies #[trigger] self.has_pair_in(jj, orig) by {
                let a = jj - 1;
                let i = order@[a] as int;
                assert(nb.subrange(ni[a + 1].0 as int, ni[a + 1].0 + ni[a + 1].1.ival()) == orig.key_at(order@[a] as int));
                assert(self.pair_at(jj, orig, i));
            }
            assert forall|i: int| 1 <= i < orig.index@.len() implies #[trigger] orig.has_pair_in(i, *self) by {
                assert(listed(order@, i));
                let a = choose|a: int| 0 <= a < order@.len() && order@[a] == i;
                assert(nb.subrange(ni[a + 1].0 as int, ni[a + 1].0 + ni[a + 1].1.ival()) == orig.key_at(order@[a] as int));
                assert(orig.pair_at(i, *self, a + 1));
            }
            if orig.keyed() {
                assert forall|i: int, j: int| 1 <= i < j < self.index@.len()
                    implies #[trigger] lex_lt(self.key_at(i), self.key_at(j)) by {
                    let a = i - 1;
                    let b = j - 1;
                    assert(nb.subrange(ni[a + 1].0 as int, ni[a + 1].0 + ni[a + 1].1.ival()) == orig.key_at(order@[a] as int));
                    assert(nb.subrange(ni[b + 1].0 as int, ni[b + 1].0 + ni[b + 1].1.ival()) == orig.key_at(order@[b] as int));
                    assert(lex_lt(orig.key_at(order@[i - 1] as int), orig.key_at(order@[j - 1] as int)));
                }
            }
        }
    }
}

} // verus!
