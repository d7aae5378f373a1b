//! Bit Trie — a binary radix trie indexed by individual key bits.
//!
//! Each node has two child slots (bit 0 and bit 1). Bit 31 of a child word
//! marks a leaf (the low 31 bits are a key index) as opposed to an internal
//! child (an arena index); `0` is an empty slot. Bit 31 of `leaf` marks a
//! terminal node, whose own key ends there; its low 31 bits are the key index
//! of the node's reference key.
//!
//! Each node stores the prefix length (in bits) of each child subtree in
//! `prefix_lens`; the root's prefix length is `BitTrie::root_prefix_len`.
//! Keys live in the key store of the key type, values in `values`; key index
//! `i >= 1` goes with `values[i - 1]`, index `0` being the store's dummy.

use vstd::prelude::*;
use crate::key_store::{ByteKey, KeyRepr, KeyStore, TrieKey};
use crate::nibble_trie::lex_lt;

verus! {

/// Bit 31 of a child word: the slot holds a leaf key index.
pub const LEAF_BIT: u32 = 0x8000_0000u32;

/// Bit 31 of `leaf`: the node is terminal.
pub const TERMINAL_BIT: u32 = 0x8000_0000u32;

/// Iterator frame position: the terminal value of the node.
pub const TERMINAL_POS: u8 = 2u8;

/// Iterator frame position: before the node's first entry.
pub const BEFORE_FIRST: u8 = 255u8;

/// A child word holds a leaf.
pub open spec fn word_is_leaf(w: u32) -> bool {
    w >= LEAF_BIT
}

/// The index held by a child word (leaf key index or arena index).
pub open spec fn word_index(w: u32) -> u32 {
    (w % LEAF_BIT) as u32
}

proof fn lemma_word_bits(w: u32)
    by (bit_vector)
    ensures
        ((w & LEAF_BIT) != 0) == (w >= LEAF_BIT),
        w & !LEAF_BIT == w % LEAF_BIT,
{
}

proof fn lemma_word_tag(k: u32)
    by (bit_vector)
    requires
        k < LEAF_BIT,
    ensures
        (k | LEAF_BIT) == k + LEAF_BIT,
        (k | LEAF_BIT) >= LEAF_BIT,
        (k | LEAF_BIT) % LEAF_BIT == k,
{
}

proof fn lemma_leaf_word(leaf: u32, k: u32)
    by (bit_vector)
    requires
        k < LEAF_BIT,
    ensures
        ((leaf & TERMINAL_BIT) | k) % LEAF_BIT == k,
        ((leaf & TERMINAL_BIT) | k) >= LEAF_BIT <==> leaf >= LEAF_BIT,
        (leaf | TERMINAL_BIT) % LEAF_BIT == leaf % LEAF_BIT,
        (leaf | TERMINAL_BIT) >= LEAF_BIT,
        (leaf & !TERMINAL_BIT) % LEAF_BIT == leaf % LEAF_BIT,
        (leaf & !TERMINAL_BIT) < LEAF_BIT,
{
}

/// A single node of the bit trie arena.
#[derive(Clone, Copy)]
pub struct Node {
    pub children: [u32; 2],
    pub prefix_lens: [u16; 2],
    pub leaf: u32,
}

impl Node {
    /// An empty node: no children, no reference key, not terminal.
    pub fn new() -> (r: Self)
        ensures
            r.children[0] == 0 && r.children[1] == 0,
            r.prefix_lens[0] == 0 && r.prefix_lens[1] == 0,
            r.leaf == 0,
    {
        Node { children: [0, 0], prefix_lens: [0, 0], leaf: 0 }
    }

    /// Slot `bit` holds a leaf.
    pub fn is_leaf(&self, bit: usize) -> (r: bool)
        requires
            bit < 2,
        ensures
            r == word_is_leaf(self.children[bit as int]),
    {
        proof {
            lemma_word_bits(self.children[bit as int]);
        }
        (self.children[bit] & LEAF_BIT) != 0
    }

    /// The index held by slot `bit`, without the leaf tag.
    pub fn child_index(&self, bit: usize) -> (r: u32)
        requires
            bit < 2,
        ensures
            r == word_index(self.children[bit as int]),
    {
        proof {
            lemma_word_bits(self.children[bit as int]);
        }
        self.children[bit] & !LEAF_BIT
    }

    /// Slot `bit` is empty.
    pub fn is_empty(&self, bit: usize) -> (r: bool)
        requires
            bit < 2,
        ensures
            r == (self.children[bit as int] == 0),
    {
        self.children[bit] == 0
    }

    /// Store leaf key index `key_index` at `bit`, with its prefix length.
    pub fn set_leaf_child(&mut self, bit: usize, key_index: u32, prefix_len: u16)
        requires
            bit < 2,
            key_index < LEAF_BIT,
        ensures
            final(self).children[bit as int] == key_index + LEAF_BIT,
            final(self).children[1 - bit] == old(self).children[1 - bit],
            final(self).prefix_lens[bit as int] == prefix_len,
            final(self).prefix_lens[1 - bit] == old(self).prefix_lens[1 - bit],
            final(self).leaf == old(self).leaf,
    {
        proof {
            lemma_word_tag(key_index);
        }
        self.children[bit] = key_index | LEAF_BIT;
        self.prefix_lens[bit] = prefix_len;
    }

    /// Store arena index `arena_index` at `bit` as an internal child, with its
    /// prefix length.
    pub fn set_internal_child(&mut self, bit: usize, arena_index: u32, prefix_len: u16)
        requires
            bit < 2,
        ensures
            final(self).children[bit as int] == arena_index,
            final(self).children[1 - bit] == old(self).children[1 - bit],
            final(self).prefix_lens[bit as int] == prefix_len,
            final(self).prefix_lens[1 - bit] == old(self).prefix_lens[1 - bit],
            final(self).leaf == old(self).leaf,
    {
        self.children[bit] = arena_index;
        self.prefix_lens[bit] = prefix_len;
    }

    /// The key index of the leaf at `bit`, or `None` for an empty or internal slot.
    pub fn leaf_key_index(&self, bit: usize) -> (r: Option<u32>)
        requires
            bit < 2,
        ensures
            r == (if word_is_leaf(self.children[bit as int]) && word_index(self.children[bit as int]) != 0 {
                Some(word_index(self.children[bit as int]))
            } else {
                None
            }),
    {
        if self.is_leaf(bit) {
            let idx = self.child_index(bit);
            if idx != 0 {
                return Some(idx);
            }
        }
        None
    }

    /// The node is terminal: its own key ends here.
    pub fn is_terminal(&self) -> (r: bool)
        ensures
            r == (self.leaf >= TERMINAL_BIT),
    {
        proof {
            lemma_word_bits(self.leaf);
        }
        (self.leaf & TERMINAL_BIT) != 0
    }

    /// Set or clear the terminal flag, keeping the reference key index.
    pub fn set_terminal(&mut self, val: bool)
        ensures
            final(self).leaf >= TERMINAL_BIT <==> val,
            word_index(final(self).leaf) == word_index(old(self).leaf),
            final(self).children == old(self).children,
            final(self).prefix_lens == old(self).prefix_lens,
    {
        proof {
            lemma_leaf_word(self.leaf, 0);
        }
        if val {
            self.leaf = self.leaf | TERMINAL_BIT;
        } else {
            self.leaf = self.leaf & !TERMINAL_BIT;
        }
    }

    /// The reference key index held by `leaf`.
    pub fn leaf_key_index_val(&self) -> (r: u32)
        ensures
            r == word_index(self.leaf),
    {
        proof {
            lemma_word_bits(self.leaf);
        }
        self.leaf & !TERMINAL_BIT
    }

    /// Set the reference key index, keeping the terminal flag.
    pub fn set_leaf_key_index(&mut self, idx: u32)
        requires
            idx < LEAF_BIT,
        ensures
            word_index(final(self).leaf) == idx,
            final(self).leaf >= TERMINAL_BIT <==> old(self).leaf >= TERMINAL_BIT,
            final(self).children == old(self).children,
            final(self).prefix_lens == old(self).prefix_lens,
    {
        proof {
            lemma_leaf_word(self.leaf, idx);
        }
        self.leaf = (self.leaf & TERMINAL_BIT) | idx;
    }
}

/// Bit `idx` of `key`, most significant bit of byte 0 first; `0` past the end.
pub open spec fn bit_at(key: Seq<u8>, idx: int) -> u8 {
    if 0 <= idx && idx / 8 < key.len() {
        (key[idx / 8] >> ((7 - idx % 8) as u8)) & 1u8
    } else {
        0
    }
}

/// A leaf word's tag and index.
proof fn lemma_tag_index(k: u32)
    requires
        k < LEAF_BIT,
    ensures
        word_is_leaf((k + LEAF_BIT) as u32),
        word_index((k + LEAF_BIT) as u32) == k,
        (k + LEAF_BIT) as u32 == k + LEAF_BIT,
{
}

/// Bit `8 * k + m` of a key lies in byte `k`, at offset `m`.
proof fn lemma_byte_bit(k: int, m: int)
    by (nonlinear_arith)
    requires
        0 <= k,
        0 <= m < 8,
    ensures
        (8 * k + m) / 8 == k,
        (8 * k + m) % 8 == m,
{
}

/// A key bit is `0` or `1`.
pub proof fn lemma_bit_at_le_one(key: Seq<u8>, idx: int)
    ensures
        bit_at(key, idx) <= 1,
{
    if 0 <= idx && idx / 8 < key.len() {
        lemma_bit_le_one(key[idx / 8], (7 - idx % 8) as u8);
    }
}

/// Bits `lo..hi` of `a` and `b` agree.
pub open spec fn bits_agree(a: Seq<u8>, b: Seq<u8>, lo: int, hi: int) -> bool {
    forall|i: int| lo <= i < hi ==> #[trigger] bit_at(a, i) == bit_at(b, i)
}

proof fn lemma_bit_le_one(x: u8, s: u8)
    by (bit_vector)
    ensures
        (x >> s) & 1u8 <= 1u8,
{
}

/// Bit `idx` of `key`.
fn key_bit_at(key: &[u8], idx: usize) -> (r: u8)
    ensures
        r == bit_at(key@, idx as int),
        r <= 1,
{
    let byte_idx = idx / 8;
    if byte_idx < key.len() {
        proof {
            lemma_bit_le_one(key@[byte_idx as int], (7 - idx % 8) as u8);
        }
        (key[byte_idx] >> (7 - (idx % 8) as u8)) & 1
    } else {
        0
    }
}

/// Outcome of comparing two keys bit by bit.
pub enum DivergeResult {
    /// The keys have the same bits and the same length.
    Duplicate,
    /// The first differing bit, or the bit length of the shorter key.
    At(usize),
}

/// `r` is the outcome of scanning `a` and `b` for a differing bit from `from` on.
pub open spec fn diverge_spec(a: Seq<u8>, b: Seq<u8>, from: int, r: DivergeResult) -> bool {
    let min: int = if a.len() < b.len() { 8 * a.len() as int } else { 8 * b.len() as int };
    match r {
        DivergeResult::Duplicate => a.len() == b.len() && bits_agree(a, b, from, min),
        DivergeResult::At(d) => {
            &&& from <= d
            &&& bits_agree(a, b, from, d as int)
            &&& (d < min ==> bit_at(a, d as int) != bit_at(b, d as int))
            &&& (d >= min ==> d == (if from < min { min } else { from }) && a.len() != b.len())
        },
    }
}

/// Scan two keys bit by bit from `from` for the first diverging bit.
fn find_divergence(key_a: &[u8], key_b: &[u8], from: usize) -> (r: DivergeResult)
    requires
        key_a@.len() * 8 <= usize::MAX,
        key_b@.len() * 8 <= usize::MAX,
    ensures
        diverge_spec(key_a@, key_b@, from as int, r),
{
    let total_a = key_a.len() * 8;
    let total_b = key_b.len() * 8;
    let min = if total_a < total_b { total_a } else { total_b };
    let mut d = from;
    while d < min
        invariant
            from <= d,
            min == (if key_a@.len() < key_b@.len() { 8 * key_a@.len() } else { 8 * key_b@.len() }),
            d > from ==> d <= min,
            bits_agree(key_a@, key_b@, from as int, d as int),
        decreases min - d,
    {
        if key_bit_at(key_a, d) != key_bit_at(key_b, d) {
            return DivergeResult::At(d);
        }
        d += 1;
    }
    if total_a == total_b {
        DivergeResult::Duplicate
    } else {
        DivergeResult::At(d)
    }
}

/// The bits of two differing bytes agree before the leading zeros of their
/// XOR and differ there.
proof fn lemma_first_diff_bit(x: u8, y: u8)
    requires
        x != y,
    ensures
        vstd::std_specs::bits::u8_leading_zeros(x ^ y) < 8,
        forall|k: u8| k < vstd::std_specs::bits::u8_leading_zeros(x ^ y) ==> (#[trigger] (x >> (7 - k) as u8) & 1u8) == (y >> (7 - k) as u8) & 1u8,
        (x >> (7 - vstd::std_specs::bits::u8_leading_zeros(x ^ y)) as u8) & 1u8
            != (y >> (7 - vstd::std_specs::bits::u8_leading_zeros(x ^ y)) as u8) & 1u8,
{
    let z = x ^ y;
    vstd::std_specs::bits::axiom_u8_leading_zeros(z);
    let lz = vstd::std_specs::bits::u8_leading_zeros(z);
    assert(z != 0) by (bit_vector)
        requires
            x != y,
            z == x ^ y,
    ;
    let l8 = lz as u8;
    assert forall|k: u8| k < lz implies (#[trigger] (x >> (7 - k) as u8) & 1u8) == (y >> (7 - k) as u8) & 1u8 by {
        let j = (7 - k) as u8;
        assert((z >> j) & 1u8 == 0u8);
        assert((z >> j) & 1u8 == 0u8 && z == x ^ y ==> (x >> j) & 1u8 == (y >> j) & 1u8) by (bit_vector);
    }
    let j = (7 - l8) as u8;
    assert((z >> j) & 1u8 != 0u8 && z == x ^ y ==> (x >> j) & 1u8 != (y >> j) & 1u8) by (bit_vector);
}

/// Equal bytes `lo..hi` of two keys agree on bits `8 * lo..8 * hi`.
proof fn lemma_equal_bytes_bits(a: Seq<u8>, b: Seq<u8>, lo: int, hi: int)
    requires
        0 <= lo <= hi <= a.len(),
        hi <= b.len(),
        forall|k: int| lo <= k < hi ==> a[k] == b[k],
    ensures
        bits_agree(a, b, 8 * lo, 8 * hi),
{
    assert forall|i: int| 8 * lo <= i < 8 * hi implies #[trigger] bit_at(a, i) == bit_at(b, i) by {
        assert(lo <= i / 8 < hi);
    }
}

/// The bit position of the first divergence inside byte `byte_idx`, given the
/// nonzero XOR of the two differing bytes.
fn diverging_bit(xor: u8, byte_idx: usize) -> (r: usize)
    requires
        byte_idx * 8 + 8 <= usize::MAX,
    ensures
        r == byte_idx * 8 + vstd::std_specs::bits::u8_leading_zeros(xor),
{
    proof {
        vstd::std_specs::bits::axiom_u8_leading_zeros(xor);
    }
    byte_idx * 8 + xor.leading_zeros() as usize
}

/// Find the first diverging bit, comparing whole bytes in chunks of `N` from
/// the byte that holds bit `from`.
fn simd_find_divergence<const N: usize>(key_a: &[u8], key_b: &[u8], from: usize) -> (r: DivergeResult)
    requires
        0 < N,
        key_a@.len() * 8 + 8 <= usize::MAX,
        key_b@.len() * 8 + 8 <= usize::MAX,
    ensures
        diverge_spec(key_a@, key_b@, 8 * (from / 8) as int, r),
{
    let minlen = if key_a.len() < key_b.len() { key_a.len() } else { key_b.len() };
    let from_byte = from / 8;
    let mut i = from_byte;
    while i <= minlen && N <= minlen - i
        invariant
            0 < N,
            key_a@.len() * 8 + 8 <= usize::MAX,
            key_b@.len() * 8 + 8 <= usize::MAX,
            from_byte == from / 8,
            from_byte <= i,
            minlen == (if key_a@.len() < key_b@.len() { key_a@.len() } else { key_b@.len() }),
            i > from_byte ==> i <= minlen,
            forall|k: int| from_byte <= k < i ==> key_a@[k] == key_b@[k],
        decreases minlen + N - i,
    {
        let mut j: usize = 0;
        while j < N
            invariant
                key_a@.len() * 8 + 8 <= usize::MAX,
                key_b@.len() * 8 + 8 <= usize::MAX,
                from_byte == from / 8,
                0 < N,
                i + N <= minlen,
                minlen <= key_a@.len(),
                minlen <= key_b@.len(),
                from_byte <= i,
                j <= N,
                forall|k: int| from_byte <= k < i + j ==> key_a@[k] == key_b@[k],
            decreases N - j,
        {
            let x = key_a[i + j];
            let y = key_b[i + j];
            if x != y {
                let k = i + j;
                let xor = x ^ y;
                let d = diverging_bit(xor, k);
                proof {
                    lemma_first_diff_bit(x, y);
                    lemma_equal_bytes_bits(key_a@, key_b@, from_byte as int, k as int);
                    let lz = vstd::std_specs::bits::u8_leading_zeros(xor);
                    assert forall|t: int| 8 * from_byte <= t < d implies #[trigger] bit_at(key_a@, t) == bit_at(key_b@, t) by {
                        if t >= 8 * k {
                            let kk = (t - 8 * k) as u8;
                            assert(t / 8 == k && t % 8 == kk);
                            assert((x >> (7 - kk) as u8) & 1u8 == (y >> (7 - kk) as u8) & 1u8);
                        }
                    }
                    assert(d / 8 == k && d % 8 == lz);
                }
                return DivergeResult::At(d);
            }
            j += 1;
        }
        i += N;
    }
    let r = find_divergence(key_a, key_b, i * 8);
    proof {
        if i > from_byte {
            lemma_equal_bytes_bits(key_a@, key_b@, from_byte as int, i as int);
        }
    }
    r
}

/// Bits `from..to` of the two keys match and both keys are at least `to`
/// bits long. Whole bytes from the one holding bit `from` are compared, so a
/// difference in that byte before `from` also counts as a mismatch.
fn prefix_matches(key_a: &[u8], key_b: &[u8], from: usize, to: usize) -> (r: bool)
    requires
        key_a@.len() * 8 <= usize::MAX,
        key_b@.len() * 8 <= usize::MAX,
        to + 7 <= usize::MAX,
    ensures
        r == (key_a@.len() * 8 >= to && key_b@.len() * 8 >= to
            && bits_agree(key_a@, key_b@, 8 * (from / 8) as int, to as int)),
{
    if key_a.len() * 8 < to || key_b.len() * 8 < to {
        return false;
    }
    let from_byte = from / 8;
    let to_byte = (to + 7) / 8;
    let m1 = if key_a.len() < key_b.len() { key_a.len() } else { key_b.len() };
    let min_len = if m1 < to_byte { m1 } else { to_byte };
    let mut i = from_byte;
    while i < min_len
        invariant
            from_byte == from / 8,
            from_byte <= i,
            i > from_byte ==> i <= min_len,
            min_len <= key_a@.len(),
            min_len <= key_b@.len(),
            min_len <= to_byte,
            to_byte == (to + 7) / 8,
            key_a@.len() * 8 >= to,
            key_b@.len() * 8 >= to,
            key_a@.len() * 8 <= usize::MAX,
            forall|k: int| from_byte <= k < i ==> key_a@[k] == key_b@[k],
        decreases min_len - i,
    {
        if key_a[i] != key_b[i] {
            let x = key_a[i];
            let y = key_b[i];
            let xor = x ^ y;
            let first_diff_bit = i * 8 + xor.leading_zeros() as usize;
            proof {
                lemma_first_diff_bit(x, y);
                lemma_equal_bytes_bits(key_a@, key_b@, from_byte as int, i as int);
                let lz = vstd::std_specs::bits::u8_leading_zeros(xor);
                assert forall|t: int| 8 * from_byte <= t < first_diff_bit implies #[trigger] bit_at(key_a@, t) == bit_at(key_b@, t) by {
                    if t >= 8 * i {
                        let kk = (t - 8 * i) as u8;
                        assert(t / 8 == i && t % 8 == kk);
                        assert((x >> (7 - kk) as u8) & 1u8 == (y >> (7 - kk) as u8) & 1u8);
                    }
                }
                let d = first_diff_bit as int;
                assert(d / 8 == i && d % 8 == lz);
                assert(bit_at(key_a@, d) != bit_at(key_b@, d));
            }
            return first_diff_bit >= to;
        }
        i += 1;
    }
    proof {
        if min_len > from_byte {
            lemma_equal_bytes_bits(key_a@, key_b@, from_byte as int, min_len as int);
        }
        assert forall|t: int| 8 * from_byte <= t < to implies #[trigger] bit_at(key_a@, t) == bit_at(key_b@, t) by {
            assert(t / 8 < to_byte);
            assert(t / 8 < key_a@.len() && t / 8 < key_b@.len());
        }
    }
    true
}

/// Byte-wise equality of two slices.
fn simd_eq(a: &[u8], b: &[u8]) -> (r: bool)
    ensures
        r == (a@ == b@),
{
    if a.len() != b.len() {
        return false;
    }
    let len = a.len();
    let mut i: usize = 0;
    while i < len
        invariant
            len == a@.len() == b@.len(),
            i <= len,
            forall|k: int| 0 <= k < i ==> a@[k] == b@[k],
        decreases len - i,
    {
        if a[i] != b[i] {
            return false;
        }
        i += 1;
    }
    proof {
        assert(a@ =~= b@);
    }
    true
}


/// A binary radix trie over keys of type `K` with values `V`.
pub struct BitTrie<K: TrieKey, V> {
    pub arena: Vec<Node>,
    pub keys: K::Store,
    pub values: Vec<V>,
    pub root_prefix_len: u16,
    /// The prefix length of each node: the root's, or that of the edge into it.
    pub pfx: Ghost<Seq<int>>,
}

impl<K: TrieKey, V> BitTrie<K, V> {
    /// Slot `b` of node `p` is an internal child.
    pub open spec fn is_internal(self, p: int, b: int) -> bool {
        self.arena@[p].children[b] != 0 && !word_is_leaf(self.arena@[p].children[b])
    }

    /// The stored keys, the store's dummy at index `0` included.
    pub open spec fn key_seq(self) -> Seq<Seq<u8>> {
        self.keys.keys()
    }

    /// Internal children stay inside the arena and never address the root.
    pub open spec fn arena_ok(self) -> bool {
        forall|p: int, b: int|
            0 <= p < self.arena@.len() && 0 <= b < 2 && #[trigger] self.is_internal(p, b)
                ==> 0 < self.arena@[p].children[b] < self.arena@.len()
    }

    /// Well-formedness: the arena follows the keys, and every stored key is
    /// found by a lookup at its own index.
    pub open spec fn wf(self) -> bool {
        &&& self.arena_wf()
        &&& self.keyed()
        &&& self.complete()
    }

    /// The key index that node `y` refers to (its terminal key when it is
    /// terminal).
    pub open spec fn ref_of(self, y: int) -> int {
        word_index(self.arena@[y].leaf) as int
    }

    /// The key that node `y` refers to.
    pub open spec fn ref_key(self, y: int) -> Seq<u8> {
        self.key_seq()[self.ref_of(y)]
    }

    /// The internal edge at slot `b` of node `y` leads to a node whose prefix
    /// length is the edge's and lies above `y`'s, and whose reference key
    /// agrees with `y`'s below `y`'s prefix length and has bit `b` there.
    pub open spec fn edge_keyed(self, y: int, b: int) -> bool {
        let c = self.arena@[y].children[b] as int;
        &&& self.arena@[y].prefix_lens[b] == self.pfx@[c]
        &&& self.pfx@[c] > self.pfx@[y]
        &&& bits_agree(self.ref_key(c), self.ref_key(y), 0, self.pfx@[y])
        &&& bit_at(self.ref_key(c), self.pfx@[y]) == b
    }

    /// The leaf at slot `b` of node `y` holds a real key that is longer than
    /// `y`'s prefix length, has bit `b` there and agrees with `y`'s reference
    /// key below it.
    pub open spec fn leaf_keyed(self, y: int, b: int) -> bool {
        let j = word_index(self.arena@[y].children[b]) as int;
        &&& 1 <= j < self.key_seq().len()
        &&& 8 * self.key_seq()[j].len() > self.pfx@[y]
        &&& bit_at(self.key_seq()[j], self.pfx@[y]) == b
        &&& bits_agree(self.key_seq()[j], self.ref_key(y), 0, self.pfx@[y])
    }

    /// Node `y` follows the keys: its prefix length fits 16 bits, it refers to
    /// a real key at least that long (exactly that long when terminal), it
    /// holds an entry, and its edges and leaves are keyed.
    pub open spec fn node_keyed(self, y: int) -> bool {
        &&& 0 <= self.pfx@[y] < 65536
        &&& 1 <= self.ref_of(y) < self.key_seq().len()
        &&& 8 * self.ref_key(y).len() >= self.pfx@[y]
        &&& self.arena@[y].leaf >= TERMINAL_BIT ==> 8 * self.ref_key(y).len() == self.pfx@[y]
        &&& (self.arena@[y].leaf >= TERMINAL_BIT || self.arena@[y].children[0] != 0 || self.arena@[y].children[1] != 0)
        &&& forall|b: int| 0 <= b < 2 && #[trigger] self.is_internal(y, b) ==> self.edge_keyed(y, b)
        &&& forall|b: int| 0 <= b < 2 && self.arena@[y].children[b] != 0 && word_is_leaf(self.arena@[y].children[b])
            ==> #[trigger] self.leaf_keyed(y, b)
    }

    /// The arena follows the keys: every key fits 16-bit bit positions, the
    /// root has the root prefix length, and every node is keyed.
    #[verifier::opaque]
    pub open spec fn keyed(self) -> bool {
        &&& self.pfx@.len() == self.arena@.len()
        &&& self.arena@.len() > 0 ==> self.pfx@[0] == self.root_prefix_len
        &&& forall|i: int| 1 <= i < self.key_seq().len() ==> 8 * (#[trigger] self.key_seq()[i]).len() <= 65535
        &&& forall|y: int| 0 <= y < self.arena@.len() ==> #[trigger] self.node_keyed(y)
    }

    /// Every real key is found by a lookup at its own index.
    #[verifier::opaque]
    pub open spec fn complete(self) -> bool {
        forall|i: int| 1 <= i < self.key_seq().len() ==> #[trigger] self.lookup(self.key_seq()[i]) == Some(i)
    }

    /// What a keyed trie says of one node and of one key.
    pub proof fn lemma_keyed_at(self, y: int, i: int)
        requires
            self.keyed(),
        ensures
            self.pfx@.len() == self.arena@.len(),
            self.arena@.len() > 0 ==> self.pfx@[0] == self.root_prefix_len,
            0 <= y < self.arena@.len() ==> self.node_keyed(y),
            1 <= i < self.key_seq().len() ==> 8 * self.key_seq()[i].len() <= 65535,
    {
        reveal(BitTrie::keyed);
    }

    /// A complete trie finds key `i` at its own index.
    pub proof fn lemma_complete_at(self, i: int)
        requires
            self.complete(),
            1 <= i < self.key_seq().len(),
        ensures
            self.lookup(self.key_seq()[i]) == Some(i),
    {
        reveal(BitTrie::complete);
    }

    /// In a well-formed trie a lookup finds exactly the stored keys: `q` is
    /// found at index `i` if and only if key `i` is `q`.
    pub proof fn lemma_lookup_finds_stored(self, q: Seq<u8>, i: int)
        requires
            self.wf(),
        ensures
            self.lookup(q) == Some(i) <==> (1 <= i < self.key_seq().len() && self.key_seq()[i] == q),
    {
        if 1 <= i < self.key_seq().len() && self.key_seq()[i] == q {
            self.lemma_complete_at(i);
        }
    }

    /// The arena is sound: the key store is well formed, values pair up with
    /// the real keys, key and arena indices fit in 31 bits, internal edges
    /// stay inside the arena and no node has two parents.
    pub open spec fn arena_wf(self) -> bool {
        &&& self.keys.well_formed()
        &&& self.values@.len() + 1 == self.key_seq().len()
        &&& self.key_seq().len() <= LEAF_BIT
        &&& self.arena@.len() < LEAF_BIT
        &&& self.arena_ok()
        &&& self.parents_unique()
    }

    /// The candidate key index reached by descending from node `node`, whose
    /// prefix length is `pl`, along the bits of `key`.
    pub open spec fn descend(self, node: int, pl: int, key: Seq<u8>) -> Option<int>
        decreases (if pl < 65536 { 65536 - pl } else { 0 }),
    {
        if !(0 <= node < self.arena@.len()) || !(0 <= pl < 65536) {
            None
        } else {
            let n = self.arena@[node];
            if pl >= 8 * key.len() {
                if n.leaf >= TERMINAL_BIT {
                    Some(word_index(n.leaf) as int)
                } else {
                    None
                }
            } else {
                let bit = bit_at(key, pl) as int;
                let w = n.children[bit];
                if w == 0 {
                    None
                } else if word_is_leaf(w) {
                    Some(word_index(w) as int)
                } else if n.prefix_lens[bit] > pl {
                    self.descend(w as int, n.prefix_lens[bit] as int, key)
                } else {
                    None
                }
            }
        }
    }

    /// The key index that `get_index` reports for `key`: the descent's
    /// candidate, when it is a real key equal to `key`.
    pub open spec fn lookup(self, key: Seq<u8>) -> Option<int> {
        if self.arena@.len() == 0 {
            None
        } else {
            match self.descend(0, self.root_prefix_len as int, key) {
                Some(ki) => if 1 <= ki < self.key_seq().len() && self.key_seq()[ki] == key {
                    Some(ki)
                } else {
                    None
                },
                None => None,
            }
        }
    }

    /// An empty trie.
    pub fn new() -> (r: Self)
        ensures
            r.wf(),
            r.key_seq().len() == 1,
            r.arena@.len() == 0,
    {
        proof {
            reveal(BitTrie::keyed);
            reveal(BitTrie::complete);
        }
        BitTrie { arena: Vec::new(), keys: K::Store::with_dummy(), values: Vec::new(), root_prefix_len: 0, pfx: Ghost(Seq::empty()) }
    }

    /// The number of keys.
    pub fn len(&self) -> (r: usize)
        requires
            self.wf(),
        ensures
            r == self.key_seq().len() - 1,
    {
        self.keys.len()
    }

    /// Whether the trie holds no key.
    pub fn is_empty(&self) -> (r: bool)
        requires
            self.wf(),
        ensures
            r == (self.key_seq().len() == 1),
    {
        self.keys.len() == 0
    }

    /// The key index of `key`, found by descending along its bits and
    /// comparing the stored key at the end.
    pub fn get_index(&self, key: &[u8]) -> (r: Option<usize>)
        requires
            self.wf(),
            key@.len() * 8 <= usize::MAX,
        ensures
            r matches Some(i) ==> self.lookup(key@) == Some(i as int),
            r is None ==> self.lookup(key@) is None,
    {
        if self.arena.len() == 0 {
            return None;
        }
        let max_bits = key.len() * 8;
        let mut node_idx: usize = 0;
        let mut prefix_len: usize = self.root_prefix_len as usize;
        loop
            invariant
                self.wf(),
                self.arena@.len() > 0,
                max_bits == key@.len() * 8,
                node_idx < self.arena@.len(),
                prefix_len < 65536,
                self.descend(0, self.root_prefix_len as int, key@) == self.descend(node_idx as int, prefix_len as int, key@),
            decreases 65536 - prefix_len,
        {
            let node = &self.arena[node_idx];
            if prefix_len >= max_bits {
                if node.is_terminal() {
                    let ki = node.leaf_key_index_val();
                    if 1 <= ki && (ki as usize) < self.keys.len() + 1 {
                        let key_in_buf = self.keys.key_bytes(ki);
                        if simd_eq(key_in_buf, key) {
                            return Some(ki as usize);
                        }
                    }
                }
                return None;
            }
            let bit = key_bit_at(key, prefix_len) as usize;
            let child = node.children[bit];
            if child == 0 {
                return None;
            }
            if node.is_leaf(bit) {
                let ki = node.child_index(bit);
                if 1 <= ki && (ki as usize) < self.keys.len() + 1 {
                    if simd_eq(self.keys.key_bytes(ki), key) {
                        return Some(ki as usize);
                    }
                }
                return None;
            }
            let next_pl = node.prefix_lens[bit] as usize;
            if next_pl <= prefix_len {
                return None;
            }
            proof {
                assert(self.is_internal(node_idx as int, bit as int));
            }
            prefix_len = next_pl;
            node_idx = child as usize;
        }
    }

    /// The value stored under `key`.
    pub fn get(&self, key: &[u8]) -> (r: Option<&V>)
        requires
            self.wf(),
            key@.len() * 8 <= usize::MAX,
        ensures
            r matches Some(v) ==> self.lookup(key@) matches Some(i) && self.values@[i - 1] == *v,
            r is None ==> self.lookup(key@) is None,
    {
        match self.get_index(key) {
            Some(idx) => Some(&self.values[idx - 1]),
            None => None,
        }
    }

    /// The value stored under `key` (same as [`Self::get`]).
    pub fn get_value(&self, key: &[u8]) -> (r: Option<&V>)
        requires
            self.wf(),
            key@.len() * 8 <= usize::MAX,
        ensures
            r matches Some(v) ==> self.lookup(key@) matches Some(i) && self.values@[i - 1] == *v,
            r is None ==> self.lookup(key@) is None,
    {
        self.get(key)
    }

    /// Consume the trie and return its keys and values in insertion order.
    pub fn into_keys_values(self) -> (r: (Vec<K>, Vec<V>))
        requires
            self.wf(),
        ensures
            r.0@.len() == self.key_seq().len() - 1,
            forall|i: int| 0 <= i < r.0@.len() ==> (#[trigger] r.0@[i]).key_view() == self.key_seq()[i + 1],
            r.1@ == self.values@,
    {
        let keys = self.keys.into_keys();
        (keys, self.values)
    }
}

impl<K: TrieKey, V> Default for BitTrie<K, V> {
    fn default() -> (r: Self)
        ensures
            r.wf(),
            r.key_seq().len() == 1,
    {
        proof {
            reveal(BitTrie::keyed);
            reveal(BitTrie::complete);
        }
        BitTrie { arena: Vec::new(), keys: K::Store::with_dummy(), values: Vec::new(), root_prefix_len: 0, pfx: Ghost(Seq::empty()) }
    }
}

/// The internal children of node `n` address nodes `1..len`.
pub open spec fn node_children_ok(n: Node, len: int) -> bool {
    forall|b: int| 0 <= b < 2 && #[trigger] n.children[b] != 0 && !word_is_leaf(n.children[b])
        ==> 0 < n.children[b] < len
}

impl<K: TrieKey, V> BitTrie<K, V> {
    proof fn lemma_arena_update(self, other: Self, idx: int)
        requires
            other.arena_ok(),
            0 <= idx < other.arena@.len(),
            self.arena@ == other.arena@.update(idx, self.arena@[idx]),
            node_children_ok(self.arena@[idx], self.arena@.len() as int),
        ensures
            self.arena_ok(),
    {
        assert forall|p: int, b: int|
            0 <= p < self.arena@.len() && 0 <= b < 2 && #[trigger] self.is_internal(p, b)
                implies 0 < self.arena@[p].children[b] < self.arena@.len() by {
            if p != idx {
                assert(other.is_internal(p, b));
            } else {
                assert(self.arena@[idx].children[b] != 0);
            }
        }
    }

    proof fn lemma_arena_push(self, other: Self)
        requires
            other.arena_ok(),
            self.arena@ == other.arena@.push(self.arena@.last()),
            node_children_ok(self.arena@.last(), self.arena@.len() as int),
        ensures
            self.arena_ok(),
    {
        assert forall|p: int, b: int|
            0 <= p < self.arena@.len() && 0 <= b < 2 && #[trigger] self.is_internal(p, b)
                implies 0 < self.arena@[p].children[b] < self.arena@.len() by {
            if p < other.arena@.len() {
                assert(other.is_internal(p, b));
            } else {
                assert(self.arena@.last().children[b] != 0);
            }
        }
    }

    proof fn lemma_arena_eq(self, other: Self)
        requires
            other.arena_ok(),
            self.arena@ == other.arena@,
        ensures
            self.arena_ok(),
    {
        assert forall|p: int, b: int|
            0 <= p < self.arena@.len() && 0 <= b < 2 && #[trigger] self.is_internal(p, b)
                implies 0 < self.arena@[p].children[b] < self.arena@.len() by {
            assert(other.is_internal(p, b));
        }
    }

    /// No two internal edges lead to the same node.
    pub open spec fn parents_unique(self) -> bool {
        forall|p1: int, b1: int, p2: int, b2: int|
            0 <= p1 < self.arena@.len() && 0 <= b1 < 2 && 0 <= p2 < self.arena@.len() && 0 <= b2 < 2
                && #[trigger] self.is_internal(p1, b1) && #[trigger] self.is_internal(p2, b2)
                && self.arena@[p1].children[b1] == self.arena@[p2].children[b2] ==> p1 == p2 && b1 == b2
    }

    /// Node `node` is the root, or is entered by an internal edge from a node
    /// other than `x`.
    pub open spec fn entered(self, node: int, x: int) -> bool {
        ||| node == 0
        ||| exists|ep: int, eb: int|
            0 <= ep < self.arena@.len() && 0 <= eb < 2 && ep != x && #[trigger] self.is_internal(ep, eb)
                && self.arena@[ep].children[eb] == node
    }

    /// The descent along `key` from node `node` at prefix length `pl` arrives
    /// at `x` with prefix length `plx`, passing only prefix lengths below the
    /// key's bit count and below `b`.
    pub open spec fn reaches(self, node: int, pl: int, key: Seq<u8>, x: int, plx: int, b: int) -> bool
        decreases (if pl < 65536 { 65536 - pl } else { 0 }),
    {
        if !(0 <= node < self.arena@.len()) || !(0 <= pl < 65536) {
            false
        } else if node == x {
            pl == plx
        } else if pl >= 8 * key.len() || pl >= b {
            false
        } else {
            let n = self.arena@[node];
            let bit = bit_at(key, pl) as int;
            let w = n.children[bit];
            if w != 0 && !word_is_leaf(w) && n.prefix_lens[bit] > pl {
                self.reaches(w as int, n.prefix_lens[bit] as int, key, x, plx, b)
            } else {
                false
            }
        }
    }

    /// A descent that reaches `x` continues as the descent from `x`.
    proof fn lemma_reaches_descend(self, node: int, pl: int, key: Seq<u8>, x: int, plx: int, b: int)
        requires
            self.reaches(node, pl, key, x, plx, b),
        ensures
            self.descend(node, pl, key) == self.descend(x, plx, key),
        decreases (if pl < 65536 { 65536 - pl } else { 0 }),
    {
        if node != x {
            let n = self.arena@[node];
            let bit = bit_at(key, pl) as int;
            lemma_bit_at_le_one(key, pl);
            self.lemma_reaches_descend(n.children[bit] as int, n.prefix_lens[bit] as int, key, x, plx, b);
        }
    }

    /// A descent that reaches `x` extends by the step from `x` to its internal
    /// child `c`, which no node on the way has passed since no two edges lead
    /// to it.
    proof fn lemma_reaches_extend(self, node: int, pl: int, key: Seq<u8>, x: int, plx: int, b: int, c: int, pc: int, b2: int)
        requires
            self.arena_ok(),
            self.parents_unique(),
            self.reaches(node, pl, key, x, plx, b),
            self.entered(node, x),
            0 <= x < self.arena@.len(),
            plx < 8 * key.len(),
            plx < b2,
            b <= b2,
            self.is_internal(x, bit_at(key, plx) as int),
            c == self.arena@[x].children[bit_at(key, plx) as int],
            pc == self.arena@[x].prefix_lens[bit_at(key, plx) as int],
            pc > plx,
        ensures
            self.reaches(node, pl, key, c, pc, b2),
            c != x,
        decreases (if pl < 65536 { 65536 - pl } else { 0 }),
    {
        let bx = bit_at(key, plx) as int;
        lemma_bit_at_le_one(key, plx);
        if node == x {
            if c == x {
                if x != 0 {
                    let (ep, eb) = choose|ep: int, eb: int|
                        0 <= ep < self.arena@.len() && 0 <= eb < 2 && ep != x && #[trigger] self.is_internal(ep, eb)
                            && self.arena@[ep].children[eb] == node;
                    assert(self.is_internal(x, bx));
                }
            }
            assert(self.reaches(c, pc, key, c, pc, b2));
        } else {
            let n = self.arena@[node];
            let bit = bit_at(key, pl) as int;
            lemma_bit_at_le_one(key, pl);
            if node == c {
                if node != 0 {
                    let (ep, eb) = choose|ep: int, eb: int|
                        0 <= ep < self.arena@.len() && 0 <= eb < 2 && ep != x && #[trigger] self.is_internal(ep, eb)
                            && self.arena@[ep].children[eb] == node;
                    assert(self.is_internal(x, bx));
                }
            }
            let n1 = n.children[bit] as int;
            assert(self.is_internal(node, bit));
            assert(self.entered(n1, x));
            self.lemma_reaches_extend(n1, n.prefix_lens[bit] as int, key, x, plx, b, c, pc, b2);
        }
    }

    /// Every node keeps its children, and the edges into `x` alone take the
    /// prefix length `px`; `x` itself may change.
    pub open spec fn kept_to(o: Self, t: Self, x: int, px: int) -> bool {
        &&& t.arena@.len() >= o.arena@.len()
        &&& forall|q: int| 0 <= q < o.arena@.len() && q != x ==> (#[trigger] t.arena@[q]).children == o.arena@[q].children
        &&& forall|q: int, bb: int| 0 <= q < o.arena@.len() && q != x && 0 <= bb < 2 ==>
            (#[trigger] t.arena@[q].prefix_lens[bb]) == (if o.is_internal(q, bb) && o.arena@[q].children[bb] == x {
                px
            } else {
                o.arena@[q].prefix_lens[bb] as int
            })
    }

    /// A descent that reaches `x` still does, now arriving with prefix length
    /// `px`, when only `x` and the prefix lengths of the edges into it change.
    proof fn lemma_reaches_kept(o: Self, t: Self, node: int, pl: int, key: Seq<u8>, x: int, plx: int, b: int, px: int)
        requires
            o.reaches(node, pl, key, x, plx, b),
            Self::kept_to(o, t, x, px),
            0 <= x < o.arena@.len(),
            b <= px < 65536,
            node == x ==> pl == px,
        ensures
            t.reaches(node, pl, key, x, px, b),
        decreases (if pl < 65536 { 65536 - pl } else { 0 }),
    {
        if node != x {
            let n = o.arena@[node];
            let bit = bit_at(key, pl) as int;
            lemma_bit_at_le_one(key, pl);
            let w = n.children[bit] as int;
            assert(t.arena@[node].children == n.children);
            assert(o.is_internal(node, bit));
            let npl = if w == x { px } else { n.prefix_lens[bit] as int };
            assert(t.arena@[node].prefix_lens[bit] == npl);
            if w != x {
                Self::lemma_reaches_kept(o, t, w, n.prefix_lens[bit] as int, key, x, plx, b, px);
            } else {
                assert(t.reaches(x, px, key, x, px, b));
            }
        }
    }

    proof fn lemma_unique_eq(self, other: Self)
        requires
            other.parents_unique(),
            self.arena@ == other.arena@,
        ensures
            self.parents_unique(),
    {
        assert forall|p1: int, b1: int, p2: int, b2: int|
            0 <= p1 < self.arena@.len() && 0 <= b1 < 2 && 0 <= p2 < self.arena@.len() && 0 <= b2 < 2
                && #[trigger] self.is_internal(p1, b1) && #[trigger] self.is_internal(p2, b2)
                && self.arena@[p1].children[b1] == self.arena@[p2].children[b2] implies p1 == p2 && b1 == b2 by {
            assert(other.is_internal(p1, b1) && other.is_internal(p2, b2));
        }
    }

    /// Keeping only internal edges of `other`, each with its child, keeps
    /// parents unique.
    proof fn lemma_unique_fewer(self, other: Self)
        requires
            other.parents_unique(),
            self.arena@.len() == other.arena@.len(),
            forall|p: int, b: int| 0 <= p < self.arena@.len() && 0 <= b < 2 && #[trigger] self.is_internal(p, b)
                ==> other.is_internal(p, b) && self.arena@[p].children[b] == other.arena@[p].children[b],
        ensures
            self.parents_unique(),
    {
        assert forall|p1: int, b1: int, p2: int, b2: int|
            0 <= p1 < self.arena@.len() && 0 <= b1 < 2 && 0 <= p2 < self.arena@.len() && 0 <= b2 < 2
                && #[trigger] self.is_internal(p1, b1) && #[trigger] self.is_internal(p2, b2)
                && self.arena@[p1].children[b1] == self.arena@[p2].children[b2] implies p1 == p2 && b1 == b2 by {
            assert(other.is_internal(p1, b1) && other.is_internal(p2, b2));
        }
    }

    /// Adding one node with no internal children, and one internal edge from
    /// `x` to it, keeps parents unique.
    proof fn lemma_unique_new_edge(self, other: Self, x: int, bx: int)
        requires
            other.parents_unique(),
            other.arena_ok(),
            self.arena@.len() == other.arena@.len() + 1,
            0 <= x < other.arena@.len(),
            0 <= bx < 2,
            self.arena@[x].children[bx] == other.arena@.len(),
            forall|p: int, b: int| 0 <= p < other.arena@.len() && 0 <= b < 2 && !(p == x && b == bx) && #[trigger] self.is_internal(p, b)
                ==> other.is_internal(p, b) && self.arena@[p].children[b] == other.arena@[p].children[b],
            forall|b: int| 0 <= b < 2 ==> !#[trigger] self.is_internal(other.arena@.len() as int, b),
        ensures
            self.parents_unique(),
    {
        assert forall|p1: int, b1: int, p2: int, b2: int|
            0 <= p1 < self.arena@.len() && 0 <= b1 < 2 && 0 <= p2 < self.arena@.len() && 0 <= b2 < 2
                && #[trigger] self.is_internal(p1, b1) && #[trigger] self.is_internal(p2, b2)
                && self.arena@[p1].children[b1] == self.arena@[p2].children[b2] implies p1 == p2 && b1 == b2 by {
            if !(p1 == x && b1 == bx) && !(p2 == x && b2 == bx) {
                assert(other.is_internal(p1, b1) && other.is_internal(p2, b2));
            } else if !(p1 == x && b1 == bx) {
                assert(other.is_internal(p1, b1));
            } else if !(p2 == x && b2 == bx) {
                assert(other.is_internal(p2, b2));
            }
        }
    }

    /// Moving node `x` to a new last slot, and giving `x` a single internal
    /// edge to it, keeps parents unique.
    proof fn lemma_unique_moved(self, other: Self, x: int, bx: int)
        requires
            other.parents_unique(),
            other.arena_ok(),
            self.arena@.len() == other.arena@.len() + 1,
            0 <= x < other.arena@.len(),
            0 <= bx < 2,
            self.arena@[x].children[bx] == other.arena@.len(),
            forall|b: int| 0 <= b < 2 && b != bx ==> !#[trigger] self.is_internal(x, b),
            forall|p: int, b: int| 0 <= p < other.arena@.len() && p != x && 0 <= b < 2 && #[trigger] self.is_internal(p, b)
                ==> other.is_internal(p, b) && self.arena@[p].children[b] == other.arena@[p].children[b],
            forall|b: int| 0 <= b < 2 && #[trigger] self.is_internal(other.arena@.len() as int, b)
                ==> other.is_internal(x, b) && self.arena@[other.arena@.len() as int].children[b] == other.arena@[x].children[b],
        ensures
            self.parents_unique(),
    {
        let l = other.arena@.len() as int;
        assert forall|p1: int, b1: int, p2: int, b2: int|
            0 <= p1 < self.arena@.len() && 0 <= b1 < 2 && 0 <= p2 < self.arena@.len() && 0 <= b2 < 2
                && #[trigger] self.is_internal(p1, b1) && #[trigger] self.is_internal(p2, b2)
                && self.arena@[p1].children[b1] == self.arena@[p2].children[b2] implies p1 == p2 && b1 == b2 by {
            let q1 = if p1 == l { x } else { p1 };
            let q2 = if p2 == l { x } else { p2 };
            if p1 == x {
                assert(b1 == bx);
                if p2 != x {
                    assert(other.is_internal(q2, b2));
                }
            } else if p2 == x {
                assert(b2 == bx);
                assert(other.is_internal(q1, b1));
            } else {
                assert(other.is_internal(q1, b1));
                assert(other.is_internal(q2, b2));
            }
        }
    }

    /// Only `x` changes: a descent that reaches `x` still does.
    proof fn lemma_reaches_kept_at(o: Self, t: Self, node: int, pl: int, key: Seq<u8>, x: int, plx: int, b: int)
        requires
            o.reaches(node, pl, key, x, plx, b),
            t.arena@.len() >= o.arena@.len(),
            forall|q: int| 0 <= q < o.arena@.len() && q != x ==> #[trigger] t.arena@[q] == o.arena@[q],
        ensures
            t.reaches(node, pl, key, x, plx, b),
        decreases (if pl < 65536 { 65536 - pl } else { 0 }),
    {
        if node != x {
            let n = o.arena@[node];
            let bit = bit_at(key, pl) as int;
            lemma_bit_at_le_one(key, pl);
            assert(t.arena@[node] == n);
            Self::lemma_reaches_kept_at(o, t, n.children[bit] as int, n.prefix_lens[bit] as int, key, x, plx, b);
        }
    }

    /// Undo the key and value pushed by a failed insertion.
    fn undo_push(&mut self)
        requires
            old(self).keys.well_formed(),
            old(self).key_seq().len() > 1,
            old(self).values@.len() > 0,
            old(self).arena_ok(),
            old(self).parents_unique(),
        ensures
            final(self).arena_ok(),
            final(self).parents_unique(),
            final(self).keys.well_formed(),
            final(self).key_seq() == old(self).key_seq().drop_last(),
            final(self).values@ == old(self).values@.drop_last(),
            final(self).arena@ == old(self).arena@,
            final(self).root_prefix_len == old(self).root_prefix_len,
            final(self).pfx == old(self).pfx,
    {
        let ghost before = *self;
        self.keys.rollback();
        let _ = self.values.pop();
        proof {
            self.lemma_arena_eq(before);
            self.lemma_unique_eq(before);
        }
    }

    /// The candidate key index that a descent along `key` finds in `n`, a
    /// node with no internal children, at prefix length `pl`.
    pub open spec fn descend_split(self, n: Node, pl: int, key: Seq<u8>) -> Option<int> {
        if pl >= 8 * key.len() {
            if n.leaf >= TERMINAL_BIT {
                Some(word_index(n.leaf) as int)
            } else {
                None
            }
        } else {
            let w = n.children[bit_at(key, pl) as int];
            if w != 0 && word_is_leaf(w) {
                Some(word_index(w) as int)
            } else {
                None
            }
        }
    }

    /// Mark node `x` terminal, with reference key `new_index`.
    fn mark_terminal(&mut self, x: usize, new_index: u32)
        requires
            old(self).arena_wf(),
            x < old(self).arena@.len(),
            new_index < LEAF_BIT,
        ensures
            final(self).arena_wf(),
            final(self).keys == old(self).keys,
            final(self).values@ == old(self).values@,
            final(self).root_prefix_len == old(self).root_prefix_len,
            final(self).arena@.len() == old(self).arena@.len(),
            forall|q: int| 0 <= q < old(self).arena@.len() && q != x ==> #[trigger] final(self).arena@[q] == old(self).arena@[q],
            final(self).arena@[x as int].leaf >= TERMINAL_BIT,
            word_index(final(self).arena@[x as int].leaf) == new_index,
            final(self).arena@[x as int].children == old(self).arena@[x as int].children,
            final(self).arena@[x as int].prefix_lens == old(self).arena@[x as int].prefix_lens,
            final(self).pfx == old(self).pfx,
    {
        let ghost before = *self;
        let mut node = self.arena[x];
        node.set_terminal(true);
        node.set_leaf_key_index(new_index);
        self.arena.set(x, node);
        proof {
            assert forall|b: int| 0 <= b < 2 && #[trigger] node.children[b] != 0 && !word_is_leaf(node.children[b])
                implies 0 < node.children[b] < self.arena@.len() by {
                assert(before.is_internal(x as int, b));
            }
            self.lemma_arena_update(before, x as int);
            self.lemma_unique_fewer(before);
        }
    }

    /// Store `new_index` as a leaf child in the empty slot `bit` of node `x`.
    fn attach_leaf(&mut self, x: usize, bit: usize, new_index: u32, max_bits: u16)
        requires
            old(self).arena_wf(),
            x < old(self).arena@.len(),
            bit < 2,
            old(self).arena@[x as int].children[bit as int] == 0,
            new_index < LEAF_BIT,
        ensures
            final(self).arena_wf(),
            final(self).keys == old(self).keys,
            final(self).values@ == old(self).values@,
            final(self).root_prefix_len == old(self).root_prefix_len,
            final(self).arena@.len() == old(self).arena@.len(),
            forall|q: int| 0 <= q < old(self).arena@.len() && q != x ==> #[trigger] final(self).arena@[q] == old(self).arena@[q],
            final(self).arena@[x as int].children[bit as int] == new_index + LEAF_BIT,
            final(self).arena@[x as int].children[1 - bit] == old(self).arena@[x as int].children[1 - bit],
            final(self).arena@[x as int].prefix_lens[1 - bit] == old(self).arena@[x as int].prefix_lens[1 - bit],
            final(self).arena@[x as int].leaf == old(self).arena@[x as int].leaf,
            final(self).pfx == old(self).pfx,
    {
        let ghost before = *self;
        let mut node = self.arena[x];
        node.set_leaf_child(bit, new_index, max_bits);
        self.arena.set(x, node);
        proof {
            assert forall|b: int| 0 <= b < 2 && #[trigger] node.children[b] != 0 && !word_is_leaf(node.children[b])
                implies 0 < node.children[b] < self.arena@.len() by {
                assert(before.is_internal(x as int, b));
            }
            self.lemma_arena_update(before, x as int);
            assert forall|p: int, b: int| 0 <= p < self.arena@.len() && 0 <= b < 2 && #[trigger] self.is_internal(p, b)
                implies before.is_internal(p, b) && self.arena@[p].children[b] == before.arena@[p].children[b] by {
                if p == x {
                    assert(b != bit);
                }
            }
            self.lemma_unique_fewer(before);
        }
    }

    /// Add `split` as a new last node and make it the internal child at `bit`
    /// of node `x`, with prefix length `d`.
    fn wire_split_leaf(&mut self, x: usize, bit: usize, split: Node, d: u16)
        requires
            old(self).arena_wf(),
            x < old(self).arena@.len(),
            bit < 2,
            old(self).arena@.len() + 1 < LEAF_BIT,
            forall|b: int| 0 <= b < 2 ==> split.children[b] == 0 || word_is_leaf(#[trigger] split.children[b]),
            word_is_leaf(old(self).arena@[x as int].children[bit as int]),
        ensures
            final(self).arena_wf(),
            final(self).keys == old(self).keys,
            final(self).values@ == old(self).values@,
            final(self).root_prefix_len == old(self).root_prefix_len,
            final(self).arena@.len() == old(self).arena@.len() + 1,
            final(self).arena@[old(self).arena@.len() as int] == split,
            forall|q: int| 0 <= q < old(self).arena@.len() && q != x ==> #[trigger] final(self).arena@[q] == old(self).arena@[q],
            final(self).arena@[x as int].children[bit as int] == old(self).arena@.len(),
            final(self).arena@[x as int].prefix_lens[bit as int] == d,
            final(self).arena@[x as int].children[1 - bit] == old(self).arena@[x as int].children[1 - bit],
            final(self).arena@[x as int].prefix_lens[1 - bit] == old(self).arena@[x as int].prefix_lens[1 - bit],
            final(self).arena@[x as int].leaf == old(self).arena@[x as int].leaf,
            final(self).pfx == old(self).pfx,
    {
        let ghost before = *self;
        let split_idx = self.arena.len();
        self.arena.push(split);
        proof {
            self.lemma_arena_push(before);
        }
        let ghost pushed = *self;
        let mut node = self.arena[x];
        node.set_internal_child(bit, split_idx as u32, d);
        self.arena.set(x, node);
        proof {
            assert forall|b: int| 0 <= b < 2 && #[trigger] node.children[b] != 0 && !word_is_leaf(node.children[b])
                implies 0 < node.children[b] < self.arena@.len() by {
                if b != bit {
                    assert(before.is_internal(x as int, b));
                }
            }
            self.lemma_arena_update(pushed, x as int);
            assert forall|p: int, b: int| 0 <= p < before.arena@.len() && 0 <= b < 2 && !(p == x && b == bit)
                && #[trigger] self.is_internal(p, b)
                implies before.is_internal(p, b) && self.arena@[p].children[b] == before.arena@[p].children[b] by {
                if p == x {
                    assert(b != bit);
                }
            }
            assert forall|b: int| 0 <= b < 2 implies !#[trigger] self.is_internal(before.arena@.len() as int, b) by {
                assert(self.arena@[before.arena@.len() as int] == split);
            }
            self.lemma_unique_new_edge(before, x as int, bit as int);
        }
    }

    /// Put `parent` in place of node `x`, move the old node to a new last
    /// slot as `parent`'s internal child at `ref_bit` with prefix length `pl`,
    /// and give the edge into `x` (from `parent_info`, or the root's) the
    /// prefix length `diverge`.
    fn wire_split_node(
        &mut self,
        x: usize,
        ref_bit: usize,
        parent: Node,
        pl: u16,
        parent_info: Option<(usize, usize)>,
        diverge: u16,
    )
        requires
            old(self).arena_wf(),
            x < old(self).arena@.len(),
            ref_bit < 2,
            old(self).arena@.len() + 1 < LEAF_BIT,
            forall|b: int| 0 <= b < 2 ==> parent.children[b] == 0 || word_is_leaf(#[trigger] parent.children[b]),
            parent_info matches Some(pb) ==> pb.0 < old(self).arena@.len() && pb.1 < 2 && pb.0 != x
                && old(self).is_internal(pb.0 as int, pb.1 as int) && old(self).arena@[pb.0 as int].children[pb.1 as int] == x,
            parent_info is None ==> x == 0,
        ensures
            final(self).arena_wf(),
            final(self).keys == old(self).keys,
            final(self).values@ == old(self).values@,
            final(self).arena@.len() == old(self).arena@.len() + 1,
            Self::kept_to(*old(self), *final(self), x as int, diverge as int),
            final(self).arena@[x as int].children[ref_bit as int] == old(self).arena@.len(),
            final(self).arena@[x as int].prefix_lens[ref_bit as int] == pl,
            final(self).arena@[x as int].children[1 - ref_bit] == parent.children[1 - ref_bit],
            final(self).arena@[x as int].leaf == parent.leaf,
            parent_info is Some ==> final(self).root_prefix_len == old(self).root_prefix_len,
            parent_info is None ==> final(self).root_prefix_len == diverge,
            final(self).arena@[old(self).arena@.len() as int] == old(self).arena@[x as int],
            forall|q: int| 0 <= q < old(self).arena@.len() && q != x ==> #[trigger] final(self).arena@[q].leaf == old(self).arena@[q].leaf,
            final(self).pfx == old(self).pfx,
    {
        let ghost before = *self;
        let old_node = self.arena[x];
        let old_idx = self.arena.len();
        self.arena.push(old_node);
        proof {
            assert forall|b: int| 0 <= b < 2 && #[trigger] old_node.children[b] != 0 && !word_is_leaf(old_node.children[b])
                implies 0 < old_node.children[b] < self.arena@.len() by {
                assert(before.is_internal(x as int, b));
            }
            self.lemma_arena_push(before);
        }
        let ghost pushed = *self;
        let mut np = parent;
        np.set_internal_child(ref_bit, old_idx as u32, pl);
        self.arena.set(x, np);
        proof {
            assert forall|b: int| 0 <= b < 2 && #[trigger] np.children[b] != 0 && !word_is_leaf(np.children[b])
                implies 0 < np.children[b] < self.arena@.len() by {
                if b != ref_bit {
                    assert(parent.children[b] == 0 || word_is_leaf(parent.children[b]));
                }
            }
            self.lemma_arena_update(pushed, x as int);
        }
        let ghost wired = *self;
        match parent_info {
            Some((pidx, pbit)) => {
                let mut pn = self.arena[pidx];
                pn.prefix_lens.set(pbit, diverge);
                self.arena.set(pidx, pn);
                proof {
                    assert forall|b: int| 0 <= b < 2 && #[trigger] pn.children[b] != 0 && !word_is_leaf(pn.children[b])
                        implies 0 < pn.children[b] < self.arena@.len() by {
                        assert(wired.is_internal(pidx as int, b));
                    }
                    self.lemma_arena_update(wired, pidx as int);
                }
            },
            None => {
                self.root_prefix_len = diverge;
                proof {
                    self.lemma_arena_eq(wired);
                }
            },
        }
        proof {
            let l = before.arena@.len() as int;
            assert forall|b: int| 0 <= b < 2 && b != ref_bit implies !#[trigger] self.is_internal(x as int, b) by {
                assert(parent.children[b] == 0 || word_is_leaf(parent.children[b]));
            }
            assert forall|p: int, b: int| 0 <= p < l && p != x && 0 <= b < 2 && #[trigger] self.is_internal(p, b)
                implies before.is_internal(p, b) && self.arena@[p].children[b] == before.arena@[p].children[b] by {
                assert(self.arena@[p].children == before.arena@[p].children);
            }
            assert forall|b: int| 0 <= b < 2 && #[trigger] self.is_internal(l, b)
                implies before.is_internal(x as int, b) && self.arena@[l].children[b] == before.arena@[x as int].children[b] by {
                assert(self.arena@[l] == old_node);
            }
            self.lemma_unique_moved(before, x as int, ref_bit as int);
            assert forall|q: int, bb: int| 0 <= q < l && q != x && 0 <= bb < 2 implies
                (#[trigger] self.arena@[q].prefix_lens[bb]) == (if before.is_internal(q, bb) && before.arena@[q].children[bb] == x {
                    diverge as int
                } else {
                    before.arena@[q].prefix_lens[bb] as int
                }) by {
                match parent_info {
                    Some((pidx, pbit)) => {
                        if before.is_internal(q, bb) && before.arena@[q].children[bb] == x {
                            assert(before.is_internal(pidx as int, pbit as int));
                            assert(q == pidx && bb == pbit);
                        }
                    },
                    None => {
                        if before.is_internal(q, bb) && before.arena@[q].children[bb] == x {
                            assert(before.arena@[q].children[bb] > 0);
                        }
                    },
                }
            }
        }
    }

    /// A key found below `node` agrees with the node's reference key below the
    /// node's prefix length, and is at least that long.
    proof fn lemma_found_agrees(self, node: int, q: Seq<u8>, i: int)
        requires
            self.arena_wf(),
            self.keyed(),
            0 <= node < self.arena@.len(),
            self.descend(node, self.pfx@[node], q) == Some(i),
            1 <= i < self.key_seq().len(),
            self.key_seq()[i] == q,
        ensures
            bits_agree(q, self.ref_key(node), 0, self.pfx@[node]),
            8 * q.len() >= self.pfx@[node],
        decreases 65536 - self.pfx@[node],
    {
        reveal(BitTrie::keyed);
        assert(self.node_keyed(node));
        let pl = self.pfx@[node];
        let n = self.arena@[node];
        if pl >= 8 * q.len() {
            assert(self.ref_of(node) == i);
        } else {
            let bit = bit_at(q, pl) as int;
            lemma_bit_at_le_one(q, pl);
            let w = n.children[bit];
            if word_is_leaf(w) {
                assert(self.leaf_keyed(node, bit));
            } else {
                assert(self.is_internal(node, bit));
                assert(self.edge_keyed(node, bit));
                let c = w as int;
                assert(0 < c < self.arena@.len());
                self.lemma_found_agrees(c, q, i);
                assert forall|k: int| 0 <= k < pl implies #[trigger] bit_at(q, k) == bit_at(self.ref_key(node), k) by {
                    assert(bit_at(q, k) == bit_at(self.ref_key(c), k));
                    assert(bit_at(self.ref_key(c), k) == bit_at(self.ref_key(node), k));
                }
            }
        }
    }

    /// Two keys of one length whose bits all agree are equal.
    proof fn lemma_bits_equal(a: Seq<u8>, b: Seq<u8>)
        requires
            a.len() == b.len(),
            bits_agree(a, b, 0, 8 * a.len() as int),
        ensures
            a == b,
    {
        assert forall|k: int| 0 <= k < a.len() implies a[k] == b[k] by {
            let x = a[k];
            let y = b[k];
            lemma_byte_bit(k, 0);
            lemma_byte_bit(k, 1);
            lemma_byte_bit(k, 2);
            lemma_byte_bit(k, 3);
            lemma_byte_bit(k, 4);
            lemma_byte_bit(k, 5);
            lemma_byte_bit(k, 6);
            lemma_byte_bit(k, 7);
            assert(bit_at(a, 8 * k + 0) == bit_at(b, 8 * k + 0));
            assert(bit_at(a, 8 * k + 1) == bit_at(b, 8 * k + 1));
            assert(bit_at(a, 8 * k + 2) == bit_at(b, 8 * k + 2));
            assert(bit_at(a, 8 * k + 3) == bit_at(b, 8 * k + 3));
            assert(bit_at(a, 8 * k + 4) == bit_at(b, 8 * k + 4));
            assert(bit_at(a, 8 * k + 5) == bit_at(b, 8 * k + 5));
            assert(bit_at(a, 8 * k + 6) == bit_at(b, 8 * k + 6));
            assert(bit_at(a, 8 * k + 7) == bit_at(b, 8 * k + 7));
            assert(x == y) by (bit_vector)
                requires
                    (x >> 7u8) & 1u8 == (y >> 7u8) & 1u8,
                    (x >> 6u8) & 1u8 == (y >> 6u8) & 1u8,
                    (x >> 5u8) & 1u8 == (y >> 5u8) & 1u8,
                    (x >> 4u8) & 1u8 == (y >> 4u8) & 1u8,
                    (x >> 3u8) & 1u8 == (y >> 3u8) & 1u8,
                    (x >> 2u8) & 1u8 == (y >> 2u8) & 1u8,
                    (x >> 1u8) & 1u8 == (y >> 1u8) & 1u8,
                    (x >> 0u8) & 1u8 == (y >> 0u8) & 1u8,
            ;
        }
        assert(a =~= b);
    }

    /// In a well-formed trie a lookup finds exactly the stored keys: after
    /// adding the key `k` to the keys of `o`, and given that both tries find
    /// all their keys, every other key looks up the same in both.
    proof fn lemma_others_kept(o: Self, t: Self, k: Seq<u8>)
        requires
            o.complete(),
            t.complete(),
            t.key_seq() == o.key_seq().push(k),
        ensures
            forall|q: Seq<u8>| q != k ==> #[trigger] t.lookup(q) == o.lookup(q),
    {
        reveal(BitTrie::complete);
        assert forall|q: Seq<u8>| q != k implies #[trigger] t.lookup(q) == o.lookup(q) by {
            match o.lookup(q) {
                Some(i) => {
                    assert(o.key_seq()[i] == q);
                    assert(t.key_seq()[i] == q);
                    assert(t.lookup(t.key_seq()[i]) == Some(i));
                },
                None => {
                    match t.lookup(q) {
                        Some(i) => {
                            assert(t.key_seq()[i] == q);
                            assert(i != o.key_seq().len());
                            assert(o.key_seq()[i] == q);
                            assert(o.lookup(o.key_seq()[i]) == Some(i));
                        },
                        None => {},
                    }
                },
            }
        }
    }

    /// A descent that finds something still finds it when node `x` keeps
    /// every occupied slot and its prefix length, and keeps its terminal word
    /// if it was terminal.
    proof fn lemma_descend_kept_x(o: Self, t: Self, x: int, node: int, pl: int, q: Seq<u8>)
        requires
            t.arena@.len() == o.arena@.len(),
            0 <= x < o.arena@.len(),
            forall|y: int| 0 <= y < o.arena@.len() && y != x ==> #[trigger] t.arena@[y] == o.arena@[y],
            forall|b: int| 0 <= b < 2 && o.arena@[x].children[b] != 0 ==> #[trigger] t.arena@[x].children[b] == o.arena@[x].children[b]
                && t.arena@[x].prefix_lens[b] == o.arena@[x].prefix_lens[b],
            o.arena@[x].leaf >= TERMINAL_BIT ==> t.arena@[x].leaf == o.arena@[x].leaf,
            o.descend(node, pl, q) is Some,
        ensures
            t.descend(node, pl, q) == o.descend(node, pl, q),
        decreases (if pl < 65536 { 65536 - pl } else { 0 }),
    {
        let n = o.arena@[node];
        if pl < 8 * q.len() {
            let bit = bit_at(q, pl) as int;
            lemma_bit_at_le_one(q, pl);
            let w = n.children[bit];
            assert(t.arena@[node].children[bit] == w);
            if w != 0 && !word_is_leaf(w) && n.prefix_lens[bit] > pl {
                assert(t.arena@[node].prefix_lens[bit] == n.prefix_lens[bit]);
                Self::lemma_descend_kept_x(o, t, x, w as int, n.prefix_lens[bit] as int, q);
            }
        }
    }

    /// Bits `0..hi` agree through a middle key.
    proof fn lemma_agree_trans(a: Seq<u8>, b: Seq<u8>, c: Seq<u8>, hi: int)
        requires
            bits_agree(a, b, 0, hi),
            bits_agree(b, c, 0, hi),
        ensures
            bits_agree(a, c, 0, hi),
    {
        assert forall|k: int| 0 <= k < hi implies #[trigger] bit_at(a, k) == bit_at(c, k) by {
            assert(bit_at(a, k) == bit_at(b, k));
            assert(bit_at(b, k) == bit_at(c, k));
        }
    }

    /// Bits that agree on `0..hi` agree on any shorter range.
    proof fn lemma_agree_mono(a: Seq<u8>, b: Seq<u8>, lo: int, hi: int)
        requires
            bits_agree(a, b, 0, hi),
            lo <= hi,
        ensures
            bits_agree(a, b, 0, lo),
    {
        assert forall|k: int| 0 <= k < lo implies #[trigger] bit_at(a, k) == bit_at(b, k) by {
            assert(bit_at(a, k) == bit_at(b, k));
        }
    }

    /// The keyed facts of `o` that hold in `t` for every node other than `x`
    /// when `t` has `o`'s nodes (but `x`), prefix lengths and keys (plus one),
    /// and `x`'s reference key agrees with its old one below its prefix length
    /// and has the same bit there.
    proof fn lemma_keyed_others(o: Self, t: Self, x: int, k: Seq<u8>)
        requires
            o.arena_wf(),
            o.keyed(),
            t.arena_wf(),
            t.arena@.len() >= o.arena@.len(),
            t.pfx@.len() == t.arena@.len(),
            forall|y: int| 0 <= y < o.arena@.len() ==> #[trigger] t.pfx@[y] == o.pfx@[y],
            t.key_seq() == o.key_seq().push(k),
            0 <= x < o.arena@.len(),
            forall|y: int| 0 <= y < o.arena@.len() && y != x ==> #[trigger] t.arena@[y] == o.arena@[y],
            bits_agree(t.ref_key(x), o.ref_key(x), 0, o.pfx@[x]),
        ensures
            forall|y: int| 0 <= y < o.arena@.len() && y != x ==> #[trigger] t.node_keyed(y),
    {
        reveal(BitTrie::keyed);
        assert forall|y: int| 0 <= y < o.arena@.len() && y != x implies #[trigger] t.node_keyed(y) by {
            assert(o.node_keyed(y));
            assert(t.ref_of(y) == o.ref_of(y));
            assert(t.ref_key(y) == o.ref_key(y));
            assert forall|b: int| 0 <= b < 2 && #[trigger] t.is_internal(y, b) implies t.edge_keyed(y, b) by {
                assert(o.is_internal(y, b));
                assert(o.edge_keyed(y, b));
                let c = o.arena@[y].children[b] as int;
                assert(0 < c < o.arena@.len());
                assert(t.pfx@[c] == o.pfx@[c]);
                assert(t.pfx@[y] == o.pfx@[y]);
                if c != x {
                    assert(t.arena@[c] == o.arena@[c]);
                    assert(o.node_keyed(c));
                    assert(t.ref_key(c) == o.ref_key(c));
                } else {
                    Self::lemma_agree_mono(t.ref_key(x), o.ref_key(x), o.pfx@[y] + 1, o.pfx@[x]);
                    assert(bit_at(t.ref_key(x), o.pfx@[y]) == bit_at(o.ref_key(x), o.pfx@[y]));
                    Self::lemma_agree_mono(t.ref_key(x), o.ref_key(x), o.pfx@[y], o.pfx@[y] + 1);
                    Self::lemma_agree_trans(t.ref_key(x), o.ref_key(x), o.ref_key(y), o.pfx@[y]);
                }
            }
            assert forall|b: int| 0 <= b < 2 && t.arena@[y].children[b] != 0 && word_is_leaf(t.arena@[y].children[b])
                implies #[trigger] t.leaf_keyed(y, b) by {
                assert(o.leaf_keyed(y, b));
                assert(t.pfx@[y] == o.pfx@[y]);
            }
            assert(t.pfx@[y] == o.pfx@[y]);
        }
    }

    /// Agreement below `c` and from the byte holding bit `c` up to `hi` is
    /// agreement below `hi`.
    proof fn lemma_agree_join(a: Seq<u8>, b: Seq<u8>, c: int, hi: int)
        requires
            0 <= c,
            bits_agree(a, b, 0, c),
            bits_agree(a, b, 8 * (c / 8), hi),
        ensures
            bits_agree(a, b, 0, hi),
    {
        assert forall|k: int| 0 <= k < hi implies #[trigger] bit_at(a, k) == bit_at(b, k) by {
            if k < c {
                assert(bit_at(a, k) == bit_at(b, k));
            } else {
                assert(8 * (c / 8) <= k);
                assert(bit_at(a, k) == bit_at(b, k));
            }
        }
    }

    /// Agreement of bits is symmetric.
    proof fn lemma_agree_sym(a: Seq<u8>, b: Seq<u8>, hi: int)
        requires
            bits_agree(a, b, 0, hi),
        ensures
            bits_agree(b, a, 0, hi),
    {
        assert forall|k: int| 0 <= k < hi implies #[trigger] bit_at(b, k) == bit_at(a, k) by {
            assert(bit_at(a, k) == bit_at(b, k));
        }
    }

    /// Every key of `o` is still found in `t` when the descents of `o` are
    /// kept, and `t` finds the added key `k`.
    proof fn lemma_complete_kept(o: Self, t: Self, k: Seq<u8>)
        requires
            o.complete(),
            t.key_seq() == o.key_seq().push(k),
            t.lookup(k) == Some(o.key_seq().len() as int),
            t.arena@.len() > 0,
            forall|q: Seq<u8>| #[trigger] o.lookup(q) is Some ==> t.descend(0, t.root_prefix_len as int, q)
                == o.descend(0, o.root_prefix_len as int, q),
        ensures
            t.complete(),
    {
        reveal(BitTrie::complete);
        assert forall|i: int| 1 <= i < t.key_seq().len() implies #[trigger] t.lookup(t.key_seq()[i]) == Some(i) by {
            if i < o.key_seq().len() {
                let q = o.key_seq()[i];
                assert(o.lookup(q) == Some(i));
                assert(t.key_seq()[i] == q);
            }
        }
    }

    /// Marking node `x` terminal for the added key `k`, whose bits run out at
    /// `x`'s prefix length and agree with `x`'s reference key, keeps the trie
    /// keyed and complete.
    proof fn lemma_case_terminal(o: Self, t: Self, x: int, k: Seq<u8>)
        requires
            o.wf(),
            o.lookup(k) is None,
            t.arena_wf(),
            t.arena@.len() == o.arena@.len(),
            t.pfx == o.pfx,
            t.root_prefix_len == o.root_prefix_len,
            t.key_seq() == o.key_seq().push(k),
            0 <= x < o.arena@.len(),
            forall|y: int| 0 <= y < o.arena@.len() && y != x ==> #[trigger] t.arena@[y] == o.arena@[y],
            t.arena@[x].children == o.arena@[x].children,
            t.arena@[x].prefix_lens == o.arena@[x].prefix_lens,
            t.arena@[x].leaf >= TERMINAL_BIT,
            word_index(t.arena@[x].leaf) == o.key_seq().len(),
            o.pfx@[x] == 8 * k.len(),
            bits_agree(k, o.ref_key(x), 0, o.pfx@[x]),
            t.lookup(k) == Some(o.key_seq().len() as int),
        ensures
            t.keyed(),
            t.complete(),
    {
        reveal(BitTrie::keyed);
        reveal(BitTrie::complete);
        let n = o.key_seq().len() as int;
        assert(o.node_keyed(x));
        if o.arena@[x].leaf >= TERMINAL_BIT {
            Self::lemma_bits_equal(k, o.ref_key(x));
            assert(o.lookup(o.key_seq()[o.ref_of(x)]) == Some(o.ref_of(x)));
        }
        assert(t.ref_of(x) == n);
        assert(t.ref_key(x) == k);
        Self::lemma_keyed_others(o, t, x, k);
        Self::lemma_agree_sym(k, o.ref_key(x), o.pfx@[x]);
        assert(t.node_keyed(x)) by {
            assert forall|b: int| 0 <= b < 2 && #[trigger] t.is_internal(x, b) implies t.edge_keyed(x, b) by {
                assert(o.is_internal(x, b));
                assert(o.edge_keyed(x, b));
                let c = o.arena@[x].children[b] as int;
                assert(0 < c < o.arena@.len() && c != x);
                assert(t.arena@[c] == o.arena@[c]);
                assert(o.node_keyed(c));
                assert(t.ref_key(c) == o.ref_key(c));
                Self::lemma_agree_trans(o.ref_key(c), o.ref_key(x), k, o.pfx@[x]);
            }
            assert forall|b: int| 0 <= b < 2 && t.arena@[x].children[b] != 0 && word_is_leaf(t.arena@[x].children[b])
                implies #[trigger] t.leaf_keyed(x, b) by {
                assert(o.leaf_keyed(x, b));
                let j = word_index(o.arena@[x].children[b]) as int;
                Self::lemma_agree_trans(o.key_seq()[j], o.ref_key(x), k, o.pfx@[x]);
            }
        }
        assert forall|i: int| 1 <= i < t.key_seq().len() implies 8 * (#[trigger] t.key_seq()[i]).len() <= 65535 by {
            if i < n {
                assert(t.key_seq()[i] == o.key_seq()[i]);
            }
        }
        assert forall|q: Seq<u8>| #[trigger] o.lookup(q) is Some implies t.descend(0, t.root_prefix_len as int, q)
            == o.descend(0, o.root_prefix_len as int, q) by {
            Self::lemma_descend_kept_x(o, t, x, 0, o.root_prefix_len as int, q);
        }
        Self::lemma_complete_kept(o, t, k);
    }

    /// Storing the added key `k` as a leaf in the empty slot `bit` of node `x`,
    /// where `k` has bit `bit` at `x`'s prefix length and agrees with `x`'s
    /// reference key below it, keeps the trie keyed and complete.
    proof fn lemma_case_leaf(o: Self, t: Self, x: int, bit: int, k: Seq<u8>)
        requires
            o.wf(),
            t.arena_wf(),
            t.arena@.len() == o.arena@.len(),
            t.pfx == o.pfx,
            t.root_prefix_len == o.root_prefix_len,
            t.key_seq() == o.key_seq().push(k),
            0 <= x < o.arena@.len(),
            0 <= bit < 2,
            8 * k.len() <= 65535,
            forall|y: int| 0 <= y < o.arena@.len() && y != x ==> #[trigger] t.arena@[y] == o.arena@[y],
            o.arena@[x].children[bit] == 0,
            t.arena@[x].children[bit] == o.key_seq().len() + LEAF_BIT,
            t.arena@[x].children[1 - bit] == o.arena@[x].children[1 - bit],
            t.arena@[x].prefix_lens[1 - bit] == o.arena@[x].prefix_lens[1 - bit],
            t.arena@[x].leaf == o.arena@[x].leaf,
            o.pfx@[x] < 8 * k.len(),
            bit_at(k, o.pfx@[x]) == bit,
            bits_agree(k, o.ref_key(x), 0, o.pfx@[x]),
            o.key_seq().len() < LEAF_BIT,
            t.lookup(k) == Some(o.key_seq().len() as int),
        ensures
            t.keyed(),
            t.complete(),
    {
        reveal(BitTrie::keyed);
        reveal(BitTrie::complete);
        let n = o.key_seq().len() as int;
        assert(o.node_keyed(x));
        assert(t.ref_of(x) == o.ref_of(x));
        assert(t.ref_key(x) == o.ref_key(x));
        assert(bits_agree(t.ref_key(x), o.ref_key(x), 0, o.pfx@[x]));
        Self::lemma_keyed_others(o, t, x, k);
        lemma_tag_index(n as u32);
        assert(t.node_keyed(x)) by {
            assert forall|b: int| 0 <= b < 2 && #[trigger] t.is_internal(x, b) implies t.edge_keyed(x, b) by {
                assert(b != bit);
                assert(o.is_internal(x, b));
                assert(o.edge_keyed(x, b));
                let c = o.arena@[x].children[b] as int;
                assert(0 < c < o.arena@.len() && c != x);
                assert(t.arena@[c] == o.arena@[c]);
                assert(o.node_keyed(c));
                assert(t.ref_key(c) == o.ref_key(c));
            }
            assert forall|b: int| 0 <= b < 2 && t.arena@[x].children[b] != 0 && word_is_leaf(t.arena@[x].children[b])
                implies #[trigger] t.leaf_keyed(x, b) by {
                if b != bit {
                    assert(o.leaf_keyed(x, b));
                } else {
                    assert(word_index(t.arena@[x].children[b]) == n);
                }
            }
        }
        assert forall|i: int| 1 <= i < t.key_seq().len() implies 8 * (#[trigger] t.key_seq()[i]).len() <= 65535 by {
            if i < n {
                assert(t.key_seq()[i] == o.key_seq()[i]);
            }
        }
        assert forall|q: Seq<u8>| #[trigger] o.lookup(q) is Some implies t.descend(0, t.root_prefix_len as int, q)
            == o.descend(0, o.root_prefix_len as int, q) by {
            Self::lemma_descend_kept_x(o, t, x, 0, o.root_prefix_len as int, q);
        }
        Self::lemma_complete_kept(o, t, k);
    }

    /// The scan for where the added key `k` and the key `e` of a leaf below a
    /// node of prefix length `pl` part: both agree with the node's reference
    /// key `r` below `pl` and have bit `b` at `pl`, so they are equal or part
    /// past `pl`, at a 16-bit position.
    proof fn lemma_leaf_diverge(k: Seq<u8>, e: Seq<u8>, r: Seq<u8>, c: int, pl: int, b: u8, res: DivergeResult)
        requires
            0 <= c <= pl,
            bits_agree(k, r, 0, pl),
            bits_agree(e, r, 0, pl),
            bit_at(k, pl) == b,
            bit_at(e, pl) == b,
            8 * k.len() > pl,
            8 * e.len() > pl,
            8 * k.len() <= 65535,
            8 * e.len() <= 65535,
            diverge_spec(k, e, 8 * (c / 8), res),
        ensures
            res is Duplicate ==> k == e,
            res matches DivergeResult::At(d) ==> pl < d <= 65535 && bits_agree(k, e, 0, d as int),
    {
        Self::lemma_agree_sym(e, r, pl);
        Self::lemma_agree_trans(k, r, e, pl);
        assert(bits_agree(k, e, 0, pl + 1)) by {
            assert forall|t: int| 0 <= t < pl + 1 implies #[trigger] bit_at(k, t) == bit_at(e, t) by {
                if t < pl {
                    assert(bit_at(k, t) == bit_at(e, t));
                }
            }
        }
        match res {
            DivergeResult::Duplicate => {
                Self::lemma_agree_mono(k, e, 8 * (c / 8), pl + 1);
                Self::lemma_agree_join(k, e, 8 * (c / 8), 8 * k.len() as int);
                assert(8 * ((8 * (c / 8)) / 8) == 8 * (c / 8)) by (nonlinear_arith);
                Self::lemma_bits_equal(k, e);
            },
            DivergeResult::At(d) => {
                if d <= pl {
                    assert(bit_at(k, d as int) == bit_at(e, d as int));
                }
                Self::lemma_agree_mono(k, e, 8 * (c / 8), pl + 1);
                assert(8 * ((8 * (c / 8)) / 8) == 8 * (c / 8)) by (nonlinear_arith);
                Self::lemma_agree_join(k, e, 8 * (c / 8), d as int);
            },
        }
    }

    /// A descent from a node, arriving at its prefix length, that finds
    /// something finds the same after the leaf at slot `b` of node `x` is
    /// replaced by an edge to the new last node `l` of prefix length `d`,
    /// provided the leaf's finds are found below `l`.
    proof fn lemma_descend_split_leaf(o: Self, t: Self, x: int, b: int, d: int, node: int, q: Seq<u8>)
        requires
            o.arena_wf(),
            o.keyed(),
            t.arena@.len() == o.arena@.len() + 1,
            0 <= x < o.arena@.len(),
            0 <= b < 2,
            forall|y: int| 0 <= y < o.arena@.len() && y != x ==> #[trigger] t.arena@[y] == o.arena@[y],
            word_is_leaf(o.arena@[x].children[b]),
            t.arena@[x].children[b] == o.arena@.len(),
            t.arena@[x].prefix_lens[b] == d,
            t.arena@[x].children[1 - b] == o.arena@[x].children[1 - b],
            t.arena@[x].prefix_lens[1 - b] == o.arena@[x].prefix_lens[1 - b],
            t.arena@[x].leaf == o.arena@[x].leaf,
            o.arena@.len() + 1 < LEAF_BIT,
            o.pfx@[x] < d,
            0 <= node < o.arena@.len(),
            o.descend(node, o.pfx@[node], q) is Some,
            o.descend(node, o.pfx@[node], q) == Some(word_index(o.arena@[x].children[b]) as int)
                ==> t.descend(o.arena@.len() as int, d, q) == Some(word_index(o.arena@[x].children[b]) as int),
        ensures
            t.descend(node, o.pfx@[node], q) == o.descend(node, o.pfx@[node], q),
        decreases 65536 - o.pfx@[node],
    {
        o.lemma_keyed_at(node, 0);
        let pl = o.pfx@[node];
        let n = o.arena@[node];
        if pl < 8 * q.len() {
            let bit = bit_at(q, pl) as int;
            lemma_bit_at_le_one(q, pl);
            let w = n.children[bit];
            if node == x && bit == b {
                assert(t.arena@[x].children[bit] == o.arena@.len());
            } else {
                assert(t.arena@[node].children[bit] == w);
                assert(t.arena@[node].prefix_lens[bit] == n.prefix_lens[bit]);
                if w != 0 && !word_is_leaf(w) && n.prefix_lens[bit] > pl {
                    assert(o.is_internal(node, bit));
                    assert(o.edge_keyed(node, bit));
                    Self::lemma_descend_split_leaf(o, t, x, b, d, w as int, q);
                }
            }
        }
    }

    /// Splitting the leaf at slot `b` of node `x` into the new last node,
    /// which holds the leaf's key `e` and the added key `k` (parting at bit
    /// `d`) as leaves or terminal value, keeps the trie keyed and complete.
    proof fn lemma_case_split_leaf(o: Self, t: Self, x: int, b: int, k: Seq<u8>, d: int)
        requires
            o.wf(),
            t.arena_wf(),
            t.arena@.len() == o.arena@.len() + 1,
            t.pfx@ == o.pfx@.push(d),
            t.root_prefix_len == o.root_prefix_len,
            t.key_seq() == o.key_seq().push(k),
            0 <= x < o.arena@.len(),
            0 <= b < 2,
            forall|y: int| 0 <= y < o.arena@.len() && y != x ==> #[trigger] t.arena@[y] == o.arena@[y],
            o.arena@[x].children[b] != 0,
            word_is_leaf(o.arena@[x].children[b]),
            t.arena@[x].children[b] == o.arena@.len(),
            t.arena@[x].prefix_lens[b] == d,
            t.arena@[x].children[1 - b] == o.arena@[x].children[1 - b],
            t.arena@[x].prefix_lens[1 - b] == o.arena@[x].prefix_lens[1 - b],
            t.arena@[x].leaf == o.arena@[x].leaf,
            o.arena@.len() + 1 < LEAF_BIT,
            o.key_seq().len() < LEAF_BIT,
            o.pfx@[x] < d < 65536,
            8 * k.len() <= 65535,
            bit_at(k, o.pfx@[x]) == b,
            bits_agree(k, o.ref_key(x), 0, o.pfx@[x]),
            bits_agree(k, o.key_seq()[word_index(o.arena@[x].children[b]) as int], 0, d),
            split_ok(t.arena@[o.arena@.len() as int], d, word_index(o.arena@[x].children[b]) as int,
                o.key_seq().len() as int, o.key_seq()[word_index(o.arena@[x].children[b]) as int], k),
            t.descend(o.arena@.len() as int, d, o.key_seq()[word_index(o.arena@[x].children[b]) as int])
                == Some(word_index(o.arena@[x].children[b]) as int),
            t.lookup(k) == Some(o.key_seq().len() as int),
        ensures
            t.keyed(),
            t.complete(),
    {
        reveal(BitTrie::keyed);
        reveal(BitTrie::complete);
        let n = o.key_seq().len() as int;
        let l = o.arena@.len() as int;
        let j = word_index(o.arena@[x].children[b]) as int;
        let e = o.key_seq()[j];
        assert(o.node_keyed(x));
        assert(o.leaf_keyed(x, b));
        assert(t.ref_of(x) == o.ref_of(x));
        assert(t.ref_key(x) == o.ref_key(x));
        assert(bits_agree(t.ref_key(x), o.ref_key(x), 0, o.pfx@[x]));
        assert forall|y: int| 0 <= y < o.arena@.len() implies #[trigger] t.pfx@[y] == o.pfx@[y] by {}
        Self::lemma_keyed_others(o, t, x, k);
        let s = t.arena@[l];
        let rl = t.ref_key(l);
        assert(t.key_seq()[j] == e);
        assert(t.key_seq()[n] == k);
        assert(rl == e || rl == k);
        Self::lemma_agree_sym(k, e, d);
        assert(t.node_keyed(x)) by {
            assert forall|bb: int| 0 <= bb < 2 && #[trigger] t.is_internal(x, bb) implies t.edge_keyed(x, bb) by {
                if bb != b {
                    assert(o.is_internal(x, bb));
                    assert(o.edge_keyed(x, bb));
                    let c = o.arena@[x].children[bb] as int;
                    assert(0 < c < o.arena@.len() && c != x);
                    assert(t.arena@[c] == o.arena@[c]);
                    assert(o.node_keyed(c));
                    assert(t.ref_key(c) == o.ref_key(c));
                } else {
                    assert(t.pfx@[l] == d);
                }
            }
            assert forall|bb: int| 0 <= bb < 2 && t.arena@[x].children[bb] != 0 && word_is_leaf(t.arena@[x].children[bb])
                implies #[trigger] t.leaf_keyed(x, bb) by {
                assert(bb != b);
                assert(o.leaf_keyed(x, bb));
            }
        }
        assert(t.node_keyed(l)) by {
            assert forall|bb: int| 0 <= bb < 2 implies !#[trigger] t.is_internal(l, bb) by {}
            assert forall|bb: int| 0 <= bb < 2 && t.arena@[l].children[bb] != 0 && word_is_leaf(t.arena@[l].children[bb])
                implies #[trigger] t.leaf_keyed(l, bb) by {
                let m = word_index(s.children[bb]) as int;
                assert(m == j || m == n);
                assert(t.key_seq()[m] == e || t.key_seq()[m] == k);
                assert forall|i: int| 0 <= i < d implies #[trigger] bit_at(t.key_seq()[m], i) == bit_at(rl, i) by {
                    assert(bit_at(k, i) == bit_at(e, i));
                }
            }
        }
        assert forall|y: int| 0 <= y < t.arena@.len() implies #[trigger] t.node_keyed(y) by {
            if y < o.arena@.len() && y != x {
            }
        }
        assert forall|i: int| 1 <= i < t.key_seq().len() implies 8 * (#[trigger] t.key_seq()[i]).len() <= 65535 by {
            if i < n {
                assert(t.key_seq()[i] == o.key_seq()[i]);
            }
        }
        assert forall|q: Seq<u8>| #[trigger] o.lookup(q) is Some implies t.descend(0, t.root_prefix_len as int, q)
            == o.descend(0, o.root_prefix_len as int, q) by {
            let i = o.lookup(q)->0;
            if o.descend(0, o.pfx@[0], q) == Some(j) {
                assert(i == j);
                assert(q == e);
            }
            Self::lemma_descend_split_leaf(o, t, x, b, d, 0, q);
        }
        Self::lemma_complete_kept(o, t, k);
    }

    /// After node `x` is split by a new parent at prefix length `dv` (the old
    /// node moved to the new last slot, under the parent's slot `rb`), a key
    /// found from a node other than `x` is still found there, and a key found
    /// from `x` is found from the moved copy.
    proof fn lemma_descend_split_node(o: Self, t: Self, x: int, dv: int, rb: int, at_copy: bool, node: int, q: Seq<u8>, i: int)
        requires
            o.arena_wf(),
            o.keyed(),
            t.arena@.len() == o.arena@.len() + 1,
            0 <= x < o.arena@.len(),
            0 <= rb < 2,
            Self::kept_to(o, t, x, dv),
            forall|y: int| 0 <= y < o.arena@.len() && y != x ==> #[trigger] t.arena@[y].leaf == o.arena@[y].leaf,
            t.arena@[o.arena@.len() as int] == o.arena@[x],
            t.arena@[x].children[rb] == o.arena@.len(),
            t.arena@[x].prefix_lens[rb] == o.pfx@[x],
            o.arena@.len() + 1 < LEAF_BIT,
            forall|p: int, b: int| 0 <= p < o.arena@.len() && 0 <= b < 2 && #[trigger] o.is_internal(p, b)
                && o.arena@[p].children[b] == x ==> o.pfx@[p] < dv,
            0 <= dv < o.pfx@[x],
            bit_at(o.ref_key(x), dv) == rb,
            1 <= i < o.key_seq().len(),
            o.key_seq()[i] == q,
            0 <= node < o.arena@.len(),
            at_copy ==> node == x,
            !at_copy ==> node != x,
            o.descend(node, o.pfx@[node], q) == Some(i),
        ensures
            t.descend(if at_copy { o.arena@.len() as int } else { node }, o.pfx@[node], q) == Some(i),
        decreases 65536 - o.pfx@[node],
    {
        o.lemma_keyed_at(node, 0);
        let l = o.arena@.len() as int;
        let pl = o.pfx@[node];
        let n = o.arena@[node];
        let tn = if at_copy { l } else { node };
        assert(t.arena@[tn].children == n.children);
        assert(t.arena@[tn].leaf == n.leaf);
        if pl < 8 * q.len() {
            let bit = bit_at(q, pl) as int;
            lemma_bit_at_le_one(q, pl);
            let w = n.children[bit];
            if w != 0 && !word_is_leaf(w) && n.prefix_lens[bit] > pl {
                assert(o.is_internal(node, bit));
                assert(o.edge_keyed(node, bit));
                let c = w as int;
                assert(0 < c < o.arena@.len());
                if c != x {
                    assert(t.arena@[tn].prefix_lens[bit] == n.prefix_lens[bit]);
                    Self::lemma_descend_split_node(o, t, x, dv, rb, false, c, q, i);
                } else {
                    assert(!at_copy);
                    assert(t.arena@[node].prefix_lens[bit] == dv);
                    assert(o.pfx@[node] < dv);
                    assert(o.descend(x, o.pfx@[x], q) == Some(i));
                    o.lemma_found_agrees(x, q, i);
                    assert(bit_at(q, dv) == bit_at(o.ref_key(x), dv));
                    Self::lemma_descend_split_node(o, t, x, dv, rb, true, x, q, i);
                    assert(t.descend(l, o.pfx@[x], q) == Some(i));
                    lemma_tag_index(0);
                    assert(!word_is_leaf(l as u32));
                    assert(t.descend(x, dv, q) == t.descend(l, o.pfx@[x], q));
                }
            } else {
                if w != 0 && !word_is_leaf(w) {
                    assert(t.arena@[tn].prefix_lens[bit] == n.prefix_lens[bit]) by {
                        assert(o.is_internal(node, bit));
                        assert(o.edge_keyed(node, bit));
                        if !at_copy && w as int == x {
                            assert(o.pfx@[node] < dv);
                        }
                    }
                }
            }
        }
    }

    /// Splitting node `x` by a new parent at prefix length `dv`, where the
    /// added key `k` parts from `x`'s reference key (the parent refers to `k`,
    /// holds it as terminal value or as a leaf, and leads at `rb` to the old
    /// node, moved to the new last slot), keeps the trie keyed and complete.
    proof fn lemma_case_split_node(o: Self, t: Self, x: int, dv: int, rb: int, k: Seq<u8>, has_parent: bool, p: int, pb: int)
        requires
            o.wf(),
            t.arena_wf(),
            t.arena@.len() == o.arena@.len() + 1,
            t.pfx@ == o.pfx@.update(x, dv).push(o.pfx@[x]),
            t.key_seq() == o.key_seq().push(k),
            0 <= x < o.arena@.len(),
            0 <= rb < 2,
            Self::kept_to(o, t, x, dv),
            forall|y: int| 0 <= y < o.arena@.len() && y != x ==> #[trigger] t.arena@[y].leaf == o.arena@[y].leaf,
            t.arena@[o.arena@.len() as int] == o.arena@[x],
            t.arena@[x].children[rb] == o.arena@.len(),
            t.arena@[x].prefix_lens[rb] == o.pfx@[x],
            (t.arena@[x].leaf >= TERMINAL_BIT) == (dv == 8 * k.len()),
            word_index(t.arena@[x].leaf) == o.key_seq().len(),
            t.arena@[x].children[1 - rb] == (if dv == 8 * k.len() { 0u32 } else { (o.key_seq().len() + LEAF_BIT) as u32 }),
            o.arena@.len() + 1 < LEAF_BIT,
            o.key_seq().len() < LEAF_BIT,
            0 <= dv < o.pfx@[x],
            dv <= 8 * k.len() <= 65535,
            dv < 8 * k.len() ==> bit_at(k, dv) == 1 - rb,
            bit_at(o.ref_key(x), dv) == rb,
            bits_agree(k, o.ref_key(x), 0, dv),
            has_parent ==> 0 <= p < o.arena@.len() && p != x && 0 <= pb < 2 && o.is_internal(p, pb)
                && o.arena@[p].children[pb] == x && o.pfx@[p] < dv && bit_at(k, o.pfx@[p]) == pb
                && t.root_prefix_len == o.root_prefix_len,
            !has_parent ==> x == 0 && t.root_prefix_len == dv,
            t.lookup(k) == Some(o.key_seq().len() as int),
        ensures
            t.keyed(),
            t.complete(),
    {
        reveal(BitTrie::keyed);
        reveal(BitTrie::complete);
        let n = o.key_seq().len() as int;
        let l = o.arena@.len() as int;
        let rx = o.ref_key(x);
        lemma_tag_index(n as u32);
        assert(o.node_keyed(x));
        // The only edge into `x` is the parent's.
        assert forall|q: int, b: int| 0 <= q < o.arena@.len() && 0 <= b < 2 && #[trigger] o.is_internal(q, b)
            && o.arena@[q].children[b] == x implies has_parent && q == p && b == pb && o.pfx@[q] < dv by {
            if has_parent {
                assert(o.is_internal(p, pb));
            } else {
                assert(o.arena@[q].children[b] > 0);
            }
        }
        assert(t.ref_of(x) == n);
        assert(t.ref_key(x) == k);
        assert(t.ref_key(l) == rx) by {
            assert(t.arena@[l] == o.arena@[x]);
        }
        // Nodes other than `x` and the copy keep their keyed facts.
        assert forall|y: int| 0 <= y < o.arena@.len() && y != x implies #[trigger] t.node_keyed(y) by {
            assert(o.node_keyed(y));
            assert(t.arena@[y].children == o.arena@[y].children);
            assert(t.arena@[y].leaf == o.arena@[y].leaf);
            assert(t.pfx@[y] == o.pfx@[y]);
            assert(t.ref_of(y) == o.ref_of(y));
            assert(t.ref_key(y) == o.ref_key(y));
            assert forall|b: int| 0 <= b < 2 && #[trigger] t.is_internal(y, b) implies t.edge_keyed(y, b) by {
                assert(o.is_internal(y, b));
                assert(o.edge_keyed(y, b));
                let c = o.arena@[y].children[b] as int;
                assert(0 < c < o.arena@.len());
                if c != x {
                    assert(t.arena@[y].prefix_lens[b] == o.arena@[y].prefix_lens[b]);
                    assert(t.pfx@[c] == o.pfx@[c]);
                    assert(t.arena@[c].leaf == o.arena@[c].leaf);
                    assert(o.node_keyed(c));
                    assert(t.ref_key(c) == o.ref_key(c));
                } else {
                    assert(has_parent && y == p && b == pb);
                    assert(t.arena@[y].prefix_lens[b] == dv);
                    assert(t.pfx@[x] == dv);
                    Self::lemma_agree_mono(k, rx, o.pfx@[y], dv);
                    Self::lemma_agree_trans(k, rx, o.ref_key(y), o.pfx@[y]);
                }
            }
            assert forall|b: int| 0 <= b < 2 && t.arena@[y].children[b] != 0 && word_is_leaf(t.arena@[y].children[b])
                implies #[trigger] t.leaf_keyed(y, b) by {
                assert(o.leaf_keyed(y, b));
            }
        }
        // The copy of the old node.
        assert(t.node_keyed(l)) by {
            assert(t.pfx@[l] == o.pfx@[x]);
            assert(t.ref_of(l) == o.ref_of(x));
            assert forall|b: int| 0 <= b < 2 && #[trigger] t.is_internal(l, b) implies t.edge_keyed(l, b) by {
                assert(o.is_internal(x, b));
                assert(o.edge_keyed(x, b));
                let c = o.arena@[x].children[b] as int;
                assert(0 < c < o.arena@.len() && c != x);
                assert(t.pfx@[c] == o.pfx@[c]);
                assert(t.arena@[c].leaf == o.arena@[c].leaf);
                assert(o.node_keyed(c));
                assert(t.ref_key(c) == o.ref_key(c));
            }
            assert forall|b: int| 0 <= b < 2 && t.arena@[l].children[b] != 0 && word_is_leaf(t.arena@[l].children[b])
                implies #[trigger] t.leaf_keyed(l, b) by {
                assert(o.leaf_keyed(x, b));
            }
        }
        // The new parent.
        Self::lemma_agree_sym(k, rx, dv);
        assert(t.node_keyed(x)) by {
            assert(t.pfx@[x] == dv);
            assert forall|b: int| 0 <= b < 2 && #[trigger] t.is_internal(x, b) implies t.edge_keyed(x, b) by {
                assert(b == rb);
                assert(t.pfx@[l] == o.pfx@[x]);
            }
            assert forall|b: int| 0 <= b < 2 && t.arena@[x].children[b] != 0 && word_is_leaf(t.arena@[x].children[b])
                implies #[trigger] t.leaf_keyed(x, b) by {
                assert(b == 1 - rb);
                assert(word_index(t.arena@[x].children[b]) == n);
                assert forall|i: int| 0 <= i < dv implies #[trigger] bit_at(t.key_seq()[n], i) == bit_at(k, i) by {}
            }
        }
        assert forall|y: int| 0 <= y < t.arena@.len() implies #[trigger] t.node_keyed(y) by {
            if y < o.arena@.len() && y != x {
            }
        }
        assert(t.pfx@[0] == t.root_prefix_len) by {
            o.lemma_keyed_at(0, 0);
        }
        assert forall|i: int| 1 <= i < t.key_seq().len() implies 8 * (#[trigger] t.key_seq()[i]).len() <= 65535 by {
            if i < n {
                assert(t.key_seq()[i] == o.key_seq()[i]);
            }
        }
        // Every old key is still found.
        assert forall|i: int| 1 <= i < t.key_seq().len() implies #[trigger] t.lookup(t.key_seq()[i]) == Some(i) by {
            if i < n {
                let q = o.key_seq()[i];
                assert(o.lookup(q) == Some(i));
                assert(t.key_seq()[i] == q);
                o.lemma_keyed_at(0, 0);
                if x != 0 {
                    Self::lemma_descend_split_node(o, t, x, dv, rb, false, 0, q, i);
                } else {
                    o.lemma_found_agrees(0, q, i);
                    Self::lemma_descend_split_node(o, t, x, dv, rb, true, 0, q, i);
                    assert(bit_at(q, dv) == bit_at(rx, dv));
                    assert(!word_is_leaf(l as u32));
                    assert(t.descend(0, dv, q) == t.descend(l, o.pfx@[0], q));
                }
            }
        }
    }

    /// The scan for where the added key `k` parts from a node's reference key
    /// `r`, when the prefix check below the node's prefix length `pl` failed:
    /// `k` agrees with `r` below `c`, so they are equal or part at a bit in
    /// `c..pl` that `k` reaches.
    proof fn lemma_node_diverge(k: Seq<u8>, r: Seq<u8>, c: int, pl: int, res: DivergeResult)
        requires
            0 <= c <= pl,
            bits_agree(k, r, 0, c),
            8 * k.len() >= c,
            8 * r.len() >= pl,
            !(8 * k.len() >= pl && 8 * r.len() >= pl && bits_agree(k, r, 8 * (c / 8), pl)),
            diverge_spec(k, r, 8 * (c / 8), res),
        ensures
            res is Duplicate ==> k == r,
            res matches DivergeResult::At(dv) ==> c <= dv < pl && dv <= 8 * k.len()
                && bits_agree(k, r, 0, dv as int)
                && (dv < 8 * k.len() ==> bit_at(k, dv as int) != bit_at(r, dv as int)),
    {
        let from = 8 * (c / 8);
        assert(8 * ((8 * (c / 8)) / 8) == 8 * (c / 8)) by (nonlinear_arith);
        assert(from <= c);
        match res {
            DivergeResult::Duplicate => {
                Self::lemma_agree_join(k, r, c, 8 * k.len() as int);
                Self::lemma_bits_equal(k, r);
            },
            DivergeResult::At(dv) => {
                let min: int = if k.len() < r.len() { 8 * k.len() as int } else { 8 * r.len() as int };
                if dv < min {
                    if dv < c {
                        assert(bit_at(k, dv as int) == bit_at(r, dv as int));
                    }
                    if dv >= pl {
                        assert forall|t: int| from <= t < pl implies #[trigger] bit_at(k, t) == bit_at(r, t) by {}
                    }
                } else {
                    if dv >= pl {
                        assert forall|t: int| from <= t < pl implies #[trigger] bit_at(k, t) == bit_at(r, t) by {}
                    }
                }
                Self::lemma_agree_join(k, r, c, dv as int);
            },
        }
    }

    /// Insert `key` with `value`. Returns the new key index (keys are numbered
    /// in insertion order from `1`), or `Err` for a key that is already
    /// stored (the trie is then unchanged), for a key longer than 16-bit bit
    /// positions allow, or when 31-bit key or arena indices run out. A lookup
    /// of the key then finds the new index.
    #[verifier::rlimit(100)]
    pub fn insert(&mut self, key: K, value: V) -> (r: Result<usize, ()>)
        requires
            old(self).wf(),
        ensures
            final(self).wf(),
            old(self).lookup(key.key_view()) is Some ==> r is Err && *final(self) == *old(self),
            r matches Ok(i) ==> i == old(self).key_seq().len()
                && final(self).key_seq() == old(self).key_seq().push(key.key_view())
                && final(self).values@ == old(self).values@.push(value),
            r matches Ok(i) ==> final(self).lookup(key.key_view()) == Some(i as int),
            r is Err ==> final(self).key_seq() == old(self).key_seq()
                && final(self).values@ == old(self).values@,
            old(self).key_seq().len() + 1 >= LEAF_BIT || old(self).arena@.len() + 1 >= LEAF_BIT
                || key.key_view().len() * 8 > u16::MAX ==> r is Err && *final(self) == *old(self),
            old(self).lookup(key.key_view()) is None && old(self).key_seq().len() + 1 < LEAF_BIT
                && old(self).arena@.len() + 1 < LEAF_BIT && key.key_view().len() * 8 <= u16::MAX ==> r is Ok,
            r is Ok ==> forall|q: Seq<u8>| q != key.key_view() ==> #[trigger] final(self).lookup(q) == old(self).lookup(q),
    {
        let kb_len = key.as_bytes().len();
        if self.keys.len() + 2 >= LEAF_BIT as usize || self.arena.len() + 1 >= LEAF_BIT as usize
            || kb_len > 8191 {
            return Err(());
        }
        if self.get_index(key.as_bytes()).is_some() {
            return Err(());
        }
        proof {
            <K::Store as KeyStore<K>>::lemma_accepts_short(key.key_view());
        }
        let ghost kv = key.key_view();
        let ghost start = *self;
        let new_index = self.keys.push(key);
        self.values.push(value);
        let new_key = self.keys.key_bytes(new_index);
        let max_bits = new_key.len() * 8;
        proof {
            self.lemma_arena_eq(start);
            self.lemma_unique_eq(start);
        }
        if self.arena.len() == 0 {
            let mut root = Node::new();
            if max_bits == 0 {
                root.set_terminal(true);
                root.set_leaf_key_index(new_index);
            } else {
                let first_bit = key_bit_at(new_key, 0) as usize;
                root.set_leaf_child(first_bit, new_index, max_bits as u16);
                root.set_leaf_key_index(new_index);
            }
            let ghost before = *self;
            self.arena.push(root);
            self.root_prefix_len = 0;
            self.pfx = Ghost(Seq::empty().push(0int));
            proof {
                reveal(BitTrie::keyed);
                reveal(BitTrie::complete);
                self.lemma_arena_push(before);
                lemma_tag_index(new_index);
                assert forall|p: int, b: int| 0 <= p < self.arena@.len() && 0 <= b < 2 implies !#[trigger] self.is_internal(p, b) by {
                    assert(p == 0);
                }
                assert(self.descend(0, 0, kv) == Some(new_index as int));
                assert(self.key_seq()[new_index as int] == kv);
                if start.key_seq().len() > 1 {
                    assert(start.lookup(start.key_seq()[1]) == Some(1int));
                }
                assert(new_index == 1);
                assert(self.node_keyed(0)) by {
                    if max_bits != 0 {
                        let fb = bit_at(kv, 0) as int;
                        lemma_bit_at_le_one(kv, 0);
                        assert(self.leaf_keyed(0, fb));
                    }
                }
                assert forall|i: int| 1 <= i < self.key_seq().len() implies #[trigger] self.lookup(self.key_seq()[i]) == Some(i) by {
                    assert(i == 1);
                }
            }
            proof {
                Self::lemma_others_kept(start, *self, kv);
            }
            return Ok(new_index as usize);
        }
        proof {
            start.lemma_keyed_at(0, 0);
        }
        let mut node_idx: usize = 0;
        let mut confirmed: usize = 0;
        let mut prefix_len: usize = self.root_prefix_len as usize;
        let mut parent_info: Option<(usize, usize)> = None;
        let ghost mut bnd: int = 0;
        loop
            invariant
                start == *old(self),
                kv == key.key_view(),
                start.lookup(kv) is None,
                start.wf(),
                start.arena@.len() > 0,
                start.arena@.len() + 1 < LEAF_BIT,
                start.key_seq().len() + 1 < LEAF_BIT,
                self.arena_wf(),
                self.pfx == start.pfx,
                self.key_seq() == start.key_seq().push(kv),
                self.values@ == start.values@.push(value),
                self.arena@ == start.arena@,
                self.root_prefix_len == start.root_prefix_len,
                new_index == start.key_seq().len(),
                new_key@ == kv,
                max_bits == kv.len() * 8,
                max_bits <= 65535,
                node_idx < self.arena@.len(),
                prefix_len < 65536,
                confirmed <= prefix_len,
                start.reaches(0, start.root_prefix_len as int, kv, node_idx as int, prefix_len as int, bnd),
                bnd <= confirmed,
                parent_info matches Some(pb) ==> pb.0 < self.arena@.len() && pb.1 < 2 && pb.0 != node_idx
                    && start.is_internal(pb.0 as int, pb.1 as int) && start.arena@[pb.0 as int].children[pb.1 as int] == node_idx,
                parent_info is None ==> node_idx == 0,
                prefix_len == start.pfx@[node_idx as int],
                bits_agree(kv, start.ref_key(node_idx as int), 0, confirmed as int),
                confirmed <= max_bits,
                parent_info matches Some(pb) ==> confirmed == start.pfx@[pb.0 as int] + 1
                    && bit_at(kv, start.pfx@[pb.0 as int]) == pb.1,
                parent_info is None ==> confirmed == 0,
            decreases 65536 - prefix_len,
        {
            let node = self.arena[node_idx];
            let ref_ki = node.leaf_key_index_val();
            proof {
                start.lemma_keyed_at(node_idx as int, 0);
                start.lemma_keyed_at(node_idx as int, start.ref_of(node_idx as int));
            }
            if ref_ki as usize >= self.keys.len() + 1 {
                proof {
                    assert(false);
                }
                self.undo_push();
                return Err(());
            }
            let ref_key = self.keys.key_bytes(ref_ki);
            proof {
                assert(ref_key@ == start.ref_key(node_idx as int));
            }
            if ref_key.len() > 8191 {
                proof {
                    assert(false);
                }
                self.undo_push();
                return Err(());
            }
            if prefix_matches(new_key, ref_key, confirmed, prefix_len) {
                proof {
                    Self::lemma_agree_join(kv, start.ref_key(node_idx as int), confirmed as int, prefix_len as int);
                }
                if max_bits <= prefix_len {
                    self.mark_terminal(node_idx, new_index);
                    proof {
                        Self::lemma_reaches_kept_at(start, *self, 0, start.root_prefix_len as int, kv, node_idx as int, prefix_len as int, bnd);
                        self.lemma_reaches_descend(0, start.root_prefix_len as int, kv, node_idx as int, prefix_len as int, bnd);
                        assert(self.descend(node_idx as int, prefix_len as int, kv) == Some(new_index as int));
                        assert(self.key_seq()[new_index as int] == kv);
                        assert(self.lookup(kv) == Some(new_index as int));
                        Self::lemma_case_terminal(start, *self, node_idx as int, kv);
                    }
                    proof {
                        Self::lemma_others_kept(start, *self, kv);
                    }
                    return Ok(new_index as usize);
                }
                let bit = key_bit_at(new_key, prefix_len) as usize;
                let child = node.children[bit];
                if child == 0 {
                    self.attach_leaf(node_idx, bit, new_index, max_bits as u16);
                    proof {
                        lemma_tag_index(new_index);
                        Self::lemma_reaches_kept_at(start, *self, 0, start.root_prefix_len as int, kv, node_idx as int, prefix_len as int, bnd);
                        self.lemma_reaches_descend(0, start.root_prefix_len as int, kv, node_idx as int, prefix_len as int, bnd);
                        assert(self.descend(node_idx as int, prefix_len as int, kv) == Some(new_index as int));
                        assert(self.key_seq()[new_index as int] == kv);
                        assert(self.lookup(kv) == Some(new_index as int));
                        Self::lemma_case_leaf(start, *self, node_idx as int, bit as int, kv);
                    }
                    proof {
                        Self::lemma_others_kept(start, *self, kv);
                    }
                    return Ok(new_index as usize);
                }
                if node.is_leaf(bit) {
                    let existing_ki = node.child_index(bit);
                    proof {
                        assert(start.leaf_keyed(node_idx as int, bit as int));
                        start.lemma_keyed_at(node_idx as int, existing_ki as int);
                    }
                    if existing_ki as usize >= self.keys.len() + 1 {
                        proof {
                            assert(false);
                        }
                        self.undo_push();
                        return Err(());
                    }
                    let existing_key = self.keys.key_bytes(existing_ki);
                    let ghost ek = existing_key@;
                    proof {
                        assert(ek == start.key_seq()[existing_ki as int]);
                    }
                    if existing_key.len() > 8191 {
                        proof {
                            assert(false);
                        }
                        self.undo_push();
                        return Err(());
                    }
                    let existing_prefix = node.prefix_lens[bit];
                    let dres = simd_find_divergence::<8>(new_key, existing_key, confirmed);
                    proof {
                        Self::lemma_leaf_diverge(kv, ek, start.ref_key(node_idx as int), confirmed as int, prefix_len as int, bit as u8, dres);
                    }
                    match dres {
                        DivergeResult::Duplicate => {
                            proof {
                                start.lemma_complete_at(existing_ki as int);
                                assert(false);
                            }
                            self.undo_push();
                            return Err(());
                        },
                        DivergeResult::At(d) => {
                            // The split node must sit below this node, at a
                            // 16-bit prefix length.
                            if d > 65535 || d <= prefix_len {
                                proof {
                                    assert(false);
                                }
                                self.undo_push();
                                return Err(());
                            }
                            proof {
                                assert(8 * (confirmed / 8) <= confirmed);
                                assert(d as int >= max_bits ==> 8 * kv.len() == d && 8 * ek.len() > d);
                                assert(d < max_bits && d as int >= 8 * ek.len() ==> 8 * ek.len() == d && 8 * kv.len() > d);
                                assert(d < max_bits && d < 8 * ek.len() ==> bit_at(kv, d as int) != bit_at(ek, d as int));
                            }
                            let mut split_node = Node::new();
                            if d >= max_bits {
                                let exist_bit = key_bit_at(existing_key, d) as usize;
                                split_node.set_terminal(true);
                                split_node.set_leaf_key_index(new_index);
                                split_node.set_leaf_child(exist_bit, existing_ki, existing_prefix);
                            } else if d >= existing_key.len() * 8 {
                                let new_child_bit = key_bit_at(new_key, d) as usize;
                                split_node.set_terminal(true);
                                split_node.set_leaf_key_index(existing_ki);
                                split_node.set_leaf_child(new_child_bit, new_index, max_bits as u16);
                            } else {
                                let new_child_bit = key_bit_at(new_key, d) as usize;
                                let exist_bit = key_bit_at(existing_key, d) as usize;
                                split_node.set_leaf_child(new_child_bit, new_index, max_bits as u16);
                                split_node.set_leaf_child(exist_bit, existing_ki, existing_prefix);
                                split_node.set_leaf_key_index(existing_ki);
                            }
                            proof {
                                lemma_tag_index(new_index);
                                lemma_tag_index(existing_ki);
                                assert(split_node.children[0] == 0 || word_is_leaf(split_node.children[0]));
                                assert(split_node.children[1] == 0 || word_is_leaf(split_node.children[1]));
                                assert(self.descend_split(split_node, d as int, kv) == Some(new_index as int));
                                assert(self.descend_split(split_node, d as int, ek) == Some(existing_ki as int));
                                assert(split_ok(split_node, d as int, existing_ki as int, new_index as int, ek, kv));
                            }
                            let ghost split_addr = self.arena@.len() as int;
                            self.wire_split_leaf(node_idx, bit, split_node, d as u16);
                            let ghost before_pfx = *self;
                            self.pfx = Ghost(start.pfx@.push(d as int));
                            proof {
                                self.lemma_arena_eq(before_pfx);
                                self.lemma_unique_eq(before_pfx);
                                Self::lemma_reaches_kept_at(start, *self, 0, start.root_prefix_len as int, kv, node_idx as int, prefix_len as int, bnd);
                                self.lemma_reaches_descend(0, start.root_prefix_len as int, kv, node_idx as int, prefix_len as int, bnd);
                                assert(self.arena@[split_addr] == split_node);
                                assert(self.descend(split_addr, d as int, kv) == Some(new_index as int));
                                assert(self.descend(split_addr, d as int, ek) == Some(existing_ki as int));
                                assert(self.descend(node_idx as int, prefix_len as int, kv) == Some(new_index as int));
                                assert(self.key_seq()[new_index as int] == kv);
                                assert(self.lookup(kv) == Some(new_index as int));
                                Self::lemma_case_split_leaf(start, *self, node_idx as int, bit as int, kv, d as int);
                            }
                        },
                    }
                    proof {
                        Self::lemma_others_kept(start, *self, kv);
                    }
                    return Ok(new_index as usize);
                }
                let next_pl = node.prefix_lens[bit] as usize;
                proof {
                    assert(start.is_internal(node_idx as int, bit as int));
                    assert(start.edge_keyed(node_idx as int, bit as int));
                }
                if next_pl <= prefix_len {
                    proof {
                        assert(false);
                    }
                    self.undo_push();
                    return Err(());
                }
                proof {
                    assert(start.is_internal(node_idx as int, bit as int));
                    start.lemma_reaches_extend(0, start.root_prefix_len as int, kv, node_idx as int, prefix_len as int, bnd, child as int, next_pl as int, prefix_len + 1);
                    bnd = prefix_len + 1;
                }
                confirmed = prefix_len + 1;
                parent_info = Some((node_idx, bit));
                prefix_len = next_pl;
                node_idx = child as usize;
            } else {
                let dres = simd_find_divergence::<8>(new_key, ref_key, confirmed);
                proof {
                    Self::lemma_node_diverge(kv, start.ref_key(node_idx as int), confirmed as int, prefix_len as int, dres);
                }
                match dres {
                    DivergeResult::Duplicate => {
                        proof {
                            start.lemma_complete_at(start.ref_of(node_idx as int));
                            assert(false);
                        }
                        self.undo_push();
                        return Err(());
                    },
                    DivergeResult::At(diverge) => {
                        // The new parent must sit between the edge into this
                        // node and the node's own prefix length.
                        if diverge >= prefix_len || diverge < confirmed {
                            proof {
                                assert(false);
                            }
                            self.undo_push();
                            return Err(());
                        }
                        let new_bit = key_bit_at(new_key, diverge) as usize;
                        let ref_bit = key_bit_at(ref_key, diverge) as usize;
                        // The two keys must part at the new parent.
                        if diverge < max_bits && new_bit == ref_bit {
                            proof {
                                assert(false);
                            }
                            self.undo_push();
                            return Err(());
                        }
                        let mut new_parent = Node::new();
                        if diverge >= max_bits {
                            new_parent.set_terminal(true);
                            new_parent.set_leaf_key_index(new_index);
                        } else {
                            new_parent.set_leaf_child(new_bit, new_index, max_bits as u16);
                            new_parent.set_leaf_key_index(new_index);
                        }
                        proof {
                            lemma_tag_index(new_index);
                            assert(new_parent.children[0] == 0 || word_is_leaf(new_parent.children[0]));
                            assert(new_parent.children[1] == 0 || word_is_leaf(new_parent.children[1]));
                            if node_idx != 0 {
                                assert(parent_info is Some);
                            }
                        }
                        self.wire_split_node(node_idx, ref_bit, new_parent, prefix_len as u16, parent_info, diverge as u16);
                        let ghost before_pfx = *self;
                        self.pfx = Ghost(start.pfx@.update(node_idx as int, diverge as int).push(prefix_len as int));
                        proof {
                            self.lemma_arena_eq(before_pfx);
                            self.lemma_unique_eq(before_pfx);
                            assert(self.descend(node_idx as int, diverge as int, kv) == Some(new_index as int));
                            if parent_info is Some {
                                Self::lemma_reaches_kept(start, *self, 0, start.root_prefix_len as int, kv, node_idx as int, prefix_len as int, bnd, diverge as int);
                                self.lemma_reaches_descend(0, start.root_prefix_len as int, kv, node_idx as int, diverge as int, bnd);
                            }
                            assert(self.key_seq()[new_index as int] == kv);
                            assert(self.lookup(kv) == Some(new_index as int));
                            lemma_bit_at_le_one(kv, diverge as int);
                            lemma_bit_at_le_one(start.ref_key(node_idx as int), diverge as int);
                            match parent_info {
                                Some((pidx, pbit)) => {
                                    Self::lemma_case_split_node(start, *self, node_idx as int, diverge as int, ref_bit as int, kv, true, pidx as int, pbit as int);
                                },
                                None => {
                                    Self::lemma_case_split_node(start, *self, node_idx as int, diverge as int, ref_bit as int, kv, false, 0, 0);
                                },
                            }
                        }
                        proof {
                            Self::lemma_others_kept(start, *self, kv);
                        }
                        return Ok(new_index as usize);
                    },
                }
            }
        }
    }
}

/// The node `s` that splits a leaf: it refers to the leaf's key index `j`
/// (key `e`) or the added key index `n` (key `k`), at least `d` bits long and
/// exactly `d` when terminal, and its slots, at least one of them filled,
/// hold `j` or `n` as leaves longer than `d` bits with the slot's bit at `d`.
pub open spec fn split_ok(s: Node, d: int, j: int, n: int, e: Seq<u8>, k: Seq<u8>) -> bool {
    &&& word_index(s.leaf) == j || word_index(s.leaf) == n
    &&& 8 * (if word_index(s.leaf) == j { e } else { k }).len() >= d
    &&& s.leaf >= TERMINAL_BIT ==> 8 * (if word_index(s.leaf) == j { e } else { k }).len() == d
    &&& (s.children[0] != 0 || s.children[1] != 0)
    &&& forall|b: int| 0 <= b < 2 ==> #[trigger] s.children[b] == 0 || {
        &&& word_is_leaf(s.children[b])
        &&& (word_index(s.children[b]) == j || word_index(s.children[b]) == n)
        &&& 8 * (if word_index(s.children[b]) == j { e } else { k }).len() > d
        &&& bit_at(if word_index(s.children[b]) == j { e } else { k }, d) == b
    }
}

/// A walker frame `(node, position)` names an arena node and a child slot, the
/// terminal position of a terminal node or the before-first position.
pub open spec fn frame_ok<K: TrieKey, V>(t: BitTrie<K, V>, f: (u32, u8)) -> bool {
    &&& f.0 < t.arena@.len()
    &&& (f.1 < 2 || f.1 == TERMINAL_POS || f.1 == BEFORE_FIRST)
    &&& f.1 == TERMINAL_POS ==> t.arena@[f.0 as int].leaf >= TERMINAL_BIT
}

/// The key index a frame is positioned on, if any.
pub open spec fn frame_index<K: TrieKey, V>(t: BitTrie<K, V>, f: (u32, u8)) -> Option<int> {
    if f.1 == TERMINAL_POS {
        Some(word_index(t.arena@[f.0 as int].leaf) as int)
    } else if f.1 < 2 && word_is_leaf(t.arena@[f.0 as int].children[f.1 as int])
        && word_index(t.arena@[f.0 as int].children[f.1 as int]) != 0 {
        Some(word_index(t.arena@[f.0 as int].children[f.1 as int]) as int)
    } else {
        None
    }
}

/// The frame stack `s` may go on with a frame at node `n`: an empty stack
/// starts at the root, and otherwise its top frame stands at an internal child
/// slot that addresses `n`.
pub open spec fn leads_to<K: TrieKey, V>(t: BitTrie<K, V>, s: Seq<(u32, u8)>, n: int) -> bool {
    if s.len() == 0 {
        n == 0
    } else {
        &&& s.last().1 < 2
        &&& t.is_internal(s.last().0 as int, s.last().1 as int)
        &&& n == t.arena@[s.last().0 as int].children[s.last().1 as int]
    }
}

/// The frames form a path down from the root: the frames below each frame
/// lead to its node.
pub open spec fn linked<K: TrieKey, V>(t: BitTrie<K, V>, s: Seq<(u32, u8)>) -> bool {
    forall|i: int| 0 <= i < s.len() ==> #[trigger] leads_to(t, s.subrange(0, i), s[i].0 as int)
}

/// A path goes on with a frame that its frames lead to.
pub proof fn lemma_linked_push<K: TrieKey, V>(t: BitTrie<K, V>, s: Seq<(u32, u8)>, f: (u32, u8))
    requires
        linked(t, s),
        leads_to(t, s, f.0 as int),
    ensures
        linked(t, s.push(f)),
{
    let s2 = s.push(f);
    assert forall|i: int| 0 <= i < s2.len() implies #[trigger] leads_to(t, s2.subrange(0, i), s2[i].0 as int) by {
        if i < s.len() {
            assert(s2.subrange(0, i) =~= s.subrange(0, i));
            assert(leads_to(t, s.subrange(0, i), s[i].0 as int));
        } else {
            assert(s2.subrange(0, i) =~= s);
        }
    }
}

/// Without its top frame a path is still one, and leads to the top frame's node.
pub proof fn lemma_linked_pop<K: TrieKey, V>(t: BitTrie<K, V>, s: Seq<(u32, u8)>)
    requires
        linked(t, s),
        s.len() > 0,
    ensures
        linked(t, s.drop_last()),
        leads_to(t, s.drop_last(), s.last().0 as int),
{
    let s2 = s.drop_last();
    assert forall|i: int| 0 <= i < s2.len() implies #[trigger] leads_to(t, s2.subrange(0, i), s2[i].0 as int) by {
        assert(s2.subrange(0, i) =~= s.subrange(0, i));
        assert(leads_to(t, s.subrange(0, i), s[i].0 as int));
    }
    assert(s.subrange(0, s.len() - 1) =~= s2);
    assert(leads_to(t, s.subrange(0, s.len() - 1), s[s.len() - 1].0 as int));
}

/// Along a path whose top frame is positioned on key `ki`, that key lies under
/// each frame: it agrees with the frame node's reference key below the node's
/// prefix length, has the frame's child bit there, and is the node's own key
/// when the frame stands at its terminal value.
pub proof fn lemma_path_key<K: TrieKey, V>(t: BitTrie<K, V>, s: Seq<(u32, u8)>, ki: int, i: int)
    requires
        t.wf(),
        linked(t, s),
        forall|j: int| 0 <= j < s.len() ==> frame_ok(t, #[trigger] s[j]),
        s.len() > 0,
        frame_index(t, s.last()) == Some(ki),
        0 <= i < s.len(),
    ensures
        1 <= ki < t.key_seq().len(),
        s[i].1 != BEFORE_FIRST,
        bits_agree(t.key_seq()[ki], t.ref_key(s[i].0 as int), 0, t.pfx@[s[i].0 as int]),
        8 * t.key_seq()[ki].len() >= t.pfx@[s[i].0 as int],
        s[i].1 < 2 ==> bit_at(t.key_seq()[ki], t.pfx@[s[i].0 as int]) == s[i].1
            && 8 * t.key_seq()[ki].len() > t.pfx@[s[i].0 as int],
        s[i].1 == TERMINAL_POS ==> t.key_seq()[ki] == t.ref_key(s[i].0 as int)
            && 8 * t.key_seq()[ki].len() == t.pfx@[s[i].0 as int],
    decreases s.len() - i,
{
    let y = s[i].0 as int;
    assert(frame_ok(t, s[i]));
    t.lemma_keyed_at(y, 0);
    assert(frame_ok(t, s[s.len() - 1]));
    let top = s[s.len() - 1].0 as int;
    t.lemma_keyed_at(top, 0);
    if i == s.len() - 1 {
        let b = s[i].1;
        if b < 2 {
            assert(t.arena@[y].children[b as int] != 0);
            assert(t.leaf_keyed(y, b as int));
        }
    } else {
        lemma_path_key(t, s, ki, i + 1);
        assert(leads_to(t, s.subrange(0, i + 1), s[i + 1].0 as int));
        assert(s.subrange(0, i + 1).last() == s[i]);
        let b = s[i].1 as int;
        let c = s[i + 1].0 as int;
        assert(t.is_internal(y, b));
        assert(t.edge_keyed(y, b));
        let k = t.key_seq()[ki];
        assert forall|m: int| 0 <= m < t.pfx@[y] implies #[trigger] bit_at(k, m) == bit_at(t.ref_key(y), m) by {
            assert(bit_at(k, m) == bit_at(t.ref_key(c), m));
            assert(bit_at(t.ref_key(c), m) == bit_at(t.ref_key(y), m));
        }
        assert(bit_at(k, t.pfx@[y]) == bit_at(t.ref_key(c), t.pfx@[y]));
    }
}

/// Of two paths that are each positioned on a key, the one that stands earlier
/// in the walk is positioned on the smaller key.
pub proof fn lemma_walk_order<K: TrieKey, V>(t: BitTrie<K, V>, a: Seq<(u32, u8)>, b: Seq<(u32, u8)>, ka: int, kb: int)
    requires
        t.wf(),
        linked(t, a),
        linked(t, b),
        forall|j: int| 0 <= j < a.len() ==> frame_ok(t, #[trigger] a[j]),
        forall|j: int| 0 <= j < b.len() ==> frame_ok(t, #[trigger] b[j]),
        a.len() > 0,
        b.len() > 0,
        frame_index(t, a.last()) == Some(ka),
        frame_index(t, b.last()) == Some(kb),
        walk_before(a, b),
    ensures
        lex_lt(t.key_seq()[ka], t.key_seq()[kb]),
{
    let k = choose|k: int| #[trigger] moved_on_at(a, b, k);
    lemma_path_key(t, a, ka, k);
    lemma_path_key(t, b, kb, k);
    let y = a[k].0 as int;
    assert(b[k].0 as int == y);
    let p = t.pfx@[y];
    let x = t.key_seq()[ka];
    let z = t.key_seq()[kb];
    let r = t.ref_key(y);
    assert forall|m: int| 0 <= m < p implies #[trigger] bit_at(x, m) == bit_at(z, m) by {
        assert(bit_at(x, m) == bit_at(r, m));
        assert(bit_at(z, m) == bit_at(r, m));
    }
    if a[k].1 == TERMINAL_POS {
        assert(b[k].1 < 2);
        assert(x.len() < z.len());
        lemma_prefix_lex(x, z);
    } else {
        assert(a[k].1 == 0 && b[k].1 == 1);
        lemma_bits_lex(x, z, p);
    }
}

/// The frames of the descent along `key` from node `node`, entered at prefix
/// length `pl`, down to the entry that [`BitTrie::descend`] reports.
pub open spec fn descent_frames<K: TrieKey, V>(t: BitTrie<K, V>, node: int, pl: int, key: Seq<u8>) -> Seq<(u32, u8)>
    decreases (if pl < 65536 { 65536 - pl } else { 0 }),
{
    if !(0 <= node < t.arena@.len()) || !(0 <= pl < 65536) {
        Seq::empty()
    } else {
        let n = t.arena@[node];
        if pl >= 8 * key.len() {
            seq![(node as u32, TERMINAL_POS)]
        } else {
            let bit = bit_at(key, pl) as int;
            let w = n.children[bit];
            if w == 0 {
                Seq::empty()
            } else if word_is_leaf(w) {
                seq![(node as u32, bit as u8)]
            } else if n.prefix_lens[bit] > pl {
                seq![(node as u32, bit as u8)] + descent_frames(t, w as int, n.prefix_lens[bit] as int, key)
            } else {
                Seq::empty()
            }
        }
    }
}

/// Frame `j - 1` stands at an internal edge into the node of frame `j`.
pub open spec fn joined_at<K: TrieKey, V>(t: BitTrie<K, V>, s: Seq<(u32, u8)>, j: int) -> bool {
    &&& s[j - 1].1 < 2
    &&& t.is_internal(s[j - 1].0 as int, s[j - 1].1 as int)
    &&& s[j].0 == t.arena@[s[j - 1].0 as int].children[s[j - 1].1 as int]
}

/// Consecutive frames are joined by internal edges.
pub open spec fn edges_joined<K: TrieKey, V>(t: BitTrie<K, V>, s: Seq<(u32, u8)>) -> bool {
    forall|j: int| 0 < j < s.len() ==> #[trigger] joined_at(t, s, j)
}

/// The frame stands at an entry that its node holds, when at a child slot.
pub open spec fn entry_held<K: TrieKey, V>(t: BitTrie<K, V>, f: (u32, u8)) -> bool {
    f.1 < 2 ==> t.arena@[f.0 as int].children[f.1 as int] != 0
}

/// Valid frames at held entries, joined by internal edges.
pub open spec fn frames_held<K: TrieKey, V>(t: BitTrie<K, V>, s: Seq<(u32, u8)>) -> bool {
    &&& forall|j: int| 0 <= j < s.len() ==> frame_ok(t, #[trigger] s[j]) && entry_held(t, s[j])
    &&& edges_joined(t, s)
}

/// A frame at an internal edge into the first node of such frames goes on
/// top of them.
proof fn lemma_prepend_frame<K: TrieKey, V>(t: BitTrie<K, V>, f: (u32, u8), q: Seq<(u32, u8)>)
    requires
        frame_ok(t, f),
        entry_held(t, f),
        f.1 < 2,
        t.is_internal(f.0 as int, f.1 as int),
        q.len() > 0,
        q[0].0 == t.arena@[f.0 as int].children[f.1 as int],
        frames_held(t, q),
    ensures
        frames_held(t, seq![f] + q),
        (seq![f] + q).last() == q.last(),
        (seq![f] + q)[0] == f,
{
    let p = seq![f] + q;
    assert(p[0] == f);
    assert(p.len() == q.len() + 1);
    assert forall|j: int| 0 <= j < p.len() implies frame_ok(t, #[trigger] p[j]) && entry_held(t, p[j]) by {
        if j > 0 {
            assert(p[j] == q[j - 1]);
        }
    }
    assert forall|j: int| 0 < j < p.len() implies #[trigger] joined_at(t, p, j) by {
        assert(p[j] == q[j - 1]);
        if j > 1 {
            assert(p[j - 1] == q[j - 2]);
            assert(joined_at(t, q, j - 1));
        }
    }
    assert(p.last() == q.last());
}

/// The descent that finds key index `i` is a sequence of valid frames at held
/// entries, joined by internal edges, that starts at `node` and ends on `i`.
pub proof fn lemma_descent_frames<K: TrieKey, V>(t: BitTrie<K, V>, node: int, pl: int, key: Seq<u8>, i: int)
    requires
        t.arena_wf(),
        t.descend(node, pl, key) == Some(i),
    ensures
        descent_frames(t, node, pl, key).len() > 0,
        descent_frames(t, node, pl, key)[0].0 == node,
        frames_held(t, descent_frames(t, node, pl, key)),
        frame_index(t, descent_frames(t, node, pl, key).last()) == Some(i)
            || (i == 0 && frame_index(t, descent_frames(t, node, pl, key).last()) is None),
    decreases (if pl < 65536 { 65536 - pl } else { 0 }),
{
    let p = descent_frames(t, node, pl, key);
    let n = t.arena@[node];
    if pl >= 8 * key.len() {
        assert(p == seq![(node as u32, TERMINAL_POS)]);
    } else {
        let bit = bit_at(key, pl) as int;
        lemma_bit_at_le_one(key, pl);
        let w = n.children[bit];
        let f = (node as u32, bit as u8);
        if word_is_leaf(w) {
            assert(p == seq![f]);
        } else {
            assert(t.is_internal(node, bit));
            let q = descent_frames(t, w as int, n.prefix_lens[bit] as int, key);
            lemma_descent_frames(t, w as int, n.prefix_lens[bit] as int, key, i);
            assert(p == seq![f] + q);
            lemma_prepend_frame(t, f, q);
        }
    }
}

/// A descent path from the root stands, at the first frame where it leaves
/// the first descent `f`, at a later entry than `f`; so it is `f` itself or
/// later in the walk.
pub proof fn lemma_first_descent_min<K: TrieKey, V>(t: BitTrie<K, V>, f: Seq<(u32, u8)>, p: Seq<(u32, u8)>, j: int)
    requires
        t.wf(),
        forall|i: int| j <= i < f.len() ==> #[trigger] f[i] == first_frame(t, f[i].0 as int),
        linked(t, f),
        frames_held(t, p),
        frame_index(t, p.last()) is Some,
        frame_index(t, f.last()) is Some,
        0 <= j < p.len(),
        j < f.len(),
        p.subrange(0, j) == f.subrange(0, j),
        p[j].0 == f[j].0,
    ensures
        p == f || walk_before(f, p),
    decreases f.len() - j,
{
    let y = p[j].0 as int;
    assert(f[j] == first_frame(t, f[j].0 as int));
    assert(frame_ok(t, p[j]) && entry_held(t, p[j]));
    if p[j].1 == f[j].1 {
        let w = p[j].1;
        let last_p = j == p.len() - 1;
        let last_f = j == f.len() - 1;
        if w < 2 && t.is_internal(y, w as int) {
            if last_p {
                assert(frame_index(t, p[j]) is None);
            }
            if last_f {
                assert(frame_index(t, f[j]) is None);
            }
            assert(joined_at(t, p, j + 1));
            assert(leads_to(t, f.subrange(0, j + 1), f[j + 1].0 as int));
            assert(f.subrange(0, j + 1).last() == f[j]);
            assert(p.subrange(0, j + 1) =~= f.subrange(0, j + 1)) by {
                assert(p.subrange(0, j + 1) =~= p.subrange(0, j).push(p[j]));
                assert(f.subrange(0, j + 1) =~= f.subrange(0, j).push(f[j]));
            }
            lemma_first_descent_min(t, f, p, j + 1);
        } else {
            if !last_p {
                assert(joined_at(t, p, j + 1));
            }
            if !last_f {
                assert(leads_to(t, f.subrange(0, j + 1), f[j + 1].0 as int));
                assert(f.subrange(0, j + 1).last() == f[j]);
            }
            assert(p.len() == j + 1 && f.len() == j + 1);
            assert(p =~= p.subrange(0, j).push(p[j]));
            assert(f =~= f.subrange(0, j).push(f[j]));
        }
    } else {
        let n = t.arena@[y];
        if j < p.len() - 1 {
            assert(joined_at(t, p, j + 1));
        }
        assert(p[j].1 != BEFORE_FIRST);
        if n.leaf >= TERMINAL_BIT {
            assert(f[j].1 == TERMINAL_POS);
        } else if n.children[0] != 0 {
            assert(f[j].1 == 0);
        } else {
            assert(f[j].1 == 1);
            if p[j].1 == 0 {
                assert(n.children[p[j].1 as int] != 0);
            }
        }
        assert(pos_rank(f[j].1) < pos_rank(p[j].1));
        assert(p.subrange(0, j + 1) =~= f.subrange(0, j).push(p[j])) by {
            assert(p.subrange(0, j + 1) =~= p.subrange(0, j).push(p[j]));
        }
        lemma_moved_on(f, p, j, p[j]);
    }
}

/// Keys are not each lexicographically below the other.
pub proof fn lemma_lex_asym(a: Seq<u8>, b: Seq<u8>)
    requires
        lex_lt(a, b),
    ensures
        !lex_lt(b, a),
{
    if lex_lt(b, a) {
        if exists|k: int| 0 <= k < a.len() && k < b.len() && a[k] < b[k] && (forall|j: int| 0 <= j < k ==> a[j] == b[j]) {
            let k = choose|k: int| 0 <= k < a.len() && k < b.len() && a[k] < b[k] && (forall|j: int| 0 <= j < k ==> a[j] == b[j]);
            if exists|k2: int| 0 <= k2 < b.len() && k2 < a.len() && b[k2] < a[k2] && (forall|j: int| 0 <= j < k2 ==> b[j] == a[j]) {
                let k2 = choose|k2: int| 0 <= k2 < b.len() && k2 < a.len() && b[k2] < a[k2] && (forall|j: int| 0 <= j < k2 ==> b[j] == a[j]);
                if k < k2 {
                    assert(b[k] == a[k]);
                } else if k2 < k {
                    assert(a[k2] == b[k2]);
                }
            } else {
                assert(b[k] == a[k]);
            }
        } else {
            if exists|k2: int| 0 <= k2 < b.len() && k2 < a.len() && b[k2] < a[k2] && (forall|j: int| 0 <= j < k2 ==> b[j] == a[j]) {
                let k2 = choose|k2: int| 0 <= k2 < b.len() && k2 < a.len() && b[k2] < a[k2] && (forall|j: int| 0 <= j < k2 ==> b[j] == a[j]);
                assert(a[k2] == b[k2]);
            }
        }
    }
}

/// Two paths from the root that are each positioned on a key are the same
/// path, or one stands earlier in the walk than the other.
pub proof fn lemma_walk_total<K: TrieKey, V>(t: BitTrie<K, V>, a: Seq<(u32, u8)>, b: Seq<(u32, u8)>, j: int)
    requires
        linked(t, a),
        forall|m: int| 0 <= m < a.len() ==> frame_ok(t, #[trigger] a[m]),
        frames_held(t, b),
        frame_index(t, a.last()) is Some,
        frame_index(t, b.last()) is Some,
        0 <= j < a.len(),
        j < b.len(),
        a.subrange(0, j) == b.subrange(0, j),
        a[j].0 == b[j].0,
    ensures
        a == b || walk_before(a, b) || walk_before(b, a),
    decreases a.len() - j,
{
    assert(frame_ok(t, a[j]));
    assert(frame_ok(t, b[j]) && entry_held(t, b[j]));
    if a[j].1 == b[j].1 {
        let y = a[j].0 as int;
        let w = a[j].1;
        let last_a = j == a.len() - 1;
        let last_b = j == b.len() - 1;
        if w < 2 && t.is_internal(y, w as int) {
            if last_a {
                assert(frame_index(t, a[j]) is None);
            }
            if last_b {
                assert(frame_index(t, b[j]) is None);
            }
            assert(joined_at(t, b, j + 1));
            assert(leads_to(t, a.subrange(0, j + 1), a[j + 1].0 as int));
            assert(a.subrange(0, j + 1).last() == a[j]);
            assert(a.subrange(0, j + 1) =~= b.subrange(0, j + 1)) by {
                assert(a.subrange(0, j + 1) =~= a.subrange(0, j).push(a[j]));
                assert(b.subrange(0, j + 1) =~= b.subrange(0, j).push(b[j]));
            }
            lemma_walk_total(t, a, b, j + 1);
        } else {
            if !last_b {
                assert(joined_at(t, b, j + 1));
            }
            if !last_a {
                assert(leads_to(t, a.subrange(0, j + 1), a[j + 1].0 as int));
                assert(a.subrange(0, j + 1).last() == a[j]);
            }
            assert(a.len() == j + 1 && b.len() == j + 1);
            assert(a =~= a.subrange(0, j).push(a[j]));
            assert(b =~= b.subrange(0, j).push(b[j]));
        }
    } else {
        if pos_rank(a[j].1) < pos_rank(b[j].1) {
            assert(b.subrange(0, j + 1) =~= a.subrange(0, j).push(b[j])) by {
                assert(b.subrange(0, j + 1) =~= b.subrange(0, j).push(b[j]));
            }
            lemma_moved_on(a, b, j, b[j]);
        } else {
            assert(pos_rank(b[j].1) < pos_rank(a[j].1));
            assert(a.subrange(0, j + 1) =~= b.subrange(0, j).push(a[j])) by {
                assert(a.subrange(0, j + 1) =~= a.subrange(0, j).push(a[j]));
            }
            lemma_moved_on(b, a, j, a[j]);
        }
    }
}

/// After a step from the positioned path `o` to the positioned path `n`, a
/// path from the root that stands later than `o` in the walk is `n` itself or
/// stands later than `n`: the step reaches the next positioned path.
pub proof fn lemma_step_successor<K: TrieKey, V>(
    t: BitTrie<K, V>,
    o: Seq<(u32, u8)>,
    n: Seq<(u32, u8)>,
    m: int,
    p: Seq<(u32, u8)>,
)
    requires
        t.wf(),
        linked(t, n),
        forall|j: int| 0 <= j < n.len() ==> frame_ok(t, #[trigger] n[j]),
        stepped_at(t, o, n, m),
        frames_held(t, p),
        frame_index(t, p.last()) is Some,
        frame_index(t, n.last()) is Some,
        walk_before(o, p),
    ensures
        p == n || walk_before(n, p),
{
    let k = choose|k: int| #[trigger] moved_on_at(o, p, k);
    assert(frame_ok(t, p[k]) && entry_held(t, p[k]));
    if k < p.len() - 1 {
        assert(joined_at(t, p, k + 1));
    }
    assert(p[k].1 != BEFORE_FIRST);
    assert(held_at(t, o[k].0 as int, p[k].1));
    if k > m {
        assert(!has_later(t, o[k]));
        assert(false);
    } else if k < m {
        assert(n[k] == o[k]) by {
            assert(n.subrange(0, m)[k] == o.subrange(0, m)[k]);
        }
        assert(n.subrange(0, k) =~= o.subrange(0, k)) by {
            assert(n.subrange(0, k) =~= n.subrange(0, m).subrange(0, k));
            assert(o.subrange(0, k) =~= o.subrange(0, m).subrange(0, k));
        }
        assert(moved_on_at(n, p, k));
    } else {
        assert(frame_ok(t, n[m]));
        if pos_rank(n[m].1) < pos_rank(p[m].1) {
            assert(moved_on_at(n, p, m));
        } else {
            assert(n[m] == p[m]);
            let y = n[m].0 as int;
            let w = n[m].1;
            let last_p = m == p.len() - 1;
            let last_n = m == n.len() - 1;
            assert(p.subrange(0, m + 1) =~= n.subrange(0, m + 1)) by {
                assert(p.subrange(0, m + 1) =~= p.subrange(0, m).push(p[m]));
                assert(n.subrange(0, m + 1) =~= n.subrange(0, m).push(n[m]));
            }
            if w < 2 && t.is_internal(y, w as int) {
                if last_p {
                    assert(frame_index(t, p[m]) is None);
                }
                if last_n {
                    assert(frame_index(t, n[m]) is None);
                }
                assert(joined_at(t, p, m + 1));
                assert(leads_to(t, n.subrange(0, m + 1), n[m + 1].0 as int));
                assert(n.subrange(0, m + 1).last() == n[m]);
                lemma_first_descent_min(t, n, p, m + 1);
            } else {
                if !last_p {
                    assert(joined_at(t, p, m + 1));
                }
                if !last_n {
                    assert(leads_to(t, n.subrange(0, m + 1), n[m + 1].0 as int));
                    assert(n.subrange(0, m + 1).last() == n[m]);
                }
                assert(p =~= p.subrange(0, m + 1));
                assert(n =~= n.subrange(0, m + 1));
            }
        }
    }
}

/// After a step back from the positioned path `o` to the positioned path
/// `n`, a path from the root that stands earlier than `o` in the walk is `n`
/// itself or stands earlier than `n`: the step reaches the previous
/// positioned path.
pub proof fn lemma_step_predecessor<K: TrieKey, V>(
    t: BitTrie<K, V>,
    o: Seq<(u32, u8)>,
    n: Seq<(u32, u8)>,
    m: int,
    p: Seq<(u32, u8)>,
)
    requires
        t.wf(),
        linked(t, n),
        forall|j: int| 0 <= j < n.len() ==> frame_ok(t, #[trigger] n[j]),
        stepped_back_at(t, o, n, m),
        forall|j: int| 0 <= j < o.len() ==> frame_ok(t, #[trigger] o[j]),
        frames_held(t, p),
        frame_index(t, p.last()) is Some,
        frame_index(t, n.last()) is Some,
        walk_before(p, o),
    ensures
        p == n || walk_before(p, n),
{
    let k = choose|k: int| #[trigger] moved_on_at(p, o, k);
    assert(frame_ok(t, p[k]) && entry_held(t, p[k]));
    if k < p.len() - 1 {
        assert(joined_at(t, p, k + 1));
    }
    assert(p[k].1 != BEFORE_FIRST);
    assert(held_at(t, o[k].0 as int, p[k].1));
    if k > m {
        assert(frame_ok(t, o[k]));
        assert(!has_earlier(t, o[k]));
        assert(false);
    } else if k < m {
        assert(n[k] == o[k]) by {
            assert(n.subrange(0, m)[k] == o.subrange(0, m)[k]);
        }
        assert(n.subrange(0, k) =~= o.subrange(0, k)) by {
            assert(n.subrange(0, k) =~= n.subrange(0, m).subrange(0, k));
            assert(o.subrange(0, k) =~= o.subrange(0, m).subrange(0, k));
        }
        assert(moved_on_at(p, n, k));
    } else {
        assert(frame_ok(t, n[m]));
        if pos_rank(p[m].1) < pos_rank(n[m].1) {
            assert(moved_on_at(p, n, m));
        } else {
            assert(n[m] == p[m]);
            let y = n[m].0 as int;
            let w = n[m].1;
            let last_p = m == p.len() - 1;
            let last_n = m == n.len() - 1;
            assert(p.subrange(0, m + 1) =~= n.subrange(0, m + 1)) by {
                assert(p.subrange(0, m + 1) =~= p.subrange(0, m).push(p[m]));
                assert(n.subrange(0, m + 1) =~= n.subrange(0, m).push(n[m]));
            }
            if w < 2 && t.is_internal(y, w as int) {
                if last_p {
                    assert(frame_index(t, p[m]) is None);
                }
                if last_n {
                    assert(frame_index(t, n[m]) is None);
                }
                assert(joined_at(t, p, m + 1));
                assert(leads_to(t, n.subrange(0, m + 1), n[m + 1].0 as int));
                assert(n.subrange(0, m + 1).last() == n[m]);
                lemma_last_descent_max(t, p, n, m + 1);
            } else {
                if !last_p {
                    assert(joined_at(t, p, m + 1));
                }
                if !last_n {
                    assert(leads_to(t, n.subrange(0, m + 1), n[m + 1].0 as int));
                    assert(n.subrange(0, m + 1).last() == n[m]);
                }
                assert(p =~= p.subrange(0, m + 1));
                assert(n =~= n.subrange(0, m + 1));
            }
        }
    }
}

/// `p` is a byte prefix of `k`.
pub open spec fn is_prefix_of(p: Seq<u8>, k: Seq<u8>) -> bool {
    p.len() <= k.len() && k.subrange(0, p.len() as int) == p
}

/// The descent path of stored key `i` from the root.
pub open spec fn key_path<K: TrieKey, V>(t: BitTrie<K, V>, i: int) -> Seq<(u32, u8)> {
    descent_frames(t, 0, t.root_prefix_len as int, t.key_seq()[i])
}

/// The path of stored key `i` still runs through the frames `fr` to node `y`,
/// or has already left them for a later entry.
pub open spec fn on_or_after<K: TrieKey, V>(t: BitTrie<K, V>, i: int, fr: Seq<(u32, u8)>, y: int) -> bool {
    let q = key_path(t, i);
    ||| q.len() > fr.len() && q.subrange(0, fr.len() as int) == fr && q[fr.len() as int].0 == y
    ||| walk_before(fr, q)
}

/// Every stored key at or above `p` has its path through the frames `fr` to
/// node `y`, or later in the walk.
pub open spec fn seek_covers<K: TrieKey, V>(t: BitTrie<K, V>, p: Seq<u8>, fr: Seq<(u32, u8)>, y: int) -> bool {
    forall|i: int| 1 <= i < t.key_seq().len() && !lex_lt(t.key_seq()[i], p) ==> #[trigger] on_or_after(t, i, fr, y)
}

/// The path of a stored key is a valid path from the root, positioned on it.
pub proof fn lemma_key_path<K: TrieKey, V>(t: BitTrie<K, V>, i: int)
    requires
        t.wf(),
        1 <= i < t.key_seq().len(),
    ensures
        key_path(t, i).len() > 0,
        key_path(t, i)[0].0 == 0,
        frames_held(t, key_path(t, i)),
        linked(t, key_path(t, i)),
        frame_index(t, key_path(t, i).last()) == Some(i),
{
    t.lemma_complete_at(i);
    assert(t.arena@.len() > 0);
    lemma_descent_frames(t, 0, t.root_prefix_len as int, t.key_seq()[i], i);
    lemma_joined_linked(t, key_path(t, i));
}

/// A prefix shares its bits with the longer key.
pub proof fn lemma_prefix_bits(p: Seq<u8>, k: Seq<u8>)
    requires
        is_prefix_of(p, k),
    ensures
        bits_agree(p, k, 0, 8 * p.len() as int),
{
    assert forall|m: int| 0 <= m < 8 * p.len() implies #[trigger] bit_at(p, m) == bit_at(k, m) by {
        assert(m / 8 < p.len());
        assert(k.subrange(0, p.len() as int)[m / 8] == k[m / 8]);
    }
}

/// A key that has the bits of `p` and is at least as long is not below `p`.
pub proof fn lemma_bits_not_below(p: Seq<u8>, k: Seq<u8>)
    requires
        bits_agree(p, k, 0, 8 * p.len() as int),
        k.len() >= p.len(),
    ensures
        !lex_lt(k, p),
{
    assert forall|i: int| 0 <= i < p.len() implies k[i] == p[i] by {
        assert forall|t: int| 0 <= t < 8 implies #[trigger] bit_at(k, 8 * i + t) == bit_at(p, 8 * i + t) by {
            assert(8 * i + t < 8 * p.len());
            assert(bit_at(p, 8 * i + t) == bit_at(k, 8 * i + t));
        }
        lemma_byte_from_bits(k, p, i);
    }
}

/// At a node `y` below the prefix length of `p` that `p` agrees with, the
/// path of a stored key at or above `p` stands at a child slot no lower than
/// the bit of `p` there.
pub proof fn lemma_seek_slot<K: TrieKey, V>(t: BitTrie<K, V>, p: Seq<u8>, fr: Seq<(u32, u8)>, y: int, i: int)
    requires
        t.wf(),
        1 <= i < t.key_seq().len(),
        !lex_lt(t.key_seq()[i], p),
        key_path(t, i).len() > fr.len(),
        key_path(t, i).subrange(0, fr.len() as int) == fr,
        key_path(t, i)[fr.len() as int].0 == y,
        0 <= y < t.arena@.len(),
        t.pfx@[y] < 8 * p.len(),
        bits_agree(p, t.ref_key(y), 0, t.pfx@[y]),
    ensures
        key_path(t, i)[fr.len() as int].1 < 2,
        bit_at(p, t.pfx@[y]) <= key_path(t, i)[fr.len() as int].1,
        bit_at(t.key_seq()[i], t.pfx@[y]) == key_path(t, i)[fr.len() as int].1,
{
    let q = key_path(t, i);
    lemma_key_path(t, i);
    lemma_path_key(t, q, i, fr.len() as int);
    t.lemma_keyed_at(y, 0);
    let k = t.key_seq()[i];
    let pl = t.pfx@[y];
    assert forall|m: int| 0 <= m < pl implies #[trigger] bit_at(k, m) == bit_at(p, m) by {
        assert(bit_at(k, m) == bit_at(t.ref_key(y), m));
        assert(bit_at(p, m) == bit_at(t.ref_key(y), m));
    }
    lemma_bit_at_le_one(p, pl);
    if q[fr.len() as int].1 == TERMINAL_POS {
        assert(k.len() < p.len());
        lemma_prefix_lex(k, p);
    } else if q[fr.len() as int].1 == 0 && bit_at(p, pl) == 1 {
        lemma_bits_lex(k, p, pl);
    }
}

/// Extending the frames `a` keeps what stands later than them later.
pub proof fn lemma_walk_before_extend(a: Seq<(u32, u8)>, b: Seq<(u32, u8)>, c: Seq<(u32, u8)>)
    requires
        walk_before(a, c),
        b.len() >= a.len(),
        b.subrange(0, a.len() as int) == a,
    ensures
        walk_before(b, c),
{
    let k = choose|k: int| #[trigger] moved_on_at(a, c, k);
    assert(b.subrange(0, k) =~= a.subrange(0, k)) by {
        assert(b.subrange(0, k) =~= b.subrange(0, a.len() as int).subrange(0, k));
    }
    assert(b[k] == a[k]) by {
        assert(b.subrange(0, a.len() as int)[k] == b[k]);
    }
    assert(moved_on_at(b, c, k));
}

/// The path of stored key `jk` runs through the frames `fr` to node `y`.
pub open spec fn path_through<K: TrieKey, V>(t: BitTrie<K, V>, jk: int, fr: Seq<(u32, u8)>, y: int) -> bool {
    &&& key_path(t, jk).len() > fr.len()
    &&& key_path(t, jk).subrange(0, fr.len() as int) == fr
    &&& key_path(t, jk)[fr.len() as int].0 == y
}

/// A key with prefix `p` whose path runs through node `y` gives `p` the bits
/// of `y`'s reference key below `y`'s prefix length, as far as `p` reaches.
pub proof fn lemma_through_agree<K: TrieKey, V>(t: BitTrie<K, V>, p: Seq<u8>, fr: Seq<(u32, u8)>, y: int, jk: int)
    requires
        t.wf(),
        1 <= jk < t.key_seq().len(),
        is_prefix_of(p, t.key_seq()[jk]),
        path_through(t, jk, fr, y),
    ensures
        0 <= y < t.arena@.len(),
        t.pfx@[y] <= 8 * p.len() ==> bits_agree(p, t.ref_key(y), 0, t.pfx@[y]),
        t.pfx@[y] >= 8 * p.len() ==> bits_agree(p, t.ref_key(y), 0, 8 * p.len() as int),
{
    let q = key_path(t, jk);
    lemma_key_path(t, jk);
    lemma_path_key(t, q, jk, fr.len() as int);
    assert(frame_ok(t, q[fr.len() as int]));
    lemma_prefix_bits(p, t.key_seq()[jk]);
    let k = t.key_seq()[jk];
    if t.pfx@[y] <= 8 * p.len() {
        assert forall|m: int| 0 <= m < t.pfx@[y] implies #[trigger] bit_at(p, m) == bit_at(t.ref_key(y), m) by {
            assert(bit_at(p, m) == bit_at(k, m));
            assert(bit_at(k, m) == bit_at(t.ref_key(y), m));
        }
    } else {
        assert forall|m: int| 0 <= m < 8 * p.len() implies #[trigger] bit_at(p, m) == bit_at(t.ref_key(y), m) by {
            assert(bit_at(p, m) == bit_at(k, m));
            assert(bit_at(k, m) == bit_at(t.ref_key(y), m));
        }
    }
}

/// Descending from node `y` along the bit of `p` keeps every stored key at or
/// above `p` on or after the frames, and the path of the key with prefix `p`
/// through them.
pub proof fn lemma_seek_advance<K: TrieKey, V>(t: BitTrie<K, V>, p: Seq<u8>, fr: Seq<(u32, u8)>, y: int, jk: int)
    requires
        t.wf(),
        seek_covers(t, p, fr, y),
        1 <= jk < t.key_seq().len(),
        is_prefix_of(p, t.key_seq()[jk]),
        path_through(t, jk, fr, y),
        t.pfx@[y] < 8 * p.len(),
        t.is_internal(y, bit_at(p, t.pfx@[y]) as int),
    ensures
        ({
            let b = bit_at(p, t.pfx@[y]);
            let c = t.arena@[y].children[b as int] as int;
            let fr2 = fr.push((y as u32, b));
            &&& seek_covers(t, p, fr2, c)
            &&& path_through(t, jk, fr2, c)
        }),
{
    lemma_through_agree(t, p, fr, y, jk);
    let b = bit_at(p, t.pfx@[y]);
    let c = t.arena@[y].children[b as int] as int;
    let f = (y as u32, b);
    let fr2 = fr.push(f);
    assert(y < LEAF_BIT);
    assert(f.0 as int == y);
    assert(fr2.subrange(0, fr.len() as int) =~= fr);
    assert forall|i: int| 1 <= i < t.key_seq().len() && !lex_lt(t.key_seq()[i], p) && on_or_after(t, i, fr, y)
        implies #[trigger] on_or_after(t, i, fr2, c) && (i == jk ==> path_through(t, jk, fr2, c)) by {
        let q = key_path(t, i);
        if walk_before(fr, q) && !(q.len() > fr.len() && q.subrange(0, fr.len() as int) == fr && q[fr.len() as int].0 == y) {
            lemma_walk_before_extend(fr, fr2, q);
            if i == jk {
                assert(false);
            }
        } else {
            lemma_seek_slot(t, p, fr, y, i);
            lemma_key_path(t, i);
            if i == jk {
                lemma_prefix_bits(p, t.key_seq()[jk]);
                assert(bit_at(p, t.pfx@[y]) == bit_at(t.key_seq()[jk], t.pfx@[y]));
            }
            if q[fr.len() as int].1 == b {
                assert(q[fr.len() as int] == f);
                assert(q.subrange(0, fr2.len() as int) =~= fr2) by {
                    assert(q.subrange(0, fr2.len() as int) =~= q.subrange(0, fr.len() as int).push(q[fr.len() as int]));
                }
                if q.len() == fr2.len() {
                    assert(q.last() == f);
                    assert(frame_index(t, q.last()) is None);
                }
                assert(joined_at(t, q, fr2.len() as int));
            } else {
                assert(moved_on_at(fr2, q, fr.len() as int));
            }
        }
    }
    assert forall|i: int| 1 <= i < t.key_seq().len() && !lex_lt(t.key_seq()[i], p)
        implies #[trigger] on_or_after(t, i, fr2, c) by {
        assert(on_or_after(t, i, fr, y));
    }
    lemma_prefix_bits(p, t.key_seq()[jk]);
    lemma_bits_not_below(p, t.key_seq()[jk]);
    assert(on_or_after(t, jk, fr, y));
    assert(on_or_after(t, jk, fr2, c));
    assert(path_through(t, jk, fr2, c));
}

/// A path positioned on key `kn` that every stored key at or above `p` is
/// equal to or before in the walk makes key `kn` the least of them.
pub proof fn lemma_least_from_walk<K: TrieKey, V>(t: BitTrie<K, V>, p: Seq<u8>, n: Seq<(u32, u8)>, kn: int)
    requires
        t.wf(),
        linked(t, n),
        forall|j: int| 0 <= j < n.len() ==> frame_ok(t, #[trigger] n[j]),
        n.len() > 0,
        frame_index(t, n.last()) == Some(kn),
        forall|i: int| 1 <= i < t.key_seq().len() && !lex_lt(t.key_seq()[i], p)
            ==> key_path(t, i) == n || walk_before(n, #[trigger] key_path(t, i)),
    ensures
        forall|i: int| 1 <= i < t.key_seq().len() && !lex_lt(t.key_seq()[i], p)
            ==> i == kn || #[trigger] lex_lt(t.key_seq()[kn], t.key_seq()[i]),
{
    assert forall|i: int| 1 <= i < t.key_seq().len() && !lex_lt(t.key_seq()[i], p)
        implies i == kn || #[trigger] lex_lt(t.key_seq()[kn], t.key_seq()[i]) by {
        let q = key_path(t, i);
        lemma_key_path(t, i);
        if q != n {
            assert(walk_before(n, q));
            lemma_walk_order(t, n, q, kn, i);
        }
    }
}

/// Where the descent along `p` meets a leaf at the bit of `p`, the leaf holds
/// the key with prefix `p`, and that key is the least stored key at or above `p`.
pub proof fn lemma_seek_end_leaf<K: TrieKey, V>(t: BitTrie<K, V>, p: Seq<u8>, fr: Seq<(u32, u8)>, y: int, jk: int)
    requires
        t.wf(),
        seek_covers(t, p, fr, y),
        1 <= jk < t.key_seq().len(),
        is_prefix_of(p, t.key_seq()[jk]),
        path_through(t, jk, fr, y),
        t.pfx@[y] < 8 * p.len(),
        t.arena@[y].children[bit_at(p, t.pfx@[y]) as int] != 0,
        word_is_leaf(t.arena@[y].children[bit_at(p, t.pfx@[y]) as int]),
    ensures
        word_index(t.arena@[y].children[bit_at(p, t.pfx@[y]) as int]) == jk,
        key_path(t, jk) == fr.push((y as u32, bit_at(p, t.pfx@[y]))),
        !lex_lt(t.key_seq()[jk], p),
        forall|i: int| 1 <= i < t.key_seq().len() && !lex_lt(t.key_seq()[i], p)
            ==> i == jk || #[trigger] lex_lt(t.key_seq()[jk], t.key_seq()[i]),
{
    lemma_through_agree(t, p, fr, y, jk);
    let b = bit_at(p, t.pfx@[y]);
    let f = (y as u32, b);
    let n = fr.push(f);
    assert(y < LEAF_BIT);
    assert(f.0 as int == y);
    lemma_prefix_bits(p, t.key_seq()[jk]);
    lemma_bits_not_below(p, t.key_seq()[jk]);
    assert(on_or_after(t, jk, fr, y));
    assert forall|i: int| 1 <= i < t.key_seq().len() && !lex_lt(t.key_seq()[i], p)
        implies key_path(t, i) == n || walk_before(n, #[trigger] key_path(t, i)) by {
        let q = key_path(t, i);
        assert(on_or_after(t, i, fr, y));
        if q.len() > fr.len() && q.subrange(0, fr.len() as int) == fr && q[fr.len() as int].0 == y {
            lemma_seek_slot(t, p, fr, y, i);
            lemma_key_path(t, i);
            if q[fr.len() as int].1 == b {
                assert(q[fr.len() as int] == f);
                if q.len() > n.len() {
                    assert(joined_at(t, q, n.len() as int));
                }
                assert(q =~= n) by {
                    assert(q =~= q.subrange(0, fr.len() as int).push(q[fr.len() as int]));
                }
            } else {
                assert(n.subrange(0, fr.len() as int) =~= fr);
                assert(moved_on_at(n, q, fr.len() as int));
            }
        } else {
            assert(n.subrange(0, fr.len() as int) =~= fr);
            lemma_walk_before_extend(fr, n, q);
        }
    }
    lemma_seek_slot(t, p, fr, y, jk);
    assert(bit_at(p, t.pfx@[y]) == bit_at(t.key_seq()[jk], t.pfx@[y]));
    lemma_key_path(t, jk);
    assert(key_path(t, jk) == n);
    assert(n.last() == f);
    lemma_least_from_walk(t, p, n, jk);
}

/// Where `p` runs out at or above a terminal node on its descent, the node's
/// own key is the least stored key at or above `p`.
pub proof fn lemma_seek_end_terminal<K: TrieKey, V>(t: BitTrie<K, V>, p: Seq<u8>, fr: Seq<(u32, u8)>, y: int, jk: int, n: Seq<(u32, u8)>)
    requires
        t.wf(),
        seek_covers(t, p, fr, y),
        1 <= jk < t.key_seq().len(),
        is_prefix_of(p, t.key_seq()[jk]),
        path_through(t, jk, fr, y),
        t.pfx@[y] >= 8 * p.len(),
        t.arena@[y].leaf >= TERMINAL_BIT,
        n == fr.push((y as u32, TERMINAL_POS)),
        linked(t, n),
        forall|j: int| 0 <= j < n.len() ==> frame_ok(t, #[trigger] n[j]),
    ensures
        1 <= t.ref_of(y) < t.key_seq().len(),
        frame_index(t, n.last()) == Some(t.ref_of(y)),
        !lex_lt(t.ref_key(y), p),
        forall|i: int| 1 <= i < t.key_seq().len() && !lex_lt(t.key_seq()[i], p)
            ==> i == t.ref_of(y) || #[trigger] lex_lt(t.ref_key(y), t.key_seq()[i]),
{
    lemma_through_agree(t, p, fr, y, jk);
    t.lemma_keyed_at(y, 0);
    assert(y < LEAF_BIT);
    let f = (y as u32, TERMINAL_POS);
    assert(f.0 as int == y);
    lemma_bits_not_below(p, t.ref_key(y));
    assert forall|i: int| 1 <= i < t.key_seq().len() && !lex_lt(t.key_seq()[i], p)
        implies key_path(t, i) == n || walk_before(n, #[trigger] key_path(t, i)) by {
        let q = key_path(t, i);
        assert(on_or_after(t, i, fr, y));
        lemma_key_path(t, i);
        if q.len() > fr.len() && q.subrange(0, fr.len() as int) == fr && q[fr.len() as int].0 == y {
            lemma_path_key(t, q, i, fr.len() as int);
            assert(frame_ok(t, q[fr.len() as int]));
            if q[fr.len() as int].1 == TERMINAL_POS {
                assert(q[fr.len() as int] == f);
                if q.len() > n.len() {
                    assert(joined_at(t, q, n.len() as int));
                }
                assert(q =~= n) by {
                    assert(q =~= q.subrange(0, fr.len() as int).push(q[fr.len() as int]));
                }
            } else {
                assert(n.subrange(0, fr.len() as int) =~= fr);
                assert(moved_on_at(n, q, fr.len() as int));
            }
        } else {
            assert(n.subrange(0, fr.len() as int) =~= fr);
            lemma_walk_before_extend(fr, n, q);
        }
    }
    assert(n.last() == f);
    lemma_least_from_walk(t, p, n, t.ref_of(y));
}

/// Where `p` runs out above a node on its descent that is not terminal, the
/// first key below the node is the least stored key at or above `p`.
pub proof fn lemma_seek_end_first<K: TrieKey, V>(
    t: BitTrie<K, V>,
    p: Seq<u8>,
    fr: Seq<(u32, u8)>,
    y: int,
    jk: int,
    n: Seq<(u32, u8)>,
    kn: int,
)
    requires
        t.wf(),
        seek_covers(t, p, fr, y),
        1 <= jk < t.key_seq().len(),
        is_prefix_of(p, t.key_seq()[jk]),
        path_through(t, jk, fr, y),
        t.pfx@[y] >= 8 * p.len(),
        linked(t, n),
        forall|j: int| 0 <= j < n.len() ==> frame_ok(t, #[trigger] n[j]),
        n.len() > fr.len(),
        n.subrange(0, fr.len() as int) == fr,
        n[fr.len() as int].0 == y,
        forall|i: int| fr.len() <= i < n.len() ==> #[trigger] n[i] == first_frame(t, n[i].0 as int),
        frame_index(t, n.last()) == Some(kn),
    ensures
        1 <= kn < t.key_seq().len(),
        !lex_lt(t.key_seq()[kn], p),
        forall|i: int| 1 <= i < t.key_seq().len() && !lex_lt(t.key_seq()[i], p)
            ==> i == kn || #[trigger] lex_lt(t.key_seq()[kn], t.key_seq()[i]),
{
    lemma_through_agree(t, p, fr, y, jk);
    lemma_path_key(t, n, kn, fr.len() as int);
    let k = t.key_seq()[kn];
    assert forall|m: int| 0 <= m < 8 * p.len() implies #[trigger] bit_at(p, m) == bit_at(k, m) by {
        assert(bit_at(p, m) == bit_at(t.ref_key(y), m));
        assert(bit_at(k, m) == bit_at(t.ref_key(y), m));
    }
    lemma_bits_not_below(p, k);
    assert forall|i: int| 1 <= i < t.key_seq().len() && !lex_lt(t.key_seq()[i], p)
        implies key_path(t, i) == n || walk_before(n, #[trigger] key_path(t, i)) by {
        let q = key_path(t, i);
        assert(on_or_after(t, i, fr, y));
        lemma_key_path(t, i);
        if q.len() > fr.len() && q.subrange(0, fr.len() as int) == fr && q[fr.len() as int].0 == y {
            lemma_first_descent_min(t, n, q, fr.len() as int);
        } else {
            lemma_walk_before_extend(fr, n, q);
        }
    }
    lemma_least_from_walk(t, p, n, kn);
}

/// Below the length of `p`, the node on the path of a key with prefix `p`
/// holds a child at the bit of `p`.
pub proof fn lemma_seek_child_present<K: TrieKey, V>(t: BitTrie<K, V>, p: Seq<u8>, fr: Seq<(u32, u8)>, y: int, jk: int)
    requires
        t.wf(),
        1 <= jk < t.key_seq().len(),
        is_prefix_of(p, t.key_seq()[jk]),
        path_through(t, jk, fr, y),
        t.pfx@[y] < 8 * p.len(),
    ensures
        t.arena@[y].children[bit_at(p, t.pfx@[y]) as int] != 0,
{
    lemma_through_agree(t, p, fr, y, jk);
    lemma_prefix_bits(p, t.key_seq()[jk]);
    lemma_bits_not_below(p, t.key_seq()[jk]);
    lemma_seek_slot(t, p, fr, y, jk);
    lemma_key_path(t, jk);
    let q = key_path(t, jk);
    assert(frame_ok(t, q[fr.len() as int]) && entry_held(t, q[fr.len() as int]));
}

/// With no frames, every stored key's path starts at the root.
pub proof fn lemma_seek_start<K: TrieKey, V>(t: BitTrie<K, V>, p: Seq<u8>)
    requires
        t.wf(),
    ensures
        seek_covers(t, p, Seq::empty(), 0),
        forall|j: int| 1 <= j < t.key_seq().len() ==> #[trigger] path_through(t, j, Seq::empty(), 0),
{
    assert forall|j: int| 1 <= j < t.key_seq().len() implies #[trigger] path_through(t, j, Seq::empty(), 0) by {
        lemma_key_path(t, j);
        assert(key_path(t, j).subrange(0, 0) =~= Seq::<(u32, u8)>::empty());
    }
    assert forall|i: int| 1 <= i < t.key_seq().len() && !lex_lt(t.key_seq()[i], p)
        implies #[trigger] on_or_after(t, i, Seq::empty(), 0) by {
        assert(path_through(t, i, Seq::empty(), 0));
    }
}

/// Frames joined by internal edges from the root form a path.
pub proof fn lemma_joined_linked<K: TrieKey, V>(t: BitTrie<K, V>, s: Seq<(u32, u8)>)
    requires
        edges_joined(t, s),
        s.len() > 0 ==> s[0].0 == 0,
    ensures
        linked(t, s),
{
    assert forall|i: int| 0 <= i < s.len() implies #[trigger] leads_to(t, s.subrange(0, i), s[i].0 as int) by {
        if i > 0 {
            assert(s.subrange(0, i).last() == s[i - 1]);
            assert(joined_at(t, s, i));
        }
    }
}

/// A descent path from the root stands, at the first frame where it leaves
/// the last descent `l`, at an earlier entry than `l`; so it is `l` itself or
/// earlier in the walk.
pub proof fn lemma_last_descent_max<K: TrieKey, V>(t: BitTrie<K, V>, p: Seq<(u32, u8)>, l: Seq<(u32, u8)>, j: int)
    requires
        t.wf(),
        forall|i: int| j <= i < l.len() ==> #[trigger] l[i] == last_frame(t, l[i].0 as int),
        linked(t, l),
        frames_held(t, p),
        frame_index(t, p.last()) is Some,
        frame_index(t, l.last()) is Some,
        0 <= j < p.len(),
        j < l.len(),
        p.subrange(0, j) == l.subrange(0, j),
        p[j].0 == l[j].0,
    ensures
        p == l || walk_before(p, l),
    decreases l.len() - j,
{
    let y = p[j].0 as int;
    assert(l[j] == last_frame(t, l[j].0 as int));
    assert(frame_ok(t, p[j]) && entry_held(t, p[j]));
    if p[j].1 == l[j].1 {
        let w = p[j].1;
        let last_p = j == p.len() - 1;
        let last_l = j == l.len() - 1;
        if w < 2 && t.is_internal(y, w as int) {
            if last_p {
                assert(frame_index(t, p[j]) is None);
            }
            if last_l {
                assert(frame_index(t, l[j]) is None);
            }
            assert(joined_at(t, p, j + 1));
            assert(leads_to(t, l.subrange(0, j + 1), l[j + 1].0 as int));
            assert(l.subrange(0, j + 1).last() == l[j]);
            assert(p.subrange(0, j + 1) =~= l.subrange(0, j + 1)) by {
                assert(p.subrange(0, j + 1) =~= p.subrange(0, j).push(p[j]));
                assert(l.subrange(0, j + 1) =~= l.subrange(0, j).push(l[j]));
            }
            lemma_last_descent_max(t, p, l, j + 1);
        } else {
            if !last_p {
                assert(joined_at(t, p, j + 1));
            }
            if !last_l {
                assert(leads_to(t, l.subrange(0, j + 1), l[j + 1].0 as int));
                assert(l.subrange(0, j + 1).last() == l[j]);
            }
            assert(p.len() == j + 1 && l.len() == j + 1);
            assert(p =~= p.subrange(0, j).push(p[j]));
            assert(l =~= l.subrange(0, j).push(l[j]));
        }
    } else {
        let n = t.arena@[y];
        if n.children[1] != 0 {
            assert(l[j].1 == 1);
        } else if n.children[0] != 0 {
            assert(l[j].1 == 0);
            if p[j].1 == 1 {
                assert(n.children[p[j].1 as int] != 0);
            }
        } else {
            assert(l[j].1 == TERMINAL_POS);
            if p[j].1 < 2 {
                assert(n.children[p[j].1 as int] != 0);
            }
        }
        assert(pos_rank(p[j].1) < pos_rank(l[j].1));
        assert(l.subrange(0, j + 1) =~= p.subrange(0, j).push(l[j])) by {
            assert(l.subrange(0, j + 1) =~= l.subrange(0, j).push(l[j]));
        }
        lemma_moved_on(p, l, j, l[j]);
    }
}

/// The walk order of the positions within one node: before its first entry,
/// its terminal value, then child `0`, then child `1`.
pub open spec fn pos_rank(w: u8) -> int {
    if w == BEFORE_FIRST {
        0
    } else if w == TERMINAL_POS {
        1
    } else if w == 0 {
        2
    } else {
        3
    }
}

/// Frame stacks `a` and `b` share their first `k` frames and, at frame `k`,
/// the same node, where `b` stands at a later position than `a`.
pub open spec fn moved_on_at(a: Seq<(u32, u8)>, b: Seq<(u32, u8)>, k: int) -> bool {
    &&& 0 <= k < a.len()
    &&& k < b.len()
    &&& a.subrange(0, k) == b.subrange(0, k)
    &&& a[k].0 == b[k].0
    &&& pos_rank(a[k].1) < pos_rank(b[k].1)
}

/// The frame stack `b` stands later in the walk than `a`.
pub open spec fn walk_before(a: Seq<(u32, u8)>, b: Seq<(u32, u8)>) -> bool {
    exists|k: int| #[trigger] moved_on_at(a, b, k)
}

/// Position `w` of node `n` holds an entry: its terminal value or a child.
pub open spec fn held_at<K: TrieKey, V>(t: BitTrie<K, V>, n: int, w: u8) -> bool {
    ||| w == TERMINAL_POS && t.arena@[n].leaf >= TERMINAL_BIT
    ||| w < 2 && t.arena@[n].children[w as int] != 0
}

/// Frame `f` stands, in the node of frame `o`, at the next entry after the
/// position of `o`.
pub open spec fn next_entry<K: TrieKey, V>(t: BitTrie<K, V>, o: (u32, u8), f: (u32, u8)) -> bool {
    &&& f.0 == o.0
    &&& pos_rank(o.1) < pos_rank(f.1)
    &&& forall|w: u8| pos_rank(o.1) < pos_rank(w) < pos_rank(f.1) ==> !#[trigger] held_at(t, o.0 as int, w)
}

/// The frames `n` are the frames `o` cut back to frame `m`, moved there to the
/// next entry and descended to first entries below it; the frames of `o`
/// above `m` have no later entry.
pub open spec fn stepped_at<K: TrieKey, V>(t: BitTrie<K, V>, o: Seq<(u32, u8)>, n: Seq<(u32, u8)>, m: int) -> bool {
    &&& 0 <= m < o.len()
    &&& m < n.len()
    &&& n.subrange(0, m) == o.subrange(0, m)
    &&& next_entry(t, o[m], n[m])
    &&& forall|i: int| m < i < o.len() ==> !has_later(t, #[trigger] o[i])
    &&& forall|i: int| m < i < n.len() ==> #[trigger] n[i] == first_frame(t, n[i].0 as int)
}

/// Frame `f` stands, in the node of frame `o`, at the nearest entry before
/// the position of `o`.
pub open spec fn prev_entry<K: TrieKey, V>(t: BitTrie<K, V>, o: (u32, u8), f: (u32, u8)) -> bool {
    &&& f.0 == o.0
    &&& pos_rank(f.1) < pos_rank(o.1)
    &&& forall|w: u8| pos_rank(f.1) < pos_rank(w) < pos_rank(o.1) ==> !#[trigger] held_at(t, o.0 as int, w)
}

/// The frames `n` are the frames `o` cut back to frame `m`, moved there to the
/// nearest earlier entry and descended to last entries below it; the frames
/// of `o` above `m` have no earlier entry.
pub open spec fn stepped_back_at<K: TrieKey, V>(t: BitTrie<K, V>, o: Seq<(u32, u8)>, n: Seq<(u32, u8)>, m: int) -> bool {
    &&& 0 <= m < o.len()
    &&& m < n.len()
    &&& n.subrange(0, m) == o.subrange(0, m)
    &&& prev_entry(t, o[m], n[m])
    &&& forall|i: int| m < i < o.len() ==> !has_earlier(t, #[trigger] o[i])
    &&& forall|i: int| m < i < n.len() ==> #[trigger] n[i] == last_frame(t, n[i].0 as int)
}

/// The node holds an entry: a terminal value or a child.
pub open spec fn has_entry<K: TrieKey, V>(t: BitTrie<K, V>, n: int) -> bool {
    t.arena@[n].leaf >= TERMINAL_BIT || t.arena@[n].children[0] != 0 || t.arena@[n].children[1] != 0
}

/// Frame `f` has a later entry in its node: after the before-first position
/// its terminal value or a child, after the terminal value a child, after
/// child `0` child `1`.
pub open spec fn has_later<K: TrieKey, V>(t: BitTrie<K, V>, f: (u32, u8)) -> bool {
    let n = t.arena@[f.0 as int];
    if f.1 == BEFORE_FIRST {
        n.leaf >= TERMINAL_BIT || n.children[0] != 0 || n.children[1] != 0
    } else if f.1 == TERMINAL_POS {
        n.children[0] != 0 || n.children[1] != 0
    } else if f.1 == 0 {
        n.children[1] != 0
    } else {
        false
    }
}

/// Frame `f` has an earlier entry in its node: before child `1` child `0` or
/// the terminal value, before child `0` the terminal value.
pub open spec fn has_earlier<K: TrieKey, V>(t: BitTrie<K, V>, f: (u32, u8)) -> bool {
    let n = t.arena@[f.0 as int];
    if f.1 == 1 {
        n.children[0] != 0 || n.leaf >= TERMINAL_BIT
    } else if f.1 == 0 {
        n.leaf >= TERMINAL_BIT
    } else {
        false
    }
}

/// The frame of a node's first entry: its terminal value, else its lowest child.
pub open spec fn first_frame<K: TrieKey, V>(t: BitTrie<K, V>, n: int) -> (u32, u8) {
    if t.arena@[n].leaf >= TERMINAL_BIT {
        (n as u32, TERMINAL_POS)
    } else if t.arena@[n].children[0] != 0 {
        (n as u32, 0u8)
    } else {
        (n as u32, 1u8)
    }
}

/// The frame of a node's last entry: its highest child, else its terminal value.
pub open spec fn last_frame<K: TrieKey, V>(t: BitTrie<K, V>, n: int) -> (u32, u8) {
    if t.arena@[n].children[1] != 0 {
        (n as u32, 1u8)
    } else if t.arena@[n].children[0] != 0 {
        (n as u32, 0u8)
    } else {
        (n as u32, TERMINAL_POS)
    }
}

/// The frames descend from the root, each standing at the first entry of its
/// node and each below the first naming the child that the frame above it
/// stands at.
pub open spec fn is_first_descent<K: TrieKey, V>(t: BitTrie<K, V>, s: Seq<(u32, u8)>) -> bool {
    &&& s.len() > 0 ==> s[0].0 == 0
    &&& forall|i: int| 0 <= i < s.len() ==> #[trigger] s[i] == first_frame(t, s[i].0 as int)
    &&& forall|i: int| 0 < i < s.len() ==> #[trigger] s[i].0 == t.arena@[s[i - 1].0 as int].children[s[i - 1].1 as int]
}

/// The frames descend from the root, each standing at the last entry of its
/// node and each below the first naming the child that the frame above it
/// stands at.
pub open spec fn is_last_descent<K: TrieKey, V>(t: BitTrie<K, V>, s: Seq<(u32, u8)>) -> bool {
    &&& s.len() > 0 ==> s[0].0 == 0
    &&& forall|i: int| 0 <= i < s.len() ==> #[trigger] s[i] == last_frame(t, s[i].0 as int)
    &&& forall|i: int| 0 < i < s.len() ==> #[trigger] s[i].0 == t.arena@[s[i - 1].0 as int].children[s[i - 1].1 as int]
}

/// Replacing frame `k` of `a` by a later position of the same node, on top of
/// the same frames below it, moves later in the walk.
pub proof fn lemma_moved_on(a: Seq<(u32, u8)>, b: Seq<(u32, u8)>, k: int, f: (u32, u8))
    requires
        0 <= k < a.len(),
        k < b.len(),
        b.subrange(0, k + 1) == a.subrange(0, k).push(f) || b == a.subrange(0, k).push(f),
        f.0 == a[k].0,
        pos_rank(a[k].1) < pos_rank(f.1),
    ensures
        moved_on_at(a, b, k),
        walk_before(a, b),
{
    if b == a.subrange(0, k).push(f) {
        assert(b.subrange(0, k + 1) =~= b);
    }
    assert(b.subrange(0, k) =~= b.subrange(0, k + 1).subrange(0, k));
    assert(a.subrange(0, k).push(f).subrange(0, k) =~= a.subrange(0, k));
    assert(b[k] == b.subrange(0, k + 1)[k]);
    assert(moved_on_at(a, b, k));
}

/// Replacing frame `k` of `b` by an earlier position of the same node, on top
/// of the same frames below it, moves earlier in the walk.
pub proof fn lemma_moved_back(b: Seq<(u32, u8)>, a: Seq<(u32, u8)>, k: int, f: (u32, u8))
    requires
        0 <= k < b.len(),
        k < a.len(),
        a.subrange(0, k + 1) == b.subrange(0, k).push(f) || a == b.subrange(0, k).push(f),
        f.0 == b[k].0,
        pos_rank(f.1) < pos_rank(b[k].1),
    ensures
        moved_on_at(a, b, k),
        walk_before(a, b),
{
    if a == b.subrange(0, k).push(f) {
        assert(a.subrange(0, k + 1) =~= a);
    }
    assert(a.subrange(0, k) =~= a.subrange(0, k + 1).subrange(0, k));
    assert(b.subrange(0, k).push(f).subrange(0, k) =~= b.subrange(0, k));
    assert(a[k] == a.subrange(0, k + 1)[k]);
    assert(moved_on_at(a, b, k));
}

/// A byte whose bits above offset `j` (counted from the most significant)
/// match those of `y`, and whose bit at offset `j` is `0` where `y` has `1`,
/// is the smaller byte.
proof fn lemma_byte_lt(x: u8, y: u8, j: u8)
    by (bit_vector)
    requires
        j < 8,
        j > 0 ==> (x >> 7u8) & 1u8 == (y >> 7u8) & 1u8,
        j > 1 ==> (x >> 6u8) & 1u8 == (y >> 6u8) & 1u8,
        j > 2 ==> (x >> 5u8) & 1u8 == (y >> 5u8) & 1u8,
        j > 3 ==> (x >> 4u8) & 1u8 == (y >> 4u8) & 1u8,
        j > 4 ==> (x >> 3u8) & 1u8 == (y >> 3u8) & 1u8,
        j > 5 ==> (x >> 2u8) & 1u8 == (y >> 2u8) & 1u8,
        j > 6 ==> (x >> 1u8) & 1u8 == (y >> 1u8) & 1u8,
        (x >> ((7u8 - j) as u8)) & 1u8 == 0u8,
        (y >> ((7u8 - j) as u8)) & 1u8 == 1u8,
    ensures
        x < y,
{
}

/// Byte `i` of two keys is equal when its eight bits agree.
proof fn lemma_byte_from_bits(a: Seq<u8>, b: Seq<u8>, i: int)
    requires
        0 <= i < a.len(),
        i < b.len(),
        forall|t: int| 0 <= t < 8 ==> #[trigger] bit_at(a, 8 * i + t) == bit_at(b, 8 * i + t),
    ensures
        a[i] == b[i],
{
    let x = a[i];
    let y = b[i];
    lemma_byte_bit(i, 0);
    lemma_byte_bit(i, 1);
    lemma_byte_bit(i, 2);
    lemma_byte_bit(i, 3);
    lemma_byte_bit(i, 4);
    lemma_byte_bit(i, 5);
    lemma_byte_bit(i, 6);
    lemma_byte_bit(i, 7);
    assert(bit_at(a, 8 * i + 0) == bit_at(b, 8 * i + 0));
    assert(bit_at(a, 8 * i + 1) == bit_at(b, 8 * i + 1));
    assert(bit_at(a, 8 * i + 2) == bit_at(b, 8 * i + 2));
    assert(bit_at(a, 8 * i + 3) == bit_at(b, 8 * i + 3));
    assert(bit_at(a, 8 * i + 4) == bit_at(b, 8 * i + 4));
    assert(bit_at(a, 8 * i + 5) == bit_at(b, 8 * i + 5));
    assert(bit_at(a, 8 * i + 6) == bit_at(b, 8 * i + 6));
    assert(bit_at(a, 8 * i + 7) == bit_at(b, 8 * i + 7));
    assert(x == y) by (bit_vector)
        requires
            (x >> 7u8) & 1u8 == (y >> 7u8) & 1u8,
            (x >> 6u8) & 1u8 == (y >> 6u8) & 1u8,
            (x >> 5u8) & 1u8 == (y >> 5u8) & 1u8,
            (x >> 4u8) & 1u8 == (y >> 4u8) & 1u8,
            (x >> 3u8) & 1u8 == (y >> 3u8) & 1u8,
            (x >> 2u8) & 1u8 == (y >> 2u8) & 1u8,
            (x >> 1u8) & 1u8 == (y >> 1u8) & 1u8,
            (x >> 0u8) & 1u8 == (y >> 0u8) & 1u8,
    ;
}

/// Keys whose bits agree below `m` and that have bit `0` and bit `1` at `m`
/// are in lexicographic byte order.
pub proof fn lemma_bits_lex(a: Seq<u8>, b: Seq<u8>, m: int)
    requires
        0 <= m,
        m / 8 < a.len(),
        m / 8 < b.len(),
        bits_agree(a, b, 0, m),
        bit_at(a, m) == 0,
        bit_at(b, m) == 1,
    ensures
        lex_lt(a, b),
{
    let k = m / 8;
    let j = m % 8;
    assert(m == 8 * k + j);
    assert forall|i: int| 0 <= i < k implies a[i] == b[i] by {
        assert forall|t: int| 0 <= t < 8 implies #[trigger] bit_at(a, 8 * i + t) == bit_at(b, 8 * i + t) by {
            assert(8 * i + t < m);
            assert(bit_at(a, 8 * i + t) == bit_at(b, 8 * i + t));
        }
        lemma_byte_from_bits(a, b, i);
    }
    let x = a[k];
    let y = b[k];
    lemma_byte_bit(k, 0);
    lemma_byte_bit(k, 1);
    lemma_byte_bit(k, 2);
    lemma_byte_bit(k, 3);
    lemma_byte_bit(k, 4);
    lemma_byte_bit(k, 5);
    lemma_byte_bit(k, 6);
    lemma_byte_bit(k, 7);
    lemma_byte_bit(k, j);
    if j > 0 { assert(bit_at(a, 8 * k + 0) == bit_at(b, 8 * k + 0)); }
    if j > 1 { assert(bit_at(a, 8 * k + 1) == bit_at(b, 8 * k + 1)); }
    if j > 2 { assert(bit_at(a, 8 * k + 2) == bit_at(b, 8 * k + 2)); }
    if j > 3 { assert(bit_at(a, 8 * k + 3) == bit_at(b, 8 * k + 3)); }
    if j > 4 { assert(bit_at(a, 8 * k + 4) == bit_at(b, 8 * k + 4)); }
    if j > 5 { assert(bit_at(a, 8 * k + 5) == bit_at(b, 8 * k + 5)); }
    if j > 6 { assert(bit_at(a, 8 * k + 6) == bit_at(b, 8 * k + 6)); }
    assert((x >> ((7 - j) as u8)) & 1u8 == 0u8);
    assert((y >> ((7 - j) as u8)) & 1u8 == 1u8);
    let jj = j as u8;
    assert((7u8 - jj) as u8 == (7 - j) as u8);
    lemma_byte_lt(x, y, jj);
    assert(0 <= k < a.len() && k < b.len() && a[k] < b[k] && (forall|i: int| 0 <= i < k ==> a[i] == b[i]));
}

/// A key whose bits are the first bits of a longer key comes before it in
/// lexicographic byte order.
pub proof fn lemma_prefix_lex(a: Seq<u8>, b: Seq<u8>)
    requires
        a.len() < b.len(),
        bits_agree(a, b, 0, 8 * a.len() as int),
    ensures
        lex_lt(a, b),
{
    assert forall|i: int| 0 <= i < a.len() implies a[i] == b[i] by {
        assert forall|t: int| 0 <= t < 8 implies #[trigger] bit_at(a, 8 * i + t) == bit_at(b, 8 * i + t) by {
            assert(8 * i + t < 8 * a.len());
            assert(bit_at(a, 8 * i + t) == bit_at(b, 8 * i + t));
        }
        lemma_byte_from_bits(a, b, i);
    }
}

/// Cursor over a [`BitTrie`] in key order: a stack of `(node, position)`
/// frames from the root to the current entry.
pub struct BitIter<'a, K: TrieKey, V> {
    trie: &'a BitTrie<K, V>,
    stack: Vec<(u32, u8)>,
}

impl<'a, K: TrieKey, V> BitIter<'a, K, V> {
    /// The trie being walked.
    pub closed spec fn trie(self) -> BitTrie<K, V> {
        *self.trie
    }

    /// The frames from the root down.
    pub closed spec fn frames(self) -> Seq<(u32, u8)> {
        self.stack@
    }

    /// The trie is well formed and every frame is valid.
    pub open spec fn wf(self) -> bool {
        &&& self.trie().wf()
        &&& forall|i: int| 0 <= i < self.frames().len() ==> frame_ok(self.trie(), #[trigger] self.frames()[i])
        &&& linked(self.trie(), self.frames())
    }

    /// The key index the cursor is positioned on.
    pub open spec fn position(self) -> Option<int> {
        if self.frames().len() == 0 {
            None
        } else {
            frame_index(self.trie(), self.frames().last())
        }
    }

    /// Push a valid frame.
    fn push_frame(&mut self, f: (u32, u8))
        requires
            old(self).wf(),
            frame_ok(old(self).trie(), f),
            leads_to(old(self).trie(), old(self).frames(), f.0 as int),
        ensures
            final(self).wf(),
            final(self).trie() == old(self).trie(),
            final(self).frames() == old(self).frames().push(f),
    {
        self.stack.push(f);
        proof {
            lemma_linked_push(self.trie(), old(self).frames(), f);
            assert forall|i: int| 0 <= i < self.frames().len() implies frame_ok(self.trie(), #[trigger] self.frames()[i]) by {
                if i < old(self).frames().len() {
                    assert(self.frames()[i] == old(self).frames()[i]);
                }
            }
        }
    }

    /// A cursor positioned before the first key.
    fn new(trie: &'a BitTrie<K, V>) -> (r: Self)
        requires
            trie.wf(),
        ensures
            r.wf(),
            r.trie() == *trie,
            r.position() is None,
            trie.arena@.len() > 0 ==> r.frames() == seq![(0u32, BEFORE_FIRST)],
            trie.arena@.len() == 0 ==> r.frames().len() == 0,
    {
        if trie.arena.len() == 0 {
            return BitIter { trie, stack: Vec::new() };
        }
        let mut stack: Vec<(u32, u8)> = Vec::new();
        stack.push((0, BEFORE_FIRST));
        proof {
            lemma_linked_push(*trie, Seq::<(u32, u8)>::empty(), (0u32, BEFORE_FIRST));
            assert(stack@ =~= Seq::<(u32, u8)>::empty().push((0u32, BEFORE_FIRST)));
        }
        BitIter { trie, stack }
    }

    /// A cursor positioned on the last key.
    fn new_last(trie: &'a BitTrie<K, V>) -> (r: Self)
        requires
            trie.wf(),
        ensures
            r.wf(),
            r.trie() == *trie,
            is_last_descent(*trie, r.frames()),
            trie.arena@.len() > 0 && has_entry(*trie, 0) ==> r.frames().len() > 0,
            trie.arena@.len() == 0 ==> r.frames().len() == 0,
            trie.key_seq().len() > 1 ==> r.position() is Some,
    {
        proof {
            if trie.key_seq().len() > 1 {
                trie.lemma_complete_at(1);
            }
        }
        if trie.arena.len() == 0 {
            return BitIter { trie, stack: Vec::new() };
        }
        proof {
            trie.lemma_keyed_at(0, 0);
        }
        let mut iter = BitIter { trie, stack: Vec::new() };
        iter.descend_last(0);
        proof {
            assert(iter.frames().subrange(0, 0) =~= Seq::<(u32, u8)>::empty());
        }
        iter
    }

    /// Push a frame for child `bit` of `idx`, and descend to the first entry
    /// below it when it is internal.
    fn push_child_first(&mut self, idx: u32, bit: u8)
        requires
            old(self).wf(),
            idx < old(self).trie().arena@.len(),
            bit < 2,
            leads_to(old(self).trie(), old(self).frames(), idx as int),
        ensures
            final(self).wf(),
            final(self).trie() == old(self).trie(),
            final(self).frames().len() > old(self).frames().len(),
            final(self).frames().subrange(0, old(self).frames().len() + 1int) == old(self).frames().push((idx, bit)),
            forall|i: int| old(self).frames().len() < i < final(self).frames().len() ==> #[trigger] final(self).frames()[i]
                == first_frame(old(self).trie(), final(self).frames()[i].0 as int),
            forall|i: int| old(self).frames().len() < i < final(self).frames().len() ==> #[trigger] final(self).frames()[i].0
                == old(self).trie().arena@[final(self).frames()[i - 1].0 as int].children[final(self).frames()[i - 1].1 as int],
            old(self).trie().arena@[idx as int].children[bit as int] != 0 ==> final(self).position() is Some,
    {
        self.push_frame((idx, bit));
        proof {
            self.trie().lemma_keyed_at(idx as int, 0);
            if self.trie().arena@[idx as int].children[bit as int] != 0
                && word_is_leaf(self.trie().arena@[idx as int].children[bit as int]) {
                assert(self.trie().leaf_keyed(idx as int, bit as int));
            }
        }
        let node = &self.trie.arena[idx as usize];
        if !node.is_leaf(bit as usize) && !node.is_empty(bit as usize) {
            proof {
                assert(self.trie().is_internal(idx as int, bit as int));
                assert(word_index(node.children[bit as int]) == node.children[bit as int]);
            }
            let ghost mid = self.frames();
            let child = node.child_index(bit as usize);
            proof {
                self.trie().lemma_keyed_at(child as int, 0);
            }
            self.descend_first(child);
            proof {
                assert(self.frames().subrange(0, old(self).frames().len() + 1int)
                    =~= self.frames().subrange(0, mid.len() as int).subrange(0, old(self).frames().len() + 1int));
                assert(mid[mid.len() - 1] == (idx, bit));
                assert(self.frames()[mid.len() - 1] == mid[mid.len() - 1]) by {
                    assert(self.frames().subrange(0, mid.len() as int)[mid.len() - 1] == self.frames()[mid.len() - 1]);
                }
            }
        }
    }

    /// Push a frame for child `bit` of `idx`, and descend to the last entry
    /// below it when it is internal.
    fn push_child_last(&mut self, idx: u32, bit: u8)
        requires
            old(self).wf(),
            idx < old(self).trie().arena@.len(),
            bit < 2,
            leads_to(old(self).trie(), old(self).frames(), idx as int),
        ensures
            final(self).wf(),
            final(self).trie() == old(self).trie(),
            final(self).frames().len() > old(self).frames().len(),
            final(self).frames().subrange(0, old(self).frames().len() + 1int) == old(self).frames().push((idx, bit)),
            forall|i: int| old(self).frames().len() < i < final(self).frames().len() ==> #[trigger] final(self).frames()[i]
                == last_frame(old(self).trie(), final(self).frames()[i].0 as int),
    {
        self.push_frame((idx, bit));
        let node = &self.trie.arena[idx as usize];
        if !node.is_leaf(bit as usize) && !node.is_empty(bit as usize) {
            proof {
                assert(self.trie().is_internal(idx as int, bit as int));
                assert(word_index(node.children[bit as int]) == node.children[bit as int]);
            }
            let ghost mid = self.frames();
            self.descend_last(node.child_index(bit as usize));
            proof {
                assert(self.frames().subrange(0, old(self).frames().len() + 1int)
                    =~= self.frames().subrange(0, mid.len() as int).subrange(0, old(self).frames().len() + 1int));
            }
        }
    }

    /// Descend from node `idx` to its first entry: its terminal value, or the
    /// first entry of its lowest child.
    #[verifier::rlimit(40)]
    fn descend_first(&mut self, idx: u32)
        requires
            old(self).wf(),
            idx < old(self).trie().arena@.len(),
            leads_to(old(self).trie(), old(self).frames(), idx as int),
        ensures
            final(self).wf(),
            final(self).trie() == old(self).trie(),
            final(self).frames().len() >= old(self).frames().len(),
            final(self).frames().subrange(0, old(self).frames().len() as int) == old(self).frames(),
            has_entry(old(self).trie(), idx as int) ==> final(self).frames().len() > old(self).frames().len()
                && final(self).frames()[old(self).frames().len() as int].0 == idx,
            final(self).frames().len() > old(self).frames().len() ==> final(self).position() is Some,
            forall|i: int| old(self).frames().len() <= i < final(self).frames().len() ==> #[trigger] final(self).frames()[i]
                == first_frame(old(self).trie(), final(self).frames()[i].0 as int),
            forall|i: int| old(self).frames().len() < i < final(self).frames().len() ==> #[trigger] final(self).frames()[i].0
                == old(self).trie().arena@[final(self).frames()[i - 1].0 as int].children[final(self).frames()[i - 1].1 as int],
    {
        let ghost idx0 = idx;
        let mut cur = idx;
        let ghost mut steps: int = 0;
        let n = self.trie.arena.len();
        let ghost base = self.frames().len() as int;
        loop
            invariant
                self.wf(),
                self.trie() == old(self).trie(),
                n == self.trie().arena@.len(),
                cur < n,
                base == old(self).frames().len(),
                idx0 == idx,
                leads_to(self.trie(), self.frames(), cur as int),
                self.frames().len() >= base,
                self.frames().subrange(0, base) == old(self).frames(),
                steps >= 0,
                steps == 0 ==> self.frames().len() == base && cur == idx0,
                steps > 0 ==> self.frames().len() > base && self.frames()[base].0 == idx0
                    && cur == self.trie().arena@[self.frames().last().0 as int].children[self.frames().last().1 as int],
                forall|i: int| base <= i < self.frames().len() ==> #[trigger] self.frames()[i]
                    == first_frame(old(self).trie(), self.frames()[i].0 as int),
                forall|i: int| base < i < self.frames().len() ==> #[trigger] self.frames()[i].0
                    == old(self).trie().arena@[self.frames()[i - 1].0 as int].children[self.frames()[i - 1].1 as int],
            decreases 65536 - self.trie().pfx@[cur as int],
        {
            let ghost before = self.frames();
            let node = &self.trie.arena[cur as usize];
            proof {
                self.trie().lemma_keyed_at(cur as int, 0);
            }
            if node.is_terminal() {
                self.push_frame((cur, TERMINAL_POS));
                proof {
                    assert(self.frames().subrange(0, base) =~= before.subrange(0, base));
                    assert(self.frames()[before.len() as int] == (cur, TERMINAL_POS));
                    assert(self.frames()[base].0 == idx0);
                }
                return;
            }
            let bit: usize = if !node.is_empty(0) {
                0
            } else if !node.is_empty(1) {
                1
            } else {
                assert(!has_entry(old(self).trie(), cur as int));
                return;
            };
            self.push_frame((cur, bit as u8));
            proof {
                assert(self.frames().subrange(0, base) =~= before.subrange(0, base));
                assert(self.frames()[before.len() as int] == (cur, bit as u8));
                assert(self.frames()[base].0 == idx0);
            }
            if node.is_leaf(bit) {
                proof {
                    assert(self.trie().leaf_keyed(cur as int, bit as int));
                }
                return;
            }
            proof {
                assert(self.trie().is_internal(cur as int, bit as int));
                assert(self.trie().edge_keyed(cur as int, bit as int));
                assert(word_index(node.children[bit as int]) == node.children[bit as int]);
            }
            cur = node.child_index(bit);
            proof {
                steps = steps + 1;
            }
        }
    }

    /// Descend from node `idx` to its last entry: the last entry of its highest
    /// child, or its terminal value.
    #[verifier::rlimit(40)]
    fn descend_last(&mut self, idx: u32)
        requires
            old(self).wf(),
            idx < old(self).trie().arena@.len(),
            leads_to(old(self).trie(), old(self).frames(), idx as int),
        ensures
            final(self).wf(),
            final(self).trie() == old(self).trie(),
            final(self).frames().len() >= old(self).frames().len(),
            final(self).frames().subrange(0, old(self).frames().len() as int) == old(self).frames(),
            has_entry(old(self).trie(), idx as int) ==> final(self).frames().len() > old(self).frames().len()
                && final(self).frames()[old(self).frames().len() as int].0 == idx,
            final(self).frames().len() > old(self).frames().len() ==> final(self).frames()[old(self).frames().len() as int].0 == idx,
            forall|i: int| old(self).frames().len() <= i < final(self).frames().len() ==> #[trigger] final(self).frames()[i]
                == last_frame(old(self).trie(), final(self).frames()[i].0 as int),
            forall|i: int| old(self).frames().len() < i < final(self).frames().len() ==> #[trigger] final(self).frames()[i].0
                == old(self).trie().arena@[final(self).frames()[i - 1].0 as int].children[final(self).frames()[i - 1].1 as int],
            final(self).frames().len() > old(self).frames().len() ==> final(self).position() is Some,
    {
        let ghost idx0 = idx;
        let mut cur = idx;
        let ghost mut steps: int = 0;
        let n = self.trie.arena.len();
        let ghost base = self.frames().len() as int;
        loop
            invariant
                self.wf(),
                self.trie() == old(self).trie(),
                n == self.trie().arena@.len(),
                cur < n,
                base == old(self).frames().len(),
                idx0 == idx,
                leads_to(self.trie(), self.frames(), cur as int),
                self.frames().len() >= base,
                self.frames().subrange(0, base) == old(self).frames(),
                steps >= 0,
                steps == 0 ==> self.frames().len() == base && cur == idx0,
                steps > 0 ==> self.frames().len() > base && self.frames()[base].0 == idx0
                    && cur == self.trie().arena@[self.frames().last().0 as int].children[self.frames().last().1 as int],
                forall|i: int| base <= i < self.frames().len() ==> #[trigger] self.frames()[i]
                    == last_frame(old(self).trie(), self.frames()[i].0 as int),
                forall|i: int| base < i < self.frames().len() ==> #[trigger] self.frames()[i].0
                    == old(self).trie().arena@[self.frames()[i - 1].0 as int].children[self.frames()[i - 1].1 as int],
            decreases 65536 - self.trie().pfx@[cur as int],
        {
            let ghost before = self.frames();
            let node = &self.trie.arena[cur as usize];
            let bit: usize = if !node.is_empty(1) {
                1
            } else if !node.is_empty(0) {
                0
            } else {
                if node.is_terminal() {
                    self.push_frame((cur, TERMINAL_POS));
                    proof {
                        assert(self.frames().subrange(0, base) =~= before.subrange(0, base));
                        assert(self.frames()[before.len() as int] == (cur, TERMINAL_POS));
                        assert(self.frames()[base].0 == idx0);
                    }
                } else {
                    assert(!has_entry(old(self).trie(), cur as int));
                    proof {
                        self.trie().lemma_keyed_at(cur as int, 0);
                    }
                }
                return;
            };
            self.push_frame((cur, bit as u8));
            proof {
                assert(self.frames().subrange(0, base) =~= before.subrange(0, base));
                assert(self.frames()[before.len() as int] == (cur, bit as u8));
                assert(self.frames()[base].0 == idx0);
            }
            if node.is_leaf(bit) {
                proof {
                    assert(self.trie().leaf_keyed(cur as int, bit as int)) by {
                        self.trie().lemma_keyed_at(cur as int, 0);
                    }
                }
                return;
            }
            proof {
                assert(self.trie().is_internal(cur as int, bit as int));
                assert(self.trie().edge_keyed(cur as int, bit as int)) by {
                    self.trie().lemma_keyed_at(cur as int, 0);
                }
                assert(word_index(node.children[bit as int]) == node.children[bit as int]);
            }
            cur = node.child_index(bit);
            proof {
                steps = steps + 1;
            }
        }
    }

    /// The key and value the cursor is positioned on.
    pub fn current(&self) -> (r: Option<(&[u8], &V)>)
        requires
            self.wf(),
        ensures
            r matches Some(kv) ==> self.position() matches Some(ki) && 1 <= ki < self.trie().key_seq().len()
                && kv.0@ == self.trie().key_seq()[ki] && *kv.1 == self.trie().values@[ki - 1],
            r is None ==> !(self.position() matches Some(ki) && 1 <= ki < self.trie().key_seq().len()),
            r is None <==> self.position() is None,
    {
        proof {
            self.lemma_position_valid();
        }
        let ki = match self.current_index() {
            Some(ki) => ki,
            None => return None,
        };
        if ki == 0 || ki >= self.trie.keys.len() + 1 {
            return None;
        }
        let key = self.trie.keys.key_bytes(ki as u32);
        let value = &self.trie.values[ki - 1];
        Some((key, value))
    }

    /// The key index the cursor is positioned on is a real key's.
    pub proof fn lemma_position_valid(self)
        requires
            self.wf(),
        ensures
            self.position() matches Some(ki) ==> 1 <= ki < self.trie().key_seq().len(),
    {
        if self.frames().len() > 0 {
            let f = self.frames().last();
            assert(frame_ok(self.trie(), self.frames()[self.frames().len() - 1]));
            self.trie().lemma_keyed_at(f.0 as int, 0);
            if f.1 < 2 && word_is_leaf(self.trie().arena@[f.0 as int].children[f.1 as int]) {
                assert(self.trie().arena@[f.0 as int].children[f.1 as int] != 0);
                assert(self.trie().leaf_keyed(f.0 as int, f.1 as int));
            }
        }
    }

    /// The key index the cursor is positioned on.
    pub fn current_index(&self) -> (r: Option<usize>)
        requires
            self.wf(),
        ensures
            r matches Some(i) ==> self.position() == Some(i as int),
            r is None ==> self.position() is None,
            r matches Some(i) ==> 1 <= i < self.trie().key_seq().len()
                && self.trie().lookup(self.trie().key_seq()[i as int]) == Some(i as int),
    {
        proof {
            self.lemma_position_valid();
            if self.position() is Some {
                self.trie().lemma_complete_at(self.position()->0);
            }
        }
        if self.stack.len() == 0 {
            return None;
        }
        let (arena_idx, which) = self.stack[self.stack.len() - 1];
        if which == BEFORE_FIRST {
            return None;
        }
        proof {
            assert(frame_ok(self.trie(), self.frames().last()));
        }
        let node = &self.trie.arena[arena_idx as usize];
        if which == TERMINAL_POS {
            Some(node.leaf_key_index_val() as usize)
        } else {
            match node.leaf_key_index(which as usize) {
                Some(ki) => Some(ki as usize),
                None => None,
            }
        }
    }

    /// Move to the next entry in walk order. `false` when the walk is exhausted.
    fn advance_next(&mut self) -> (r: bool)
        requires
            old(self).wf(),
        ensures
            final(self).wf(),
            final(self).trie() == old(self).trie(),
            r ==> walk_before(old(self).frames(), final(self).frames()),
            r ==> final(self).frames().len() > 0,
            !r ==> final(self).frames().len() == 0,
            !r ==> forall|i: int| 0 <= i < old(self).frames().len() ==> !has_later(old(self).trie(), #[trigger] old(self).frames()[i]),
            r && old(self).frames() == seq![(0u32, BEFORE_FIRST)] ==> is_first_descent(old(self).trie(), final(self).frames()),
            r ==> exists|m: int| #[trigger] stepped_at(old(self).trie(), old(self).frames(), final(self).frames(), m),
    {
        loop
            invariant
                self.wf(),
                self.trie() == old(self).trie(),
                self.frames().len() <= old(self).frames().len(),
                self.frames() == old(self).frames().subrange(0, self.frames().len() as int),
                forall|i: int| self.frames().len() <= i < old(self).frames().len() ==> !has_later(old(self).trie(), #[trigger] old(self).frames()[i]),
            decreases self.frames().len(),
        {
            let ghost before = self.frames();
            let (arena_idx, which) = match self.stack.pop() {
                Some(v) => v,
                None => return false,
            };
            let ghost k = self.frames().len() as int;
            proof {
                lemma_linked_pop(self.trie(), before);
                assert(self.frames() =~= before.drop_last());
                assert(frame_ok(self.trie(), (arena_idx, which)));
                assert(before[k] == (arena_idx, which));
                assert(old(self).frames()[k] == (arena_idx, which));
                assert(self.frames() =~= old(self).frames().subrange(0, k));
            }
            let node = &self.trie.arena[arena_idx as usize];
            if which == TERMINAL_POS {
                if !node.is_empty(0) {
                    self.push_child_first(arena_idx, 0);
                    proof {
                        lemma_moved_on(old(self).frames(), self.frames(), k, (arena_idx, 0));
                        assert(self.frames()[k] == self.frames().subrange(0, k + 1)[k]);
                        assert(stepped_at(self.trie(), old(self).frames(), self.frames(), k));
                    }
                    return true;
                }
                if !node.is_empty(1) {
                    self.push_child_first(arena_idx, 1);
                    proof {
                        lemma_moved_on(old(self).frames(), self.frames(), k, (arena_idx, 1));
                        assert(self.frames()[k] == self.frames().subrange(0, k + 1)[k]);
                        assert(stepped_at(self.trie(), old(self).frames(), self.frames(), k));
                    }
                    return true;
                }
            } else if which == BEFORE_FIRST {
                if node.is_terminal() {
                    self.push_frame((arena_idx, TERMINAL_POS));
                    proof {
                        lemma_moved_on(old(self).frames(), self.frames(), k, (arena_idx, TERMINAL_POS));
                        assert(self.frames()[k] == self.frames().subrange(0, k + 1)[k]);
                        assert(stepped_at(self.trie(), old(self).frames(), self.frames(), k));
                    }
                    return true;
                }
                if !node.is_empty(0) {
                    self.push_child_first(arena_idx, 0);
                    proof {
                        lemma_moved_on(old(self).frames(), self.frames(), k, (arena_idx, 0));
                        assert(self.frames()[k] == self.frames().subrange(0, k + 1)[k]);
                        assert(stepped_at(self.trie(), old(self).frames(), self.frames(), k));
                        if old(self).frames() == seq![(0u32, BEFORE_FIRST)] {
                            assert(self.frames()[0] == self.frames().subrange(0, 1)[0]);
                        }
                    }
                    return true;
                }
                if !node.is_empty(1) {
                    self.push_child_first(arena_idx, 1);
                    proof {
                        lemma_moved_on(old(self).frames(), self.frames(), k, (arena_idx, 1));
                        assert(self.frames()[k] == self.frames().subrange(0, k + 1)[k]);
                        assert(stepped_at(self.trie(), old(self).frames(), self.frames(), k));
                        if old(self).frames() == seq![(0u32, BEFORE_FIRST)] {
                            assert(self.frames()[0] == self.frames().subrange(0, 1)[0]);
                        }
                    }
                    return true;
                }
            } else if which == 0 {
                if !node.is_empty(1) {
                    self.push_child_first(arena_idx, 1);
                    proof {
                        lemma_moved_on(old(self).frames(), self.frames(), k, (arena_idx, 1));
                        assert(self.frames()[k] == self.frames().subrange(0, k + 1)[k]);
                        assert(stepped_at(self.trie(), old(self).frames(), self.frames(), k));
                    }
                    return true;
                }
            }
        }
    }

    /// Move to the previous entry in walk order. `false` when the walk is
    /// exhausted.
    fn advance_prev(&mut self) -> (r: bool)
        requires
            old(self).wf(),
        ensures
            final(self).wf(),
            final(self).trie() == old(self).trie(),
            r ==> walk_before(final(self).frames(), old(self).frames()),
            r ==> final(self).frames().len() > 0,
            !r ==> final(self).frames().len() == 0,
            !r ==> forall|i: int| 0 <= i < old(self).frames().len() ==> !has_earlier(old(self).trie(), #[trigger] old(self).frames()[i]),
            r ==> exists|m: int| #[trigger] stepped_back_at(old(self).trie(), old(self).frames(), final(self).frames(), m),
    {
        loop
            invariant
                self.wf(),
                self.trie() == old(self).trie(),
                self.frames().len() <= old(self).frames().len(),
                self.frames() == old(self).frames().subrange(0, self.frames().len() as int),
                forall|i: int| self.frames().len() <= i < old(self).frames().len() ==> !has_earlier(old(self).trie(), #[trigger] old(self).frames()[i]),
            decreases self.frames().len(),
        {
            let ghost before = self.frames();
            let (arena_idx, which) = match self.stack.pop() {
                Some(v) => v,
                None => return false,
            };
            let ghost k = self.frames().len() as int;
            proof {
                lemma_linked_pop(self.trie(), before);
                assert(self.frames() =~= before.drop_last());
                assert(frame_ok(self.trie(), (arena_idx, which)));
                assert(before[k] == (arena_idx, which));
                assert(old(self).frames()[k] == (arena_idx, which));
                assert(self.frames() =~= old(self).frames().subrange(0, k));
            }
            if which < 2 {
                let node = &self.trie.arena[arena_idx as usize];
                if which == 1 && !node.is_empty(0) {
                    self.push_child_last(arena_idx, 0);
                    proof {
                        lemma_moved_back(old(self).frames(), self.frames(), k, (arena_idx, 0));
                        assert(self.frames()[k] == self.frames().subrange(0, k + 1)[k]);
                        assert(self.frames().subrange(0, k) =~= self.frames().subrange(0, k + 1).subrange(0, k));
                        assert(stepped_back_at(self.trie(), old(self).frames(), self.frames(), k));
                    }
                    return true;
                }
                if node.is_terminal() {
                    self.push_frame((arena_idx, TERMINAL_POS));
                    proof {
                        lemma_moved_back(old(self).frames(), self.frames(), k, (arena_idx, TERMINAL_POS));
                        assert(self.frames()[k] == (arena_idx, TERMINAL_POS));
                        assert(self.frames().subrange(0, k) =~= old(self).frames().subrange(0, k));
                        assert(stepped_back_at(self.trie(), old(self).frames(), self.frames(), k));
                    }
                    return true;
                }
            }
        }
    }

    /// Advance to the next key and return its key and value.
    pub fn next(&mut self) -> (r: Option<(&[u8], &V)>)
        requires
            old(self).wf(),
        ensures
            final(self).wf(),
            final(self).trie() == old(self).trie(),
            r matches Some(kv) ==> final(self).position() matches Some(ki) && 1 <= ki < final(self).trie().key_seq().len()
                && kv.0@ == final(self).trie().key_seq()[ki] && *kv.1 == final(self).trie().values@[ki - 1],
            r is None ==> final(self).frames().len() == 0
                || !(final(self).position() matches Some(ki) && 1 <= ki < final(self).trie().key_seq().len()),
            final(self).frames().len() == 0 || walk_before(old(self).frames(), final(self).frames()),
            final(self).frames().len() == 0 ==> forall|i: int| 0 <= i < old(self).frames().len()
                ==> !has_later(old(self).trie(), #[trigger] old(self).frames()[i]),
            r matches Some(kv) ==> old(self).position() matches Some(i)
                ==> lex_lt(old(self).trie().key_seq()[i], kv.0@),
            r matches Some(kv) ==> old(self).frames() == seq![(0u32, BEFORE_FIRST)]
                ==> forall|i: int| 1 <= i < old(self).trie().key_seq().len() && old(self).trie().key_seq()[i] != kv.0@
                ==> #[trigger] lex_lt(kv.0@, old(self).trie().key_seq()[i]),
            r matches Some(kv) ==> old(self).position() matches Some(ia)
                ==> forall|i: int| 1 <= i < old(self).trie().key_seq().len()
                    && #[trigger] lex_lt(old(self).trie().key_seq()[ia], old(self).trie().key_seq()[i])
                ==> kv.0@ == old(self).trie().key_seq()[i] || lex_lt(kv.0@, old(self).trie().key_seq()[i]),
            final(self).frames().len() == 0 ==> (old(self).position() matches Some(ia)
                ==> forall|i: int| 1 <= i < old(self).trie().key_seq().len()
                ==> !#[trigger] lex_lt(old(self).trie().key_seq()[ia], old(self).trie().key_seq()[i])),
    {
        if self.advance_next() {
            let r = self.current();
            proof {
                if r is Some && old(self).position() is Some {
                    let t = self.trie();
                    let o = old(self).frames();
                    let nf = self.frames();
                    let ia = old(self).position()->0;
                    let kn = self.position()->0;
                    assert(leads_to(t, o.subrange(0, 0), o[0].0 as int));
                    assert forall|i: int| 1 <= i < t.key_seq().len()
                        && #[trigger] lex_lt(t.key_seq()[ia], t.key_seq()[i])
                        implies t.key_seq()[kn] == t.key_seq()[i] || lex_lt(t.key_seq()[kn], t.key_seq()[i]) by {
                        t.lemma_complete_at(i);
                        let pl = t.root_prefix_len as int;
                        let key = t.key_seq()[i];
                        lemma_descent_frames(t, 0, pl, key, i);
                        let p = descent_frames(t, 0, pl, key);
                        lemma_joined_linked(t, p);
                        assert(o.subrange(0, 0) =~= p.subrange(0, 0));
                        lemma_walk_total(t, o, p, 0);
                        if o == p {
                            assert(i == ia);
                        } else if walk_before(p, o) {
                            lemma_walk_order(t, p, o, i, ia);
                            lemma_lex_asym(t.key_seq()[ia], t.key_seq()[i]);
                        } else {
                            let m = choose|m: int| #[trigger] stepped_at(t, o, nf, m);
                            lemma_step_successor(t, o, nf, m, p);
                            if p != nf {
                                lemma_walk_order(t, nf, p, kn, i);
                            }
                        }
                    }
                }
                if r is Some && old(self).position() is Some {
                    lemma_walk_order(self.trie(), old(self).frames(), self.frames(),
                        old(self).position()->0, self.position()->0);
                }
                if r is Some && old(self).frames() == seq![(0u32, BEFORE_FIRST)] {
                    let t = self.trie();
                    let f = self.frames();
                    let kf = self.position()->0;
                    assert forall|i: int| 1 <= i < t.key_seq().len() && t.key_seq()[i] != t.key_seq()[kf]
                        implies #[trigger] lex_lt(t.key_seq()[kf], t.key_seq()[i]) by {
                        t.lemma_complete_at(i);
                        let pl = t.root_prefix_len as int;
                        let key = t.key_seq()[i];
                        lemma_descent_frames(t, 0, pl, key, i);
                        let p = descent_frames(t, 0, pl, key);
                        lemma_joined_linked(t, p);
                        assert(p.subrange(0, 0) =~= f.subrange(0, 0));
                        lemma_first_descent_min(t, f, p, 0);
                        if p == f {
                            assert(false);
                        }
                        lemma_walk_order(t, f, p, kf, i);
                    }
                }
            }
            r
        } else {
            proof {
                if old(self).position() is Some {
                    let t = old(self).trie();
                    let o = old(self).frames();
                    let ia = old(self).position()->0;
                    assert(leads_to(t, o.subrange(0, 0), o[0].0 as int));
                    assert forall|i: int| 1 <= i < t.key_seq().len()
                        implies !#[trigger] lex_lt(t.key_seq()[ia], t.key_seq()[i]) by {
                        if lex_lt(t.key_seq()[ia], t.key_seq()[i]) {
                            t.lemma_complete_at(i);
                            let pl = t.root_prefix_len as int;
                            let key = t.key_seq()[i];
                            lemma_descent_frames(t, 0, pl, key, i);
                            let p = descent_frames(t, 0, pl, key);
                            lemma_joined_linked(t, p);
                            assert(o.subrange(0, 0) =~= p.subrange(0, 0));
                            lemma_walk_total(t, o, p, 0);
                            if o == p {
                                assert(i == ia);
                            } else if walk_before(p, o) {
                                lemma_walk_order(t, p, o, i, ia);
                                lemma_lex_asym(t.key_seq()[ia], t.key_seq()[i]);
                            } else {
                                let k = choose|k: int| #[trigger] moved_on_at(o, p, k);
                                assert(frame_ok(t, p[k]) && entry_held(t, p[k]));
                                if k < p.len() - 1 {
                                    assert(joined_at(t, p, k + 1));
                                }
                                assert(p[k].1 != BEFORE_FIRST);
                                assert(held_at(t, o[k].0 as int, p[k].1));
                                assert(!has_later(t, o[k]));
                            }
                        }
                    }
                }
            }
            None
        }
    }

    /// Step back to the previous key and return its key and value.
    pub fn prev(&mut self) -> (r: Option<(&[u8], &V)>)
        requires
            old(self).wf(),
        ensures
            final(self).wf(),
            final(self).trie() == old(self).trie(),
            r matches Some(kv) ==> final(self).position() matches Some(ki) && 1 <= ki < final(self).trie().key_seq().len()
                && kv.0@ == final(self).trie().key_seq()[ki] && *kv.1 == final(self).trie().values@[ki - 1],
            r is None ==> final(self).frames().len() == 0
                || !(final(self).position() matches Some(ki) && 1 <= ki < final(self).trie().key_seq().len()),
            final(self).frames().len() == 0 || walk_before(final(self).frames(), old(self).frames()),
            final(self).frames().len() == 0 ==> forall|i: int| 0 <= i < old(self).frames().len()
                ==> !has_earlier(old(self).trie(), #[trigger] old(self).frames()[i]),
            r matches Some(kv) ==> old(self).position() matches Some(i)
                ==> lex_lt(kv.0@, old(self).trie().key_seq()[i]),
            r matches Some(kv) ==> old(self).position() matches Some(ia)
                ==> forall|i: int| 1 <= i < old(self).trie().key_seq().len()
                    && #[trigger] lex_lt(old(self).trie().key_seq()[i], old(self).trie().key_seq()[ia])
                ==> kv.0@ == old(self).trie().key_seq()[i] || lex_lt(old(self).trie().key_seq()[i], kv.0@),
            final(self).frames().len() == 0 ==> (old(self).position() matches Some(ia)
                ==> forall|i: int| 1 <= i < old(self).trie().key_seq().len()
                ==> !#[trigger] lex_lt(old(self).trie().key_seq()[i], old(self).trie().key_seq()[ia])),
    {
        if self.advance_prev() {
            let r = self.current();
            proof {
                if r is Some && old(self).position() is Some {
                    lemma_walk_order(self.trie(), self.frames(), old(self).frames(),
                        self.position()->0, old(self).position()->0);
                    let t = self.trie();
                    let o = old(self).frames();
                    let nf = self.frames();
                    let ia = old(self).position()->0;
                    let kn = self.position()->0;
                    assert(leads_to(t, o.subrange(0, 0), o[0].0 as int));
                    assert forall|i: int| 1 <= i < t.key_seq().len()
                        && #[trigger] lex_lt(t.key_seq()[i], t.key_seq()[ia])
                        implies t.key_seq()[kn] == t.key_seq()[i] || lex_lt(t.key_seq()[i], t.key_seq()[kn]) by {
                        t.lemma_complete_at(i);
                        let pl = t.root_prefix_len as int;
                        let key = t.key_seq()[i];
                        lemma_descent_frames(t, 0, pl, key, i);
                        let p = descent_frames(t, 0, pl, key);
                        lemma_joined_linked(t, p);
                        assert(o.subrange(0, 0) =~= p.subrange(0, 0));
                        lemma_walk_total(t, o, p, 0);
                        if o == p {
                            assert(i == ia);
                        } else if walk_before(o, p) {
                            lemma_walk_order(t, o, p, ia, i);
                            lemma_lex_asym(t.key_seq()[i], t.key_seq()[ia]);
                        } else {
                            let m = choose|m: int| #[trigger] stepped_back_at(t, o, nf, m);
                            lemma_step_predecessor(t, o, nf, m, p);
                            if p != nf {
                                lemma_walk_order(t, p, nf, i, kn);
                            }
                        }
                    }
                }
            }
            r
        } else {
            proof {
                if old(self).position() is Some {
                    let t = old(self).trie();
                    let o = old(self).frames();
                    let ia = old(self).position()->0;
                    assert(leads_to(t, o.subrange(0, 0), o[0].0 as int));
                    assert forall|i: int| 1 <= i < t.key_seq().len()
                        implies !#[trigger] lex_lt(t.key_seq()[i], t.key_seq()[ia]) by {
                        if lex_lt(t.key_seq()[i], t.key_seq()[ia]) {
                            t.lemma_complete_at(i);
                            let pl = t.root_prefix_len as int;
                            let key = t.key_seq()[i];
                            lemma_descent_frames(t, 0, pl, key, i);
                            let p = descent_frames(t, 0, pl, key);
                            lemma_joined_linked(t, p);
                            assert(o.subrange(0, 0) =~= p.subrange(0, 0));
                            lemma_walk_total(t, o, p, 0);
                            if o == p {
                                assert(i == ia);
                            } else if walk_before(o, p) {
                                lemma_walk_order(t, o, p, ia, i);
                                lemma_lex_asym(t.key_seq()[i], t.key_seq()[ia]);
                            } else {
                                let k = choose|k: int| #[trigger] moved_on_at(p, o, k);
                                assert(frame_ok(t, p[k]) && entry_held(t, p[k]));
                                if k < p.len() - 1 {
                                    assert(joined_at(t, p, k + 1));
                                }
                                assert(p[k].1 != BEFORE_FIRST);
                                assert(held_at(t, o[k].0 as int, p[k].1));
                                assert(frame_ok(t, o[k]));
                                assert(!has_earlier(t, o[k]));
                            }
                        }
                    }
                }
            }
            None
        }
    }

    /// Advance as [`Self::next`] and return the key index reached.
    pub fn next_index(&mut self) -> (r: Option<usize>)
        requires
            old(self).wf(),
        ensures
            final(self).wf(),
            final(self).trie() == old(self).trie(),
            r matches Some(i) ==> final(self).position() == Some(i as int),
            r is None ==> final(self).frames().len() == 0 || final(self).position() is None,
            final(self).frames().len() == 0 || walk_before(old(self).frames(), final(self).frames()),
            final(self).frames().len() == 0 ==> forall|i: int| 0 <= i < old(self).frames().len()
                ==> !has_later(old(self).trie(), #[trigger] old(self).frames()[i]),
            r matches Some(j) ==> old(self).position() matches Some(i)
                ==> lex_lt(old(self).trie().key_seq()[i], old(self).trie().key_seq()[j as int]),
    {
        if self.advance_next() {
            let r = self.current_index();
            proof {
                if r is Some && old(self).position() is Some {
                    lemma_walk_order(self.trie(), old(self).frames(), self.frames(),
                        old(self).position()->0, self.position()->0);
                }
            }
            r
        } else {
            None
        }
    }

    /// Step back as [`Self::prev`] and return the key index reached.
    pub fn prev_index(&mut self) -> (r: Option<usize>)
        requires
            old(self).wf(),
        ensures
            final(self).wf(),
            final(self).trie() == old(self).trie(),
            r matches Some(i) ==> final(self).position() == Some(i as int),
            r is None ==> final(self).frames().len() == 0 || final(self).position() is None,
            final(self).frames().len() == 0 || walk_before(final(self).frames(), old(self).frames()),
            final(self).frames().len() == 0 ==> forall|i: int| 0 <= i < old(self).frames().len()
                ==> !has_earlier(old(self).trie(), #[trigger] old(self).frames()[i]),
            r matches Some(j) ==> old(self).position() matches Some(i)
                ==> lex_lt(old(self).trie().key_seq()[j as int], old(self).trie().key_seq()[i]),
    {
        if self.advance_prev() {
            let r = self.current_index();
            proof {
                if r is Some && old(self).position() is Some {
                    lemma_walk_order(self.trie(), self.frames(), old(self).frames(),
                        self.position()->0, old(self).position()->0);
                }
            }
            r
        } else {
            None
        }
    }

    /// Position on the first key `>= key` in walk order and return it.
    pub fn seek(&mut self, key: &[u8]) -> (r: Option<(&[u8], &V)>)
        requires
            old(self).wf(),
            key@.len() * 8 <= usize::MAX,
        ensures
            final(self).wf(),
            final(self).trie() == old(self).trie(),
            r matches Some(kv) ==> final(self).position() matches Some(ki) && 1 <= ki < final(self).trie().key_seq().len()
                && kv.0@ == final(self).trie().key_seq()[ki] && *kv.1 == final(self).trie().values@[ki - 1],
            r is None ==> final(self).frames().len() == 0
                || !(final(self).position() matches Some(ki) && 1 <= ki < final(self).trie().key_seq().len()),
            old(self).trie().lookup(key@) matches Some(i) ==> r is Some && final(self).position() == Some(i),
            (exists|j: int| 1 <= j < old(self).trie().key_seq().len() && is_prefix_of(key@, old(self).trie().key_seq()[j]))
                ==> (r matches Some(kv) && !lex_lt(kv.0@, key@)
                && forall|i: int| 1 <= i < old(self).trie().key_seq().len() && !lex_lt(old(self).trie().key_seq()[i], key@)
                ==> kv.0@ == old(self).trie().key_seq()[i] || #[trigger] lex_lt(kv.0@, old(self).trie().key_seq()[i])),
    {
        self.stack.clear();
        if self.trie.arena.len() == 0 {
            proof {
                if exists|j: int| 1 <= j < old(self).trie().key_seq().len() && is_prefix_of(key@, old(self).trie().key_seq()[j]) {
                    old(self).trie().lemma_complete_at(choose|j: int| 1 <= j < old(self).trie().key_seq().len()
                        && is_prefix_of(key@, old(self).trie().key_seq()[j]));
                }
            }
            return None;
        }
        let mut node_idx: u32 = 0;
        let mut prefix_len: usize = self.trie.root_prefix_len as usize;
        let max_bits = key.len() * 8;
        let ghost t = self.trie();
        let ghost h = exists|j: int| 1 <= j < t.key_seq().len() && is_prefix_of(key@, t.key_seq()[j]);
        let ghost jk = choose|j: int| 1 <= j < t.key_seq().len() && is_prefix_of(key@, t.key_seq()[j]);
        proof {
            t.lemma_keyed_at(0, 0);
            lemma_seek_start(t, key@);
            assert(self.frames() =~= Seq::<(u32, u8)>::empty());
            if h {
                assert(path_through(t, jk, Seq::empty(), 0));
            }
        }
        loop
            invariant
                self.wf(),
                self.trie() == old(self).trie(),
                t == self.trie(),
                self.trie().arena@.len() > 0,
                node_idx < self.trie().arena@.len(),
                prefix_len < 65536,
                prefix_len == t.pfx@[node_idx as int],
                max_bits == key@.len() * 8,
                t.descend(0, t.root_prefix_len as int, key@) == t.descend(node_idx as int, prefix_len as int, key@),
                leads_to(t, self.frames(), node_idx as int),
                h == (exists|j: int| 1 <= j < t.key_seq().len() && is_prefix_of(key@, t.key_seq()[j])),
                h ==> 1 <= jk < t.key_seq().len() && is_prefix_of(key@, t.key_seq()[jk]),
                h ==> seek_covers(t, key@, self.frames(), node_idx as int),
                h ==> path_through(t, jk, self.frames(), node_idx as int),
            decreases 65536 - prefix_len,
        {
            let node = &self.trie.arena[node_idx as usize];
            let ghost fr = self.frames();
            proof {
                t.lemma_keyed_at(node_idx as int, 0);
            }
            if prefix_len >= max_bits {
                if node.is_terminal() {
                    self.push_frame((node_idx, TERMINAL_POS));
                    let r = self.current();
                    proof {
                        if h {
                            lemma_seek_end_terminal(t, key@, fr, node_idx as int, jk, self.frames());
                        }
                    }
                    return r;
                }
                if !node.is_empty(0) {
                    self.push_child_first(node_idx, 0);
                    let r = self.current();
                    proof {
                        if h {
                            let nf = self.frames();
                            assert(nf[fr.len() as int] == nf.subrange(0, fr.len() + 1int)[fr.len() as int]);
                            assert(nf.subrange(0, fr.len() as int) =~= nf.subrange(0, fr.len() + 1int).subrange(0, fr.len() as int));
                            assert(nf.subrange(0, fr.len() + 1int).subrange(0, fr.len() as int) =~= fr);
                            lemma_seek_end_first(t, key@, fr, node_idx as int, jk, nf, self.position()->0);
                        }
                    }
                    return r;
                }
                if !node.is_empty(1) {
                    self.push_child_first(node_idx, 1);
                    let r = self.current();
                    proof {
                        if h {
                            let nf = self.frames();
                            assert(nf[fr.len() as int] == nf.subrange(0, fr.len() + 1int)[fr.len() as int]);
                            assert(nf.subrange(0, fr.len() as int) =~= nf.subrange(0, fr.len() + 1int).subrange(0, fr.len() as int));
                            assert(nf.subrange(0, fr.len() + 1int).subrange(0, fr.len() as int) =~= fr);
                            lemma_seek_end_first(t, key@, fr, node_idx as int, jk, nf, self.position()->0);
                        }
                    }
                    return r;
                }
                return self.next();
            }
            let bit = key_bit_at(key, prefix_len) as usize;
            let child = node.children[bit];
            proof {
                if h {
                    lemma_seek_child_present(t, key@, fr, node_idx as int, jk);
                }
            }
            if child != 0 {
                if node.is_leaf(bit) {
                    self.push_frame((node_idx, bit as u8));
                    proof {
                        if h {
                            lemma_seek_end_leaf(t, key@, fr, node_idx as int, jk);
                        }
                    }
                    let ki = node.child_index(bit);
                    if ki >= 1 && (ki as usize) < self.trie.keys.len() + 1 {
                        let leaf_key = self.trie.keys.key_bytes(ki);
                        if crate::nibble_trie::bytes_ge(leaf_key, key) {
                            return self.current();
                        }
                    }
                    return self.next();
                }
                proof {
                    assert(self.trie().is_internal(node_idx as int, bit as int));
                    assert(self.trie().edge_keyed(node_idx as int, bit as int));
                }
                let next_pl = node.prefix_lens[bit] as usize;
                if next_pl <= prefix_len {
                    self.stack.clear();
                    return None;
                }
                proof {
                    if h {
                        lemma_seek_advance(t, key@, fr, node_idx as int, jk);
                    }
                }
                self.push_frame((node_idx, bit as u8));
                prefix_len = next_pl;
                node_idx = child;
                continue;
            }
            if bit == 0 && !node.is_empty(1) {
                self.push_child_first(node_idx, 1);
                return self.current();
            }
            if node.is_terminal() && bit == 0 {
                let ki = node.leaf_key_index_val();
                if ki >= 1 && (ki as usize) < self.trie.keys.len() + 1 {
                    let term_key = self.trie.keys.key_bytes(ki);
                    if crate::nibble_trie::bytes_ge(term_key, key) {
                        self.push_frame((node_idx, TERMINAL_POS));
                        return self.current();
                    }
                }
            }
            return self.backtrack();
        }
    }

    /// Pop frames until one has an entry after it, and position on that entry.
    fn backtrack(&mut self) -> (r: Option<(&[u8], &V)>)
        requires
            old(self).wf(),
        ensures
            final(self).wf(),
            final(self).trie() == old(self).trie(),
            r matches Some(kv) ==> final(self).position() matches Some(ki) && 1 <= ki < final(self).trie().key_seq().len()
                && kv.0@ == final(self).trie().key_seq()[ki] && *kv.1 == final(self).trie().values@[ki - 1],
            r is None ==> final(self).frames().len() == 0
                || !(final(self).position() matches Some(ki) && 1 <= ki < final(self).trie().key_seq().len()),
    {
        loop
            invariant
                self.wf(),
                self.trie() == old(self).trie(),
            decreases self.frames().len(),
        {
            let ghost before = self.frames();
            let (parent_idx, parent_bit) = match self.stack.pop() {
                Some(f) => f,
                None => return None,
            };
            proof {
                lemma_linked_pop(self.trie(), before);
                assert(self.frames() =~= before.drop_last());
                assert(frame_ok(self.trie(), (parent_idx, parent_bit)));
            }
            let parent = &self.trie.arena[parent_idx as usize];
            if parent_bit == TERMINAL_POS || parent_bit == BEFORE_FIRST {
                if !parent.is_empty(0) {
                    self.push_child_first(parent_idx, 0);
                    return self.current();
                }
                if !parent.is_empty(1) {
                    self.push_child_first(parent_idx, 1);
                    return self.current();
                }
            } else if parent_bit == 0 {
                if !parent.is_empty(1) {
                    self.push_child_first(parent_idx, 1);
                    return self.current();
                }
            }
        }
    }
}

impl<K: TrieKey, V> BitTrie<K, V> {
    /// A cursor positioned before the first key: the root's before-first
    /// frame, or no frame for an empty trie.
    pub fn iter(&self) -> (r: BitIter<'_, K, V>)
        requires
            self.wf(),
        ensures
            r.wf(),
            r.trie() == *self,
            r.position() is None,
            self.arena@.len() > 0 ==> r.frames() == seq![(0u32, BEFORE_FIRST)],
            self.arena@.len() == 0 ==> r.frames().len() == 0,
    {
        BitIter::new(self)
    }

    /// A cursor positioned on the last key: the frames descend from the root
    /// along the last entry of each node.
    pub fn iter_last(&self) -> (r: BitIter<'_, K, V>)
        requires
            self.wf(),
        ensures
            r.wf(),
            r.trie() == *self,
            is_last_descent(*self, r.frames()),
            self.arena@.len() > 0 && has_entry(*self, 0) ==> r.frames().len() > 0,
            self.arena@.len() == 0 ==> r.frames().len() == 0 && r.position() is None,
            self.key_seq().len() > 1 ==> r.position() is Some,
            r.position() matches Some(kl) ==> forall|i: int| 1 <= i < self.key_seq().len() && i != kl
                ==> #[trigger] lex_lt(self.key_seq()[i], self.key_seq()[kl]),
    {
        let r = BitIter::new_last(self);
        proof {
            if r.position() is Some {
                let kl = r.position()->0;
                let l = r.frames();
                assert forall|i: int| 1 <= i < self.key_seq().len() && i != kl
                    implies #[trigger] lex_lt(self.key_seq()[i], self.key_seq()[kl]) by {
                    self.lemma_complete_at(i);
                    let pl = self.root_prefix_len as int;
                    let key = self.key_seq()[i];
                    lemma_descent_frames(*self, 0, pl, key, i);
                    let p = descent_frames(*self, 0, pl, key);
                    lemma_joined_linked(*self, p);
                    assert(p.subrange(0, 0) =~= l.subrange(0, 0));
                    lemma_last_descent_max(*self, p, l, 0);
                    if p == l {
                        assert(false);
                    }
                    lemma_walk_order(*self, p, l, i, kl);
                }
            }
        }
        r
    }
}
} // verus!
