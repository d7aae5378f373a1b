//! Arena-allocated trie with compact 16-byte nodes and `u8` intra-block addressing.
//!
//! Nodes within a [`Block`] reference each other by `u8` slot index (at most 256
//! slots per block). The `len` field of a [`Node`] determines its kind:
//!   - `len = 0`      → leaf (a `u64` value index packed little-endian into
//!     `symbols[0..4]` and `addrs[0..4]`)
//!   - `len = 1..=7`  → internal node (symbols + child slot addresses)
//!   - `len = 8`      → block reference (a `u32` block index packed into `symbols[0..4]`)
//!
//! Keys are stored null-terminated, so a key must not contain a `0` byte.
//! Lookups skip the bytes covered by a node's `prefix_len` without comparing them
//! and confirm the match against the stored key at the leaf.

use vstd::prelude::*;
use crate::bits::{bit8, lemma_bit8_or, lemma_bit8_and_not, lemma_bit8_zero_all};

verus! {

pub const TAG_LEAF: u8 = 0;
pub const TAG_BLOCK: u8 = 8;
pub const MAX_CHILDREN: usize = 7;
pub const MAX_NODES: usize = 256;

// ── Packed little-endian integers ───────────────────────────────────────

/// The little-endian value of four bytes.
pub open spec fn le4(b0: u8, b1: u8, b2: u8, b3: u8) -> int {
    b0 + 0x100 * b1 + 0x1_0000 * b2 + 0x100_0000 * b3
}

proof fn lemma_u64_bytes(v: u64) by (bit_vector)
    ensures
        v == (v & 0xff) + 0x100 * ((v >> 8u64) & 0xff) + 0x1_0000 * ((v >> 16u64) & 0xff)
            + 0x100_0000 * ((v >> 24u64) & 0xff) + 0x1_0000_0000 * ((v >> 32u64) & 0xff)
            + 0x100_0000_0000 * ((v >> 40u64) & 0xff) + 0x1_0000_0000_0000 * ((v >> 48u64) & 0xff)
            + 0x100_0000_0000_0000 * ((v >> 56u64) & 0xff),
        (v & 0xff) < 256,
        ((v >> 8u64) & 0xff) < 256,
        ((v >> 16u64) & 0xff) < 256,
        ((v >> 24u64) & 0xff) < 256,
        ((v >> 32u64) & 0xff) < 256,
        ((v >> 40u64) & 0xff) < 256,
        ((v >> 48u64) & 0xff) < 256,
        ((v >> 56u64) & 0xff) < 256,
{
}

proof fn lemma_u32_bytes(v: u32) by (bit_vector)
    ensures
        v == (v & 0xff) + 0x100 * ((v >> 8u32) & 0xff) + 0x1_0000 * ((v >> 16u32) & 0xff)
            + 0x100_0000 * ((v >> 24u32) & 0xff),
        (v & 0xff) < 256,
        ((v >> 8u32) & 0xff) < 256,
        ((v >> 16u32) & 0xff) < 256,
        ((v >> 24u32) & 0xff) < 256,
{
}

// ── Node (16 bytes) ────────────────────────────────────────────────────

/// A 16-byte arena slot. Kind determined by `len`:
/// 0 = leaf, 1..=7 = internal, 8 = block reference.
#[derive(Clone, Copy)]
pub struct Node {
    pub prefix_len: u8,
    pub len: u8,
    pub symbols: [u8; MAX_CHILDREN],
    pub addrs: [u8; MAX_CHILDREN],
}

/// First index `j` in `i..n` with `s[j] >= byte`, or `n` when there is none.
pub open spec fn first_ge_from(s: Seq<u8>, n: int, byte: u8, i: int) -> int
    decreases n - i,
{
    if i >= n {
        n
    } else if s[i] >= byte {
        i
    } else {
        first_ge_from(s, n, byte, i + 1)
    }
}

/// First index `j < n` with `s[j] >= byte`, or `n` when there is none.
pub open spec fn first_ge(s: Seq<u8>, n: int, byte: u8) -> int {
    first_ge_from(s, n, byte, 0)
}

/// The position of `byte` among the first `n` entries of `s`, located at the
/// first entry that is not below it.
pub open spec fn find_sym(s: Seq<u8>, n: int, byte: u8) -> Option<int> {
    let lb = first_ge(s, n, byte);
    if lb < n && s[lb] == byte {
        Some(lb)
    } else {
        None
    }
}

/// `first_ge_from` is the unique index with nothing below `byte` before it and,
/// unless it is `n`, an entry not below `byte` at it.
pub proof fn lemma_first_ge_from(s: Seq<u8>, n: int, byte: u8, i: int, r: int)
    requires
        0 <= i <= n,
    ensures
        i <= first_ge_from(s, n, byte, i) <= n,
        forall|j: int| i <= j < first_ge_from(s, n, byte, i) ==> s[j] < byte,
        first_ge_from(s, n, byte, i) < n ==> s[first_ge_from(s, n, byte, i)] >= byte,
        (i <= r <= n && (forall|j: int| i <= j < r ==> s[j] < byte) && (r < n ==> s[r] >= byte))
            ==> r == first_ge_from(s, n, byte, i),
    decreases n - i,
{
    if i < n {
        lemma_first_ge_from(s, n, byte, i + 1, r);
        if i <= r <= n && (forall|j: int| i <= j < r ==> s[j] < byte) && (r < n ==> s[r] >= byte) {
            if r > i {
                assert(s[i] < byte);
            }
        }
    }
}

/// The lower bound of `byte` among the first `n` entries of `s` is the unique
/// `r <= n` with every earlier entry below `byte` and, unless `r == n`, `s[r] >= byte`.
pub proof fn lemma_first_ge(s: Seq<u8>, n: int, byte: u8, r: int)
    requires
        0 <= n,
        0 <= r <= n,
        forall|j: int| 0 <= j < r ==> s[j] < byte,
        r < n ==> s[r] >= byte,
    ensures
        r == first_ge(s, n, byte),
{
    lemma_first_ge_from(s, n, byte, 0, r);
}

impl Node {
    /// The value index packed into a leaf.
    pub open spec fn leaf_value(self) -> int {
        le4(self.symbols[0], self.symbols[1], self.symbols[2], self.symbols[3])
            + 0x1_0000_0000 * le4(self.addrs[0], self.addrs[1], self.addrs[2], self.addrs[3])
    }

    /// The block index packed into a block reference.
    pub open spec fn block_value(self) -> int {
        le4(self.symbols[0], self.symbols[1], self.symbols[2], self.symbols[3])
    }

    pub open spec fn spec_is_internal(self) -> bool {
        1 <= self.len <= MAX_CHILDREN
    }

    /// A leaf holding `value_idx`.
    pub fn leaf(value_idx: u64) -> (r: Self)
        ensures
            r.prefix_len == 0,
            r.len == TAG_LEAF,
            r.leaf_value() == value_idx,
    {
        let v = value_idx;
        proof { lemma_u64_bytes(v); }
        let s0 = (v & 0xff) as u8;
        let s1 = ((v >> 8u64) & 0xff) as u8;
        let s2 = ((v >> 16u64) & 0xff) as u8;
        let s3 = ((v >> 24u64) & 0xff) as u8;
        let a0 = ((v >> 32u64) & 0xff) as u8;
        let a1 = ((v >> 40u64) & 0xff) as u8;
        let a2 = ((v >> 48u64) & 0xff) as u8;
        let a3 = ((v >> 56u64) & 0xff) as u8;
        Node {
            prefix_len: 0,
            len: TAG_LEAF,
            symbols: [s0, s1, s2, s3, 0, 0, 0],
            addrs: [a0, a1, a2, a3, 0, 0, 0],
        }
    }

    /// A reference to block `block_idx`.
    pub fn block_ref(block_idx: u32) -> (r: Self)
        ensures
            r.prefix_len == 0,
            r.len == TAG_BLOCK,
            r.block_value() == block_idx,
    {
        let v = block_idx;
        proof { lemma_u32_bytes(v); }
        let s0 = (v & 0xff) as u8;
        let s1 = ((v >> 8u32) & 0xff) as u8;
        let s2 = ((v >> 16u32) & 0xff) as u8;
        let s3 = ((v >> 24u32) & 0xff) as u8;
        Node {
            prefix_len: 0,
            len: TAG_BLOCK,
            symbols: [s0, s1, s2, s3, 0, 0, 0],
            addrs: [0, 0, 0, 0, 0, 0, 0],
        }
    }

    pub fn is_leaf(&self) -> (r: bool)
        ensures
            r == (self.len == TAG_LEAF),
    {
        self.len == TAG_LEAF
    }

    pub fn is_block_ref(&self) -> (r: bool)
        ensures
            r == (self.len == TAG_BLOCK),
    {
        self.len == TAG_BLOCK
    }

    pub fn is_internal(&self) -> (r: bool)
        ensures
            r == self.spec_is_internal(),
    {
        1 <= self.len && (self.len as usize) <= MAX_CHILDREN
    }

    /// The value index packed into this leaf.
    pub fn value_idx(&self) -> (r: u64)
        requires
            self.len == TAG_LEAF,
        ensures
            r == self.leaf_value(),
    {
        let lo = self.symbols[0] as u64 + 0x100 * (self.symbols[1] as u64)
            + 0x1_0000 * (self.symbols[2] as u64) + 0x100_0000 * (self.symbols[3] as u64);
        let hi = self.addrs[0] as u64 + 0x100 * (self.addrs[1] as u64)
            + 0x1_0000 * (self.addrs[2] as u64) + 0x100_0000 * (self.addrs[3] as u64);
        lo + 0x1_0000_0000 * hi
    }

    /// The block index packed into this block reference.
    pub fn block_idx(&self) -> (r: u32)
        requires
            self.len == TAG_BLOCK,
        ensures
            r == self.block_value(),
    {
        self.symbols[0] as u32 + 0x100 * (self.symbols[1] as u32)
            + 0x1_0000 * (self.symbols[2] as u32) + 0x100_0000 * (self.symbols[3] as u32)
    }

    /// Index of the child labelled `byte`: the scan stops at the first symbol
    /// that is not below `byte`, which must equal it.
    pub fn find_child(&self, byte: u8) -> (r: Option<usize>)
        requires
            self.spec_is_internal(),
        ensures
            r matches Some(i) ==> find_sym(self.symbols@, self.len as int, byte) == Some(i as int) && i < self.len,
            r is None ==> find_sym(self.symbols@, self.len as int, byte) is None,
    {
        let n = self.len as usize;
        let mut i: usize = 0;
        while i < n
            invariant
                n == self.len,
                n <= MAX_CHILDREN,
                0 <= i <= n,
                forall|j: int| 0 <= j < i ==> self.symbols@[j] < byte,
            decreases n - i,
        {
            if self.symbols[i] == byte {
                proof { lemma_first_ge(self.symbols@, n as int, byte, i as int); }
                return Some(i);
            }
            if self.symbols[i] > byte {
                proof { lemma_first_ge(self.symbols@, n as int, byte, i as int); }
                return None;
            }
            i += 1;
        }
        proof { lemma_first_ge(self.symbols@, n as int, byte, n as int); }
        None
    }

    /// Index of the first child whose symbol is not below `byte` (`len` if none).
    pub fn find_child_lower_bound(&self, byte: u8) -> (r: usize)
        requires
            self.spec_is_internal(),
        ensures
            r == first_ge(self.symbols@, self.len as int, byte),
    {
        let n = self.len as usize;
        let mut i: usize = 0;
        while i < n
            invariant
                n == self.len,
                n <= MAX_CHILDREN,
                0 <= i <= n,
                forall|j: int| 0 <= j < i ==> self.symbols@[j] < byte,
            decreases n - i,
        {
            if self.symbols[i] >= byte {
                proof { lemma_first_ge(self.symbols@, n as int, byte, i as int); }
                return i;
            }
            i += 1;
        }
        proof { lemma_first_ge(self.symbols@, n as int, byte, n as int); }
        n
    }
}

// ── Block ──────────────────────────────────────────────────────────────

/// A slot that any arena can start from: an empty leaf.
pub open spec fn blank_node() -> Node {
    Node { prefix_len: 0, len: 0, symbols: [0u8; MAX_CHILDREN], addrs: [0u8; MAX_CHILDREN] }
}

/// An arena block containing up to 256 nodes.
///
/// The root's children are kept outside the arena (`root_symbols`, `root_addrs`)
/// because the root may have more than [`MAX_CHILDREN`] children.
pub struct Block {
    pub prefix_len: u8,
    pub root_len: u8,
    pub root_symbols: Vec<u8>,
    /// Slot indices into `nodes`.
    pub root_addrs: Vec<u8>,
    /// Descendant count per root child.
    pub desc_counts: Vec<u32>,
    /// 256 bits tracking occupied slots of `nodes`.
    pub bitmap: [u8; 32],
    /// Number of occupied slots.
    pub len: u8,
    /// The arena; grows on demand up to [`MAX_NODES`] slots.
    pub nodes: Vec<Node>,
}

impl Block {
    /// Whether slot `s` is marked occupied in the bitmap.
    pub open spec fn used(self, s: int) -> bool {
        bit8(self.bitmap[s / 8], s % 8)
    }

    /// The first `root_len` root symbols are strictly increasing.
    pub open spec fn root_sorted(self) -> bool {
        forall|i: int, j: int| 0 <= i < j < self.root_len ==> self.root_symbols@[i] < self.root_symbols@[j]
    }

    pub open spec fn root_vectors_ok(self) -> bool {
        &&& self.root_symbols@.len() == self.root_len
        &&& self.root_addrs@.len() == self.root_len
        &&& self.desc_counts@.len() == self.root_len
        &&& self.root_sorted()
    }

    /// An empty block whose root skips `prefix_len` key bytes.
    pub fn new(prefix_len: u8) -> (r: Self)
        ensures
            r.prefix_len == prefix_len,
            r.root_len == 0,
            r.root_symbols@.len() == 0,
            r.root_addrs@.len() == 0,
            r.desc_counts@.len() == 0,
            r.len == 0,
            r.nodes@.len() == 0,
            forall|s: int| 0 <= s < MAX_NODES ==> !#[trigger] r.used(s),
    {
        proof { lemma_bit8_zero_all(); }
        Block {
            prefix_len,
            root_len: 0,
            root_symbols: Vec::new(),
            root_addrs: Vec::new(),
            desc_counts: Vec::new(),
            bitmap: [0u8; 32],
            len: 0,
            nodes: Vec::new(),
        }
    }

    /// Occupies the lowest free slot and returns it, growing `nodes` with blank
    /// slots so that it covers the slot; `None` when every slot is occupied.
    pub fn alloc_slot(&mut self) -> (r: Option<u8>)
        requires
            old(self).len < 255 || (forall|s: int| 0 <= s < MAX_NODES ==> #[trigger] old(self).used(s)),
        ensures
            match r {
                Some(s) => {
                    &&& !old(self).used(s as int)
                    &&& forall|t: int| 0 <= t < s ==> #[trigger] old(self).used(t)
                    &&& forall|t: int| 0 <= t < MAX_NODES ==>
                        (#[trigger] final(self).used(t) <==> (old(self).used(t) || t == s))
                    &&& final(self).len == old(self).len + 1
                    &&& final(self).nodes@.len() == (if old(self).nodes@.len() > s as int {
                        old(self).nodes@.len() as int
                    } else {
                        s as int + 1
                    })
                    &&& final(self).nodes@.subrange(0, old(self).nodes@.len() as int) == old(self).nodes@
                    &&& forall|i: int| old(self).nodes@.len() <= i < final(self).nodes@.len()
                        ==> #[trigger] final(self).nodes@[i] == blank_node()
                    &&& final(self).prefix_len == old(self).prefix_len
                    &&& final(self).root_len == old(self).root_len
                    &&& final(self).root_symbols == old(self).root_symbols
                    &&& final(self).root_addrs == old(self).root_addrs
                    &&& final(self).desc_counts == old(self).desc_counts
                },
                None => {
                    &&& forall|s: int| 0 <= s < MAX_NODES ==> #[trigger] old(self).used(s)
                    &&& *final(self) == *old(self)
                },
            },
    {
        if self.len as usize >= MAX_NODES {
            return None;
        }
        let mut byte_idx: usize = 0;
        while byte_idx < 32
            invariant
                0 <= byte_idx <= 32,
                *self == *old(self),
                forall|t: int| 0 <= t < byte_idx * 8 ==> #[trigger] old(self).used(t),
                old(self).len < 255 || (forall|s: int| 0 <= s < MAX_NODES ==> #[trigger] old(self).used(s)),
            decreases 32 - byte_idx,
        {
            let b = self.bitmap[byte_idx];
            if b != 0xFF {
                let tz = (!b).trailing_zeros();
                proof {
                    vstd::std_specs::bits::axiom_u8_trailing_zeros(!b);
                    assert(!b != 0u8) by (bit_vector) requires b != 0xFFu8;
                    assert forall|j: u8| j < 8 implies (((!b) >> j) & 1u8 == 1u8 <==> !((b >> j) & 1u8 == 1u8)) by {
                        assert(j < 8 ==> ((((!b) >> j) & 1u8 == 1u8) <==> !((b >> j) & 1u8 == 1u8))) by (bit_vector);
                    }
                }
                let bit = tz as u8;
                let old_b = b;
                self.bitmap[byte_idx] = b | (1u8 << bit);
                let slot = byte_idx as u8 * 8 + bit;
                proof {
                    assert(bit < 8);
                    assert(!bit8(old_b, bit as int));
                    assert forall|j: int| 0 <= j < bit implies #[trigger] bit8(old_b, j) by {
                        assert(((!old_b) >> (j as u8)) & 1u8 == 0u8);
                    }
                    assert forall|t: int| 0 <= t < slot implies #[trigger] old(self).used(t) by {
                        if t >= byte_idx * 8 {
                            assert(bit8(old_b, t % 8));
                        }
                    }
                }
                assert(!old(self).used(slot as int));
                self.len += 1;
                let needed = (slot as usize) + 1;
                let ghost pre_nodes = self.nodes@;
                let ghost mid = *self;
                while self.nodes.len() < needed
                    invariant
                        self.bitmap == mid.bitmap,
                        self.len == mid.len,
                        self.prefix_len == mid.prefix_len,
                        self.root_len == mid.root_len,
                        self.root_symbols == mid.root_symbols,
                        self.root_addrs == mid.root_addrs,
                        self.desc_counts == mid.desc_counts,
                        needed <= MAX_NODES,
                        pre_nodes.len() <= self.nodes@.len(),
                        self.nodes@.len() <= if pre_nodes.len() > needed { pre_nodes.len() as int } else { needed as int },
                        self.nodes@.subrange(0, pre_nodes.len() as int) == pre_nodes,
                        forall|i: int| pre_nodes.len() <= i < self.nodes@.len() ==> #[trigger] self.nodes@[i] == blank_node(),
                    decreases needed - self.nodes.len(),
                {
                    self.nodes.push(Node {
                        prefix_len: 0,
                        len: 0,
                        symbols: [0; MAX_CHILDREN],
                        addrs: [0; MAX_CHILDREN],
                    });
                }
                proof {
                    assert forall|t: int| 0 <= t < MAX_NODES implies
                        (#[trigger] self.used(t) <==> (old(self).used(t) || t == slot)) by {
                        if t / 8 == byte_idx as int {
                            lemma_bit8_or(old_b, bit, (t % 8) as u8);
                            assert(t == slot <==> t % 8 == bit as int);
                        } else {
                            assert(self.bitmap[t / 8] == old(self).bitmap[t / 8]);
                        }
                    }
                }
                return Some(slot);
            }
            proof {
                assert forall|t: int| 0 <= t < (byte_idx + 1) * 8 implies #[trigger] old(self).used(t) by {
                    if t >= byte_idx * 8 {
                        assert(bit8(0xFFu8, t % 8)) by {
                            let k = (t % 8) as u8;
                            assert(k < 8 ==> (0xFFu8 >> k) & 1u8 == 1u8) by (bit_vector);
                        }
                    }
                }
            }
            byte_idx += 1;
        }
        None
    }

    /// Marks `slot` free.
    pub fn free_slot(&mut self, slot: u8)
        requires
            old(self).len > 0,
        ensures
            forall|t: int| 0 <= t < MAX_NODES ==>
                (#[trigger] final(self).used(t) <==> (old(self).used(t) && t != slot)),
            final(self).len == old(self).len - 1,
            final(self).nodes == old(self).nodes,
            final(self).prefix_len == old(self).prefix_len,
            final(self).root_len == old(self).root_len,
            final(self).root_symbols == old(self).root_symbols,
            final(self).root_addrs == old(self).root_addrs,
            final(self).desc_counts == old(self).desc_counts,
    {
        let byte_idx = slot / 8;
        let bit = slot % 8;
        let old_b = self.bitmap[byte_idx as usize];
        self.bitmap[byte_idx as usize] = old_b & !(1u8 << bit);
        self.len -= 1;
        proof {
            assert forall|t: int| 0 <= t < MAX_NODES implies
                (#[trigger] self.used(t) <==> (old(self).used(t) && t != slot)) by {
                if t / 8 == byte_idx as int {
                    lemma_bit8_and_not(old_b, bit, (t % 8) as u8);
                    assert(t == slot <==> t % 8 == bit as int);
                } else {
                    assert(self.bitmap[t / 8] == old(self).bitmap[t / 8]);
                }
            }
        }
    }

    /// The node in slot `idx`.
    pub fn node(&self, idx: u8) -> (r: &Node)
        requires
            idx < self.nodes@.len(),
        ensures
            *r == self.nodes@[idx as int],
    {
        &self.nodes[idx as usize]
    }

    /// Index of the root child labelled `byte`.
    pub fn find_root_child(&self, byte: u8) -> (r: Option<usize>)
        requires
            self.root_len <= self.root_symbols@.len(),
            self.root_sorted(),
        ensures
            r matches Some(i) ==> find_sym(self.root_symbols@, self.root_len as int, byte) == Some(i as int) && i < self.root_len,
            r is None ==> find_sym(self.root_symbols@, self.root_len as int, byte) is None,
    {
        let pos = self.find_root_child_lower_bound(byte);
        if pos < self.root_len as usize && self.root_symbols[pos] == byte {
            Some(pos)
        } else {
            None
        }
    }

    /// Index of the first root child whose symbol is not below `byte`
    /// (`root_len` if none), found by binary search.
    pub fn find_root_child_lower_bound(&self, byte: u8) -> (r: usize)
        requires
            self.root_len <= self.root_symbols@.len(),
            self.root_sorted(),
        ensures
            r == first_ge(self.root_symbols@, self.root_len as int, byte),
            r <= self.root_len,
    {
        let n = self.root_len as usize;
        let mut lo: usize = 0;
        let mut hi: usize = n;
        while lo < hi
            invariant
                n == self.root_len,
                n <= self.root_symbols@.len(),
                self.root_sorted(),
                0 <= lo <= hi <= n,
                forall|j: int| 0 <= j < lo ==> self.root_symbols@[j] < byte,
                forall|j: int| hi <= j < n ==> self.root_symbols@[j] >= byte,
            decreases hi - lo,
        {
            let mid = lo + (hi - lo) / 2;
            if self.root_symbols[mid] < byte {
                lo = mid + 1;
            } else {
                hi = mid;
            }
        }
        proof { lemma_first_ge(self.root_symbols@, n as int, byte, lo as int); }
        lo
    }

    /// Adds a root child at its lower-bound position and returns that position.
    pub fn add_root_child(&mut self, symbol: u8, addr: u8, desc_count: u32) -> (r: usize)
        requires
            old(self).root_vectors_ok(),
            old(self).root_len < 255,
        ensures
            r == first_ge(old(self).root_symbols@, old(self).root_len as int, symbol),
            final(self).root_symbols@ == old(self).root_symbols@.insert(r as int, symbol),
            final(self).root_addrs@ == old(self).root_addrs@.insert(r as int, addr),
            final(self).desc_counts@ == old(self).desc_counts@.insert(r as int, desc_count),
            final(self).root_len == old(self).root_len + 1,
            final(self).prefix_len == old(self).prefix_len,
            final(self).bitmap == old(self).bitmap,
            final(self).len == old(self).len,
            final(self).nodes == old(self).nodes,
    {
        let pos = self.find_root_child_lower_bound(symbol);
        self.root_symbols.insert(pos, symbol);
        self.root_addrs.insert(pos, addr);
        self.desc_counts.insert(pos, desc_count);
        self.root_len += 1;
        pos
    }
}

// ── Lookup model ───────────────────────────────────────────────────────

/// Whether two byte sequences are equal.
fn same_bytes(a: &[u8], b: &[u8]) -> (r: bool)
    ensures
        r == (a@ == b@),
{
    if a.len() != b.len() {
        return false;
    }
    let mut i: usize = 0;
    while i < a.len()
        invariant
            a@.len() == b@.len(),
            0 <= i <= a@.len(),
            forall|j: int| 0 <= j < i ==> a@[j] == b@[j],
        decreases a@.len() - i,
    {
        if a[i] != b[i] {
            return false;
        }
        i += 1;
    }
    proof { assert(a@ =~= b@); }
    true
}

/// The leaf value reached by following `key` from slot `addr` of `blk`, where
/// `off` bytes of `key` are already consumed: each internal node skips its
/// `prefix_len` bytes, then follows the child labelled by the next byte.
pub open spec fn walk_node(blk: Block, addr: int, key: Seq<u8>, off: int) -> Option<int>
    decreases key.len() - off,
{
    if !(0 <= addr < blk.nodes@.len()) || off < 0 {
        None
    } else {
        let n = blk.nodes@[addr];
        if n.len == TAG_LEAF {
            Some(n.leaf_value())
        } else if n.len > MAX_CHILDREN {
            None
        } else {
            let off1 = off + n.prefix_len;
            if off1 >= key.len() {
                None
            } else {
                match find_sym(n.symbols@, n.len as int, key[off1]) {
                    Some(j) => walk_node(blk, n.addrs@[j] as int, key, off1 + 1),
                    None => None,
                }
            }
        }
    }
}

/// The leaf value reached by following `key` from the root of `blk`.
pub open spec fn walk_block(blk: Block, key: Seq<u8>, off: int) -> Option<int> {
    let off1 = off + blk.prefix_len;
    if off < 0 || off1 >= key.len() {
        None
    } else {
        match find_sym(blk.root_symbols@, blk.root_len as int, key[off1]) {
            Some(ci) => walk_node(blk, blk.root_addrs@[ci] as int, key, off1 + 1),
            None => None,
        }
    }
}

/// The key `k` as stored: followed by a `0` terminator.
pub open spec fn terminated(k: Seq<u8>) -> Seq<u8> {
    k.push(0u8)
}

/// A node of a trie block whose arena has `nn` slots and whose trie holds `nk` keys.
pub open spec fn node_ok(n: Node, nn: int, nk: int) -> bool {
    &&& n.len <= MAX_CHILDREN
    &&& n.len == TAG_LEAF ==> n.leaf_value() < nk
    &&& forall|j: int| 0 <= j < n.len ==> #[trigger] n.addrs@[j] < nn
}

/// A block of a trie holding `nk` keys: consistent root vectors pointing into the
/// arena, slots `0..len` occupied and the rest free, and every node in bounds.
/// Block references do not occur.
pub open spec fn block_ok(blk: Block, nk: int) -> bool {
    &&& blk.root_vectors_ok()
    &&& forall|i: int| 0 <= i < blk.root_len ==> #[trigger] blk.root_addrs@[i] < blk.nodes@.len()
    &&& blk.nodes@.len() == blk.len
    &&& forall|s: int| 0 <= s < MAX_NODES ==> (#[trigger] blk.used(s) <==> s < blk.len)
    &&& forall|a: int| 0 <= a < blk.nodes@.len() ==> node_ok(#[trigger] blk.nodes@[a], blk.nodes@.len() as int, nk)
}


// ── Insertion model ────────────────────────────────────────────────────

/// The value of the leftmost leaf below slot `addr`, following first children
/// for at most `fuel` steps.
pub open spec fn leftmost(blk: Block, addr: int, fuel: nat) -> Option<int>
    decreases fuel,
{
    if fuel == 0 || !(0 <= addr < blk.nodes@.len()) {
        None
    } else {
        let n = blk.nodes@[addr];
        if n.len == TAG_LEAF {
            Some(n.leaf_value())
        } else if n.len > MAX_CHILDREN {
            None
        } else {
            leftmost(blk, n.addrs@[0] as int, (fuel - 1) as nat)
        }
    }
}

/// First `i` in `from..p` at which `key` leaves the `p` bytes that a node skips
/// from offset `off` on: `key` ends there, or it differs from `ek` where `ek`
/// still has a byte.
pub open spec fn prefix_exit(key: Seq<u8>, ek: Seq<u8>, off: int, p: int, from: int) -> int
    decreases p - from,
{
    if from >= p {
        p
    } else if off + from >= key.len() || (off + from < ek.len() && key[off + from] != ek[off + from]) {
        from
    } else {
        prefix_exit(key, ek, off, p, from + 1)
    }
}

/// First position `s' >= s` at which `a` and `b` do not share a byte.
pub open spec fn split_point(a: Seq<u8>, b: Seq<u8>, s: int) -> int
    decreases a.len() - s,
{
    if s < 0 || s >= a.len() || s >= b.len() || a[s] != b[s] {
        s
    } else {
        split_point(a, b, s + 1)
    }
}

/// Where an insertion of a new key places it.
pub enum Placement {
    /// A new root child labelled `byte`.
    NewRootChild { byte: u8 },
    /// The leaf in slot `leaf`, reached with `off` key bytes consumed, becomes an
    /// internal node over the existing leaf and the new one.
    SplitLeaf { leaf: int, off: int },
    /// The internal node in slot `node`, reached with `off` bytes consumed, is
    /// split after `i` bytes of its skipped prefix.
    SplitPrefix { node: int, off: int, i: int },
    /// The internal node in slot `node`, reached with `off` bytes consumed,
    /// gets a new child labelled `byte`.
    AddChild { node: int, off: int, byte: u8 },
    /// No placement: the insertion would fail (a `0`-free key path that ends
    /// inside a node, a key that cannot be told apart from a stored one, or a
    /// descent that never reaches a leaf).
    Stuck,
}

/// Placement of `key` at the leaf in slot `leaf`, reached with `off` bytes consumed.
pub open spec fn place_leaf(ks: Seq<Seq<u8>>, blk: Block, leaf: int, key: Seq<u8>, off: int) -> Placement {
    let ei = (blk.nodes@[leaf].leaf_value() as usize) as int;
    if !(0 <= ei < ks.len()) {
        Placement::Stuck
    } else {
        let sp = split_point(ks[ei], key, off);
        if sp < ks[ei].len() && sp < key.len() {
            Placement::SplitLeaf { leaf, off }
        } else {
            Placement::Stuck
        }
    }
}

/// Placement of `key` below the internal node in slot `addr`, reached with `off`
/// bytes consumed.
pub open spec fn place_node(ks: Seq<Seq<u8>>, blk: Block, addr: int, key: Seq<u8>, off: int) -> Placement
    decreases key.len() - off,
{
    if !(0 <= addr < blk.nodes@.len()) || off < 0 {
        Placement::Stuck
    } else {
        let n = blk.nodes@[addr];
        match leftmost(blk, addr, blk.nodes@.len()) {
            None => Placement::Stuck,
            Some(v) => {
                let ei = (v as usize) as int;
                if !(0 <= ei < ks.len()) {
                    Placement::Stuck
                } else {
                    let ek = ks[ei];
                    let p = n.prefix_len as int;
                    let i = prefix_exit(key, ek, off, p, 0);
                    if i < p {
                        if off + i < ek.len() {
                            Placement::SplitPrefix { node: addr, off, i }
                        } else {
                            Placement::Stuck
                        }
                    } else if off + p >= key.len() {
                        Placement::Stuck
                    } else {
                        let byte = key[off + p];
                        match find_sym(n.symbols@, n.len as int, byte) {
                            Some(j) => {
                                let child = n.addrs@[j] as int;
                                if 0 <= child < blk.nodes@.len() && blk.nodes@[child].len == TAG_LEAF {
                                    place_leaf(ks, blk, child, key, off + p + 1)
                                } else {
                                    place_node(ks, blk, child, key, off + p + 1)
                                }
                            },
                            None => Placement::AddChild { node: addr, off, byte },
                        }
                    }
                }
            },
        }
    }
}

/// Placement of `key` in a block entered with `off` key bytes consumed.
pub open spec fn place_block(ks: Seq<Seq<u8>>, blk: Block, key: Seq<u8>, off: int) -> Placement {
    let off1 = off + blk.prefix_len;
    if off < 0 || off1 >= key.len() {
        Placement::Stuck
    } else {
        match find_sym(blk.root_symbols@, blk.root_len as int, key[off1]) {
            None => Placement::NewRootChild { byte: key[off1] },
            Some(ci) => {
                let a = blk.root_addrs@[ci] as int;
                if 0 <= a < blk.nodes@.len() && blk.nodes@[a].len == TAG_LEAF {
                    place_leaf(ks, blk, a, key, off1 + 1)
                } else {
                    place_node(ks, blk, a, key, off1 + 1)
                }
            },
        }
    }
}


/// The slot that placement `pl` modifies.
pub open spec fn pl_slot(pl: Placement) -> int {
    match pl {
        Placement::SplitLeaf { leaf, .. } => leaf,
        Placement::SplitPrefix { node, .. } => node,
        Placement::AddChild { node, .. } => node,
        _ => -1,
    }
}

/// The number of key bytes consumed on reaching the slot that placement `pl` modifies.
pub open spec fn pl_off(pl: Placement) -> int {
    match pl {
        Placement::SplitLeaf { off, .. } => off,
        Placement::SplitPrefix { off, .. } => off,
        Placement::AddChild { off, .. } => off,
        _ => -1,
    }
}

/// `dep[a]` is the number of key bytes consumed on reaching slot `a`: the root's
/// children sit one byte past the block prefix, and every child one byte past its
/// parent's skipped prefix. Depths strictly grow along edges, so no descent
/// meets the same slot twice.
pub open spec fn depth_ok(blk: Block, dep: Seq<int>) -> bool {
    &&& dep.len() == blk.nodes@.len()
    &&& forall|i: int| 0 <= i < blk.root_len ==> #[trigger] dep[blk.root_addrs@[i] as int] == blk.prefix_len + 1
    &&& forall|a: int, j: int| 0 <= a < blk.nodes@.len() && 0 <= j < blk.nodes@[a].len ==>
        #[trigger] dep[blk.nodes@[a].addrs@[j] as int] == dep[a] + blk.nodes@[a].prefix_len + 1
}

/// Some depth assignment fits the block.
pub open spec fn has_depths(blk: Block) -> bool {
    exists|dep: Seq<int>| #[trigger] depth_ok(blk, dep)
}

/// Whether the placement `pl` of `key` lets the key be found afterwards: a split
/// leaf's shared run fits the one-byte prefix length, and a split prefix is left
/// by a byte of the key rather than by its end.
pub open spec fn lands(ks: Seq<Seq<u8>>, blk: Block, pl: Placement, key: Seq<u8>) -> bool {
    match pl {
        Placement::SplitLeaf { leaf, off } => {
            let ei = (blk.nodes@[leaf].leaf_value() as usize) as int;
            split_point(ks[ei], key, off) - off < 256
        },
        Placement::SplitPrefix { off, i, .. } => off + i < key.len(),
        _ => true,
    }
}

/// The slot a placement below slot `a` (entered at its depth) modifies lies at
/// its own depth, which is the depth of `a` or deeper.
proof fn lemma_place_depth(ks: Seq<Seq<u8>>, blk: Block, nk: int, dep: Seq<int>, a: int, key: Seq<u8>, off: int)
    requires
        block_ok(blk, nk),
        depth_ok(blk, dep),
        0 <= a < blk.nodes@.len(),
        blk.nodes@[a].spec_is_internal(),
        dep[a] == off,
        0 <= off,
    ensures
        ({
            let pl = place_node(ks, blk, a, key, off);
            !(pl is Stuck) ==> {
                &&& 0 <= pl_slot(pl) < blk.nodes@.len()
                &&& dep[pl_slot(pl)] == pl_off(pl)
                &&& (pl_slot(pl) == a || dep[pl_slot(pl)] > dep[a])
            }
        }),
    decreases key.len() - off,
{
    let n = blk.nodes@[a];
    assert(node_ok(n, blk.nodes@.len() as int, nk));
    let pl = place_node(ks, blk, a, key, off);
    match leftmost(blk, a, blk.nodes@.len() as nat) {
        None => {},
        Some(v) => {
            let ei = (v as usize) as int;
            if 0 <= ei < ks.len() {
                let ek = ks[ei];
                let p = n.prefix_len as int;
                let i = prefix_exit(key, ek, off, p, 0);
                if i < p {
                } else if off + p >= key.len() {
                } else {
                    let byte = key[off + p];
                    match find_sym(n.symbols@, n.len as int, byte) {
                        Some(j) => {
                            lemma_first_ge_from(n.symbols@, n.len as int, byte, 0, 0);
                            assert(0 <= j < n.len);
                            let child = n.addrs@[j] as int;
                            assert(dep[child] == dep[a] + p + 1);
                            assert(0 <= child < blk.nodes@.len());
                            if blk.nodes@[child].len == TAG_LEAF {
                                assert(pl == place_leaf(ks, blk, child, key, off + p + 1));
                            } else {
                                assert(pl == place_node(ks, blk, child, key, off + p + 1));
                                assert(node_ok(blk.nodes@[child], blk.nodes@.len() as int, nk));
                                lemma_place_depth(ks, blk, nk, dep, child, key, off + p + 1);
                            }
                        },
                        None => {},
                    }
                }
            }
        },
    }
}


/// `split_point` is the first position from `s` on where the sequences do not
/// share a byte.
proof fn lemma_split_point(a: Seq<u8>, b: Seq<u8>, s: int)
    requires
        0 <= s,
    ensures
        s <= split_point(a, b, s),
        s <= a.len() && s <= b.len() ==> split_point(a, b, s) <= a.len() && split_point(a, b, s) <= b.len(),
        forall|t: int| s <= t < split_point(a, b, s) ==> #[trigger] a[t] == b[t],
        split_point(a, b, s) < a.len() && split_point(a, b, s) < b.len()
            ==> a[split_point(a, b, s)] != b[split_point(a, b, s)],
    decreases a.len() - s,
{
    if !(s >= a.len() || s >= b.len() || a[s] != b[s]) {
        lemma_split_point(a, b, s + 1);
        assert(split_point(a, b, s) == split_point(a, b, s + 1));
    }
}

/// Whether the block has room for placement `pl`: the arena slots it takes
/// (at most 255 slots are occupied at a time), a root child count below 255,
/// and a free child position in a node that gets a new child.
pub open spec fn room_for(blk: Block, pl: Placement) -> bool {
    match pl {
        Placement::NewRootChild { .. } => blk.len + 1 <= 255 && blk.root_len < 255,
        Placement::SplitLeaf { .. } => blk.len + 2 <= 255,
        Placement::SplitPrefix { .. } => blk.len + 2 <= 255,
        Placement::AddChild { node, .. } => blk.len + 1 <= 255 && blk.nodes@[node].len < MAX_CHILDREN,
        Placement::Stuck => false,
    }
}


/// The keys of a trie as byte sequences.
pub open spec fn kseq(keys: Seq<Vec<u8>>) -> Seq<Seq<u8>> {
    keys.map_values(|k: Vec<u8>| k@)
}

/// Inserting a byte that is absent at its lower-bound position keeps a strictly
/// increasing prefix strictly increasing.
proof fn lemma_insert_sorted(s: Seq<u8>, n: int, b: u8)
    requires
        0 <= n <= s.len(),
        forall|i: int, j: int| 0 <= i < j < n ==> s[i] < s[j],
        find_sym(s, n, b) is None,
    ensures
        ({
            let pos = first_ge(s, n, b);
            let t = s.insert(pos, b);
            &&& 0 <= pos <= n
            &&& forall|i: int, j: int| 0 <= i < j < n + 1 ==> t[i] < t[j]
        }),
{
    let pos = first_ge(s, n, b);
    lemma_first_ge_from(s, n, b, 0, 0);
    let t = s.insert(pos, b);
    assert forall|i: int, j: int| 0 <= i < j < n + 1 implies t[i] < t[j] by {
        if i < pos && j < pos {
        } else if i < pos && j == pos {
        } else if i < pos {
            assert(s[i] < s[j - 1] || j - 1 == i);
        } else if i == pos {
            assert(s[pos] >= b && s[pos] != b);
            assert(s[pos] <= s[j - 1]);
        } else {
        }
    }
}

/// A trie block stays valid when the key count grows.
proof fn lemma_block_ok_grow(blk: Block, nk: int)
    requires
        block_ok(blk, nk),
    ensures
        block_ok(blk, nk + 1),
{
    assert forall|a: int| 0 <= a < blk.nodes@.len() implies node_ok(#[trigger] blk.nodes@[a], blk.nodes@.len() as int, nk + 1) by {
        assert(node_ok(blk.nodes@[a], blk.nodes@.len() as int, nk));
    }
}

/// A node stays in bounds when the arena grows and the key count grows.
proof fn lemma_node_ok_grow(n: Node, nn: int, nk: int, nn2: int, nk2: int)
    requires
        node_ok(n, nn, nk),
        nn <= nn2,
        nk <= nk2,
    ensures
        node_ok(n, nn2, nk2),
{
}

impl Block {
    /// The value of the leftmost leaf below slot `addr`.
    fn key_of_subtree(&self, addr: u8) -> (r: Option<usize>)
        ensures
            r matches Some(e) ==> leftmost(*self, addr as int, self.nodes@.len() as nat) matches Some(v)
                && e == v as usize,
            r is None ==> leftmost(*self, addr as int, self.nodes@.len() as nat) is None,
    {
        let mut fuel = self.nodes.len();
        let mut a = addr;
        while fuel > 0
            invariant
                leftmost(*self, a as int, fuel as nat) == leftmost(*self, addr as int, self.nodes@.len() as nat),
            decreases fuel,
        {
            if a as usize >= self.nodes.len() {
                return None;
            }
            let node = self.node(a);
            if node.len == TAG_LEAF {
                return Some(node.value_idx() as usize);
            } else if node.len as usize > MAX_CHILDREN {
                return None;
            }
            a = node.addrs[0];
            fuel -= 1;
        }
        None
    }


    /// For the placement of `new_key` at the leaf in slot `leaf_addr`, reached
    /// with `offset` bytes consumed: whether the block has room for it, and
    /// whether the new key can be told apart there.
    fn room_at_leaf(&self, keys: &Vec<Vec<u8>>, leaf_addr: u8, new_key: &[u8], offset: usize) -> (r: (bool, bool))
        requires
            leaf_addr < self.nodes@.len(),
            self.nodes@[leaf_addr as int].len == TAG_LEAF,
        ensures
            r.0 == room_for(*self, place_leaf(kseq(keys@), *self, leaf_addr as int, new_key@, offset as int)),
            r.1 == lands(kseq(keys@), *self, place_leaf(kseq(keys@), *self, leaf_addr as int, new_key@, offset as int), new_key@),
    {
        let existing_index = self.node(leaf_addr).value_idx() as usize;
        if existing_index >= keys.len() {
            return (false, true);
        }
        let existing_key = &keys[existing_index];
        let ghost ek = existing_key@;
        proof {
            assert(kseq(keys@)[existing_index as int] == ek);
        }
        let mut split_len = offset;
        while split_len < existing_key.len() && split_len < new_key.len()
            && existing_key[split_len] == new_key[split_len]
            invariant
                offset <= split_len,
                split_point(ek, new_key@, offset as int) == split_point(ek, new_key@, split_len as int),
                existing_key@ == ek,
            decreases existing_key@.len() - split_len,
        {
            split_len += 1;
        }
        if split_len < existing_key.len() && split_len < new_key.len() {
            ((self.len as usize) + 2 <= 255, split_len - offset < 256)
        } else {
            (false, true)
        }
    }

    /// For the placement of `new_key` below the non-leaf node in slot
    /// `node_addr`, entered with `offset` bytes consumed: whether the block has
    /// room for it, and whether the new key can be told apart there.
    fn room_below(&self, keys: &Vec<Vec<u8>>, node_addr: u8, new_key: &[u8], offset: usize, Ghost(dep): Ghost<Seq<int>>) -> (r: (bool, bool))
        requires
            block_ok(*self, keys@.len() as int),
            depth_ok(*self, dep),
            dep[node_addr as int] == offset,
            node_addr < self.nodes@.len(),
            self.nodes@[node_addr as int].len != TAG_LEAF,
            offset <= new_key@.len(),
        ensures
            r.0 == room_for(*self, place_node(kseq(keys@), *self, node_addr as int, new_key@, offset as int)),
            r.1 == lands(kseq(keys@), *self, place_node(kseq(keys@), *self, node_addr as int, new_key@, offset as int), new_key@),
        decreases new_key@.len() - offset,
    {
        let ghost ks = kseq(keys@);
        let node_copy = *self.node(node_addr);
        let existing_index = match self.key_of_subtree(node_addr) {
            Some(e) => e,
            None => return (false, true),
        };
        if existing_index >= keys.len() {
            return (false, true);
        }
        if node_copy.len as usize > MAX_CHILDREN {
            proof {
                assert(node_ok(node_copy, self.nodes@.len() as int, keys@.len() as int));
            }
            return (false, true);
        }
        proof {
            assert(node_ok(node_copy, self.nodes@.len() as int, keys@.len() as int));
        }
        let existing_key = &keys[existing_index];
        let ghost ek = existing_key@;
        proof {
            assert(ks[existing_index as int] == ek);
        }
        let prefix_len = node_copy.prefix_len as usize;
        let rem = new_key.len() - offset;
        let mut i: usize = 0;
        while i < prefix_len
            invariant
                i <= prefix_len,
                prefix_len == node_copy.prefix_len,
                rem == new_key@.len() - offset,
                offset <= new_key@.len(),
                new_key@.len() <= usize::MAX,
                existing_key@ == ek,
                prefix_exit(new_key@, ek, offset as int, prefix_len as int, 0)
                    == prefix_exit(new_key@, ek, offset as int, prefix_len as int, i as int),
            ensures
                i <= prefix_len,
                prefix_exit(new_key@, ek, offset as int, prefix_len as int, 0)
                    == prefix_exit(new_key@, ek, offset as int, prefix_len as int, i as int),
                i < prefix_len ==> (i >= rem || (offset + i < ek.len() && new_key@[offset + i] != ek[offset + i])),
            decreases prefix_len - i,
        {
            if i >= rem {
                break;
            }
            let ki = offset + i;
            if ki < existing_key.len() && new_key[ki] != existing_key[ki] {
                break;
            }
            i += 1;
        }
        if i < prefix_len {
            proof {
                assert(prefix_exit(new_key@, ek, offset as int, prefix_len as int, 0) == i);
            }
            let splits = offset < existing_key.len() && i < existing_key.len() - offset;
            return (splits && (self.len as usize) + 2 <= 255, !splits || i < rem);
        }
        if prefix_len >= rem {
            return (false, true);
        }
        let byte = new_key[offset + prefix_len];
        match node_copy.find_child(byte) {
            Some(j) => {
                let child = node_copy.addrs[j];
                proof {
                    assert(child < self.nodes@.len());
                    assert(dep[child as int] == dep[node_addr as int] + node_copy.prefix_len + 1);
                }
                if self.node(child).len == TAG_LEAF {
                    self.room_at_leaf(keys, child, new_key, offset + prefix_len + 1)
                } else {
                    self.room_below(keys, child, new_key, offset + prefix_len + 1, Ghost(dep))
                }
            },
            None => ((self.len as usize) + 1 <= 255 && (node_copy.len as usize) < MAX_CHILDREN, true),
        }
    }

    /// Occupies the next slot of a block whose slots `0..len` are the occupied ones.
    fn take_slot(&mut self) -> (r: u8)
        requires
            old(self).nodes@.len() == old(self).len,
            forall|s: int| 0 <= s < MAX_NODES ==> (#[trigger] old(self).used(s) <==> s < old(self).len),
            old(self).len < 255,
        ensures
            r == old(self).len,
            final(self).len == old(self).len + 1,
            final(self).nodes@ == old(self).nodes@.push(blank_node()),
            forall|s: int| 0 <= s < MAX_NODES ==> (#[trigger] final(self).used(s) <==> s < final(self).len),
            final(self).prefix_len == old(self).prefix_len,
            final(self).root_len == old(self).root_len,
            final(self).root_symbols == old(self).root_symbols,
            final(self).root_addrs == old(self).root_addrs,
            final(self).desc_counts == old(self).desc_counts,
    {
        let ghost old_self = *self;
        proof {
            assert(!self.used(self.len as int));
        }
        let a = self.alloc_slot().unwrap();
        proof {
            if a < old_self.len {
                assert(old_self.used(a as int));
            }
            if a > old_self.len {
                assert(old_self.used(old_self.len as int));
            }
            assert(self.nodes@ =~= old_self.nodes@.push(blank_node()));
            assert forall|t: int| 0 <= t < MAX_NODES implies (#[trigger] self.used(t) <==> t < self.len) by {
                assert(old_self.used(t) <==> t < old_self.len);
            }
        }
        a
    }

    /// Splits the leaf in slot `leaf_addr`, reached with `offset` key bytes
    /// consumed, into an internal node over the existing leaf and a new leaf for
    /// `new_index`; the internal node skips the bytes both keys share.
    fn split_leaf_in_block(
        &mut self,
        keys: &Vec<Vec<u8>>,
        leaf_addr: u8,
        new_index: usize,
        new_key: &[u8],
        offset: usize,
        Ghost(dep): Ghost<Seq<int>>,
    )
        requires
            block_ok(*old(self), keys@.len() as int),
            depth_ok(*old(self), dep),
            new_index == keys@.len(),
            leaf_addr < old(self).nodes@.len(),
            old(self).nodes@[leaf_addr as int].len == TAG_LEAF,
            place_leaf(kseq(keys@), *old(self), leaf_addr as int, new_key@, offset as int)
                == (Placement::SplitLeaf { leaf: leaf_addr as int, off: offset as int }),
            room_for(*old(self), Placement::SplitLeaf { leaf: leaf_addr as int, off: offset as int }),
        ensures
            block_ok(*final(self), keys@.len() as int + 1),
            has_depths(*final(self)),
            final(self).nodes@.len() == old(self).nodes@.len() + 2,
            forall|s: int| 0 <= s < old(self).nodes@.len() && s != leaf_addr ==>
                #[trigger] final(self).nodes@[s] == old(self).nodes@[s],
            lands(kseq(keys@), *old(self), Placement::SplitLeaf { leaf: leaf_addr as int, off: offset as int }, new_key@)
                ==> walk_node(*final(self), leaf_addr as int, new_key@, offset as int) == Some(new_index as int),
            final(self).prefix_len == old(self).prefix_len,
            final(self).root_len == old(self).root_len,
            final(self).root_symbols == old(self).root_symbols,
            final(self).root_addrs == old(self).root_addrs,
            final(self).desc_counts == old(self).desc_counts,
    {
        let ghost nk = keys@.len() as int;
        let ghost old_self = *self;
        proof { assert(node_ok(self.nodes@[leaf_addr as int], self.nodes@.len() as int, nk)); }
        let existing_index = self.node(leaf_addr).value_idx() as usize;
        let existing_key = &keys[existing_index];
        let ghost ek = existing_key@;
        proof { assert(kseq(keys@)[existing_index as int] == ek); }

        let mut split_len = offset;
        while split_len < existing_key.len() && split_len < new_key.len()
            && existing_key[split_len] == new_key[split_len]
            invariant
                offset <= split_len,
                split_point(ek, new_key@, offset as int) == split_point(ek, new_key@, split_len as int),
                existing_key@ == ek,
            decreases existing_key@.len() - split_len,
        {
            split_len += 1;
        }
        let prefix_len = (split_len - offset) as u8;
        let existing_byte = existing_key[split_len];
        let new_byte = new_key[split_len];

        let addr_existing = self.take_slot();
        let addr_new = self.take_slot();
        let ghost after_take = *self;
        self.nodes.set(addr_existing as usize, Node::leaf(existing_index as u64));
        self.nodes.set(addr_new as usize, Node::leaf(new_index as u64));

        let (sym_a, child_a, sym_b, child_b) = if existing_byte < new_byte {
            (existing_byte, addr_existing, new_byte, addr_new)
        } else {
            (new_byte, addr_new, existing_byte, addr_existing)
        };
        let parent = Node {
            prefix_len,
            len: 2,
            symbols: [sym_a, sym_b, 0, 0, 0, 0, 0],
            addrs: [child_a, child_b, 0, 0, 0, 0, 0],
        };
        self.nodes.set(leaf_addr as usize, parent);
        proof {
            let nn = self.nodes@.len() as int;
            assert(nn == old_self.nodes@.len() + 2);
            assert forall|a: int| 0 <= a < nn implies node_ok(#[trigger] self.nodes@[a], nn, nk + 1) by {
                if a < old_self.nodes@.len() && a != leaf_addr {
                    assert(self.nodes@[a] == old_self.nodes@[a]);
                    assert(node_ok(old_self.nodes@[a], old_self.nodes@.len() as int, nk));
                    lemma_node_ok_grow(old_self.nodes@[a], old_self.nodes@.len() as int, nk, nn, nk + 1);
                }
            }
            assert forall|i: int| 0 <= i < self.root_len implies #[trigger] self.root_addrs@[i] < nn by {
                assert(old_self.root_addrs@[i] < old_self.nodes@.len());
            }
            assert(self.bitmap == after_take.bitmap);
            assert forall|t: int| 0 <= t < MAX_NODES implies (#[trigger] self.used(t) <==> t < self.len) by {
                assert(self.used(t) == after_take.used(t));
            }
            // Depths: both new leaves sit one byte past the split node's prefix.
            let d = dep[leaf_addr as int] + prefix_len + 1;
            let d2 = dep.push(d).push(d);
            assert forall|i: int| 0 <= i < self.root_len implies
                #[trigger] d2[self.root_addrs@[i] as int] == self.prefix_len + 1 by {
                assert(old_self.root_addrs@[i] < old_self.nodes@.len());
                assert(dep[old_self.root_addrs@[i] as int] == old_self.prefix_len + 1);
            }
            assert forall|a: int, j: int| 0 <= a < self.nodes@.len() && 0 <= j < self.nodes@[a].len implies
                #[trigger] d2[self.nodes@[a].addrs@[j] as int] == d2[a] + self.nodes@[a].prefix_len + 1 by {
                if a < old_self.nodes@.len() && a != leaf_addr {
                    assert(node_ok(old_self.nodes@[a], old_self.nodes@.len() as int, nk));
                    assert(old_self.nodes@[a].addrs@[j] < old_self.nodes@.len());
                    assert(dep[old_self.nodes@[a].addrs@[j] as int] == dep[a] + old_self.nodes@[a].prefix_len + 1);
                }
            }
            assert(depth_ok(*self, d2));
                assert(has_depths(*self));
            // The new key reaches its leaf through the split node.
            lemma_split_point(ek, new_key@, offset as int);
            if lands(kseq(keys@), old_self, Placement::SplitLeaf { leaf: leaf_addr as int, off: offset as int }, new_key@) {
                assert(prefix_len == split_len - offset);
                assert(existing_byte != new_byte);
                let syms = self.nodes@[leaf_addr as int].symbols@;
                if new_byte == sym_a {
                    lemma_first_ge(syms, 2, new_byte, 0);
                } else {
                    lemma_first_ge(syms, 2, new_byte, 1);
                }
                assert(self.nodes@[addr_new as int].len == TAG_LEAF && self.nodes@[addr_new as int].leaf_value() == new_index);
                assert(walk_node(*self, addr_new as int, new_key@, split_len as int + 1) == Some(new_index as int));
            }
        }
    }


    /// Gives the internal node in slot `node_addr` a new child labelled `byte`,
    /// a new leaf for `new_index`, at the child position that keeps the symbols
    /// in their lower-bound order.
    fn add_child_to_node(
        &mut self,
        node_addr: u8,
        byte: u8,
        new_index: usize,
        Ghost(nk): Ghost<int>,
        Ghost(dep): Ghost<Seq<int>>,
    )
        requires
            block_ok(*old(self), nk),
            depth_ok(*old(self), dep),
            new_index == nk,
            node_addr < old(self).nodes@.len(),
            old(self).nodes@[node_addr as int].spec_is_internal(),
            old(self).len < 255,
            old(self).nodes@[node_addr as int].len < MAX_CHILDREN,
        ensures
            block_ok(*final(self), nk + 1),
            has_depths(*final(self)),
            final(self).nodes@.len() == old(self).nodes@.len() + 1,
            forall|s: int| 0 <= s < old(self).nodes@.len() && s != node_addr ==>
                #[trigger] final(self).nodes@[s] == old(self).nodes@[s],
            forall|key: Seq<u8>, off: int|
                0 <= off && off + old(self).nodes@[node_addr as int].prefix_len < key.len()
                    && key[off + old(self).nodes@[node_addr as int].prefix_len] == byte
                    ==> #[trigger] walk_node(*final(self), node_addr as int, key, off) == Some(new_index as int),
            final(self).prefix_len == old(self).prefix_len,
            final(self).root_len == old(self).root_len,
            final(self).root_symbols == old(self).root_symbols,
            final(self).root_addrs == old(self).root_addrs,
            final(self).desc_counts == old(self).desc_counts,
    {
        let ghost old_self = *self;
        let node = *self.node(node_addr);
        let prefix_len = node.prefix_len;
        let old_len = node.len;
        let mut symbols = node.symbols;
        let mut addrs = node.addrs;
        proof { assert(node_ok(node, self.nodes@.len() as int, nk)); }

        if (old_len as usize) < MAX_CHILDREN {
            let n = old_len as usize;
            let insert_pos = node.find_child_lower_bound(byte);
            proof { lemma_first_ge_from(node.symbols@, n as int, byte, 0, 0); }

            let leaf_addr = self.take_slot();
            let ghost after_take = *self;
            self.nodes.set(leaf_addr as usize, Node::leaf(new_index as u64));

            let mut i = n;
            while i > insert_pos
                invariant
                    insert_pos <= i <= n,
                    n < MAX_CHILDREN,
                    forall|j: int| 0 <= j <= i ==> #[trigger] addrs@[j] == node.addrs@[j],
                    forall|j: int| i < j <= n ==> #[trigger] addrs@[j] == node.addrs@[j - 1],
                    forall|j: int| 0 <= j <= i ==> #[trigger] symbols@[j] == node.symbols@[j],
                    forall|j: int| i < j <= n ==> #[trigger] symbols@[j] == node.symbols@[j - 1],
                decreases i,
            {
                symbols[i] = symbols[i - 1];
                addrs[i] = addrs[i - 1];
                i -= 1;
            }
            symbols[insert_pos] = byte;
            addrs[insert_pos] = leaf_addr;

            self.nodes.set(node_addr as usize, Node { prefix_len, len: old_len + 1, symbols, addrs });
            proof {
                let nn = self.nodes@.len() as int;
                assert(nn == old_self.nodes@.len() + 1);
                assert forall|j: int| 0 <= j < n + 1 implies #[trigger] addrs@[j] < nn by {
                    if j < insert_pos {
                        assert(addrs@[j] == node.addrs@[j]);
                    } else if j > insert_pos {
                        assert(addrs@[j] == node.addrs@[j - 1]);
                    }
                }
                assert(node_ok(self.nodes@[node_addr as int], nn, nk + 1));
                assert forall|a: int| 0 <= a < nn implies node_ok(#[trigger] self.nodes@[a], nn, nk + 1) by {
                    if a < old_self.nodes@.len() && a != node_addr {
                        assert(self.nodes@[a] == old_self.nodes@[a]);
                        assert(node_ok(old_self.nodes@[a], old_self.nodes@.len() as int, nk));
                        lemma_node_ok_grow(old_self.nodes@[a], old_self.nodes@.len() as int, nk, nn, nk + 1);
                    }
                }
                assert forall|k: int| 0 <= k < self.root_len implies #[trigger] self.root_addrs@[k] < nn by {
                    assert(old_self.root_addrs@[k] < old_self.nodes@.len());
                }
                assert(self.bitmap == after_take.bitmap);
                assert forall|t: int| 0 <= t < MAX_NODES implies (#[trigger] self.used(t) <==> t < self.len) by {
                    assert(self.used(t) == after_take.used(t));
                }
                // Depths: the new leaf sits one byte past the node's prefix.
                let d = dep[node_addr as int] + prefix_len + 1;
                let d2 = dep.push(d);
                assert forall|k: int| 0 <= k < self.root_len implies
                    #[trigger] d2[self.root_addrs@[k] as int] == self.prefix_len + 1 by {
                    assert(old_self.root_addrs@[k] < old_self.nodes@.len());
                    assert(dep[old_self.root_addrs@[k] as int] == old_self.prefix_len + 1);
                }
                assert forall|a: int, j: int| 0 <= a < self.nodes@.len() && 0 <= j < self.nodes@[a].len implies
                    #[trigger] d2[self.nodes@[a].addrs@[j] as int] == d2[a] + self.nodes@[a].prefix_len + 1 by {
                    if a < old_self.nodes@.len() && a != node_addr {
                        assert(node_ok(old_self.nodes@[a], old_self.nodes@.len() as int, nk));
                        assert(old_self.nodes@[a].addrs@[j] < old_self.nodes@.len());
                        assert(dep[old_self.nodes@[a].addrs@[j] as int] == dep[a] + old_self.nodes@[a].prefix_len + 1);
                    } else if a == node_addr {
                        if j < insert_pos {
                            assert(addrs@[j] == node.addrs@[j]);
                            assert(dep[node.addrs@[j] as int] == dep[a] + prefix_len + 1);
                        } else if j > insert_pos {
                            assert(addrs@[j] == node.addrs@[j - 1]);
                            assert(dep[node.addrs@[j - 1] as int] == dep[a] + prefix_len + 1);
                        }
                    }
                }
                assert(depth_ok(*self, d2));
                assert(has_depths(*self));
                // A key whose next byte is `byte` reaches the new leaf.
                let nsyms = symbols@;
                assert forall|j: int| 0 <= j < insert_pos implies nsyms[j] < byte by {
                    assert(nsyms[j] == node.symbols@[j]);
                }
                lemma_first_ge(nsyms, n as int + 1, byte, insert_pos as int);
                assert(self.nodes@[leaf_addr as int].len == TAG_LEAF && self.nodes@[leaf_addr as int].leaf_value() == new_index);
                assert forall|key: Seq<u8>, off: int|
                    0 <= off && off + prefix_len < key.len() && key[off + prefix_len] == byte
                        implies #[trigger] walk_node(*self, node_addr as int, key, off) == Some(new_index as int) by {
                    assert(walk_node(*self, leaf_addr as int, key, off + prefix_len + 1) == Some(new_index as int));
                }
            }
        }
    }

    /// Inserts the key for `new_index` below the internal node in slot
    /// `node_addr`, reached with `offset` key bytes consumed.
    fn insert_into_node(
        &mut self,
        keys: &Vec<Vec<u8>>,
        node_addr: u8,
        new_index: usize,
        new_key: &[u8],
        offset: usize,
        Ghost(dep): Ghost<Seq<int>>,
    )
        requires
            block_ok(*old(self), keys@.len() as int),
            depth_ok(*old(self), dep),
            dep[node_addr as int] == offset,
            new_index == keys@.len(),
            node_addr < old(self).nodes@.len(),
            old(self).nodes@[node_addr as int].spec_is_internal(),
            offset <= new_key@.len(),
            room_for(*old(self), place_node(kseq(keys@), *old(self), node_addr as int, new_key@, offset as int)),
        ensures
            block_ok(*final(self), keys@.len() as int + 1),
            has_depths(*final(self)),
            final(self).nodes@.len() >= old(self).nodes@.len(),
            forall|s: int| 0 <= s < old(self).nodes@.len()
                && s != pl_slot(place_node(kseq(keys@), *old(self), node_addr as int, new_key@, offset as int))
                ==> #[trigger] final(self).nodes@[s] == old(self).nodes@[s],
            lands(kseq(keys@), *old(self), place_node(kseq(keys@), *old(self), node_addr as int, new_key@, offset as int), new_key@)
                ==> walk_node(*final(self), node_addr as int, new_key@, offset as int) == Some(new_index as int),
            final(self).prefix_len == old(self).prefix_len,
            final(self).root_len == old(self).root_len,
            final(self).root_symbols == old(self).root_symbols,
            final(self).root_addrs == old(self).root_addrs,
            final(self).desc_counts == old(self).desc_counts,
        decreases new_key@.len() - offset,
    {
        let ghost nk = keys@.len() as int;
        let ghost ks = kseq(keys@);
        let ghost old_self = *self;
        let ghost pl = place_node(ks, *old(self), node_addr as int, new_key@, offset as int);
        let node_copy = *self.node(node_addr);
        proof {
            assert(node_ok(node_copy, self.nodes@.len() as int, nk));
            lemma_place_depth(ks, *self, nk, dep, node_addr as int, new_key@, offset as int);
        }

        let existing_index = self.key_of_subtree(node_addr).unwrap();
        let existing_key = &keys[existing_index];
        let ghost ek = existing_key@;
        let _ek_len = existing_key.len();
        proof { assert(ks[existing_index as int] == ek); }

        let prefix_len = node_copy.prefix_len as usize;
        let rem = new_key.len() - offset;
        let mut i: usize = 0;
        while i < prefix_len
            invariant
                i <= prefix_len,
                prefix_len == node_copy.prefix_len,
                rem == new_key@.len() - offset,
                offset <= new_key@.len(),
                new_key@.len() <= usize::MAX,
                existing_key@ == ek,
                prefix_exit(new_key@, ek, offset as int, prefix_len as int, 0)
                    == prefix_exit(new_key@, ek, offset as int, prefix_len as int, i as int),
            ensures
                i <= prefix_len,
                prefix_exit(new_key@, ek, offset as int, prefix_len as int, 0)
                    == prefix_exit(new_key@, ek, offset as int, prefix_len as int, i as int),
                i < prefix_len ==> (i >= rem || (offset + i < ek.len() && new_key@[offset + i] != ek[offset + i])),
            decreases prefix_len - i,
        {
            if i >= rem {
                break;
            }
            let ki = offset + i;
            if ki < existing_key.len() && new_key[ki] != existing_key[ki] {
                break;
            }
            i += 1;
        }

        proof {
            if i < prefix_len {
                assert(prefix_exit(new_key@, ek, offset as int, prefix_len as int, 0) == i);
                assert(pl matches Placement::SplitPrefix { .. });
                assert(offset + i < ek.len());
            }
        }
        if i < prefix_len {
            // The new key leaves the skipped prefix after `i` bytes: split here.
            let ki = offset + i;
            let new_prefix_len = i as u8;
            let remaining_prefix = (prefix_len - i - 1) as u8;
            let existing_byte = existing_key[ki];
            let new_byte = if ki < new_key.len() { new_key[ki] } else { 0 };

            let new_leaf_addr = self.take_slot();
            let ghost after_first = *self;
            self.nodes.set(new_leaf_addr as usize, Node::leaf(new_index as u64));
            proof {
                assert(self.bitmap == after_first.bitmap);
                assert forall|t: int| 0 <= t < MAX_NODES implies (#[trigger] self.used(t) <==> t < self.len) by {
                    assert(self.used(t) == after_first.used(t));
                }
            }

            let mut rebuilt = node_copy;
            rebuilt.prefix_len = remaining_prefix;
            let rebuilt_addr = self.take_slot();
            let ghost after_take = *self;
            self.nodes.set(rebuilt_addr as usize, rebuilt);

            let (sym_a, child_a, sym_b, child_b) = if existing_byte < new_byte {
                (existing_byte, rebuilt_addr, new_byte, new_leaf_addr)
            } else {
                (new_byte, new_leaf_addr, existing_byte, rebuilt_addr)
            };
            let parent = Node {
                prefix_len: new_prefix_len,
                len: 2,
                symbols: [sym_a, sym_b, 0, 0, 0, 0, 0],
                addrs: [child_a, child_b, 0, 0, 0, 0, 0],
            };
            self.nodes.set(node_addr as usize, parent);
            proof {
                let nn = self.nodes@.len() as int;
                assert(nn == old_self.nodes@.len() + 2);
                assert(node_ok(rebuilt, old_self.nodes@.len() as int, nk));
                assert forall|a: int| 0 <= a < nn implies node_ok(#[trigger] self.nodes@[a], nn, nk + 1) by {
                    if a < old_self.nodes@.len() && a != node_addr {
                        assert(self.nodes@[a] == old_self.nodes@[a]);
                        assert(node_ok(old_self.nodes@[a], old_self.nodes@.len() as int, nk));
                        lemma_node_ok_grow(old_self.nodes@[a], old_self.nodes@.len() as int, nk, nn, nk + 1);
                    } else if a == rebuilt_addr {
                        lemma_node_ok_grow(rebuilt, old_self.nodes@.len() as int, nk, nn, nk + 1);
                    }
                }
                assert forall|k: int| 0 <= k < self.root_len implies #[trigger] self.root_addrs@[k] < nn by {
                    assert(old_self.root_addrs@[k] < old_self.nodes@.len());
                }
                assert(self.bitmap == after_take.bitmap);
                assert forall|t: int| 0 <= t < MAX_NODES implies (#[trigger] self.used(t) <==> t < self.len) by {
                    assert(self.used(t) == after_take.used(t));
                }
                // Depths: the new leaf and the rebuilt node sit one byte past the
                // shortened prefix; the rebuilt node's children keep their depths.
                let d = dep[node_addr as int] + i + 1;
                let d2 = dep.push(d).push(d);
                assert forall|k: int| 0 <= k < self.root_len implies
                    #[trigger] d2[self.root_addrs@[k] as int] == self.prefix_len + 1 by {
                    assert(old_self.root_addrs@[k] < old_self.nodes@.len());
                    assert(dep[old_self.root_addrs@[k] as int] == old_self.prefix_len + 1);
                }
                assert forall|a: int, j: int| 0 <= a < self.nodes@.len() && 0 <= j < self.nodes@[a].len implies
                    #[trigger] d2[self.nodes@[a].addrs@[j] as int] == d2[a] + self.nodes@[a].prefix_len + 1 by {
                    if a < old_self.nodes@.len() && a != node_addr {
                        assert(node_ok(old_self.nodes@[a], old_self.nodes@.len() as int, nk));
                        assert(old_self.nodes@[a].addrs@[j] < old_self.nodes@.len());
                        assert(dep[old_self.nodes@[a].addrs@[j] as int] == dep[a] + old_self.nodes@[a].prefix_len + 1);
                    } else if a == rebuilt_addr {
                        assert(node_copy.addrs@[j] < old_self.nodes@.len());
                        assert(dep[node_copy.addrs@[j] as int] == dep[node_addr as int] + node_copy.prefix_len + 1);
                    }
                }
                assert(depth_ok(*self, d2));
                assert(has_depths(*self));
                // The new key reaches its leaf through the new parent.
                if lands(ks, old_self, pl, new_key@) {
                    assert(ki < new_key@.len());
                    assert(new_byte == new_key@[ki as int]);
                    assert(existing_byte != new_byte);
                    let syms = self.nodes@[node_addr as int].symbols@;
                    if new_byte == sym_a {
                        lemma_first_ge(syms, 2, new_byte, 0);
                    } else {
                        lemma_first_ge(syms, 2, new_byte, 1);
                    }
                    assert(self.nodes@[new_leaf_addr as int].len == TAG_LEAF && self.nodes@[new_leaf_addr as int].leaf_value() == new_index);
                    assert(walk_node(*self, new_leaf_addr as int, new_key@, ki as int + 1) == Some(new_index as int));
                }
            }
            return;
        }

        // The new key runs through the whole prefix: descend.
        let offset2 = offset + prefix_len;
        let byte = new_key[offset2];
        let offset3 = offset2 + 1;
        match node_copy.find_child(byte) {
            Some(child_idx) => {
                let child_addr = node_copy.addrs[child_idx];
                proof { assert(node_ok(self.nodes@[child_addr as int], self.nodes@.len() as int, nk)); }
                proof {
                    lemma_first_ge_from(node_copy.symbols@, node_copy.len as int, byte, 0, 0);
                    assert(dep[child_addr as int] == offset3);
                }
                let child_is_leaf = self.node(child_addr).len == TAG_LEAF;
                proof {
                    if !child_is_leaf {
                        lemma_place_depth(ks, *self, nk, dep, child_addr as int, new_key@, offset3 as int);
                    }
                }
                if child_is_leaf {
                    self.split_leaf_in_block(keys, child_addr, new_index, new_key, offset3, Ghost(dep));
                } else {
                    self.insert_into_node(keys, child_addr, new_index, new_key, offset3, Ghost(dep));
                }
                proof {
                    assert(self.nodes@[node_addr as int] == node_copy);
                }
            },
            None => {
                self.add_child_to_node(node_addr, byte, new_index, Ghost(nk), Ghost(dep));
                proof {
                    assert(walk_node(*self, node_addr as int, new_key@, offset as int) == Some(new_index as int));
                }
            },
        }
    }

    /// Adds a root child labelled `byte` holding a new leaf for `new_index`.
    fn add_new_root_child(&mut self, byte: u8, new_index: usize, Ghost(nk): Ghost<int>, Ghost(dep): Ghost<Seq<int>>)
        requires
            block_ok(*old(self), nk),
            depth_ok(*old(self), dep),
            new_index == nk,
            find_sym(old(self).root_symbols@, old(self).root_len as int, byte) is None,
            room_for(*old(self), Placement::NewRootChild { byte }),
        ensures
            block_ok(*final(self), nk + 1),
            has_depths(*final(self)),
            final(self).prefix_len == old(self).prefix_len,
            forall|key: Seq<u8>, off: int|
                0 <= off && off + old(self).prefix_len < key.len() && key[off + old(self).prefix_len] == byte
                    ==> #[trigger] walk_block(*final(self), key, off) == Some(new_index as int),
    {
        let ghost old_self = *self;
        proof {
            assert(!self.used(self.len as int));
        }
        let leaf_addr = self.alloc_slot().unwrap();
        let ghost after_alloc = *self;
        proof {
            if leaf_addr < old_self.len {
                assert(old_self.used(leaf_addr as int));
            }
            if leaf_addr > old_self.len {
                assert(old_self.used(old_self.len as int));
            }
        }
        self.nodes.set(leaf_addr as usize, Node::leaf(new_index as u64));
        let ghost mid = *self;
        proof {
            lemma_insert_sorted(self.root_symbols@, self.root_len as int, byte);
        }
        let pos = self.add_root_child(byte, leaf_addr, 1);
        proof {
            let nn = self.nodes@.len() as int;
            assert(nn == old_self.nodes@.len() + 1);
            assert forall|a: int| 0 <= a < nn implies node_ok(#[trigger] self.nodes@[a], nn, nk + 1) by {
                if a < old_self.nodes@.len() {
                    assert(self.nodes@[a] == old_self.nodes@[a]);
                    assert(node_ok(old_self.nodes@[a], old_self.nodes@.len() as int, nk));
                    lemma_node_ok_grow(old_self.nodes@[a], old_self.nodes@.len() as int, nk, nn, nk + 1);
                }
            }
            assert forall|i: int| 0 <= i < self.root_len implies #[trigger] self.root_addrs@[i] < nn by {
                if i < pos {
                    assert(self.root_addrs@[i] == old_self.root_addrs@[i]);
                } else if i > pos {
                    assert(self.root_addrs@[i] == old_self.root_addrs@[i - 1]);
                }
            }
            assert(self.bitmap == after_alloc.bitmap);
            assert(leaf_addr == old_self.len);
            assert forall|t: int| 0 <= t < MAX_NODES implies (#[trigger] self.used(t) <==> t < self.len) by {
                assert(self.used(t) == after_alloc.used(t));
                assert(old_self.used(t) <==> t < old_self.len);
            }
            // Depths: the new leaf sits one byte past the block prefix.
            let d2 = dep.push(self.prefix_len + 1);
            assert forall|i: int| 0 <= i < self.root_len implies
                #[trigger] d2[self.root_addrs@[i] as int] == self.prefix_len + 1 by {
                if i < pos {
                    assert(self.root_addrs@[i] == old_self.root_addrs@[i]);
                    assert(dep[old_self.root_addrs@[i] as int] == old_self.prefix_len + 1);
                } else if i > pos {
                    assert(self.root_addrs@[i] == old_self.root_addrs@[i - 1]);
                    assert(dep[old_self.root_addrs@[i - 1] as int] == old_self.prefix_len + 1);
                }
            }
            assert forall|a: int, j: int| 0 <= a < self.nodes@.len() && 0 <= j < self.nodes@[a].len implies
                #[trigger] d2[self.nodes@[a].addrs@[j] as int] == d2[a] + self.nodes@[a].prefix_len + 1 by {
                if a < old_self.nodes@.len() {
                    assert(self.nodes@[a] == old_self.nodes@[a]);
                    assert(node_ok(old_self.nodes@[a], old_self.nodes@.len() as int, nk));
                    assert(old_self.nodes@[a].addrs@[j] < old_self.nodes@.len());
                    assert(dep[old_self.nodes@[a].addrs@[j] as int] == dep[a] + old_self.nodes@[a].prefix_len + 1);
                }
            }
            assert(depth_ok(*self, d2));
                assert(has_depths(*self));
            // A key whose next byte is `byte` reaches the new leaf.
            let rs = self.root_symbols@;
            lemma_first_ge_from(old_self.root_symbols@, old_self.root_len as int, byte, 0, 0);
            assert forall|j: int| 0 <= j < pos implies rs[j] < byte by {
                assert(rs[j] == old_self.root_symbols@[j]);
            }
            lemma_first_ge(rs, self.root_len as int, byte, pos as int);
            assert(self.nodes@[leaf_addr as int].len == TAG_LEAF && self.nodes@[leaf_addr as int].leaf_value() == new_index);
            assert forall|key: Seq<u8>, off: int|
                0 <= off && off + self.prefix_len < key.len() && key[off + self.prefix_len] == byte
                    implies #[trigger] walk_block(*self, key, off) == Some(new_index as int) by {
                assert(walk_node(*self, leaf_addr as int, key, off + self.prefix_len + 1) == Some(new_index as int));
            }
        }
    }
}

// ── ArenaTrie ──────────────────────────────────────────────────────────

/// A trie over byte keys without `0` bytes, mapping each key to the index at
/// which it was inserted.
pub struct ArenaTrie<T: Clone> {
    root: Option<u32>,
    blocks: Vec<Block>,
    keys: Vec<Vec<u8>>,
    values: Vec<T>,
}

impl<T: Clone> ArenaTrie<T> {
    /// The stored keys, each with its `0` terminator, in insertion order.
    pub closed spec fn key_seq(self) -> Seq<Seq<u8>> {
        kseq(self.keys@)
    }

    /// The stored values, in insertion order.
    pub closed spec fn value_seq(self) -> Seq<T> {
        self.values@
    }

    pub closed spec fn wf(self) -> bool {
        &&& self.values@.len() == self.keys@.len()
        &&& self.root matches Some(r) ==> r < self.blocks@.len()
        &&& self.root is None ==> self.blocks@.len() == 0
        &&& forall|b: int| 0 <= b < self.blocks@.len() ==> block_ok(#[trigger] self.blocks@[b], self.keys@.len() as int)
        &&& forall|b: int| 0 <= b < self.blocks@.len() ==> has_depths(#[trigger] self.blocks@[b])
    }

    /// What a lookup of `key` answers: the leaf that the walk from the root block
    /// reaches, provided the key stored for it is `key` itself.
    pub closed spec fn find(self, key: Seq<u8>) -> Option<int> {
        match self.root {
            None => None,
            Some(rb) => match walk_block(self.blocks@[rb as int], terminated(key), 0) {
                Some(v) => {
                    let i = (v as usize) as int;
                    if 0 <= i < self.keys@.len() && self.keys@[i]@ == terminated(key) {
                        Some(i)
                    } else {
                        None
                    }
                },
                None => None,
            },
        }
    }

    /// A found index names a stored key equal to the looked-up key.
    pub proof fn lemma_find_sound(self, key: Seq<u8>)
        ensures
            self.find(key) matches Some(i) ==> 0 <= i < self.key_seq().len()
                && self.key_seq()[i] == terminated(key),
    {
    }

    pub fn new() -> (r: Self)
        ensures
            r.wf(),
            r.key_seq().len() == 0,
            r.value_seq().len() == 0,
            forall|k: Seq<u8>| #[trigger] r.find(k) is None,
    {
        ArenaTrie { root: None, blocks: Vec::new(), keys: Vec::new(), values: Vec::new() }
    }


    /// Whether inserting the absent key `key` goes through: the placement of its
    /// terminated form in the root block exists and the block has room for it.
    pub closed spec fn insert_fits(self, key: Seq<u8>) -> bool {
        match self.root {
            None => true,
            Some(rb) => {
                let blk = self.blocks@[rb as int];
                room_for(blk, place_block(self.key_seq(), blk, terminated(key), 0))
            },
        }
    }

    /// Whether the inserted key `key` can be told apart where it is placed: the
    /// run it shares with a split leaf's key fits a one-byte prefix length, and a
    /// split prefix is left by one of its bytes rather than by its end.
    pub closed spec fn insert_lands(self, key: Seq<u8>) -> bool {
        match self.root {
            None => true,
            Some(rb) => {
                let blk = self.blocks@[rb as int];
                lands(self.key_seq(), blk, place_block(self.key_seq(), blk, terminated(key), 0), terminated(key))
            },
        }
    }

    /// For an insertion of the absent key `key`: whether the block it goes to
    /// has room for it, and whether the key can be told apart where it lands.
    fn check_placement(&self, key: &[u8]) -> (r: (bool, bool))
        requires
            self.wf(),
            key@.len() + 1 < usize::MAX,
        ensures
            r.0 == self.insert_fits(key@),
            r.1 == self.insert_lands(key@),
    {
        let rb = match self.root {
            None => return (true, true),
            Some(rb) => rb as usize,
        };
        let mut nt_key = vstd::slice::slice_to_vec(key);
        nt_key.push(0);
        proof {
            assert(nt_key@ =~= terminated(key@));
        }
        let blk = &self.blocks[rb];
        let ghost dep = choose|dep: Seq<int>| depth_ok(*blk, dep);
        proof {
            assert(block_ok(*blk, self.keys@.len() as int));
            assert(has_depths(self.blocks@[rb as int]));
            assert(self.key_seq() == kseq(self.keys@));
        }
        let off1 = blk.prefix_len as usize;
        if off1 >= nt_key.len() {
            return (false, true);
        }
        let byte = nt_key[off1];
        match blk.find_root_child(byte) {
            None => ((blk.len as usize) + 1 <= 255 && (blk.root_len as usize) < 255, true),
            Some(ci) => {
                let a = blk.root_addrs[ci];
                proof {
                    assert(a < blk.nodes@.len());
                    assert(dep[a as int] == blk.prefix_len + 1);
                }
                if blk.node(a).len == TAG_LEAF {
                    blk.room_at_leaf(&self.keys, a, nt_key.as_slice(), off1 + 1)
                } else {
                    blk.room_below(&self.keys, a, nt_key.as_slice(), off1 + 1, Ghost(dep))
                }
            },
        }
    }

    /// Whether the block that an insertion of the absent key `key` goes to has
    /// room for it, the condition that [`Self::insert`] asks of such a key.
    pub fn fits(&self, key: &[u8]) -> (r: bool)
        requires
            self.wf(),
            key@.len() + 1 < usize::MAX,
        ensures
            r == self.insert_fits(key@),
    {
        self.check_placement(key).0
    }

    /// Whether an insertion of the absent key `key` leaves it findable: the
    /// condition under which [`Self::insert`] promises that `find` gives the
    /// new index.
    pub fn lands_findable(&self, key: &[u8]) -> (r: bool)
        requires
            self.wf(),
            key@.len() + 1 < usize::MAX,
        ensures
            r == self.insert_lands(key@),
    {
        self.check_placement(key).1
    }

    /// Inserts a new key-value pair and returns the key's index.
    /// Returns `Err(())` if the key is already present.
    pub fn insert(&mut self, key: Vec<u8>, value: T) -> (r: Result<usize, ()>)
        requires
            old(self).wf(),
            forall|i: int| 0 <= i < key@.len() ==> key@[i] != 0u8,
            key@.len() + 1 < usize::MAX,
            old(self).find(key@) is None ==> old(self).insert_fits(key@),
        ensures
            final(self).wf(),
            old(self).find(key@) is Some ==> r is Err && *final(self) == *old(self),
            old(self).find(key@) is None ==> {
                &&& r == Ok::<usize, ()>(old(self).key_seq().len() as usize)
                &&& final(self).key_seq() == old(self).key_seq().push(terminated(key@))
                &&& final(self).value_seq() == old(self).value_seq().push(value)
            },
            old(self).find(key@) is None && old(self).insert_lands(key@)
                ==> final(self).find(key@) == Some(old(self).key_seq().len() as int),
    {
        if self.get(key.as_slice()).is_some() {
            return Err(());
        }
        let mut nt_key = key;
        nt_key.push(0);
        proof { assert(nt_key@ =~= terminated(key@)); }

        let index = self.keys.len();
        match self.root {
            None => {
                let mut block = Block::new(0);
                let leaf_addr = block.take_slot();
                let ghost after = block;
                block.nodes.set(leaf_addr as usize, Node::leaf(index as u64));
                block.add_root_child(nt_key[0], leaf_addr, 1);
                proof {
                    assert(block.bitmap == after.bitmap);
                    assert forall|t: int| 0 <= t < MAX_NODES implies (#[trigger] block.used(t) <==> t < block.len) by {
                        assert(block.used(t) == after.used(t));
                    }
                    assert(node_ok(block.nodes@[0], 1, index as int + 1));
                    assert(depth_ok(block, seq![1int]));
                    assert(has_depths(block));
                }
                let block_idx = self.blocks.len() as u32;
                self.blocks.push(block);
                self.root = Some(block_idx);
            },
            Some(_) => {
                self.insert_key(index, nt_key.as_slice());
            },
        }
        let ghost blocks_after = self.blocks@;
        self.keys.push(nt_key);
        self.values.push(value);
        proof {
            assert(self.key_seq() =~= old(self).key_seq().push(terminated(key@)));
            let nt = terminated(key@);
            let rb = self.root->0 as int;
            if old(self).insert_lands(key@) {
                if old(self).root is None {
                    let blk = self.blocks@[rb];
                    assert(blk.root_symbols@ =~= seq![nt[0]]);
                    lemma_first_ge(blk.root_symbols@, 1, nt[0], 0);
                    assert(walk_node(blk, 0, nt, 1) == Some(index as int));
                }
                assert(walk_block(self.blocks@[rb], nt, 0) == Some(index as int));
                assert(self.keys@[index as int]@ == nt);
            }
        }
        Ok(index)
    }

    fn insert_key(&mut self, new_index: usize, new_key: &[u8])
        requires
            old(self).wf(),
            old(self).root is Some,
            new_index == old(self).keys@.len(),
            new_key@.len() < usize::MAX,
            room_for(old(self).blocks@[old(self).root->0 as int],
                place_block(old(self).key_seq(), old(self).blocks@[old(self).root->0 as int], new_key@, 0)),
        ensures
            final(self).root == old(self).root,
            final(self).keys == old(self).keys,
            final(self).values == old(self).values,
            final(self).blocks@.len() == old(self).blocks@.len(),
            forall|b: int| 0 <= b < final(self).blocks@.len() ==>
                block_ok(#[trigger] final(self).blocks@[b], old(self).keys@.len() as int + 1),
            forall|b: int| 0 <= b < final(self).blocks@.len() ==>
                has_depths(#[trigger] final(self).blocks@[b]),
            ({
                let blk = old(self).blocks@[old(self).root->0 as int];
                lands(old(self).key_seq(), blk, place_block(old(self).key_seq(), blk, new_key@, 0), new_key@)
                    ==> walk_block(final(self).blocks@[old(self).root->0 as int], new_key@, 0) == Some(new_index as int)
            }),
    {
        let root_block_idx = self.root.unwrap() as usize;
        self.insert_at_block(root_block_idx, new_index, new_key);
    }

    /// Inserts the key for `new_index` into block `block_idx`, entered with no
    /// key byte consumed (blocks are only ever entered from the trie root).
    fn insert_at_block(&mut self, block_idx: usize, new_index: usize, new_key: &[u8])
        requires
            old(self).wf(),
            block_idx < old(self).blocks@.len(),
            new_index == old(self).keys@.len(),
            new_key@.len() < usize::MAX,
            room_for(old(self).blocks@[block_idx as int],
                place_block(old(self).key_seq(), old(self).blocks@[block_idx as int], new_key@, 0)),
        ensures
            final(self).root == old(self).root,
            final(self).keys == old(self).keys,
            final(self).values == old(self).values,
            final(self).blocks@.len() == old(self).blocks@.len(),
            forall|b: int| 0 <= b < final(self).blocks@.len() ==>
                block_ok(#[trigger] final(self).blocks@[b], old(self).keys@.len() as int + 1),
            forall|b: int| 0 <= b < final(self).blocks@.len() ==>
                has_depths(#[trigger] final(self).blocks@[b]),
            ({
                let blk = old(self).blocks@[block_idx as int];
                lands(old(self).key_seq(), blk, place_block(old(self).key_seq(), blk, new_key@, 0), new_key@)
                    ==> walk_block(final(self).blocks@[block_idx as int], new_key@, 0) == Some(new_index as int)
            }),
    {
        let ghost nk = self.keys@.len() as int;
        let ghost old_blocks = self.blocks@;
        let ghost blk0 = self.blocks@[block_idx as int];
        let ghost ks = self.key_seq();
        let ghost dep = choose|dep: Seq<int>| depth_ok(blk0, dep);
        proof {
            assert(block_ok(blk0, nk));
            assert(has_depths(self.blocks@[block_idx as int]));
            assert(depth_ok(blk0, dep));
            assert(ks == kseq(self.keys@));
        }
        let offset: usize = 0;
        let prefix = self.blocks[block_idx].prefix_len as usize;
        let off1 = offset + prefix;
        let byte = new_key[off1];
        let off2 = off1 + 1;
        let found = self.blocks[block_idx].find_root_child(byte);
        match found {
            Some(child_idx) => {
                let addr = self.blocks[block_idx].root_addrs[child_idx];
                proof {
                    assert(node_ok(blk0.nodes@[addr as int], blk0.nodes@.len() as int, nk));
                    assert(dep[addr as int] == off2);
                }
                let is_leaf = self.blocks[block_idx].node(addr).len == TAG_LEAF;
                if is_leaf {
                    self.split_leaf_at_root(block_idx, child_idx, new_index, new_key, off2);
                } else {
                    self.blocks[block_idx].insert_into_node(&self.keys, addr, new_index, new_key, off2, Ghost(dep));
                }
                proof {
                    assert(has_depths(self.blocks@[block_idx as int]));
                }
                proof {
                    let blk1 = self.blocks@[block_idx as int];
                    assert(blk1.root_symbols == blk0.root_symbols);
                    assert(blk1.root_addrs == blk0.root_addrs);
                }
            },
            None => {
                self.add_new_root_child(block_idx, byte, new_index);
                proof {
                    assert(has_depths(self.blocks@[block_idx as int]));
                }
            },
        }
        proof {
            assert forall|b: int| 0 <= b < self.blocks@.len() implies
                block_ok(#[trigger] self.blocks@[b], nk + 1) by {
                if b != block_idx {
                    assert(self.blocks@[b] == old_blocks[b]);
                    assert(block_ok(old_blocks[b], nk));
                    lemma_block_ok_grow(old_blocks[b], nk);
                }
            }
            assert forall|b: int| 0 <= b < self.blocks@.len() implies
                has_depths(#[trigger] self.blocks@[b]) by {
                if b != block_idx {
                    assert(self.blocks@[b] == old_blocks[b]);
                    assert(has_depths(old_blocks[b]));
                } else {
                    assert(has_depths(self.blocks@[block_idx as int]));
                }
            }
        }
    }

    fn add_new_root_child(&mut self, block_idx: usize, byte: u8, new_index: usize)
        requires
            old(self).wf(),
            block_idx < old(self).blocks@.len(),
            new_index == old(self).keys@.len(),
            find_sym(old(self).blocks@[block_idx as int].root_symbols@,
                old(self).blocks@[block_idx as int].root_len as int, byte) is None,
            room_for(old(self).blocks@[block_idx as int], Placement::NewRootChild { byte }),
        ensures
            final(self).root == old(self).root,
            final(self).keys == old(self).keys,
            final(self).values == old(self).values,
            final(self).blocks@ == old(self).blocks@.update(block_idx as int, final(self).blocks@[block_idx as int]),
            block_ok(final(self).blocks@[block_idx as int], old(self).keys@.len() as int + 1),
            has_depths(final(self).blocks@[block_idx as int]),
            forall|key: Seq<u8>, off: int|
                0 <= off && off + old(self).blocks@[block_idx as int].prefix_len < key.len()
                    && key[off + old(self).blocks@[block_idx as int].prefix_len] == byte
                    ==> #[trigger] walk_block(final(self).blocks@[block_idx as int], key, off) == Some(new_index as int),
    {
        let ghost nk = self.keys@.len() as int;
        let ghost dep = choose|dep: Seq<int>| depth_ok(self.blocks@[block_idx as int], dep);
        proof {
            assert(block_ok(self.blocks@[block_idx as int], nk));
            assert(has_depths(self.blocks@[block_idx as int]));
        }
        self.blocks[block_idx].add_new_root_child(byte, new_index, Ghost(nk), Ghost(dep));
    }

    fn split_leaf_at_root(
        &mut self,
        block_idx: usize,
        root_child_idx: usize,
        new_index: usize,
        new_key: &[u8],
        offset: usize,
    )
        requires
            old(self).wf(),
            block_idx < old(self).blocks@.len(),
            new_index == old(self).keys@.len(),
            root_child_idx < old(self).blocks@[block_idx as int].root_len,
            ({
                let blk = old(self).blocks@[block_idx as int];
                let leaf = blk.root_addrs@[root_child_idx as int] as int;
                &&& blk.nodes@[leaf].len == TAG_LEAF
                &&& room_for(blk, place_leaf(old(self).key_seq(), blk, leaf, new_key@, offset as int))
            }),
        ensures
            final(self).root == old(self).root,
            final(self).keys == old(self).keys,
            final(self).values == old(self).values,
            final(self).blocks@ == old(self).blocks@.update(block_idx as int, final(self).blocks@[block_idx as int]),
            block_ok(final(self).blocks@[block_idx as int], old(self).keys@.len() as int + 1),
            has_depths(final(self).blocks@[block_idx as int]),
            ({
                let blk = old(self).blocks@[block_idx as int];
                let fb = final(self).blocks@[block_idx as int];
                let leaf = blk.root_addrs@[root_child_idx as int] as int;
                &&& fb.prefix_len == blk.prefix_len
                &&& fb.root_len == blk.root_len
                &&& fb.root_symbols == blk.root_symbols
                &&& fb.root_addrs == blk.root_addrs
                &&& lands(old(self).key_seq(), blk, place_leaf(old(self).key_seq(), blk, leaf, new_key@, offset as int), new_key@)
                    ==> walk_node(fb, leaf, new_key@, offset as int) == Some(new_index as int)
            }),
    {
        let ghost dep = choose|dep: Seq<int>| depth_ok(self.blocks@[block_idx as int], dep);
        proof {
            assert(block_ok(self.blocks@[block_idx as int], self.keys@.len() as int));
            assert(has_depths(self.blocks@[block_idx as int]));
            assert(self.key_seq() == kseq(self.keys@));
        }
        let leaf_addr = self.blocks[block_idx].root_addrs[root_child_idx];
        self.blocks[block_idx].split_leaf_in_block(&self.keys, leaf_addr, new_index, new_key, offset, Ghost(dep));
    }

    /// Looks up `key` and returns its index.
    pub fn get(&self, key: &[u8]) -> (r: Option<usize>)
        requires
            self.wf(),
            key@.len() < usize::MAX,
        ensures
            r matches Some(i) ==> self.find(key@) == Some(i as int),
            r is None ==> self.find(key@) is None,
    {
        let root_block_idx = match self.root {
            Some(b) => b,
            None => return None,
        };
        let mut nt_key = vstd::slice::slice_to_vec(key);
        nt_key.push(0);
        let ghost nt = nt_key@;
        proof { assert(nt =~= terminated(key@)); }
        let ghost root_blk = self.blocks@[root_block_idx as int];
        let ghost target = walk_block(root_blk, nt, 0);

        let mut block_idx = root_block_idx as usize;
        let mut offset = 0usize;
        let mut found: Option<u64> = None;
        loop
            invariant_except_break
                self.wf(),
                nt_key@ == nt,
                nt.len() == key@.len() + 1,
                block_idx == root_block_idx,
                offset == 0,
                root_blk == self.blocks@[root_block_idx as int],
                target == walk_block(root_blk, nt, 0),
                root_block_idx < self.blocks@.len(),
                found is None,
            ensures
                found matches Some(v) ==> target == Some(v as int),
                found is None ==> target is None,
            decreases 1int,
        {
            let block = &self.blocks[block_idx];
            proof { assert(block_ok(*block, self.keys@.len() as int)); }
            if block.prefix_len as usize >= nt_key.len() - offset {
                break;
            }
            offset += block.prefix_len as usize;
            let byte = nt_key[offset];
            offset += 1;
            let child_idx = match block.find_root_child(byte) {
                Some(c) => c,
                None => break,
            };
            let mut addr = block.root_addrs[child_idx];
            let mut switched = false;
            loop
                invariant_except_break
                    !switched,
                    found is None,
                    block_ok(*block, self.keys@.len() as int),
                    nt_key@ == nt,
                    *block == root_blk,
                    0 < offset <= nt.len(),
                    addr < block.nodes@.len(),
                    walk_node(*block, addr as int, nt, offset as int) == target,
                ensures
                    !switched,
                    found matches Some(v) ==> target == Some(v as int),
                    found is None ==> target is None,
                decreases nt.len() - offset,
            {
                let node = block.node(addr);
                proof { assert(node_ok(*node, block.nodes@.len() as int, self.keys@.len() as int)); }
                if node.len == TAG_LEAF {
                    found = Some(node.value_idx());
                    break;
                } else if node.len == TAG_BLOCK {
                    block_idx = node.block_idx() as usize;
                    switched = true;
                    break;
                } else {
                    if node.prefix_len as usize >= nt_key.len() - offset {
                        break;
                    }
                    offset += node.prefix_len as usize;
                    let byte = nt_key[offset];
                    offset += 1;
                    let idx = match node.find_child(byte) {
                        Some(i) => i,
                        None => break,
                    };
                    assert(idx < node.len);
                    addr = node.addrs[idx];
                }
            }
            if !switched {
                break;
            }
        }
        match found {
            Some(v) => {
                let index = v as usize;
                if index < self.keys.len() && same_bytes(self.keys[index].as_slice(), nt_key.as_slice()) {
                    Some(index)
                } else {
                    None
                }
            },
            None => None,
        }
    }
}

impl<T: Clone> Default for ArenaTrie<T> {
    fn default() -> (r: Self)
        ensures
            r.wf(),
            r.key_seq().len() == 0,
            r.value_seq().len() == 0,
    {
        Self::new()
    }
}

} // verus!
