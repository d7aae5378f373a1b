# tiny_trie

Compact radix tries over byte keys, with their arenas and key stores, written
in Verus. The library's logic is verified against contracts; the one function
that reads a vector's capacity (to decide when `NibbleTrie` re-spreads its
index) rests on a trusted wrapper.

Layout:

- `src/nibble_trie.rs` — the 16-way `NibbleTrie` with its sparse
  slot index, the internal walker `NibbleIter`, the public `Cursor`, `optimize`
  and the `promote`/`demote` index-type conversions.
- `src/bit_trie.rs` — the binary `BitTrie` and its iterator `BitIter`.
- `src/nib_trie.rs` — the 4-way `NibTrie` and its iterator `NibIter`.
- `src/arena_trie.rs` — the block-structured `ArenaTrie` (nodes, blocks, slot
  allocation, insertion and lookup).
- `src/arena.rs` — a slot arena with single-slot and run allocation over
  free lists.
- `src/key_store.rs` — key stores that pack keys into one buffer, and the key
  traits.
- `src/tiny_array.rs`, `src/flat_node.rs`, `src/trie_index.rs`, `src/simd.rs`,
  `src/bits.rs` — small fixed-capacity arrays, node layouts, index types,
  occupancy masks and bit helpers.
- `tests/` — the test suite; `app/` — a benchmark driver (corpus loading,
  timing, JSON output) around the library.

Each trie's `insert` refuses a key that is already stored and leaves the trie
unchanged then; on success it states that a later lookup of the inserted key
finds it. The read functions state their results in terms of the same lookup.

For `BitTrie` the contracts go further: every stored key is reachable from the
root along its own bits (an invariant kept by `insert`), so `insert` promises
success for every absent key within the index limits and keeps every other
key's lookup unchanged, and a lookup finds exactly the stored keys. For the
other tries, `insert` promises success on an empty trie only and does not
state that the other keys' lookups are kept. The `BitIter` cursor keeps its
frames a path down from the root, and its `next` and `prev` (and their index
forms) state that each step reaches a strictly greater, respectively smaller,
key in lexicographic byte order; the first `next` from `iter` reaches the
smallest stored key, each later `next` reaches the least stored key above the
one before and a forward walk runs out only after the largest key; `iter_last`
stands on the largest key, each `prev` reaches the greatest stored key below
the one before and a backward walk runs out only after the smallest. The other
cursors do not state the key order in which they walk. Each cursor's `seek`
states that it lands on a stored key when given one.

`ArenaTrie::fits` and `ArenaTrie::lands_findable` compute the two conditions
under which its `insert` succeeds and leaves the new key findable.
