//! Compact arena-based radix tries over byte keys.
//!
//! - [`nibble_trie::NibbleTrie`] — 16-way radix trie indexed by nibbles
//! - [`nib_trie::NibTrie`] — 4-way radix trie indexed by 2-bit groups
//! - [`bit_trie::BitTrie`] — binary radix trie indexed by single bits
//!
//! All tries keep their nodes in an arena (`Vec`) and address children by index.

pub mod bits;
pub mod simd;
pub mod trie_index;
pub mod key_store;
pub mod nibble_trie;
pub mod bit_trie;
pub mod nib_trie;
pub mod arena_trie;
pub mod arena;
pub mod tiny_array;
pub mod flat_node;

pub use nibble_trie::{NibbleTrie, TrieIndex};
pub use bit_trie::BitTrie;
pub use nib_trie::NibTrie;
pub use key_store::{ByteKey, KeyStore, TrieKey};
