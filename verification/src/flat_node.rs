//! A dense leaf-pack node for the nibble trie, and arena elements that hold
//! either such a node or an ordinary 16-slot node.
//!
//! A flat node collapses a small subtree (at most `CAP` keys) into one node
//! holding a flattened pre-order micro-trie: per slot a nibble (packed into
//! `nibbles`, four bits per slot) and a `(key-index, prefix_len)` pair, where an
//! empty key index marks a branch and a present one a terminal key. A flat node
//! holds key indices only, never arena references.

use vstd::prelude::*;
use crate::nibble_trie::Node;
use crate::tiny_array::TinyArray;
use crate::trie_index::{OptNz, TrieIndex};

verus! {

/// A dense leaf-pack node with a 64-bit nibble pack (up to 16 slots).
pub struct FlatNode<PTR: TrieIndex, LEN: TrieIndex, const CAP: usize> {
    pub nibbles: u64,
    pub slots: TinyArray<(OptNz<PTR>, LEN), CAP>,
}

impl<PTR: TrieIndex, LEN: TrieIndex, const CAP: usize> FlatNode<PTR, LEN, CAP> {
    /// An empty flat node.
    pub fn new() -> (r: Self)
        ensures
            r.nibbles == 0,
            r.slots@ == Seq::<(OptNz<PTR>, LEN)>::empty(),
    {
        FlatNode { nibbles: 0, slots: TinyArray::new() }
    }
}

impl<PTR: TrieIndex, LEN: TrieIndex, const CAP: usize> Default for FlatNode<PTR, LEN, CAP> {
    fn default() -> (r: Self)
        ensures
            r.nibbles == 0,
            r.slots@ == Seq::<(OptNz<PTR>, LEN)>::empty(),
    {
        Self::new()
    }
}

/// An arena element: an ordinary 16-slot node or a flat node.
pub enum ArenaNode<PTR: TrieIndex, LEN: TrieIndex, const CAP: usize> {
    Inode(Node<PTR, LEN>),
    Fnode(FlatNode<PTR, LEN, CAP>),
}

/// A flat node with a 32-bit nibble pack (up to 8 slots).
pub struct FlatNodeN32<PTR: TrieIndex, LEN: TrieIndex, const CAP: usize> {
    pub nibbles: u32,
    pub slots: TinyArray<(OptNz<PTR>, LEN), CAP>,
}

/// An arena element: an ordinary 16-slot node or a flat node with a 32-bit
/// nibble pack.
pub enum ArenaNodeN32<PTR: TrieIndex, LEN: TrieIndex, const CAP: usize> {
    Inode(Node<PTR, LEN>),
    Fnode(FlatNodeN32<PTR, LEN, CAP>),
}

} // verus!
