//! Key storage for generic trie key types.
//!
//! [`TrieKey`] says how a key type provides its byte representation and which
//! [`KeyStore`] backs it. Two stores are provided: [`BufKeyStore`] packs all key
//! bytes of `Vec<u8>` keys into one buffer, [`VecKeyStore`] keeps one `K` per key.
//! Both reserve index 0 for a dummy entry, so real keys start at index 1.
//!
//! [`ByteKey`] is the byte-representation trait used by the radix tries that
//! manage their own key storage.

use vstd::prelude::*;
use vstd::utf8::{encode_utf8, valid_utf8, encode_utf8_valid_utf8};
use vstd::string::StringSliceAdditionalSpecFns;

verus! {

/// A key type with a byte representation `key_view`, used for trie traversal.
pub trait KeyRepr: Default + Sized {
    spec fn key_view(&self) -> Seq<u8>;

    /// The byte representation of this key.
    fn as_bytes(&self) -> (r: &[u8])
        ensures
            r@ == self.key_view(),
    ;
}

/// A key type that can be stored in a trie, with the store that backs it.
pub trait TrieKey: KeyRepr {
    type Store: KeyStore<Self>;
}

/// Storage backend for trie keys, with 1-based key indices.
///
/// `keys()` is the sequence of stored byte strings, the dummy at index 0 included.
pub trait KeyStore<K: KeyRepr>: Default + Sized {
    spec fn keys(&self) -> Seq<Seq<u8>>;

    spec fn well_formed(&self) -> bool;

    /// Whether this store can hold a key with these bytes.
    spec fn accepts(bytes: Seq<u8>) -> bool;

    /// Every store accepts keys of at most `u16::MAX` bytes.
    proof fn lemma_accepts_short(bytes: Seq<u8>)
        requires
            bytes.len() <= u16::MAX,
        ensures
            Self::accepts(bytes),
    ;

    /// A store holding only the dummy entry.
    fn with_dummy() -> (r: Self)
        ensures
            r.well_formed(),
            r.keys().len() == 1,
    ;

    /// Push a new key, returning its 1-based key index.
    fn push(&mut self, key: K) -> (r: u32)
        requires
            old(self).well_formed(),
            old(self).keys().len() <= u32::MAX,
            Self::accepts(key.key_view()),
        ensures
            final(self).well_formed(),
            final(self).keys() == old(self).keys().push(key.key_view()),
            r == old(self).keys().len(),
    ;

    /// The bytes of the key at index `ki`.
    fn key_bytes(&self, ki: u32) -> (r: &[u8])
        requires
            self.well_formed(),
            ki < self.keys().len(),
        ensures
            r@ == self.keys()[ki as int],
    ;

    /// Drop the last pushed key.
    fn rollback(&mut self)
        requires
            old(self).well_formed(),
            old(self).keys().len() > 1,
        ensures
            final(self).well_formed(),
            final(self).keys() == old(self).keys().drop_last(),
    ;

    /// Number of real keys (the dummy excluded).
    fn len(&self) -> (r: usize)
        requires
            self.well_formed(),
        ensures
            r == self.keys().len() - 1,
    ;

    /// All real keys, in index order.
    fn into_keys(self) -> (r: Vec<K>)
        requires
            self.well_formed(),
        ensures
            r.len() == self.keys().len() - 1,
            forall|i: int| 0 <= i < r.len() ==> #[trigger] r[i].key_view() == self.keys()[i + 1],
    ;
}

/// Pushing a key makes it readable at the returned index, and rolling back
/// right after restores the stored keys: `s1` is a store after `push(key)` on
/// `s0` returned `ki`, and `s2` is `s1` after `rollback`.
pub proof fn lemma_push_then_rollback<K: KeyRepr, S: KeyStore<K>>(s0: S, s1: S, s2: S, key: K, ki: u32)
    requires
        s1.keys() == s0.keys().push(key.key_view()),
        ki == s0.keys().len(),
        s2.keys() == s1.keys().drop_last(),
    ensures
        s1.keys()[ki as int] == key.key_view(),
        s1.keys().len() == s0.keys().len() + 1,
        s2.keys() == s0.keys(),
{
    assert(s1.keys().drop_last() =~= s0.keys());
}

/// Copy `src` onto the end of `dst`.
pub(crate) fn append_bytes(dst: &mut Vec<u8>, src: &[u8])
    ensures
        final(dst)@ == old(dst)@ + src@,
{
    let mut i: usize = 0;
    while i < src.len()
        invariant
            0 <= i <= src@.len(),
            dst@ == old(dst)@ + src@.subrange(0, i as int),
        decreases src@.len() - i,
    {
        dst.push(src[i]);
        i += 1;
        proof {
            assert(src@.subrange(0, i as int) == src@.subrange(0, i - 1) + seq![src@[i - 1]]);
        }
    }
    proof {
        assert(src@.subrange(0, src@.len() as int) == src@);
    }
}

/// Flat-buffer key storage for `Vec<u8>` keys: all key bytes in one buffer, with
/// `(offset, length)` per key. Key lengths are `u16`.
pub struct BufKeyStore {
    buf: Vec<u8>,
    index: Vec<(usize, u16)>,
}

impl BufKeyStore {
    /// Every index entry addresses a range inside `buf`.
    pub closed spec fn entries_in_bounds(&self) -> bool {
        forall|i: int|
            0 <= i < self.index@.len() ==> #[trigger] self.index@[i].0 + self.index@[i].1
                <= self.buf@.len()
    }
}

impl Default for BufKeyStore {
    fn default() -> (r: Self)
        ensures
            r.well_formed(),
            r.keys().len() == 1,
    {
        Self::with_dummy()
    }
}

impl KeyStore<Vec<u8>> for BufKeyStore {
    closed spec fn keys(&self) -> Seq<Seq<u8>> {
        Seq::new(
            self.index@.len(),
            |i: int|
                self.buf@.subrange(
                    self.index@[i].0 as int,
                    self.index@[i].0 + self.index@[i].1,
                ),
        )
    }

    closed spec fn well_formed(&self) -> bool {
        &&& self.index@.len() >= 1
        &&& self.index@[0] == (0usize, 0u16)
        &&& self.entries_in_bounds()
        &&& forall|i: int|
            0 < i < self.index@.len() ==> #[trigger] self.index@[i].0 + self.index@[i].1
                == if i + 1 < self.index@.len() {
                self.index@[i + 1].0 as int
            } else {
                self.buf@.len() as int
            }
        &&& self.index@.len() > 1 ==> self.index@[1].0 == 0
        &&& self.index@.len() == 1 ==> self.buf@.len() == 0
    }

    open spec fn accepts(bytes: Seq<u8>) -> bool {
        bytes.len() <= u16::MAX
    }

    proof fn lemma_accepts_short(bytes: Seq<u8>) {
    }

    fn with_dummy() -> (r: Self) {
        let mut index: Vec<(usize, u16)> = Vec::new();
        index.push((0, 0));
        BufKeyStore { buf: Vec::new(), index }
    }

    fn push(&mut self, key: Vec<u8>) -> (r: u32) {
        let ki = self.index.len() as u32;
        let offset = self.buf.len();
        proof {
            assert(self.keys().len() == self.index@.len());
        }
        let ghost old_self = *self;
        append_bytes(&mut self.buf, key.as_slice());
        self.index.push((offset, key.len() as u16));
        proof {
            assert forall|i: int| 0 <= i < old_self.index@.len() implies #[trigger] self.keys()[i]
                == old_self.keys()[i] by {
                assert(self.buf@.subrange(
                    self.index@[i].0 as int,
                    self.index@[i].0 + self.index@[i].1,
                ) =~= old_self.buf@.subrange(
                    old_self.index@[i].0 as int,
                    old_self.index@[i].0 + old_self.index@[i].1,
                ));
            }
            assert(self.keys()[ki as int] =~= key@);
            assert(self.keys() =~= old_self.keys().push(key@));
            assert forall|i: int|
                0 < i < self.index@.len() implies #[trigger] self.index@[i].0 + self.index@[i].1
                == if i + 1 < self.index@.len() {
                self.index@[i + 1].0 as int
            } else {
                self.buf@.len() as int
            } by {
                if i < old_self.index@.len() {
                    if i + 1 < old_self.index@.len() {
                    } else {
                        assert(i + 1 == self.index@.len() - 1);
                    }
                }
            }
        }
        ki
    }

    fn key_bytes(&self, ki: u32) -> (r: &[u8]) {
        let (off, len) = self.index[ki as usize];
        proof {
            assert(self.index@[ki as int].0 + self.index@[ki as int].1 <= self.buf@.len());
        }
        let blen = self.buf.len();
        let s = self.buf.as_slice();
        vstd::slice::slice_subrange(s, off, off + len as usize)
    }

    fn rollback(&mut self) {
        let ghost old_self = *self;
        let (off, _len) = self.index.pop().unwrap();
        proof {
            lemma_offsets_in_buf(old_self, old_self.index@.len() - 1);
        }
        self.buf.truncate(off);
        proof {
            lemma_rollback(old_self, *self);
        }
    }

    fn len(&self) -> (r: usize) {
        self.index.len() - 1
    }

    fn into_keys(self) -> (r: Vec<Vec<u8>>) {
        let mut out: Vec<Vec<u8>> = Vec::new();
        let mut i: usize = 1;
        while i < self.index.len()
            invariant
                self.well_formed(),
                1 <= i <= self.index@.len(),
                out.len() == i - 1,
                forall|j: int| 0 <= j < out.len() ==> #[trigger] out[j]@ == self.keys()[j + 1],
            decreases self.index@.len() - i,
        {
            let (off, len) = self.index[i];
            let blen = self.buf.len();
            proof {
                assert(self.index@[i as int].0 + self.index@[i as int].1 <= self.buf@.len());
            }
            let s = vstd::slice::slice_subrange(self.buf.as_slice(), off, off + len as usize);
            out.push(vstd::slice::slice_to_vec(s));
            i += 1;
        }
        out
    }
}

/// In a well-formed buffer store, the end of entry `i` is at most the start of entry `j`.
proof fn lemma_offsets_monotone(s: BufKeyStore, i: int, j: int)
    requires
        s.well_formed(),
        0 < i <= j < s.index@.len(),
    ensures
        s.index@[i].0 <= s.index@[j].0,
    decreases j - i,
{
    if i < j {
        lemma_offsets_monotone(s, i + 1, j);
        assert(s.index@[i].0 + s.index@[i].1 == s.index@[i + 1].0);
    }
}

/// Entry `i` of a well-formed buffer store starts inside the buffer.
proof fn lemma_offsets_in_buf(s: BufKeyStore, i: int)
    requires
        s.well_formed(),
        0 < i < s.index@.len(),
    ensures
        s.index@[i].0 <= s.buf@.len(),
{
    assert(s.index@[i].0 + s.index@[i].1 <= s.buf@.len());
}

/// Dropping the last entry and cutting the buffer at its offset keeps the store
/// well formed and drops the last key.
proof fn lemma_rollback(o: BufKeyStore, n: BufKeyStore)
    requires
        o.well_formed(),
        o.index@.len() > 1,
        n.index@ == o.index@.drop_last(),
        n.buf@ == o.buf@.subrange(0, o.index@[o.index@.len() - 1].0 as int),
    ensures
        n.well_formed(),
        n.keys() == o.keys().drop_last(),
{
    let len = o.index@.len();
    let off = o.index@[len - 1].0 as int;
    assert forall|i: int| 0 <= i < n.index@.len() implies #[trigger] n.index@[i].0 + n.index@[i].1
        <= off by {
        if i > 0 {
            lemma_offsets_monotone(o, i + 1, len - 1);
            assert(o.index@[i].0 + o.index@[i].1 == o.index@[i + 1].0);
        }
    }
    assert(n.entries_in_bounds());
    assert forall|i: int| 0 <= i < n.index@.len() implies #[trigger] n.keys()[i] == o.keys()[i] by {
        assert(n.buf@.subrange(n.index@[i].0 as int, n.index@[i].0 + n.index@[i].1)
            =~= o.buf@.subrange(o.index@[i].0 as int, o.index@[i].0 + o.index@[i].1));
    }
    assert(n.keys() =~= o.keys().drop_last());
}

/// Vec-backed key storage for any [`TrieKey`]: one `K` per key, `keys[0]` is
/// `K::default()`.
pub struct VecKeyStore<K: KeyRepr> {
    keys: Vec<K>,
}

impl<K: KeyRepr> Default for VecKeyStore<K> {
    fn default() -> (r: Self)
        ensures
            r.well_formed(),
            r.keys().len() == 1,
    {
        Self::with_dummy()
    }
}

impl<K: KeyRepr> KeyStore<K> for VecKeyStore<K> {
    closed spec fn keys(&self) -> Seq<Seq<u8>> {
        Seq::new(self.keys@.len(), |i: int| self.keys@[i].key_view())
    }

    closed spec fn well_formed(&self) -> bool {
        self.keys@.len() >= 1
    }

    open spec fn accepts(bytes: Seq<u8>) -> bool {
        true
    }

    proof fn lemma_accepts_short(bytes: Seq<u8>) {
    }

    fn with_dummy() -> (r: Self) {
        let mut keys: Vec<K> = Vec::new();
        keys.push(K::default());
        VecKeyStore { keys }
    }

    fn push(&mut self, key: K) -> (r: u32) {
        let ki = self.keys.len() as u32;
        let ghost kv = key.key_view();
        self.keys.push(key);
        proof {
            assert(self.keys() =~= old(self).keys().push(kv));
        }
        ki
    }

    fn key_bytes(&self, ki: u32) -> (r: &[u8]) {
        self.keys[ki as usize].as_bytes()
    }

    fn rollback(&mut self) {
        self.keys.pop();
        proof {
            assert(self.keys() =~= old(self).keys().drop_last());
        }
    }

    fn len(&self) -> (r: usize) {
        self.keys.len() - 1
    }

    fn into_keys(self) -> (r: Vec<K>) {
        let ghost ks = self.keys();
        let mut keys = self.keys;
        let mut out: Vec<K> = Vec::new();
        // Move the keys out back to front, then restore index order.
        let mut rev: Vec<K> = Vec::new();
        while keys.len() > 1
            invariant
                keys@.len() >= 1,
                keys@.len() + rev@.len() == ks.len(),
                forall|j: int| 0 <= j < keys@.len() ==> #[trigger] keys@[j].key_view() == ks[j],
                forall|j: int| 0 <= j < rev@.len() ==> #[trigger] rev@[j].key_view() == ks[ks.len() - 1 - j],
            decreases keys@.len(),
        {
            let k = keys.pop().unwrap();
            rev.push(k);
        }
        while rev.len() > 0
            invariant
                out@.len() + rev@.len() == ks.len() - 1,
                forall|j: int| 0 <= j < rev@.len() ==> #[trigger] rev@[j].key_view() == ks[ks.len() - 1 - j],
                forall|j: int| 0 <= j < out@.len() ==> #[trigger] out@[j].key_view() == ks[j + 1],
            decreases rev@.len(),
        {
            let k = rev.pop().unwrap();
            out.push(k);
        }
        out
    }
}

/// A key type with an order-preserving byte representation, convertible back
/// from bytes that it produced.
pub trait ByteKey: TrieKey {
    /// The byte strings that some key of this type represents.
    spec fn valid_repr(bytes: Seq<u8>) -> bool;

    proof fn lemma_repr_valid(k: &Self)
        ensures
            Self::valid_repr(k.key_view()),
    ;

    /// The byte representation of this key.
    fn bytes(&self) -> (r: &[u8])
        ensures
            r@ == self.key_view(),
    ;

    /// Rebuild an owned key from its byte representation.
    fn from_bytes(bytes: &[u8]) -> (r: Self)
        requires
            Self::valid_repr(bytes@),
        ensures
            r.key_view() == bytes@,
    ;
}

impl TrieKey for Vec<u8> {
    type Store = BufKeyStore;
}

impl KeyRepr for Vec<u8> {
    open spec fn key_view(&self) -> Seq<u8> {
        self@
    }

    fn as_bytes(&self) -> (r: &[u8]) {
        self.as_slice()
    }
}

impl ByteKey for Vec<u8> {
    open spec fn valid_repr(bytes: Seq<u8>) -> bool {
        true
    }

    proof fn lemma_repr_valid(k: &Self) {
    }

    fn bytes(&self) -> (r: &[u8]) {
        self.as_slice()
    }

    fn from_bytes(bytes: &[u8]) -> (r: Self) {
        vstd::slice::slice_to_vec(bytes)
    }
}

impl TrieKey for String {
    type Store = VecKeyStore<String>;
}

impl KeyRepr for String {
    open spec fn key_view(&self) -> Seq<u8> {
        encode_utf8(self@)
    }

    fn as_bytes(&self) -> (r: &[u8]) {
        self.as_str().as_bytes()
    }
}

/// `String::from_utf8` on bytes known to be valid UTF-8.
///
/// Trusted: the std documentation says that on valid UTF-8 the call returns `Ok`
/// with a `String` holding exactly those bytes; the contract states that and
/// excludes invalid input, on which the `unwrap` would panic.
#[verifier::external_body]
fn string_from_utf8(bytes: Vec<u8>) -> (r: String)
    requires
        valid_utf8(bytes@),
    ensures
        encode_utf8(r@) == bytes@,
{
    String::from_utf8(bytes).unwrap()
}

impl ByteKey for String {
    open spec fn valid_repr(bytes: Seq<u8>) -> bool {
        valid_utf8(bytes)
    }

    proof fn lemma_repr_valid(k: &Self) {
        encode_utf8_valid_utf8(k@);
    }

    fn bytes(&self) -> (r: &[u8]) {
        self.as_str().as_bytes()
    }

    fn from_bytes(bytes: &[u8]) -> (r: Self) {
        string_from_utf8(vstd::slice::slice_to_vec(bytes))
    }
}

} // verus!
