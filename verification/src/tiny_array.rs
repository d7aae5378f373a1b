//! A fixed-capacity array with a stored length.
//!
//! `TinyArray<T, N>` holds at most `N` elements (at most 255). Elements are moved
//! in and out; nothing is cloned.

use vstd::prelude::*;

verus! {

/// A fixed-capacity array with a stored length: the elements in order, at most `N`.
#[derive(Clone, Debug)]
pub struct TinyArray<T, const N: usize> {
    items: Vec<T>,
}

impl<T, const N: usize> View for TinyArray<T, N> {
    type V = Seq<T>;

    closed spec fn view(&self) -> Seq<T> {
        self.items@
    }
}

/// Whether `perm` holds a permutation of `0..n` in its first `n` entries.
pub open spec fn is_permutation(perm: Seq<usize>, n: int) -> bool {
    &&& n <= perm.len()
    &&& forall|i: int| 0 <= i < n ==> #[trigger] perm[i] < n
    &&& forall|i: int, j: int| 0 <= i < j < n ==> #[trigger] perm[i] != #[trigger] perm[j]
}

/// Inserting at a position and removing at the same position gives back the
/// inserted element and the elements as they were.
pub proof fn lemma_insert_then_remove<T>(s: Seq<T>, pos: int, v: T)
    requires
        0 <= pos <= s.len(),
    ensures
        s.insert(pos, v)[pos] == v,
        s.insert(pos, v).remove(pos) == s,
{
    assert(s.insert(pos, v).remove(pos) =~= s);
}

/// Pushing and popping gives back the pushed element and the elements as they were.
pub proof fn lemma_push_then_pop<T>(s: Seq<T>, v: T)
    ensures
        s.push(v).last() == v,
        s.push(v).drop_last() == s,
{
    assert(s.push(v).drop_last() =~= s);
}

/// Splitting the elements at `from`, as `drain_into` and `drain_into_front` do,
/// keeps every element exactly once and in order.
pub proof fn lemma_drain_split<T>(s: Seq<T>, from: int)
    requires
        0 <= from <= s.len(),
    ensures
        s.subrange(0, from) + s.subrange(from, s.len() as int) == s,
{
    assert(s.subrange(0, from) + s.subrange(from, s.len() as int) =~= s);
}

impl<T, const N: usize> TinyArray<T, N> {
    /// An empty array.
    pub fn new() -> (r: Self)
        ensures
            r@ == Seq::<T>::empty(),
    {
        TinyArray { items: Vec::new() }
    }

    /// The number of elements.
    pub fn len(&self) -> (r: usize)
        ensures
            r == self@.len(),
    {
        self.items.len()
    }

    /// Whether the array is at capacity.
    pub fn is_full(&self) -> (r: bool)
        ensures
            r == (self@.len() == N),
    {
        self.items.len() == N
    }

    /// The elements as a slice.
    pub fn as_slice(&self) -> (r: &[T])
        ensures
            r@ == self@,
    {
        self.items.as_slice()
    }

    /// The element at `i`.
    pub fn get(&self, i: usize) -> (r: &T)
        requires
            i < self@.len(),
        ensures
            *r == self@[i as int],
    {
        &self.items[i]
    }

    /// The element at `i`, for an index known to be in bounds.
    pub fn get_unchecked(&self, i: usize) -> (r: &T)
        requires
            i < self@.len(),
        ensures
            *r == self@[i as int],
    {
        &self.items[i]
    }

    /// The element at `i`, to modify in place.
    pub fn get_mut(&mut self, i: usize) -> (r: &mut T)
        requires
            i < old(self)@.len(),
        ensures
            *r == old(self)@[i as int],
            final(self)@ == old(self)@.update(i as int, *final(r)),
    {
        &mut self.items[i]
    }

    /// Inserts `val` at `pos`, shifting the elements from `pos` on right by one.
    pub fn insert_at(&mut self, pos: usize, val: T)
        requires
            old(self)@.len() < N,
            pos <= old(self)@.len(),
        ensures
            final(self)@ == old(self)@.insert(pos as int, val),
    {
        self.items.insert(pos, val);
    }

    /// Removes and returns the element at `pos`, shifting the later elements
    /// left by one.
    pub fn remove_at(&mut self, pos: usize) -> (r: T)
        requires
            pos < old(self)@.len(),
        ensures
            r == old(self)@[pos as int],
            final(self)@ == old(self)@.remove(pos as int),
    {
        self.items.remove(pos)
    }

    /// Appends `val`.
    pub fn push(&mut self, val: T)
        requires
            old(self)@.len() < N,
        ensures
            final(self)@ == old(self)@.push(val),
    {
        let len = self.items.len();
        self.insert_at(len, val);
        proof {
            assert(old(self)@.insert(len as int, val) =~= old(self)@.push(val));
        }
    }

    /// Removes and returns the last element, or `None` if empty.
    pub fn pop(&mut self) -> (r: Option<T>)
        ensures
            old(self)@.len() == 0 ==> r is None && final(self)@ == old(self)@,
            old(self)@.len() > 0 ==> r == Some(old(self)@.last()) && final(self)@ == old(self)@.drop_last(),
    {
        self.items.pop()
    }

    /// Keeps the first `new_len` elements.
    pub fn truncate(&mut self, new_len: u8)
        requires
            new_len <= old(self)@.len(),
        ensures
            final(self)@ == old(self)@.subrange(0, new_len as int),
    {
        self.items.truncate(new_len as usize);
    }

    /// Reorders the elements so that position `i` holds what was at `perm[i]`;
    /// `perm` is a permutation of `0..len` in its first `len` entries.
    pub fn permute_in_place(&mut self, perm: &[usize])
        requires
            is_permutation(perm@, old(self)@.len() as int),
        ensures
            final(self)@.len() == old(self)@.len(),
            forall|i: int| 0 <= i < old(self)@.len() ==> #[trigger] final(self)@[i] == old(self)@[perm@[i] as int],
    {
        let n = self.items.len();
        if n <= 1 {
            proof {
                if n == 1 {
                    assert(perm@[0] < 1);
                }
            }
            return;
        }
        // Move the elements out, last first, so that `src[n - 1 - j]` holds element `j`.
        let mut src: Vec<Option<T>> = Vec::new();
        let ghost orig = self.items@;
        while self.items.len() > 0
            invariant
                self.items@.len() + src@.len() == n,
                n == orig.len(),
                self.items@ == orig.subrange(0, self.items@.len() as int),
                forall|k: int| 0 <= k < src@.len() ==> #[trigger] src@[k] == Some(orig[n - 1 - k]),
            decreases self.items@.len(),
        {
            let x = self.items.pop().unwrap();
            src.push(Some(x));
        }
        let mut i: usize = 0;
        while i < n
            invariant
                0 <= i <= n,
                n == orig.len(),
                src@.len() == n,
                is_permutation(perm@, n as int),
                self.items@.len() == i,
                forall|k: int| 0 <= k < i ==> #[trigger] self.items@[k] == orig[perm@[k] as int],
                forall|j: int| 0 <= j < n ==> #[trigger] src@[n - 1 - j] == (if (exists|k: int| 0 <= k < i && perm@[k] == j) {
                    None
                } else {
                    Some(orig[j])
                }),
            decreases n - i,
        {
            let p = perm[i];
            let slot = n - 1 - p;
            proof {
                assert(!(exists|k: int| 0 <= k < i && perm@[k] == p)) by {
                    if exists|k: int| 0 <= k < i && perm@[k] == p {
                        let k = choose|k: int| 0 <= k < i && perm@[k] == p;
                        assert(perm@[k] != perm@[i as int]);
                    }
                }
                assert(src@[n - 1 - p] == Some(orig[p as int]));
            }
            let x = src[slot].take().unwrap();
            self.items.push(x);
            proof {
                assert forall|j: int| 0 <= j < n implies #[trigger] src@[n - 1 - j] == (if (exists|k: int| 0 <= k < i + 1 && perm@[k] == j) {
                    None
                } else {
                    Some(orig[j])
                }) by {
                    if j == p {
                        assert(perm@[i as int] == j);
                    } else {
                        assert((exists|k: int| 0 <= k < i + 1 && perm@[k] == j) == (exists|k: int| 0 <= k < i && perm@[k] == j));
                    }
                }
            }
            i += 1;
        }
    }

    /// Moves the elements from `from` on to the end of `dst`; `self` keeps the
    /// first `from` elements.
    pub fn drain_into(&mut self, from: usize, dst: &mut Self)
        requires
            from < old(self)@.len(),
            old(dst)@.len() + (old(self)@.len() - from) <= N,
        ensures
            final(self)@ == old(self)@.subrange(0, from as int),
            final(dst)@ == old(dst)@ + old(self)@.subrange(from as int, old(self)@.len() as int),
    {
        let mut tail = split_tail(&mut self.items, from);
        dst.items.append(&mut tail);
    }

    /// Moves the elements from `from` on to the front of `dst`, ahead of its own
    /// elements; `self` keeps the first `from` elements.
    pub fn drain_into_front(&mut self, from: usize, dst: &mut Self)
        requires
            from < old(self)@.len(),
            old(dst)@.len() + (old(self)@.len() - from) <= N,
        ensures
            final(self)@ == old(self)@.subrange(0, from as int),
            final(dst)@ == old(self)@.subrange(from as int, old(self)@.len() as int) + old(dst)@,
    {
        let mut tail = split_tail(&mut self.items, from);
        tail.append(&mut dst.items);
        dst.items = tail;
    }

    /// Moves the first `count` elements to the end of `dst`; `self` keeps the rest.
    pub fn drain_front_into(&mut self, count: usize, dst: &mut Self)
        requires
            count <= old(self)@.len(),
            old(dst)@.len() + count <= N,
        ensures
            final(self)@ == old(self)@.subrange(count as int, old(self)@.len() as int),
            final(dst)@ == old(dst)@ + old(self)@.subrange(0, count as int),
    {
        let rest = split_tail(&mut self.items, count);
        let mut front = Vec::new();
        std::mem::swap(&mut front, &mut self.items);
        self.items = rest;
        dst.items.append(&mut front);
    }
}

/// Splits `v` at `at`: `v` keeps the first `at` elements, the rest are returned.
fn split_tail<T>(v: &mut Vec<T>, at: usize) -> (r: Vec<T>)
    requires
        at <= old(v)@.len(),
    ensures
        final(v)@ == old(v)@.subrange(0, at as int),
        r@ == old(v)@.subrange(at as int, old(v)@.len() as int),
{
    v.split_off(at)
}

impl<T: Copy, const N: usize> TinyArray<T, N> {
    /// A copy of the element at `pos`, for an index known to be in bounds; the
    /// array is left as it is.
    pub fn read_slot(&mut self, pos: usize) -> (r: T)
        requires
            pos < old(self)@.len(),
        ensures
            r == old(self)@[pos as int],
            final(self)@ == old(self)@,
    {
        self.items[pos]
    }
}

impl<T, const N: usize> Default for TinyArray<T, N> {
    fn default() -> (r: Self)
        ensures
            r@ == Seq::<T>::empty(),
    {
        Self::new()
    }
}

} // verus!
