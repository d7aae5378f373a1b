//! Arena allocator with stable indices, a single-slot free list and per-size
//! block free lists.
//!
//! Freed slots are reused before the arena grows:
//! - **Single-slot free list** (`free_head`): `free` pushes a slot, `alloc` pops
//!   the most recently freed one (LIFO).
//! - **Block free lists** (`block_free[n]`): `free_n(start, n)` pushes a
//!   contiguous block of `n` slots; `alloc_n(n, ..)` and `alloc_slice` of length
//!   `n` pop the most recently freed block of exactly that size.
//!
//! Each freed slot (for a block, its first slot) records the slot freed before
//! it in `links`; a slot whose link is itself, or lies outside the arena, ends
//! its list.
//!
//! `I` is the index type: `u16` for small arenas, `u32` for large ones.

use vstd::prelude::*;

verus! {

/// A slot index convertible to and from `usize`.
pub trait Idx: Copy + Sized {
    /// The index as a number.
    spec fn ival(self) -> nat;

    /// The largest representable index.
    spec fn imax() -> nat;

    proof fn lemma_idx(self)
        ensures
            self.ival() <= Self::imax(),
            Self::imax() <= u32::MAX,
    ;

    /// `n` as an index; exact when it fits.
    fn from_usize(n: usize) -> (r: Self)
        ensures
            r.ival() <= Self::imax(),
            n <= Self::imax() ==> r.ival() == n,
    ;

    /// The index as a `usize`.
    fn to_usize(self) -> (r: usize)
        ensures
            r == self.ival(),
    ;
}

impl Idx for u16 {
    open spec fn ival(self) -> nat {
        self as nat
    }

    open spec fn imax() -> nat {
        u16::MAX as nat
    }

    proof fn lemma_idx(self) {
    }

    fn from_usize(n: usize) -> (r: Self) {
        n as u16
    }

    fn to_usize(self) -> (r: usize) {
        self as usize
    }
}

impl Idx for u32 {
    open spec fn ival(self) -> nat {
        self as nat
    }

    open spec fn imax() -> nat {
        u32::MAX as nat
    }

    proof fn lemma_idx(self) {
    }

    fn from_usize(n: usize) -> (r: Self) {
        n as u32
    }

    fn to_usize(self) -> (r: usize) {
        self as usize
    }
}

/// The index value of an optional index, `None` as `-1`.
pub open spec fn opt_ival<I: Idx>(o: Option<I>) -> int {
    match o {
        Some(i) => i.ival() as int,
        None => -1,
    }
}

/// `s` with the `n` slots from `start` on set to `v`.
pub open spec fn fill<T>(s: Seq<T>, start: int, n: int, v: T) -> Seq<T> {
    Seq::new(s.len(), |i: int| if start <= i < start + n { v } else { s[i] })
}

/// `s` with the slots from `start` on overwritten by `vals`.
pub open spec fn overwrite<T>(s: Seq<T>, start: int, vals: Seq<T>) -> Seq<T> {
    Seq::new(s.len(), |i: int| if start <= i < start + vals.len() { vals[i - start] } else { s[i] })
}

/// The list of freed blocks of `n` slots, `chains[n]`, starts at
/// `block_free[n]`, lies inside an arena of `len` slots, follows `links` from
/// block to block and ends at a block linked to itself.
pub open spec fn chain_ok<I: Idx>(
    chains: Seq<Seq<int>>,
    block_free: Seq<Option<I>>,
    links: Seq<I>,
    len: int,
    n: int,
) -> bool {
    let c = chains[n];
    &&& opt_ival(block_free[n]) == (if c.len() == 0 { -1 } else { c[0] })
    &&& forall|k: int| 0 <= k < c.len() ==> 0 <= #[trigger] c[k] && c[k] < len && c[k] + n <= len
    &&& forall|k: int| 0 <= k < c.len() - 1 ==> links[#[trigger] c[k]].ival() == c[k + 1] && c[k + 1] != c[k]
    &&& c.len() > 0 ==> links[c.last()].ival() == c.last()
}

/// A slab-style arena with stable indices and free-slot reuse.
///
/// Indices are stable: allocation never moves existing slots, and freeing marks
/// slots for reuse without shifting.
pub struct Arena<T: Copy, I: Idx = u32> {
    slots: Vec<T>,
    /// For a freed slot (or the first slot of a freed block), the slot freed
    /// before it on the same list.
    links: Vec<I>,
    /// Head of the single-slot free list.
    free_head: Option<I>,
    /// `block_free[n]` heads the list of freed blocks of `n` slots.
    block_free: Vec<Option<I>>,
    occupied: usize,
    /// `chains[n]` lists the freed blocks of `n` slots from `block_free[n]` on.
    chains: Ghost<Seq<Seq<int>>>,
}

impl<T: Copy, I: Idx> Arena<T, I> {
    /// The slot contents, freed slots included.
    pub closed spec fn slot_seq(self) -> Seq<T> {
        self.slots@
    }

    /// The number of occupied slots as counted by allocations and frees.
    pub closed spec fn occupied_count(self) -> nat {
        self.occupied as nat
    }

    /// The slot that the next single-slot allocation reuses, `-1` if none.
    pub closed spec fn free_head_ival(self) -> int {
        opt_ival(self.free_head)
    }

    /// The freed blocks of `n` slots, most recently freed first.
    pub closed spec fn free_blocks(self, n: int) -> Seq<int> {
        if 0 <= n < self.chains@.len() {
            self.chains@[n]
        } else {
            Seq::empty()
        }
    }

    /// The slot recorded as freed before slot `i`.
    pub closed spec fn link(self, i: int) -> int {
        self.links@[i].ival() as int
    }

    /// Whether `s` starts a freed block of some size.
    pub closed spec fn is_free_block_start(self, s: int) -> bool {
        exists|n: int, k: int| 0 <= n < self.chains@.len() && 0 <= k < self.chains@[n].len()
            && #[trigger] self.chains@[n][k] == s
    }

    /// In a well-formed arena the slot that the next single-slot allocation
    /// reuses lies inside the slots.
    pub proof fn lemma_free_head_in_bounds(self)
        requires
            self.wf(),
        ensures
            self.free_head_ival() < self.slot_seq().len(),
    {
    }

    /// Whether slot `s` starts a freed block of some size: each block list is
    /// walked from its head along the links.
    pub fn is_block_start_free(&self, s: I) -> (r: bool)
        requires
            self.wf(),
        ensures
            r == self.is_free_block_start(s.ival() as int),
    {
        let target = s.to_usize();
        let mut n: usize = 0;
        while n < self.block_free.len()
            invariant
                self.wf(),
                target == s.ival(),
                0 <= n <= self.block_free@.len(),
                forall|m: int, k: int| 0 <= m < n && 0 <= k < self.chains@[m].len() ==> #[trigger] self.chains@[m][k] != target,
            decreases self.block_free@.len() - n,
        {
            proof {
                assert(chain_ok(self.chains@, self.block_free@, self.links@, self.slots@.len() as int, n as int));
            }
            match self.block_free[n] {
                None => {},
                Some(h) => {
                    let ghost c = self.chains@[n as int];
                    let mut cur = h.to_usize();
                    let ghost mut k: int = 0;
                    loop
                        invariant
                            self.wf(),
                            target == s.ival(),
                            n < self.block_free@.len(),
                            c == self.chains@[n as int],
                            chain_ok(self.chains@, self.block_free@, self.links@, self.slots@.len() as int, n as int),
                            0 <= k < c.len(),
                            c[k] == cur,
                            forall|j: int| 0 <= j < k ==> #[trigger] c[j] != target,
                        ensures
                            forall|j: int| 0 <= j < c.len() ==> #[trigger] c[j] != target,
                        decreases c.len() - k,
                    {
                        if cur == target {
                            proof {
                                assert(self.chains@[n as int][k] == target);
                            }
                            return true;
                        }
                        let next = self.links[cur].to_usize();
                        if next == cur {
                            proof {
                                if k < c.len() - 1 {
                                    assert(self.links@[c[k]].ival() == c[k + 1]);
                                }
                                assert forall|j: int| 0 <= j < c.len() implies #[trigger] c[j] != target by {
                                    if j == k {
                                    }
                                }
                            }
                            break;
                        }
                        proof {
                            if k == c.len() - 1 {
                                assert(self.links@[c.last()].ival() == c.last());
                            }
                            assert(self.links@[c[k]].ival() == c[k + 1]);
                            k = k + 1;
                        }
                        cur = next;
                    }
                },
            }
            n += 1;
        }
        false
    }

    /// Every freed slot and block lies inside the arena, and each block list is
    /// the chain of links from its head.
    pub closed spec fn wf(self) -> bool {
        &&& self.links@.len() == self.slots@.len()
        &&& self.free_head matches Some(h) ==> h.ival() < self.slots@.len()
        &&& self.chains@.len() == self.block_free@.len()
        &&& forall|n: int| 0 <= n < self.block_free@.len() ==>
            #[trigger] chain_ok(self.chains@, self.block_free@, self.links@, self.slots@.len() as int, n)
    }

    /// The next block of `n` slots to reuse, `-1` if none.
    pub closed spec fn block_head(self, n: int) -> int {
        if 0 <= n < self.block_free@.len() {
            opt_ival(self.block_free@[n])
        } else {
            -1
        }
    }

    pub fn new() -> (r: Self)
        ensures
            r.wf(),
            r.slot_seq().len() == 0,
            r.occupied_count() == 0,
            r.free_head_ival() == -1,
            forall|n: int| #[trigger] r.free_blocks(n).len() == 0,
    {
        Arena {
            slots: Vec::new(),
            links: Vec::new(),
            free_head: None,
            block_free: Vec::new(),
            occupied: 0,
            chains: Ghost(Seq::empty()),
        }
    }

    /// An empty arena with room reserved for `capacity` slots.
    pub fn with_capacity(capacity: usize) -> (r: Self)
        ensures
            r.wf(),
            r.slot_seq().len() == 0,
            r.occupied_count() == 0,
            r.free_head_ival() == -1,
            forall|n: int| #[trigger] r.free_blocks(n).len() == 0,
    {
        Arena {
            slots: Vec::with_capacity(capacity),
            links: Vec::new(),
            free_head: None,
            block_free: Vec::new(),
            occupied: 0,
            chains: Ghost(Seq::empty()),
        }
    }


    /// Allocates a slot holding `value` and returns its index: the most
    /// recently freed slot if there is one, else a new slot at the end.
    pub fn allocate(&mut self, value: T) -> (r: I)
        requires
            old(self).wf(),
            old(self).occupied_count() < usize::MAX,
            old(self).free_head_ival() < 0 ==> old(self).slot_seq().len() <= I::imax(),
        ensures
            final(self).wf(),
            r.ival() < final(self).slot_seq().len(),
            final(self).slot_seq()[r.ival() as int] == value,
            old(self).free_head_ival() >= 0 ==> final(self).slot_seq().len() == old(self).slot_seq().len(),
            final(self).occupied_count() == old(self).occupied_count() + 1,
            forall|n: int| #[trigger] final(self).free_blocks(n) == old(self).free_blocks(n),
            forall|i: int| 0 <= i < old(self).slot_seq().len() ==> #[trigger] final(self).link(i) == old(self).link(i),
            old(self).free_head_ival() >= 0 ==> {
                let h = old(self).free_head_ival();
                let nx = old(self).link(h);
                &&& r.ival() == h
                &&& final(self).slot_seq() == old(self).slot_seq().update(h, value)
                &&& final(self).free_head_ival() == (if nx < old(self).slot_seq().len() && nx != h { nx } else { -1 })
            },
            old(self).free_head_ival() < 0 ==> {
                &&& r.ival() == old(self).slot_seq().len()
                &&& final(self).slot_seq() == old(self).slot_seq().push(value)
                &&& final(self).free_head_ival() == -1
            },
    {
        self.occupied += 1;
        match self.free_head {
            Some(idx) => {
                let i = idx.to_usize();
                let next = self.links[i];
                let nu = next.to_usize();
                self.free_head = if nu < self.slots.len() && nu != i {
                    Some(next)
                } else {
                    None
                };
                self.slots.set(i, value);
                proof {
                    assert forall|n: int| 0 <= n < self.block_free@.len() implies #[trigger] chain_ok(self.chains@, self.block_free@, self.links@, self.slots@.len() as int, n) by {
                        assert(chain_ok(old(self).chains@, old(self).block_free@, old(self).links@, old(self).slots@.len() as int, n));
                    }
                }
                idx
            },
            None => {
                let idx = I::from_usize(self.slots.len());
                let ghost pre = *self;
                self.slots.push(value);
                self.links.push(idx);
                proof {
                    assert forall|n: int| 0 <= n < self.block_free@.len() implies #[trigger] chain_ok(self.chains@, self.block_free@, self.links@, self.slots@.len() as int, n) by {
                        assert(chain_ok(pre.chains@, pre.block_free@, pre.links@, pre.slots@.len() as int, n));
                        let c = self.chains@[n];
                        assert forall|k: int| 0 <= k < c.len() - 1 implies
                            self.links@[#[trigger] c[k]].ival() == c[k + 1] && c[k + 1] != c[k] by {
                            assert(pre.links@[c[k]].ival() == c[k + 1]);
                        }
                        if c.len() > 0 {
                            assert(self.links@[c.last()] == pre.links@[c.last()]);
                        }
                    }
                }
                idx
            },
        }
    }

    /// Frees slot `idx`, which becomes the next slot that `allocate` reuses.
    pub fn free(&mut self, idx: I)
        requires
            old(self).wf(),
            idx.ival() < old(self).slot_seq().len(),
            old(self).occupied_count() > 0,
            !old(self).is_free_block_start(idx.ival() as int),
        ensures
            final(self).wf(),
            final(self).occupied_count() == old(self).occupied_count() - 1,
            final(self).slot_seq() == old(self).slot_seq(),
            final(self).free_head_ival() == idx.ival(),
            final(self).link(idx.ival() as int)
                == (if old(self).free_head_ival() >= 0 { old(self).free_head_ival() } else { idx.ival() as int }),
            forall|i: int| 0 <= i < old(self).slot_seq().len() && i != idx.ival() ==> #[trigger] final(self).link(i) == old(self).link(i),
            forall|n: int| #[trigger] final(self).free_blocks(n) == old(self).free_blocks(n),
    {
        let i = idx.to_usize();
        let link = match self.free_head {
            Some(h) => h,
            None => idx,
        };
        self.links.set(i, link);
        self.free_head = Some(idx);
        self.occupied -= 1;
        proof {
            assert forall|n: int| 0 <= n < self.block_free@.len() implies #[trigger] chain_ok(self.chains@, self.block_free@, self.links@, self.slots@.len() as int, n) by {
                assert(chain_ok(old(self).chains@, old(self).block_free@, old(self).links@, old(self).slots@.len() as int, n));
                let c = self.chains@[n];
                assert forall|k: int| 0 <= k < c.len() implies #[trigger] c[k] != i by {
                    if c[k] == i {
                        assert(old(self).is_free_block_start(i as int));
                    }
                }
                assert forall|k: int| 0 <= k < c.len() - 1 implies
                    self.links@[#[trigger] c[k]].ival() == c[k + 1] && c[k + 1] != c[k] by {
                    assert(c[k] != i);
                    assert(old(self).links@[c[k]].ival() == c[k + 1]);
                }
                if c.len() > 0 {
                    assert(c[c.len() - 1] != i);
                }
            }
        }
    }


    /// Allocates `n` contiguous slots holding `value` and returns the first:
    /// the most recently freed block of exactly `n` slots if there is one, else
    /// `n` new slots at the end.
    pub fn alloc_n(&mut self, n: usize, value: T) -> (r: I)
        requires
            old(self).wf(),
            n > 0,
            old(self).occupied_count() + n <= usize::MAX,
            old(self).block_head(n as int) < 0 ==> old(self).slot_seq().len() + n - 1 <= I::imax()
                && old(self).slot_seq().len() + n <= usize::MAX,
        ensures
            final(self).wf(),
            final(self).occupied_count() == old(self).occupied_count() + n,
            final(self).free_head_ival() == old(self).free_head_ival(),
            forall|i: int| 0 <= i < old(self).slot_seq().len() ==> #[trigger] final(self).link(i) == old(self).link(i),
            forall|m: int| m != n ==> #[trigger] final(self).free_blocks(m) == old(self).free_blocks(m),
            old(self).block_head(n as int) >= 0 ==> {
                let h = old(self).block_head(n as int);
                &&& r.ival() == h
                &&& h == old(self).free_blocks(n as int)[0]
                &&& final(self).slot_seq() == fill(old(self).slot_seq(), h, n as int, value)
                &&& final(self).free_blocks(n as int) == old(self).free_blocks(n as int).drop_first()
            },
            old(self).block_head(n as int) < 0 ==> {
                &&& r.ival() == old(self).slot_seq().len()
                &&& final(self).slot_seq() == old(self).slot_seq() + Seq::new(n as nat, |_i: int| value)
                &&& final(self).free_blocks(n as int) == old(self).free_blocks(n as int)
            },
    {
        if n < self.block_free.len() {
            if let Some(head) = self.block_free[n] {
                let i = head.to_usize();
                let _total = self.slots.len();
                proof {
                    assert(chain_ok(self.chains@, self.block_free@, self.links@, self.slots@.len() as int, n as int));
                    assert(self.chains@[n as int][0] == i);
                }
                let next = self.links[i];
                let nu = next.to_usize();
                let new_head = if nu < self.slots.len() && nu != i {
                    Some(next)
                } else {
                    None
                };
                self.block_free.set(n, new_head);
                let ghost c = self.chains@[n as int];
                proof {
                    self.chains@ = self.chains@.update(n as int, c.drop_first());
                }
                let ghost mid2 = *self;
                let mut k: usize = 0;
                while k < n
                    invariant
                        0 <= k <= n,
                        i + n <= self.slots@.len(),
                        self.slots@.len() <= usize::MAX,
                        self.slots@.len() == old(self).slots@.len(),
                        self.links == mid2.links,
                        self.block_free == mid2.block_free,
                        self.chains == mid2.chains,
                        self.free_head == mid2.free_head,
                        self.occupied == mid2.occupied,
                        forall|j: int| 0 <= j < self.slots@.len() ==> #[trigger] self.slots@[j]
                            == (if i <= j < i + k { value } else { old(self).slots@[j] }),
                    decreases n - k,
                {
                    self.slots.set(i + k, value);
                    k += 1;
                }
                self.occupied += n;
                proof {
                    assert(self.slots@ =~= fill(old(self).slots@, i as int, n as int, value));
                    assert forall|m: int| 0 <= m < self.block_free@.len() implies
                        #[trigger] chain_ok(self.chains@, self.block_free@, self.links@, self.slots@.len() as int, m) by {
                        assert(chain_ok(old(self).chains@, old(self).block_free@, old(self).links@, old(self).slots@.len() as int, m));
                        if m == n {
                            let c2 = self.chains@[m];
                            assert forall|k2: int| 0 <= k2 < c2.len() - 1 implies
                                self.links@[#[trigger] c2[k2]].ival() == c2[k2 + 1] && c2[k2 + 1] != c2[k2] by {
                                assert(c2[k2] == c[k2 + 1]);
                            }
                            if c.len() > 1 {
                                assert(self.links@[c[0]].ival() == c[1]);
                            }
                        }
                    }
                }
                return head;
            }
        }
        let start = self.slots.len();
        let end = start + n;
        let ghost pre = *self;
        let mut k: usize = 0;
        while k < n
            invariant
                0 <= k <= n,
                start == pre.slots@.len(),
                end == start + n,
                self.slots@.len() == start + k,
                self.links@.len() == start + k,
                self.slots@.subrange(0, start as int) == pre.slots@,
                self.links@.subrange(0, start as int) == pre.links@,
                forall|j: int| start <= j < start + k ==> #[trigger] self.slots@[j] == value,
                self.free_head == pre.free_head,
                self.block_free == pre.block_free,
                self.chains == pre.chains,
                self.occupied == pre.occupied,
            decreases n - k,
        {
            self.slots.push(value);
            self.links.push(I::from_usize(0));
            k += 1;
        }
        self.occupied += n;
        proof {
            assert(self.slots@ =~= pre.slots@ + Seq::new(n as nat, |_i: int| value));
            assert forall|j: int| 0 <= j < start implies #[trigger] self.links@[j] == pre.links@[j] by {
                assert(self.links@.subrange(0, start as int)[j] == pre.links@[j]);
            }
            assert forall|m: int| 0 <= m < self.block_free@.len() implies
                #[trigger] chain_ok(self.chains@, self.block_free@, self.links@, self.slots@.len() as int, m) by {
                assert(chain_ok(pre.chains@, pre.block_free@, pre.links@, pre.slots@.len() as int, m));
                let c = self.chains@[m];
                assert forall|k2: int| 0 <= k2 < c.len() - 1 implies
                    self.links@[#[trigger] c[k2]].ival() == c[k2 + 1] && c[k2 + 1] != c[k2] by {
                    assert(pre.links@[c[k2]].ival() == c[k2 + 1]);
                }
                if c.len() > 0 {
                    assert(self.links@[c.last()] == pre.links@[c.last()]);
                }
            }
        }
        I::from_usize(start)
    }


    /// Allocates `values.len()` contiguous slots holding `values` and returns the
    /// first: the most recently freed block of exactly that many slots if there
    /// is one, else new slots at the end.
    pub fn alloc_slice(&mut self, values: &[T]) -> (r: I)
        requires
            old(self).wf(),
            values@.len() > 0,
            old(self).occupied_count() + values@.len() <= usize::MAX,
            old(self).block_head(values@.len() as int) < 0
                ==> old(self).slot_seq().len() + values@.len() - 1 <= I::imax()
                && old(self).slot_seq().len() + values@.len() <= usize::MAX,
        ensures
            final(self).wf(),
            final(self).occupied_count() == old(self).occupied_count() + values@.len(),
            final(self).free_head_ival() == old(self).free_head_ival(),
            forall|i: int| 0 <= i < old(self).slot_seq().len() ==> #[trigger] final(self).link(i) == old(self).link(i),
            forall|m: int| m != values@.len() ==> #[trigger] final(self).free_blocks(m) == old(self).free_blocks(m),
            old(self).block_head(values@.len() as int) >= 0 ==> {
                let h = old(self).block_head(values@.len() as int);
                &&& r.ival() == h
                &&& h == old(self).free_blocks(values@.len() as int)[0]
                &&& final(self).slot_seq() == overwrite(old(self).slot_seq(), h, values@)
                &&& final(self).free_blocks(values@.len() as int) == old(self).free_blocks(values@.len() as int).drop_first()
            },
            old(self).block_head(values@.len() as int) < 0 ==> {
                &&& r.ival() == old(self).slot_seq().len()
                &&& final(self).slot_seq() == old(self).slot_seq() + values@
                &&& final(self).free_blocks(values@.len() as int) == old(self).free_blocks(values@.len() as int)
            },
    {
        let n = values.len();
        if n < self.block_free.len() {
            if let Some(head) = self.block_free[n] {
                let i = head.to_usize();
                let _total = self.slots.len();
                proof {
                    assert(chain_ok(self.chains@, self.block_free@, self.links@, self.slots@.len() as int, n as int));
                    assert(self.chains@[n as int][0] == i);
                }
                let next = self.links[i];
                let nu = next.to_usize();
                let new_head = if nu < self.slots.len() && nu != i {
                    Some(next)
                } else {
                    None
                };
                self.block_free.set(n, new_head);
                let ghost c = self.chains@[n as int];
                proof {
                    self.chains@ = self.chains@.update(n as int, c.drop_first());
                }
                let ghost mid2 = *self;
                let mut k: usize = 0;
                while k < n
                    invariant
                        0 <= k <= n,
                        n == values@.len(),
                        i + n <= self.slots@.len(),
                        self.slots@.len() <= usize::MAX,
                        self.slots@.len() == old(self).slots@.len(),
                        self.links == mid2.links,
                        self.block_free == mid2.block_free,
                        self.chains == mid2.chains,
                        self.free_head == mid2.free_head,
                        self.occupied == mid2.occupied,
                        forall|j: int| 0 <= j < self.slots@.len() ==> #[trigger] self.slots@[j]
                            == (if i <= j < i + k { values@[j - i] } else { old(self).slots@[j] }),
                    decreases n - k,
                {
                    self.slots.set(i + k, values[k]);
                    k += 1;
                }
                self.occupied += n;
                proof {
                    assert(self.slots@ =~= overwrite(old(self).slots@, i as int, values@));
                    assert forall|m: int| 0 <= m < self.block_free@.len() implies
                        #[trigger] chain_ok(self.chains@, self.block_free@, self.links@, self.slots@.len() as int, m) by {
                        assert(chain_ok(old(self).chains@, old(self).block_free@, old(self).links@, old(self).slots@.len() as int, m));
                        if m == n {
                            let c2 = self.chains@[m];
                            assert forall|k2: int| 0 <= k2 < c2.len() - 1 implies
                                self.links@[#[trigger] c2[k2]].ival() == c2[k2 + 1] && c2[k2 + 1] != c2[k2] by {
                                assert(c2[k2] == c[k2 + 1]);
                            }
                            if c.len() > 1 {
                                assert(self.links@[c[0]].ival() == c[1]);
                            }
                        }
                    }
                }
                return head;
            }
        }
        let start = self.slots.len();
        let ghost pre = *self;
        let mut k: usize = 0;
        while k < n
            invariant
                0 <= k <= n,
                n == values@.len(),
                start == pre.slots@.len(),
                self.slots@.len() == start + k,
                self.links@.len() == start + k,
                self.slots@.subrange(0, start as int) == pre.slots@,
                self.links@.subrange(0, start as int) == pre.links@,
                forall|j: int| start <= j < start + k ==> #[trigger] self.slots@[j] == values@[j - start],
                self.free_head == pre.free_head,
                self.block_free == pre.block_free,
                self.chains == pre.chains,
                self.occupied == pre.occupied,
            decreases n - k,
        {
            self.slots.push(values[k]);
            self.links.push(I::from_usize(0));
            k += 1;
        }
        self.occupied += n;
        proof {
            assert(self.slots@ =~= pre.slots@ + values@);
            assert forall|j: int| 0 <= j < start implies #[trigger] self.links@[j] == pre.links@[j] by {
                assert(self.links@.subrange(0, start as int)[j] == pre.links@[j]);
            }
            assert forall|m: int| 0 <= m < self.block_free@.len() implies
                #[trigger] chain_ok(self.chains@, self.block_free@, self.links@, self.slots@.len() as int, m) by {
                assert(chain_ok(pre.chains@, pre.block_free@, pre.links@, pre.slots@.len() as int, m));
                let c = self.chains@[m];
                assert forall|k2: int| 0 <= k2 < c.len() - 1 implies
                    self.links@[#[trigger] c[k2]].ival() == c[k2 + 1] && c[k2 + 1] != c[k2] by {
                    assert(pre.links@[c[k2]].ival() == c[k2 + 1]);
                }
                if c.len() > 0 {
                    assert(self.links@[c.last()] == pre.links@[c.last()]);
                }
            }
        }
        I::from_usize(start)
    }

    /// Frees the `n` contiguous slots from `start` on as one block, which
    /// becomes the next block of `n` slots that `alloc_n` or `alloc_slice` reuses.
    pub fn free_n(&mut self, start: I, n: usize)
        requires
            old(self).wf(),
            n > 0,
            n < usize::MAX,
            start.ival() + n <= old(self).slot_seq().len(),
            old(self).occupied_count() >= n,
            !old(self).is_free_block_start(start.ival() as int),
        ensures
            final(self).wf(),
            final(self).occupied_count() == old(self).occupied_count() - n,
            final(self).slot_seq() == old(self).slot_seq(),
            final(self).free_head_ival() == old(self).free_head_ival(),
            final(self).free_blocks(n as int) == seq![start.ival() as int] + old(self).free_blocks(n as int),
            forall|m: int| m != n ==> #[trigger] final(self).free_blocks(m) == old(self).free_blocks(m),
            final(self).link(start.ival() as int) == (if old(self).block_head(n as int) >= 0 {
                old(self).block_head(n as int)
            } else {
                start.ival() as int
            }),
            forall|i: int| 0 <= i < old(self).slot_seq().len() && i != start.ival() ==> #[trigger] final(self).link(i) == old(self).link(i),
    {
        let s = start.to_usize();
        self.ensure_block_free_len(n);
        let ghost mid = *self;
        proof {
            assert(chain_ok(mid.chains@, mid.block_free@, mid.links@, mid.slots@.len() as int, n as int));
        }
        let head = self.block_free[n];
        let link = match head {
            Some(h) => h,
            None => start,
        };
        self.links.set(s, link);
        self.block_free.set(n, Some(start));
        let ghost c = self.chains@[n as int];
        proof {
            self.chains@ = self.chains@.update(n as int, seq![s as int] + c);
        }
        self.occupied -= n;
        proof {
            assert(mid.free_blocks(n as int) == old(self).free_blocks(n as int));
            assert(self.free_blocks(n as int) =~= seq![s as int] + old(self).free_blocks(n as int));
            assert forall|m: int| m != n implies #[trigger] self.free_blocks(m) == old(self).free_blocks(m) by {
                assert(mid.free_blocks(m) == old(self).free_blocks(m));
            }
            assert forall|m: int, k: int| 0 <= m < mid.chains@.len() && 0 <= k < mid.chains@[m].len()
                implies #[trigger] mid.chains@[m][k] != s by {
                if mid.chains@[m][k] == s {
                    assert(mid.free_blocks(m) == old(self).free_blocks(m));
                    if m < old(self).chains@.len() {
                        assert(old(self).is_free_block_start(s as int));
                    } else {
                        assert(mid.free_blocks(m) == old(self).free_blocks(m));
                    }
                }
            }
            assert forall|m: int| 0 <= m < self.block_free@.len() implies
                #[trigger] chain_ok(self.chains@, self.block_free@, self.links@, self.slots@.len() as int, m) by {
                assert(chain_ok(mid.chains@, mid.block_free@, mid.links@, mid.slots@.len() as int, m));
                let cm = self.chains@[m];
                if m == n {
                    assert forall|k2: int| 0 <= k2 < cm.len() - 1 implies
                        self.links@[#[trigger] cm[k2]].ival() == cm[k2 + 1] && cm[k2 + 1] != cm[k2] by {
                        if k2 > 0 {
                            assert(cm[k2] == c[k2 - 1]);
                            assert(c[k2 - 1] != s);
                        } else if c.len() > 0 {
                            assert(c[0] != s);
                        }
                    }
                    if c.len() > 0 {
                        assert(c.last() != s);
                        assert(cm.last() == c.last());
                    }
                } else {
                    assert forall|k2: int| 0 <= k2 < cm.len() - 1 implies
                        self.links@[#[trigger] cm[k2]].ival() == cm[k2 + 1] && cm[k2 + 1] != cm[k2] by {
                        assert(cm[k2] != s);
                    }
                    if cm.len() > 0 {
                        assert(cm.last() != s);
                    }
                }
            }
        }
    }

    /// The slot `idx`.
    pub fn get(&self, idx: I) -> (r: &T)
        requires
            idx.ival() < self.slot_seq().len(),
        ensures
            *r == self.slot_seq()[idx.ival() as int],
    {
        &self.slots[idx.to_usize()]
    }

    /// The slot `idx`, to modify in place.
    pub fn get_mut(&mut self, idx: I) -> (r: &mut T)
        requires
            idx.ival() < old(self).slot_seq().len(),
        ensures
            *r == old(self).slot_seq()[idx.ival() as int],
            final(self).slot_seq() == old(self).slot_seq().update(idx.ival() as int, *final(r)),
            old(self).wf() ==> final(self).wf(),
            final(self).occupied_count() == old(self).occupied_count(),
            final(self).free_head_ival() == old(self).free_head_ival(),
            forall|i: int| #[trigger] final(self).link(i) == old(self).link(i),
            forall|n: int| #[trigger] final(self).free_blocks(n) == old(self).free_blocks(n),
            forall|n: int| #[trigger] final(self).block_head(n) == old(self).block_head(n),
    {
        &mut self.slots[idx.to_usize()]
    }

    /// The `len` slots from `start` on.
    pub fn get_range(&self, start: I, len: usize) -> (r: &[T])
        requires
            start.ival() + len <= self.slot_seq().len(),
        ensures
            r@ == self.slot_seq().subrange(start.ival() as int, start.ival() + len),
    {
        let s = start.to_usize();
        let _total = self.slots.len();
        vstd::slice::slice_subrange(self.slots.as_slice(), s, s + len)
    }

    /// The `len` slots from `start` on, for writing in place.
    pub fn get_range_mut(&mut self, start: I, len: usize) -> (r: &mut [T])
        requires
            start.ival() + len <= old(self).slot_seq().len(),
        ensures
            r@ == old(self).slot_seq().subrange(start.ival() as int, start.ival() + len),
            final(self).slot_seq() == old(self).slot_seq().subrange(0, start.ival() as int) + final(r)@
                + old(self).slot_seq().subrange(start.ival() + len, old(self).slot_seq().len() as int),
            final(self).occupied_count() == old(self).occupied_count(),
            final(self).free_head_ival() == old(self).free_head_ival(),
            forall|n: int| #[trigger] final(self).free_blocks(n) == old(self).free_blocks(n),
            forall|i: int| #[trigger] final(self).link(i) == old(self).link(i),
    {
        let s = start.to_usize();
        let all = self.slots.as_mut_slice();
        let (_, rest) = all.split_at_mut(s);
        let (mid, _) = rest.split_at_mut(len);
        mid
    }

    /// The number of occupied slots.
    pub fn len(&self) -> (r: usize)
        ensures
            r == self.occupied_count(),
    {
        self.occupied
    }

    /// The number of slots, freed ones included.
    pub fn capacity(&self) -> (r: usize)
        ensures
            r == self.slot_seq().len(),
    {
        self.slots.len()
    }

    pub fn is_empty(&self) -> (r: bool)
        ensures
            r == (self.occupied_count() == 0),
    {
        self.occupied == 0
    }

    /// Grows `block_free` with empty lists so that `block_free[n]` exists.
    fn ensure_block_free_len(&mut self, n: usize)
        requires
            old(self).wf(),
            n < usize::MAX,
        ensures
            final(self).wf(),
            final(self).block_free@.len() > n,
            final(self).block_free@.len() >= old(self).block_free@.len(),
            final(self).slots == old(self).slots,
            final(self).links == old(self).links,
            final(self).free_head == old(self).free_head,
            final(self).occupied == old(self).occupied,
            forall|m: int| 0 <= m < old(self).block_free@.len() ==> #[trigger] final(self).block_free@[m] == old(self).block_free@[m],
            forall|m: int| #[trigger] final(self).free_blocks(m) == old(self).free_blocks(m),
    {
        while self.block_free.len() <= n
            invariant
                self.wf(),
                n < usize::MAX,
                self.block_free@.len() >= old(self).block_free@.len(),
                self.slots == old(self).slots,
                self.links == old(self).links,
                self.free_head == old(self).free_head,
                self.occupied == old(self).occupied,
                forall|m: int| 0 <= m < old(self).block_free@.len() ==> #[trigger] self.block_free@[m] == old(self).block_free@[m],
                forall|m: int| #[trigger] self.free_blocks(m) == old(self).free_blocks(m),
            decreases n + 1 - self.block_free@.len(),
        {
            let ghost pre = *self;
            self.block_free.push(None);
            proof {
                self.chains@ = self.chains@.push(Seq::empty());
                assert forall|m: int| 0 <= m < self.block_free@.len() implies #[trigger] chain_ok(self.chains@, self.block_free@, self.links@, self.slots@.len() as int, m) by {
                    if m < pre.block_free@.len() {
                        assert(chain_ok(pre.chains@, pre.block_free@, pre.links@, pre.slots@.len() as int, m));
                        assert(self.chains@[m] == pre.chains@[m]);
                    }
                }
                assert forall|m: int| #[trigger] self.free_blocks(m) == old(self).free_blocks(m) by {
                    assert(self.free_blocks(m) == pre.free_blocks(m));
                }
            }
        }
    }
}

impl<T: Copy, I: Idx> Default for Arena<T, I> {
    fn default() -> (r: Self)
        ensures
            r.wf(),
            r.slot_seq().len() == 0,
            r.occupied_count() == 0,
    {
        Self::new()
    }
}

} // verus!
