use tiny_trie::arena::Arena;

#[test]
fn arena_allocate_appends_in_order() {
    let mut a: Arena<u64, u32> = Arena::new();
    assert!(a.is_empty());
    assert_eq!(a.allocate(10), 0);
    assert_eq!(a.allocate(11), 1);
    assert_eq!(a.allocate(12), 2);
    assert_eq!(a.len(), 3);
    assert_eq!(a.capacity(), 3);
    assert_eq!(*a.get(1), 11);
}

#[test]
fn arena_free_then_allocate_reuses_most_recent() {
    let mut a: Arena<u64, u32> = Arena::new();
    for v in 0..5u64 {
        a.allocate(v);
    }
    a.free(1);
    a.free(3);
    assert_eq!(a.len(), 3);
    assert_eq!(a.allocate(30), 3);
    assert_eq!(a.allocate(10), 1);
    assert_eq!(a.allocate(50), 5);
    assert_eq!(*a.get(3), 30);
    assert_eq!(*a.get(1), 10);
    assert_eq!(a.len(), 6);
    assert_eq!(a.capacity(), 6);
}

#[test]
fn arena_alloc_n_reuses_block_of_same_size() {
    let mut a: Arena<u64, u16> = Arena::with_capacity(8);
    let b0 = a.alloc_n(4, 7);
    let b1 = a.alloc_n(2, 8);
    assert_eq!(b0, 0);
    assert_eq!(b1, 4);
    assert_eq!(a.get_range(0, 4), &[7, 7, 7, 7]);
    a.free_n(b0, 4);
    assert_eq!(a.len(), 2);
    // A block of another size is appended.
    assert_eq!(a.alloc_n(2, 9), 6);
    // The freed block of four is reused whole.
    assert_eq!(a.alloc_n(4, 1), 0);
    assert_eq!(a.get_range(0, 4), &[1, 1, 1, 1]);
    assert_eq!(a.len(), 8);
    assert_eq!(a.capacity(), 8);
}

#[test]
fn arena_alloc_slice_copies_and_reuses() {
    let mut a: Arena<u8, u32> = Arena::default();
    let s = a.alloc_slice(&[1, 2, 3]);
    assert_eq!(s, 0);
    assert_eq!(a.get_range(0, 3), &[1, 2, 3]);
    a.free_n(s, 3);
    let t = a.alloc_slice(&[4, 5, 6]);
    assert_eq!(t, 0);
    assert_eq!(a.get_range(0, 3), &[4, 5, 6]);
    assert_eq!(a.capacity(), 3);
}

#[test]
fn arena_block_lists_are_lifo() {
    let mut a: Arena<u32, u32> = Arena::new();
    let x = a.alloc_n(2, 0);
    let y = a.alloc_n(2, 0);
    a.free_n(x, 2);
    a.free_n(y, 2);
    assert_eq!(a.alloc_n(2, 1), y);
    assert_eq!(a.alloc_n(2, 1), x);
    assert_eq!(a.alloc_n(2, 1), 4);
}

#[test]
fn arena_get_mut_writes_in_place() {
    let mut a: Arena<u64, u32> = Arena::new();
    let i = a.allocate(1);
    *a.get_mut(i) = 42;
    assert_eq!(*a.get(i), 42);
}

#[test]
fn arena_is_block_start_free_tracks_freed_blocks() {
    let mut a: Arena<u64, u32> = Arena::new();
    let b0 = a.alloc_n(4, 7);
    let b1 = a.alloc_n(2, 8);
    assert!(!a.is_block_start_free(b0));
    a.free_n(b0, 4);
    assert!(a.is_block_start_free(b0));
    assert!(!a.is_block_start_free(b0 + 1));
    assert!(!a.is_block_start_free(b1));
    assert_eq!(a.alloc_n(4, 1), b0);
    assert!(!a.is_block_start_free(b0));
}

#[test]
fn arena_get_range_mut_writes_in_place() {
    let mut a: Arena<u64, u32> = Arena::new();
    let b = a.alloc_slice(&[1, 2, 3, 4]);
    {
        let r = a.get_range_mut(b + 1, 2);
        assert_eq!(r, &[2, 3]);
        r[0] = 20;
        r[1] = 30;
    }
    assert_eq!(a.get_range(b, 4), &[1, 20, 30, 4]);
    assert_eq!(a.len(), 4);
}
