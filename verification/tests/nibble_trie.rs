use std::collections::BTreeMap;
use tiny_trie::nibble_trie::{fill_exceeds, NibbleTrie, Node, TrieIndex};

#[test]
fn nibble_trie_node_size_default() {
    // Default PTR=u32, LEN=u16: 64 children + 2 prefix_len + 2 leaf_mask
    // + 4 leaf + 1 terminal + 3 padding = 76 bytes
    assert_eq!(std::mem::size_of::<Node<u32, u16>>(), 76);
}

#[test]
fn nibble_trie_node_size_compact() {
    // Compact PTR=u16, LEN=u16: 32 children + 2 prefix_len + 2 leaf_mask
    // + 2 leaf + 1 terminal + 1 padding = 40 bytes
    assert_eq!(std::mem::size_of::<Node<u16, u16>>(), 40);
}

#[test]
fn nibble_trie_insert_empty_and_get() {
    let mut trie: NibbleTrie<Vec<u8>, i32> = NibbleTrie::new();
    trie.insert(b"hello".to_vec(), 42).unwrap();
    assert_eq!(trie.get(b"hello"), Some(&42));
    assert_eq!(trie.get(b"world"), None);
}

#[test]
fn nibble_trie_insert_duplicate_returns_error() {
    let mut trie: NibbleTrie<Vec<u8>, i32> = NibbleTrie::new();
    trie.insert(b"hello".to_vec(), 1).unwrap();
    let result = trie.insert(b"hello".to_vec(), 2);
    assert_eq!(result, Err(()));
    assert_eq!(trie.len(), 1);
}

#[test]
fn nibble_trie_insert_null_byte_allowed() {
    let mut trie: NibbleTrie<Vec<u8>, i32> = NibbleTrie::new();
    // Null bytes are now valid in keys
    trie.insert(b"hel\0lo".to_vec(), 1).unwrap();
    assert_eq!(trie.get(b"hel\0lo"), Some(&1));
}

#[test]
fn nibble_trie_insert_two_keys_split_leaf() {
    let mut trie: NibbleTrie<Vec<u8>, i32> = NibbleTrie::new();
    trie.insert(b"abc".to_vec(), 1).unwrap();
    trie.insert(b"abd".to_vec(), 2).unwrap();
    assert_eq!(trie.get(b"abc"), Some(&1));
    assert_eq!(trie.get(b"abd"), Some(&2));
    assert_eq!(trie.len(), 2);
}

#[test]
fn nibble_trie_insert_prefix_key() {
    let mut trie: NibbleTrie<Vec<u8>, i32> = NibbleTrie::new();
    trie.insert(b"abc".to_vec(), 1).unwrap();
    trie.insert(b"abcd".to_vec(), 2).unwrap();
    assert_eq!(trie.get(b"abc"), Some(&1));
    assert_eq!(trie.get(b"abcd"), Some(&2));
}

#[test]
fn nibble_trie_insert_reverse_prefix_key() {
    let mut trie: NibbleTrie<Vec<u8>, i32> = NibbleTrie::new();
    // "abc" is a prefix of "abcd" and sorts before it, so inserting it second
    // shifts "abcd"'s slot right — the index returned by the first insert is
    // NOT stable across later inserts. Check by value, not by captured index.
    trie.insert(b"abcd".to_vec(), 1).unwrap();
    trie.insert(b"abc".to_vec(), 2).unwrap();
    assert_eq!(trie.get(b"abcd"), Some(&1));
    assert_eq!(trie.get(b"abc"), Some(&2));
    assert_eq!(trie.len(), 2);
}

#[test]
fn nibble_trie_insert_no_common_prefix() {
    let mut trie: NibbleTrie<Vec<u8>, i32> = NibbleTrie::new();
    trie.insert(b"abc".to_vec(), 1).unwrap();
    trie.insert(b"xyz".to_vec(), 2).unwrap();
    assert_eq!(trie.get(b"abc"), Some(&1));
    assert_eq!(trie.get(b"xyz"), Some(&2));
}

#[test]
fn nibble_trie_insert_three_keys() {
    let mut trie: NibbleTrie<Vec<u8>, i32> = NibbleTrie::new();
    trie.insert(b"abc".to_vec(), 1).unwrap();
    trie.insert(b"abd".to_vec(), 2).unwrap();
    trie.insert(b"abe".to_vec(), 3).unwrap();
    assert_eq!(trie.get(b"abc"), Some(&1));
    assert_eq!(trie.get(b"abd"), Some(&2));
    assert_eq!(trie.get(b"abe"), Some(&3));
}

#[test]
fn nibble_trie_insert_single_char_keys() {
    let mut trie: NibbleTrie<Vec<u8>, i32> = NibbleTrie::new();
    for c in b'a'..=b'f' {
        trie.insert(vec![c], c as i32).unwrap();
    }
    for c in b'a'..=b'f' {
        let key = vec![c];
        let v = c as i32;
        assert_eq!(trie.get(&key), Some(&v));
    }
}

#[test]
fn nibble_trie_insert_many_keys_same_prefix() {
    let mut trie: NibbleTrie<Vec<u8>, i32> = NibbleTrie::new();
    for i in 0..50 {
        let key = format!("prefix_{:02}", i);
        trie.insert(key.into_bytes(), i).unwrap();
    }
    for i in 0..50 {
        let key = format!("prefix_{:02}", i);
        assert!(trie.get(key.as_bytes()).is_some());
    }
}

#[test]
fn nibble_trie_insert_deeply_nested() {
    let mut trie: NibbleTrie<Vec<u8>, i32> = NibbleTrie::new();
    let mut key = Vec::new();
    for i in 0..100 {
        key.push(b'a');
        trie.insert(key.clone(), i).unwrap();
        assert_eq!(trie.get(&key), Some(&i));
    }
}

#[test]
fn nibble_trie_len_and_is_empty() {
    let mut trie: NibbleTrie<Vec<u8>, i32> = NibbleTrie::new();
    assert!(trie.is_empty());
    assert_eq!(trie.len(), 0);
    trie.insert(b"hello".to_vec(), 1).unwrap();
    assert!(!trie.is_empty());
    assert_eq!(trie.len(), 1);
}

#[test]
fn nibble_trie_into_keys_values_roundtrip() {
    let mut trie: NibbleTrie<Vec<u8>, i32> = NibbleTrie::new();
    trie.insert(b"abc".to_vec(), 1).unwrap();
    trie.insert(b"def".to_vec(), 2).unwrap();
    let (keys, values) = trie.into_keys_values();
    assert_eq!(keys, vec![b"abc".to_vec(), b"def".to_vec()]);
    assert_eq!(values, vec![1, 2]);
}

#[test]
fn nibble_trie_iter_empty() {
    let trie: NibbleTrie<Vec<u8>, i32> = NibbleTrie::new();
    let mut iter = trie.iter();
    assert!(iter.next().is_none());
}

#[test]
fn nibble_trie_iter_single_key() {
    let mut trie: NibbleTrie<Vec<u8>, i32> = NibbleTrie::new();
    trie.insert(b"hello".to_vec(), 42).unwrap();
    let mut iter = trie.iter();
    let (k, v) = iter.next().unwrap();
    assert_eq!(k, b"hello");
    assert_eq!(*v, 42);
    assert!(iter.next().is_none());
}

#[test]
fn nibble_trie_iter_forward() {
    let mut trie: NibbleTrie<Vec<u8>, i32> = NibbleTrie::new();
    trie.insert(b"abc".to_vec(), 1).unwrap();
    trie.insert(b"abd".to_vec(), 2).unwrap();
    trie.insert(b"abe".to_vec(), 3).unwrap();

    let mut results = Vec::new();
    let mut iter = trie.iter();
    while let Some((k, _)) = iter.next() {
        results.push(k.to_vec());
    }
    assert_eq!(results, vec![b"abc", b"abd", b"abe"]);
}

#[test]
fn nibble_trie_iter_backward() {
    let mut trie: NibbleTrie<Vec<u8>, i32> = NibbleTrie::new();
    trie.insert(b"abc".to_vec(), 1).unwrap();
    trie.insert(b"abd".to_vec(), 2).unwrap();
    trie.insert(b"abe".to_vec(), 3).unwrap();

    let mut iter = trie.iter_last();
    let mut results = Vec::new();
    loop {
        match iter.current() {
            Some((k, _)) => results.push(k.to_vec()),
            None => break,
        }
        if iter.prev().is_none() {
            break;
        }
    }
    assert_eq!(results, vec![b"abe", b"abd", b"abc"]);
}

#[test]
fn nibble_trie_iter_seek_exact() {
    let mut trie: NibbleTrie<Vec<u8>, i32> = NibbleTrie::new();
    trie.insert(b"abc".to_vec(), 1).unwrap();
    trie.insert(b"abd".to_vec(), 2).unwrap();
    trie.insert(b"abe".to_vec(), 3).unwrap();

    let mut iter = trie.iter();
    let (k, _) = iter.seek(b"abd").unwrap();
    assert_eq!(k, b"abd");
}

#[test]
fn nibble_trie_iter_seek_between() {
    let mut trie: NibbleTrie<Vec<u8>, i32> = NibbleTrie::new();
    trie.insert(b"abc".to_vec(), 1).unwrap();
    trie.insert(b"abd".to_vec(), 2).unwrap();
    trie.insert(b"abe".to_vec(), 3).unwrap();

    // Seek to exact key "abd" works
    let mut iter = trie.iter();
    let (k, _) = iter.seek(b"abd").unwrap();
    assert_eq!(k, b"abd");

    // Seek to key between "abc" and "abd" should return "abd"
    let mut iter2 = trie.iter();
    let result = iter2.seek(b"abc\x7f");
    assert!(result.is_some(), "seek to 'abc\\x7f' returned None");
    assert_eq!(result.unwrap().0, b"abd");
}

#[test]
fn nibble_trie_iter_seek_prefix_key() {
    let mut trie: NibbleTrie<Vec<u8>, i32> = NibbleTrie::new();
    trie.insert(b"abc".to_vec(), 1).unwrap();
    trie.insert(b"abcd".to_vec(), 2).unwrap();

    let mut iter = trie.iter();
    let (k, _) = iter.seek(b"abc").unwrap();
    assert_eq!(k, b"abc");
}

#[test]
fn nibble_trie_get_found_and_missing() {
    let mut trie: NibbleTrie<Vec<u8>, String> = NibbleTrie::new();
    trie.insert(b"hello".to_vec(), "world".to_string()).unwrap();
    assert_eq!(trie.get(b"hello"), Some(&"world".to_string()));
    assert_eq!(trie.get(b"world"), None);
}

#[test]
fn nibble_trie_iter_backward_large() {
    let mut trie: NibbleTrie<Vec<u8>, i32> = NibbleTrie::new();
    for i in 0..100 {
        let key = format!("key_{:03}", i);
        trie.insert(key.into_bytes(), i).unwrap();
    }

    let mut iter = trie.iter_last();
    let mut count = 0;
    let mut last_key: Vec<u8> = Vec::new();
    if let Some((k, _)) = iter.current() {
        last_key = k.to_vec();
        count += 1;
    }
    while let Some((k, _)) = iter.prev() {
        assert!(k < &last_key[..], "not descending: {:?} >= {:?}",
            String::from_utf8_lossy(k), String::from_utf8_lossy(&last_key));
        last_key = k.to_vec();
        count += 1;
    }
    assert_eq!(count, 100);
}

#[test]
fn leaf_and_offset_set_on_creation() {
    let mut trie: NibbleTrie<Vec<u8>, i32> = NibbleTrie::new();
    trie.insert(b"abc".to_vec(), 1).unwrap();
    // Root should have leaf field set (not the empty sentinel)
    let root = &trie.arena[0];
    assert!(root.leaf.is_some(), "root leaf field should be set");
    // offset should point to the key in buf (stored in index, not node)
    let (off, len, _) = trie.index[root.leaf.get().as_usize()].as_ref().unwrap();
    let off = (*off);
    assert_ne!(off, 0, "root offset should be set");
    assert_eq!(&trie.buf[off..off + len.as_usize()], b"abc");
}

// ── optimize() tests ──────────────────────────────────────────────

#[test]
fn nibble_trie_optimize_empty() {
    let mut trie: NibbleTrie<Vec<u8>, i32> = NibbleTrie::new();
    trie.optimize();
    assert!(trie.is_empty());
}

#[test]
fn nibble_trie_optimize_single_key() {
    let mut trie: NibbleTrie<Vec<u8>, i32> = NibbleTrie::new();
    trie.insert(b"hello".to_vec(), 42).unwrap();
    trie.optimize();
    assert_eq!(trie.get(b"hello"), Some(&42));
    assert_eq!(trie.len(), 1);
}

#[test]
fn nibble_trie_optimize_preserves_lookups() {
    let mut trie: NibbleTrie<Vec<u8>, i32> = NibbleTrie::new();
    for i in 0..100 {
        let key = format!("key_{:03}", i);
        trie.insert(key.into_bytes(), i).unwrap();
    }
    trie.optimize();
    // optimize() re-spreads keys into the sparse 2*i+1 layout, so the index
    // returned by insert() is not stable across optimize; check the value
    // (the semantic lookup) instead.
    for i in 0..100 {
        let key = format!("key_{:03}", i);
        assert_eq!(trie.get(key.as_bytes()), Some(&i),
            "lookup failed after optimize for i={}", i);
    }
    assert_eq!(trie.len(), 100);
}

#[test]
fn nibble_trie_optimize_preserves_iteration() {
    let mut trie: NibbleTrie<Vec<u8>, i32> = NibbleTrie::new();
    for i in 0..100 {
        let key = format!("key_{:05}", i);
        trie.insert(key.into_bytes(), i as i32).unwrap();
    }
    trie.optimize();

    // Forward
    let mut it = trie.iter();
    let mut keys: Vec<Vec<u8>> = Vec::new();
    while let Some((k, _)) = it.next() {
        keys.push(k.to_vec());
    }
    assert_eq!(keys.len(), 100);
    for i in 1..keys.len() {
        assert!(keys[i] > keys[i - 1], "not sorted after optimize at index {}", i);
    }

    // Backward
    let mut it = trie.iter_last();
    keys.clear();
    loop {
        match it.current() {
            Some((k, _)) => keys.push(k.to_vec()),
            None => break,
        }
        if it.prev().is_none() { break; }
    }
    assert_eq!(keys.len(), 100);
    for i in 1..keys.len() {
        assert!(keys[i] < keys[i - 1], "not reverse-sorted after optimize at index {}", i);
    }
}

#[test]
fn optimize_preserves_seek() {
    let mut trie: NibbleTrie<Vec<u8>, i32> = NibbleTrie::new();
    for i in 0..50u32 {
        let key = format!("key_{:05}", i);
        trie.insert(key.into_bytes(), i as i32).unwrap();
    }
    trie.optimize();
    let mut it = trie.iter();
    let (k, v) = it.seek(b"key_00025").unwrap();
    assert_eq!(k, b"key_00025");
    assert_eq!(*v, 25);
}

#[test]
fn nibble_trie_optimize_idempotent() {
    let mut trie: NibbleTrie<Vec<u8>, i32> = NibbleTrie::new();
    for i in 0..100 {
        let key = format!("key_{:03}", i);
        trie.insert(key.into_bytes(), i).unwrap();
    }
    trie.optimize();
    let arena_len_1 = trie.arena.len();
    trie.optimize();
    let arena_len_2 = trie.arena.len();
    assert_eq!(arena_len_1, arena_len_2, "second optimize changed arena size");
    for i in 0..100 {
        let key = format!("key_{:03}", i);
        assert!(trie.get(key.as_bytes()).is_some());
    }
}

#[test]
fn nibble_trie_optimize_byte_boundary_keys() {
    let mut trie: NibbleTrie<Vec<u8>, i32> = NibbleTrie::new();
    for b in 1u8..=255 {
        trie.insert(vec![b], b as i32).unwrap();
    }
    trie.optimize();
    for b in 1u8..=255 {
        let key = vec![b];
        assert_eq!(trie.get(&key), Some(&(b as i32)),
            "lookup failed after optimize for byte {}", b);
    }
}

#[test]
fn nibble_trie_optimize_stress_1000() {
    let mut trie: NibbleTrie<Vec<u8>, i32> = NibbleTrie::new();
    for i in 0..1000u32 {
        let key = format!("key_{:05}", i);
        trie.insert(key.into_bytes(), i as i32).unwrap();
    }
    trie.optimize();
    for i in 0..1000u32 {
        let key = format!("key_{:05}", i);
        assert_eq!(trie.get(key.as_bytes()), Some(&(i as i32)),
            "lookup failed after optimize at i={}", i);
    }
}

#[test]
fn optimize_deeply_nested() {
    let mut trie: NibbleTrie<Vec<u8>, i32> = NibbleTrie::new();
    let mut key = Vec::new();
    for i in 0..100 {
        key.push(b'a');
        trie.insert(key.clone(), i).unwrap();
    }
    trie.optimize();
    for i in 0..100 {
        let key = vec![b'a'; i + 1];
        assert_eq!(trie.get(&key), Some(&(i as i32)));
    }
}

#[test]
fn nibble_trie_optimize_sorts_buf() {
    // After optimize(), keys in buf should appear in contiguous sorted order.
    let mut trie: NibbleTrie<Vec<u8>, i32> = NibbleTrie::new();
    for i in (0..100u32).rev() {
        let key = format!("key_{:05}", i);
        trie.insert(key.into_bytes(), i as i32).unwrap();
    }
    trie.optimize();

    // Iterate in forward order and verify keys are sorted and contiguous in buf
    let mut it = trie.iter();
    let mut prev_key: Option<Vec<u8>> = None;
    let mut prev_end: usize = 1; // first key starts after dummy byte
    while let Some((k, _)) = it.current() {
        if let Some(ref pk) = prev_key {
            assert!(pk.as_slice() <= k, "keys not sorted: {:?} > {:?}",
                std::str::from_utf8(pk), std::str::from_utf8(k));
        }
        let ki = it.current_index().unwrap();
        let (off, len, _) = trie.index[ki].as_ref().unwrap();
        let off = (*off);
        assert_eq!(off, prev_end,
            "key {:?} not contiguous: expected offset {}, got {}",
            std::str::from_utf8(k), prev_end, off);
        prev_key = Some(k.to_vec());
        prev_end = off + len.as_usize();
        it.next();
    }
}

#[test]
fn optimize_sorts_index_and_values() {
    // After optimize(), index[i] and values[i-1] should be in DFS (sorted) order.
    // Insert keys in reverse order to ensure the sort actually changes something.
    let mut trie: NibbleTrie<Vec<u8>, i32> = NibbleTrie::new();
    let n = 100;
    for i in (0..n).rev() {
        let key = format!("key_{:05}", i);
        trie.insert(key.into_bytes(), i as i32).unwrap();
    }
    trie.optimize();

    // Verify that occupied index entries appear in sorted key order (the sparse
    // layout interleaves None gaps, so walk occupied slots in index order).
    let mut prev: Option<&[u8]> = None;
    for slot in trie.index.iter().skip(1) {
        let (off, len, _val) = match slot {
            Some(s) => s,
            None => continue,
        };
        let off = (*off);
        let key = &trie.buf[off..off + len.as_usize()];
        if let Some(p) = prev {
            assert!(p <= key,
                "index not sorted: {:?} > {:?}",
                std::str::from_utf8(p), std::str::from_utf8(key));
        }
        prev = Some(key);
    }

    // Verify values match their keys (value == last 5 digits of "key_NNNNN").
    let mut count = 0;
    for slot in trie.index.iter().skip(1) {
        let (off, len, val) = match slot {
            Some(s) => s,
            None => continue,
        };
        let off = (*off);
        let key = &trie.buf[off..off + len.as_usize()];
        let expected_val = std::str::from_utf8(key).unwrap()
            .strip_prefix("key_").unwrap().parse::<i32>().unwrap();
        assert_eq!(*val, expected_val,
            "value mismatch: got {}, expected {}", val, expected_val);
        count += 1;
    }
    assert_eq!(count, n);
}

#[test]
fn optimize_into_keys_values_sorted() {
    // into_keys_values() should return keys in sorted order after optimize
    let mut trie: NibbleTrie<Vec<u8>, i32> = NibbleTrie::new();
    for i in (0..50u32).rev() {
        let key = format!("key_{:05}", i);
        trie.insert(key.into_bytes(), i as i32).unwrap();
    }
    trie.optimize();

    let (keys, values) = trie.into_keys_values();
    assert_eq!(keys.len(), 50);
    for i in 1..keys.len() {
        assert!(keys[i] > keys[i - 1], "keys not sorted at index {}", i);
    }
    // Values should match their keys: key_00000 has value 0, etc.
    for i in 0..50 {
        let expected = i as i32;
        assert_eq!(values[i], expected, "value mismatch at index {}", i);
    }
}

#[test]
fn iter_forward_prefix_keys() {
    // "ab" < "abc" in forward order
    let mut trie: NibbleTrie<Vec<u8>, i32> = NibbleTrie::new();
    trie.insert(b"abc".to_vec(), 1).unwrap();
    trie.insert(b"ab".to_vec(), 2).unwrap();
    trie.insert(b"abd".to_vec(), 3).unwrap();

    let mut results = Vec::new();
    let mut iter = trie.iter();
    if let Some((k, _)) = iter.current() { results.push(k.to_vec()); }
    while let Some((k, _)) = iter.next() { results.push(k.to_vec()); }
    assert_eq!(results, vec![b"ab".to_vec(), b"abc".to_vec(), b"abd".to_vec()]);
}

#[test]
fn iter_backward_prefix_keys() {
    // "abd" > "abc" > "ab" in backward order
    let mut trie: NibbleTrie<Vec<u8>, i32> = NibbleTrie::new();
    trie.insert(b"abc".to_vec(), 1).unwrap();
    trie.insert(b"ab".to_vec(), 2).unwrap();
    trie.insert(b"abd".to_vec(), 3).unwrap();

    let mut iter = trie.iter_last();
    let mut results = Vec::new();
    loop {
        match iter.current() {
            Some((k, _)) => results.push(k.to_vec()),
            None => break,
        }
        if iter.prev().is_none() { break; }
    }
    assert_eq!(results, vec![b"abd".to_vec(), b"abc".to_vec(), b"ab".to_vec()]);
}

#[test]
fn iter_forward_empty_key() {
    let mut trie: NibbleTrie<Vec<u8>, i32> = NibbleTrie::new();
    trie.insert(b"".to_vec(), 0).unwrap();
    trie.insert(b"abc".to_vec(), 1).unwrap();

    let mut results = Vec::new();
    let mut iter = trie.iter();
    if let Some((k, _)) = iter.current() { results.push(k.to_vec()); }
    while let Some((k, _)) = iter.next() { results.push(k.to_vec()); }
    assert_eq!(results, vec![b"".to_vec(), b"abc".to_vec()]);
}

#[test]
fn optimize_preserves_terminal_flags() {
    let mut trie: NibbleTrie<Vec<u8>, i32> = NibbleTrie::new();
    trie.insert(b"ab".to_vec(), 1).unwrap();
    trie.insert(b"abcd".to_vec(), 2).unwrap();
    trie.optimize();
    assert_eq!(trie.get(b"ab"), Some(&1), "terminal key 'ab' lost after optimize");
    assert_eq!(trie.get(b"abcd"), Some(&2));
    assert_eq!(trie.len(), 2);

    // Also test reverse order
    let mut trie2: NibbleTrie<Vec<u8>, i32> = NibbleTrie::new();
    trie2.insert(b"abcd".to_vec(), 1).unwrap();
    trie2.insert(b"ab".to_vec(), 2).unwrap();
    trie2.optimize();
    assert_eq!(trie2.get(b"abcd"), Some(&1));
    assert_eq!(trie2.get(b"ab"), Some(&2), "terminal key 'ab' lost after optimize (reverse insert)");
}

#[test]
fn null_bytes_in_keys() {
    let mut trie: NibbleTrie<Vec<u8>, i32> = NibbleTrie::new();
    // "\0" and "\0\0" sort before "a\0b"/"a\0c", so the later inserts shift the
    // earlier slots. Indices are not stable across inserts — check by value.
    trie.insert(b"a\0b".to_vec(), 1).unwrap();
    trie.insert(b"a\0c".to_vec(), 2).unwrap();
    trie.insert(b"\0".to_vec(), 3).unwrap();
    trie.insert(b"\0\0".to_vec(), 4).unwrap();

    assert_eq!(trie.get(b"a\0b"), Some(&1));
    assert_eq!(trie.get(b"a\0c"), Some(&2));
    assert_eq!(trie.get(b"\0"), Some(&3));
    assert_eq!(trie.get(b"\0\0"), Some(&4));
    assert_eq!(trie.len(), 4);
}

// ── Compact mode tests (u16/u16) ──────────────────────────────────

#[test]
fn compact_insert_and_get() {
    let mut trie: NibbleTrie<Vec<u8>, i32, u16, u16> = NibbleTrie::new();
    trie.insert(b"hello".to_vec(), 42).unwrap();
    assert_eq!(trie.get(b"hello"), Some(&42));
    assert_eq!(trie.get(b"world"), None);
}

#[test]
fn compact_insert_prefix_keys() {
    let mut trie: NibbleTrie<Vec<u8>, i32, u16, u16> = NibbleTrie::new();
    trie.insert(b"abc".to_vec(), 1).unwrap();
    trie.insert(b"abcd".to_vec(), 2).unwrap();
    assert_eq!(trie.get(b"abc"), Some(&1));
    assert_eq!(trie.get(b"abcd"), Some(&2));
}

#[test]
fn compact_iter_forward() {
    let mut trie: NibbleTrie<Vec<u8>, i32, u16, u16> = NibbleTrie::new();
    trie.insert(b"abc".to_vec(), 1).unwrap();
    trie.insert(b"abd".to_vec(), 2).unwrap();
    trie.insert(b"abe".to_vec(), 3).unwrap();

    let mut results = Vec::new();
    let mut iter = trie.iter();
    while let Some((k, _)) = iter.next() {
        results.push(k.to_vec());
    }
    assert_eq!(results, vec![b"abc", b"abd", b"abe"]);
}

#[test]
fn compact_iter_backward() {
    let mut trie: NibbleTrie<Vec<u8>, i32, u16, u16> = NibbleTrie::new();
    trie.insert(b"abc".to_vec(), 1).unwrap();
    trie.insert(b"abd".to_vec(), 2).unwrap();
    trie.insert(b"abe".to_vec(), 3).unwrap();

    let mut iter = trie.iter_last();
    let mut results = Vec::new();
    loop {
        match iter.current() {
            Some((k, _)) => results.push(k.to_vec()),
            None => break,
        }
        if iter.prev().is_none() { break; }
    }
    assert_eq!(results, vec![b"abe", b"abd", b"abc"]);
}

#[test]
fn cursor_yields_borrowed_for_vec_keys() {
    // Immutable cursor yields ByteKey::Borrowed<'a> — for Vec<u8> that's &[u8].
    let mut trie: NibbleTrie<Vec<u8>, i32> = NibbleTrie::new();
    trie.insert(b"hello".to_vec(), 1).unwrap();
    let mut c = trie.iter();
    let (k, _): (&[u8], &i32) = c.next().unwrap();
    assert_eq!(k, b"hello");
}

#[test]
fn compact_optimize() {
    let mut trie: NibbleTrie<Vec<u8>, i32, u16, u16> = NibbleTrie::new();
    for i in 0..100 {
        let key = format!("key_{:03}", i);
        trie.insert(key.into_bytes(), i).unwrap();
    }
    trie.optimize();
    for i in 0..100 {
        let key = format!("key_{:03}", i);
        assert_eq!(trie.get(key.as_bytes()), Some(&i),
            "compact lookup failed after optimize for i={}", i);
    }
}

#[test]
fn compact_seek() {
    let mut trie: NibbleTrie<Vec<u8>, i32, u16, u16> = NibbleTrie::new();
    trie.insert(b"abc".to_vec(), 1).unwrap();
    trie.insert(b"abd".to_vec(), 2).unwrap();
    trie.insert(b"abe".to_vec(), 3).unwrap();

    let mut iter = trie.iter();
    let (k, _) = iter.seek(b"abd").unwrap();
    assert_eq!(k, b"abd");
}

#[test]
fn compact_empty_key() {
    let mut trie: NibbleTrie<Vec<u8>, i32, u16, u16> = NibbleTrie::new();
    trie.insert(b"".to_vec(), 0).unwrap();
    trie.insert(b"abc".to_vec(), 1).unwrap();

    let mut results = Vec::new();
    let mut iter = trie.iter();
    if let Some((k, _)) = iter.current() { results.push(k.to_vec()); }
    while let Some((k, _)) = iter.next() { results.push(k.to_vec()); }
    assert_eq!(results, vec![b"".to_vec(), b"abc".to_vec()]);
}

// ── TrieIndex trait tests ─────────────────────────────────────────

#[test]
fn trie_index_as_usize() {
    assert_eq!(u16::as_usize(42u16), 42);
    assert_eq!(u32::as_usize(42u32), 42);
    assert_eq!(u64::as_usize(42u64), 42);
    assert_eq!(u16::as_usize(u16::MAX), u16::MAX as usize);
    assert_eq!(u32::as_usize(u32::MAX), u32::MAX as usize);
}

#[test]
fn trie_index_max_value() {
    assert_eq!(<u16 as TrieIndex>::max_value(), u16::MAX as usize);
    assert_eq!(<u32 as TrieIndex>::max_value(), u32::MAX as usize);
    assert_eq!(<u64 as TrieIndex>::max_value(), u64::MAX as usize);
}

#[test]
fn trie_index_from_usize() {
    assert_eq!(u16::from_usize(42), 42u16);
    assert_eq!(u32::from_usize(42), 42u32);
    assert_eq!(u64::from_usize(42), 42u64);
}

// ── Terminal flag tests ──────────────────────────────────────────

#[test]
fn terminal_flag() {
    let mut node: Node<u32, u16> = Node::new();
    assert!(!node.is_terminal());
    assert_eq!(node.terminal, false);

    node.set_terminal(true);
    assert!(node.is_terminal());
    assert_eq!(node.terminal, true);

    node.set_terminal(false);
    assert!(!node.is_terminal());
    assert_eq!(node.terminal, false);

    // Terminal flag is independent of other node fields
    node.set_leaf_child(3, u32::from_usize(42));
    node.set_terminal(true);
    assert!(node.is_terminal());
    assert!(node.is_occupied(3));
    assert!(node.is_leaf(3));
}

// ── u8 PTR tests ──────────────────────────────────────────────────────

#[test]
fn node_size_u8() {
    // Compact PTR=u8, LEN=u16:
    // [OptNz<u8>;16] (children) + u16 (prefix_len) + u16 (leaf_mask)
    // + OptNz<u8> (leaf) + bool (terminal)
    // = 16 + 2 + 2 + 1 + 1 = 22 bytes (align to u16)
    assert_eq!(std::mem::size_of::<Node<u8, u16>>(), 22);
}

#[test]
fn u8_insert_and_get() {
    let mut trie: NibbleTrie<Vec<u8>, i32, u8, u16> = NibbleTrie::new();
    trie.insert(b"hello".to_vec(), 42).unwrap();
    assert_eq!(trie.get(b"hello"), Some(&42));
    assert_eq!(trie.get(b"world"), None);
}

#[test]
fn u8_near_capacity() {
    let mut trie: NibbleTrie<Vec<u8>, i32, u8, u16> = NibbleTrie::new();
    // near_capacity when arena.len() >= u8::MAX or index.len() >= u8::MAX (255).
    assert!(!trie.near_capacity());
    // Insert some keys — should not be near capacity yet
    for i in 0..50u32 {
        let key = format!("k{:02}", i);
        trie.insert(key.into_bytes(), i as i32).unwrap();
    }
    assert!(!trie.near_capacity());
}

#[test]
fn u8_overflow() {
    let mut trie: NibbleTrie<Vec<u8>, i32, u8, u16> = NibbleTrie::new();
    // With u8 PTR, real key indices fit in 1..=255. The sparse 2n+1 optimize
    // layout and the 90% re-spread trigger fill the index well before 255 real
    // keys (optimize stops at n=127 since 2*128+1 overflows u8); once
    // index.len() reaches 255 the next insert is rejected.
    let mut count = 0u32;
    for i in 0..400u32 {
        let key = format!("k{:05}", i);
        match trie.insert(key.into_bytes(), i as i32) {
            Ok(_) => count += 1,
            Err(()) => break,
        }
    }
    // Must eventually overflow (u8 can't index beyond 255).
    assert!(count < 255, "u8 overflow never triggered: inserted {count}");
    assert!(count > 0);
    // After overflow, every inserted key still resolves to its value.
    for i in 0..count {
        let key = format!("k{:05}", i);
        assert_eq!(trie.get(key.as_bytes()), Some(&(i as i32)),
            "lookup failed for i={i} after u8 overflow");
    }
    assert_eq!(trie.len(), count as usize);
}

// ── promote/demote tests ─────────────────────────────────────────────

#[test]
fn promote_u8_to_u16() {
    let mut trie: NibbleTrie<Vec<u8>, i32, u8, u16> = NibbleTrie::new();
    for i in 0..50u32 {
        let key = format!("key_{:03}", i);
        trie.insert(key.into_bytes(), i as i32).unwrap();
    }
    let promoted: NibbleTrie<Vec<u8>, i32, u16, u16> = trie.promote::<u16>();
    // Indices are not stable across inserts/optimize — verify by value.
    for i in 0..50u32 {
        let key = format!("key_{:03}", i);
        assert_eq!(promoted.get(key.as_bytes()), Some(&(i as i32)),
            "lookup failed after promote for i={}", i);
    }
    assert_eq!(promoted.len(), 50);
}

#[test]
fn promote_u16_to_u32() {
    let mut trie: NibbleTrie<Vec<u8>, i32, u16, u16> = NibbleTrie::new();
    for i in 0..100u32 {
        let key = format!("key_{:03}", i);
        trie.insert(key.into_bytes(), i as i32).unwrap();
    }
    let promoted: NibbleTrie<Vec<u8>, i32, u32, u16> = trie.promote::<u32>();
    for i in 0..100u32 {
        let key = format!("key_{:03}", i);
        assert_eq!(promoted.get(key.as_bytes()), Some(&(i as i32)));
    }
}

#[test]
fn demote_u16_to_u8() {
    let mut trie: NibbleTrie<Vec<u8>, i32, u16, u16> = NibbleTrie::new();
    for i in 0..10u32 {
        let key = format!("key_{:03}", i);
        trie.insert(key.into_bytes(), i as i32).unwrap();
    }
    let demoted: NibbleTrie<Vec<u8>, i32, u8, u16> = match trie.demote::<u8>() {
        Ok(d) => d,
        Err(_) => panic!("demote should succeed with 10 keys"),
    };
    for i in 0..10u32 {
        let key = format!("key_{:03}", i);
        assert_eq!(demoted.get(key.as_bytes()), Some(&(i as i32)));
    }
}

#[test]
fn demote_fails_too_large() {
    let mut trie: NibbleTrie<Vec<u8>, i32, u16, u16> = NibbleTrie::new();
    // Insert more than u8::MAX keys — can't demote to u8
    for i in 0..300u32 {
        let key = format!("key_{:05}", i);
        trie.insert(key.into_bytes(), i as i32).unwrap();
    }
    let result = trie.demote::<u8>();
    assert!(result.is_err(), "demote should fail when trie is too large");
}


// ── Generic key type tests ──────────────────────────────────────────

#[test]
fn nibble_trie_string_key_insert_and_get() {
    let mut trie: NibbleTrie<String, i32> = NibbleTrie::new();
    trie.insert("hello".to_string(), 1).unwrap();
    trie.insert("world".to_string(), 2).unwrap();
    assert_eq!(trie.get(b"hello"), Some(&1));
    assert_eq!(trie.get(b"world"), Some(&2));
    assert_eq!(trie.get(b"hell"), None);
}

#[test]
fn nibble_trie_string_key_into_keys_values() {
    let mut trie: NibbleTrie<String, i32> = NibbleTrie::new();
    trie.insert("abc".to_string(), 1).unwrap();
    trie.insert("def".to_string(), 2).unwrap();
    let (keys, values) = trie.into_keys_values();
    assert_eq!(keys, vec!["abc".to_string(), "def".to_string()]);
    assert_eq!(values, vec![1, 2]);
}

// ── Invariant oracle + stress tests ──────────────────────────
//
// Insert indices are no longer stable across inserts (shift-based allocation
// moves earlier keys' slots). So these tests check the *structural invariants*
// directly — the actual correctness contract of the bump walk:
//
//   (1) every node's `leaf` == the min key index in its subtree (leftmost-leaf),
//   (2) occupied index slots are in non-decreasing key order (index sorted),
//   (3) every arena ref (node.leaf, leaf children) points to an occupied slot,
//   (4) n_keys == number of occupied slots,
// plus a BTreeMap cross-check of key/value presence and forward iteration order.

/// Deterministic xorshift64 PRNG (avoids a `rand` dev-dependency).
fn next_u64(state: &mut u64) -> u64 {
    let mut x = *state;
    x ^= x << 13;
    x ^= x >> 7;
    x ^= x << 17;
    *state = x;
    x
}

/// Random-ish key of length 1..=max_len from `state`.
fn rand_key(state: &mut u64, max_len: usize) -> Vec<u8> {
    let len = 1 + (next_u64(state) as usize % max_len);
    (0..len).map(|_| (next_u64(state) & 0xFF) as u8).collect()
}

/// Recompute the leftmost (min key index) of the subtree at `phys` and check
/// it equals `arena[phys].leaf`. Also checks every leaf-child / terminal ref in
/// the subtree points to an occupied index slot. Returns `Err(msg)` on violation.
fn recompute_leftmost<PTR: TrieIndex, LEN: TrieIndex>(
    trie: &NibbleTrie<Vec<u8>, i32, PTR, LEN>,
    phys: usize,
) -> Result<usize, String> {
    let node = &trie.arena[phys];
    let mut min_ki: Option<usize> = None;
    if node.is_terminal() {
        let ki = node.leaf.get().as_usize();
        let (_toff, tlen, _tval) = trie.index[ki].as_ref().ok_or_else(|| format!(
            "terminal node {phys}: leaf -> gap slot {ki}"))?;
        // A terminal key ends exactly at this node's depth, so its nibble length
        // must equal prefix_len. This catches a terminal node's `leaf` pointing
        // at a (longer) descendant instead of its own terminal key.
        if tlen.as_usize() * 2 != node.prefix_len.as_usize() {
            return Err(format!(
                "terminal node {phys}: leaf slot {ki} key len {} != prefix_len {} (not the terminal key)",
                tlen.as_usize() * 2, node.prefix_len.as_usize()));
        }
        min_ki = Some(ki);
    }
    for nib in 0..16 {
        if !node.is_occupied(nib) {
            continue;
        }
        let child_leftmost = if node.is_leaf(nib) {
            let ki = node.children[nib].get().as_usize();
            if !trie.index[ki].is_some() {
                return Err(format!(
                    "node {phys} leaf child nib {nib}: -> gap slot {ki}"));
            }
            ki
        } else {
            recompute_leftmost(trie, node.children[nib].get().as_usize())?
        };
        min_ki = Some(min_ki.map_or(child_leftmost, |m| m.min(child_leftmost)));
    }
    let l = min_ki.ok_or_else(|| format!("node {phys} has no keys in subtree"))?;
    if l != node.leaf.get().as_usize() {
        return Err(format!(
            "leftmost-leaf invariant violated at node {phys}: stored {}, recomputed {}",
            node.leaf.get().as_usize(), l));
    }
    Ok(l)
}

/// Full structural invariant check. Returns `Err(msg)` on the first violation.
fn verify_invariants<PTR: TrieIndex, LEN: TrieIndex>(
    trie: &NibbleTrie<Vec<u8>, i32, PTR, LEN>,
) -> Result<(), String> {
    if trie.arena.is_empty() {
        return if trie.n_keys == 0 { Ok(()) } else { Err("empty trie with nonzero n_keys".into()) };
    }
    recompute_leftmost(trie, 0)?;

    let mut prev: Option<Vec<u8>> = None;
    let mut occupied = 0usize;
    for (i, slot) in trie.index.iter().enumerate() {
        if let Some((off, len, _val)) = slot {
            let k = trie.buf[(*off)..(*off) + len.as_usize()].to_vec();
            if let Some(p) = &prev {
                if k < *p {
                    return Err(format!(
                        "index not sorted: slot {i} key {k:?} < prev {p:?}"));
                }
            }
            prev = Some(k);
            occupied += 1;
        }
    }
    if occupied != trie.n_keys {
        return Err(format!(
            "n_keys mismatch: {occupied} occupied slots vs n_keys {}", trie.n_keys));
    }
    Ok(())
}

/// Cross-check a trie against a BTreeMap oracle: every key resolves to its
/// value, no extra keys, and forward iteration matches the oracle's order.
fn cross_check_oracle<PTR: TrieIndex, LEN: TrieIndex>(
    trie: &NibbleTrie<Vec<u8>, i32, PTR, LEN>,
    oracle: &BTreeMap<Vec<u8>, i32>,
) {
    assert_eq!(trie.len(), oracle.len());
    for (k, v) in oracle {
        assert_eq!(trie.get(k), Some(v),
            "get mismatch for key {:?}", k);
    }
    // Forward iteration order == oracle order, with matching values.
    let mut it = trie.iter();
    let mut ordered = Vec::new();
    if let Some((k, v)) = it.current() {
        ordered.push((k.to_vec(), *v));
    }
    while let Some((k, v)) = it.next() {
        ordered.push((k.to_vec(), *v));
    }
    let expected: Vec<(Vec<u8>, i32)> =
        oracle.iter().map(|(k, v)| (k.clone(), *v)).collect();
    assert_eq!(ordered, expected, "forward iteration order/value mismatch");
}

fn stress_insert_sequence(keys: &[Vec<u8>]) {
    let mut trie: NibbleTrie<Vec<u8>, i32> = NibbleTrie::new();
    let mut oracle: BTreeMap<Vec<u8>, i32> = BTreeMap::new();
    for (i, key) in keys.iter().enumerate() {
        // Skip duplicate keys (the trie rejects them); the oracle must too.
        if oracle.contains_key(key) {
            assert_eq!(trie.insert(key.clone(), i as i32), Err(()),
                "trie accepted duplicate key {:?}", key);
            continue;
        }
        trie.insert(key.clone(), i as i32).unwrap();
        oracle.insert(key.clone(), i as i32);
        // After EVERY insert, the structural invariants must hold — this is the
        // real test of the shift + bump walk.
        if let Err(msg) = verify_invariants(&trie) {
            panic!("after inserting key #{i} {:?}: {msg}", key);
        }
    }
    cross_check_oracle(&trie, &oracle);
}

#[test]
fn invariant_random_keys() {
    let mut state = 0x9e3779b97f4a7c15;
    let mut keys: Vec<Vec<u8>> = Vec::new();
    for _ in 0..500 {
        keys.push(rand_key(&mut state, 8));
    }
    stress_insert_sequence(&keys);
}

#[test]
fn invariant_sorted_keys() {
    // Distinct ascending keys: pure END-case appends + periodic optimize.
    let keys: Vec<Vec<u8>> = (0..500u32).map(|i| format!("key_{:05}", i).into_bytes()).collect();
    stress_insert_sequence(&keys);
}

#[test]
fn invariant_reverse_keys() {
    // Descending: every insert is the new smallest → max shifting + bumping.
    let keys: Vec<Vec<u8>> = (0..500u32)
        .rev()
        .map(|i| format!("key_{:05}", i).into_bytes())
        .collect();
    stress_insert_sequence(&keys);
}

#[test]
fn invariant_prefix_heavy() {
    // Many prefix relationships → Terminal + SplitNode + SplitLeaf cases.
    let mut keys: Vec<Vec<u8>> = Vec::new();
    for i in 0..200u32 {
        let base = format!("prefix_{:03}", i);
        keys.push(base.as_bytes().to_vec());
        keys.push(format!("{}{}", base, "_suffix").into_bytes());
        keys.push(format!("{}{}", base, "x").into_bytes());
    }
    stress_insert_sequence(&keys);
}

#[test]
fn invariant_mixed_lengths() {
    // Single-byte through long keys; exercises nibble boundary + prefix cases.
    let mut state = 0xdeadbeefcafebabe;
    let mut keys: Vec<Vec<u8>> = Vec::new();
    for _ in 0..400 {
        keys.push(rand_key(&mut state, 24));
    }
    stress_insert_sequence(&keys);
}

#[test]
fn invariant_backwards_iteration_after_shifts() {
    // Reverse insertion produces heavy shifting; verify reverse iteration too.
    let mut trie: NibbleTrie<Vec<u8>, i32> = NibbleTrie::new();
    let mut oracle: BTreeMap<Vec<u8>, i32> = BTreeMap::new();
    for i in (0..300u32).rev() {
        let key = format!("k{:05}", i);
        let kb = key.into_bytes();
        trie.insert(kb.clone(), i as i32).unwrap();
        oracle.insert(kb, i as i32);
        if let Err(msg) = verify_invariants(&trie) { panic!("after inserting #{i}: {msg}"); }
    }
    assert_eq!(trie.len(), oracle.len());
    let mut it = trie.iter_last();
    let mut ordered = Vec::new();
    if let Some((k, v)) = it.current() {
        ordered.push((k.to_vec(), *v));
    }
    while let Some((k, v)) = it.prev() {
        ordered.push((k.to_vec(), *v));
    }
    let expected: Vec<(Vec<u8>, i32)> =
        oracle.iter().rev().map(|(k, v)| (k.clone(), *v)).collect();
    assert_eq!(ordered, expected, "reverse iteration mismatch after shifts");
}

#[test]
fn invariant_seek_after_shifts() {
    let mut state = 0x123456789abcdef0;
    let mut keys: Vec<Vec<u8>> = Vec::new();
    for _ in 0..300 {
        keys.push(rand_key(&mut state, 8));
    }
    let mut trie: NibbleTrie<Vec<u8>, i32> = NibbleTrie::new();
    let mut oracle: BTreeMap<Vec<u8>, i32> = BTreeMap::new();
    for (i, key) in keys.iter().enumerate() {
        if oracle.contains_key(key) { continue; }
        trie.insert(key.clone(), i as i32).unwrap();
        oracle.insert(key.clone(), i as i32);
        if let Err(msg) = verify_invariants(&trie) {
            panic!("after inserting #{i} {:?}: {msg}", key);
        }
    }
    // Seek to each oracle key and to non-keys that fall between existing keys.
    for (k, _v) in &oracle {
        let mut it = trie.iter();
        it.seek(k);
        assert_eq!(it.current().map(|(kk, _)| kk.to_vec()), Some(k.clone()),
            "seek mismatch for key {:?}", k);
    }
    // Seek to a non-key lands on the first existing key >= it (the ceiling).
    // Construct a probe just past each existing key and compare to the oracle's
    // own ceiling (`range(probe..)`).
    for k in oracle.keys() {
        let mut probe = k.clone();
        *probe.last_mut().unwrap() = probe.last().copied().unwrap_or(0).wrapping_add(1);
        if oracle.contains_key(&probe) {
            continue;
        }
        let expected = oracle.keys().find(|k| k.as_slice() >= probe.as_slice()).cloned();
        let mut it = trie.iter();
        it.seek(&probe);
        assert_eq!(it.current().map(|(kk, _)| kk.to_vec()), expected,
            "seek-ceiling mismatch: seek {:?} expected {:?} got {:?}",
            probe, expected, it.current().map(|(kk, _)| kk.to_vec()));
    }
}

#[test]
fn invariant_past_optimize_repeatedly() {
    // Force many 90%-trigger re-spreads: dense distinct keys in a narrow space
    // so gaps deplete quickly and optimize fires repeatedly.
    let mut trie: NibbleTrie<Vec<u8>, i32> = NibbleTrie::new();
    let mut oracle: BTreeMap<Vec<u8>, i32> = BTreeMap::new();
    for i in 0..1000u32 {
        let key = format!("{:04}", i); // narrow 4-char space, dense
        let kb = key.into_bytes();
        trie.insert(kb.clone(), i as i32).unwrap();
        oracle.insert(kb, i as i32);
        if let Err(msg) = verify_invariants(&trie) { panic!("after inserting #{i}: {msg}"); }
    }
    cross_check_oracle(&trie, &oracle);
}

// ---------------------------------------------------------------------------
// Cursor — linear-scan iterator over the sparse index
// ---------------------------------------------------------------------------

#[test]
fn cursor_empty_trie() {
    let trie: NibbleTrie<Vec<u8>, i32> = NibbleTrie::new();
    let mut it = trie.iter();
    assert!(it.current().is_none());
    assert!(it.current_index().is_none());
    assert!(it.next().is_none());
    assert!(it.prev().is_none());
    assert!(it.first().is_none());
    assert!(it.last().is_none());
    assert!(it.seek(b"anything").is_none());
}

#[test]
fn cursor_forward_before_first() {
    // iter() parks *before* the first key: current() is None, next() yields first.
    let mut trie: NibbleTrie<Vec<u8>, i32> = NibbleTrie::new();
    trie.insert(b"abc".to_vec(), 1).unwrap();
    trie.insert(b"abd".to_vec(), 2).unwrap();
    trie.insert(b"abe".to_vec(), 3).unwrap();

    let mut it = trie.iter();
    assert!(it.current().is_none());
    assert_eq!(it.next().unwrap().0, b"abc");
    assert_eq!(it.current().unwrap().0, b"abc"); // cached — same value, no re-scan
    assert_eq!(it.next().unwrap().0, b"abd");
    assert_eq!(it.next().unwrap().0, b"abe");
    assert!(it.next().is_none());
    // Forward-exhausted: current() stays None, but prev() walks back.
    assert!(it.current().is_none());
    assert_eq!(it.prev().unwrap().0, b"abe");
}

#[test]
fn cursor_backward_on_last() {
    // iter_last() parks *on* the last key.
    let mut trie: NibbleTrie<Vec<u8>, i32> = NibbleTrie::new();
    trie.insert(b"abc".to_vec(), 1).unwrap();
    trie.insert(b"abd".to_vec(), 2).unwrap();
    trie.insert(b"abe".to_vec(), 3).unwrap();

    let mut it = trie.iter_last();
    assert_eq!(it.current().unwrap().0, b"abe");
    assert!(it.current_index().is_some()); // parked on a real slot
    assert_eq!(it.prev().unwrap().0, b"abd");
    assert_eq!(it.prev().unwrap().0, b"abc");
    assert!(it.prev().is_none());
    // Before-first: next() walks forward again.
    assert_eq!(it.next().unwrap().0, b"abc");
}

#[test]
fn cursor_first_last_jump() {
    let mut trie: NibbleTrie<Vec<u8>, i32> = NibbleTrie::new();
    trie.insert(b"mid".to_vec(), 5).unwrap();
    trie.insert(b"aaa".to_vec(), 1).unwrap();
    trie.insert(b"zzz".to_vec(), 9).unwrap();

    let mut it = trie.iter();
    assert_eq!(it.first().unwrap().0, b"aaa");
    assert_eq!(it.current().unwrap().0, b"aaa");
    assert_eq!(it.last().unwrap().0, b"zzz");
    assert_eq!(it.current().unwrap().0, b"zzz");
    // From the last key, prev walks backward; from first, next walks forward.
    assert_eq!(it.prev().unwrap().0, b"mid");
    assert_eq!(it.first().unwrap().0, b"aaa");
    assert_eq!(it.next().unwrap().0, b"mid");
}

#[test]
fn cursor_seek_then_scan() {
    let mut trie: NibbleTrie<Vec<u8>, i32> = NibbleTrie::new();
    for i in 0..10u32 {
        trie.insert(format!("key{i}").into_bytes(), i as i32).unwrap();
    }
    let mut it = trie.iter();
    // seek lands on the first key >= "key5" (exact match here).
    assert_eq!(it.seek(b"key5").unwrap().0, b"key5");
    assert_eq!(it.next().unwrap().0, b"key6");
    assert_eq!(it.prev().unwrap().0, b"key5"); // back to where seek landed
    assert_eq!(it.prev().unwrap().0, b"key4");
    // Seek past the end → exhausted.
    assert!(it.seek(b"zzz").is_none());
    assert!(it.current().is_none());
    // Seek before the beginning → lands on first.
    assert_eq!(it.seek(b"").unwrap().0, b"key0");
}

#[test]
fn cursor_scan_order_matches_oracle_after_shifts() {
    // Shift-heavy insert sequence (reverse order forces many non-END shifts),
    // then verify the linear-scan cursor matches BTreeMap order both forward
    // and backward, including after an optimize re-spread.
    let mut trie: NibbleTrie<Vec<u8>, i32> = NibbleTrie::new();
    let mut oracle: BTreeMap<Vec<u8>, i32> = BTreeMap::new();
    for i in (0..200u32).rev() {
        let k = format!("item{:04}", i).into_bytes();
        trie.insert(k.clone(), i as i32).unwrap();
        oracle.insert(k, i as i32);
    }
    trie.optimize();

    let mut fwd: Vec<(Vec<u8>, i32)> = Vec::new();
    let mut it = trie.iter();
    if let Some((k, v)) = it.current() { fwd.push((k.to_vec(), *v)); }
    while let Some((k, v)) = it.next() { fwd.push((k.to_vec(), *v)); }
    let expected: Vec<(Vec<u8>, i32)> =
        oracle.iter().map(|(k, v)| (k.clone(), *v)).collect();
    assert_eq!(fwd, expected, "forward scan order mismatch after shifts+optimize");

    let mut rev: Vec<(Vec<u8>, i32)> = Vec::new();
    let mut it = trie.iter_last();
    if let Some((k, v)) = it.current() { rev.push((k.to_vec(), *v)); }
    while let Some((k, v)) = it.prev() { rev.push((k.to_vec(), *v)); }
    let expected_rev: Vec<(Vec<u8>, i32)> =
        oracle.iter().rev().map(|(k, v)| (k.clone(), *v)).collect();
    assert_eq!(rev, expected_rev, "backward scan order mismatch after shifts+optimize");
}

#[test]
fn nibble_trie_cursor_next_then_prev_returns() {
    let mut trie: NibbleTrie<Vec<u8>, i32> = NibbleTrie::new();
    for (i, k) in ["apple", "banana", "cherry", "date"].iter().enumerate() {
        trie.insert(k.as_bytes().to_vec(), i as i32).unwrap();
    }
    trie.optimize();
    let mut c = trie.iter();
    let first = c.next().map(|(k, v)| (k.to_vec(), *v));
    let second = c.next().map(|(k, v)| (k.to_vec(), *v));
    assert!(second.is_some());
    let back = c.prev().map(|(k, v)| (k.to_vec(), *v));
    assert_eq!(back, first);
}

#[test]
fn nibble_trie_promote_demote_keeps_lookups() {
    let mut trie: NibbleTrie<Vec<u8>, i32, u16, u16> = NibbleTrie::new();
    for (i, k) in ["a", "ab", "abc", "b", "ba"].iter().enumerate() {
        trie.insert(k.as_bytes().to_vec(), i as i32).unwrap();
    }
    let wide: NibbleTrie<Vec<u8>, i32, u32, u16> = trie.promote();
    for (i, k) in ["a", "ab", "abc", "b", "ba"].iter().enumerate() {
        assert_eq!(wide.get(k.as_bytes()), Some(&(i as i32)));
    }
    assert_eq!(wide.get(b"zz"), None);
    let narrow: NibbleTrie<Vec<u8>, i32, u16, u16> = match wide.demote() {
        Ok(t) => t,
        Err(_) => panic!("demote failed"),
    };
    for (i, k) in ["a", "ab", "abc", "b", "ba"].iter().enumerate() {
        assert_eq!(narrow.get(k.as_bytes()), Some(&(i as i32)));
    }
}

#[test]
fn nibble_trie_optimize_spreads_keys_to_odd_slots() {
    let mut trie: NibbleTrie<Vec<u8>, i32> = NibbleTrie::new();
    trie.insert(b"pear".to_vec(), 1).unwrap();
    trie.insert(b"apple".to_vec(), 2).unwrap();
    trie.insert(b"fig".to_vec(), 3).unwrap();
    trie.optimize();
    assert_eq!(trie.index.len(), 7);
    for s in 0..trie.index.len() {
        assert_eq!(trie.index[s].is_some(), s % 2 == 1, "slot {}", s);
    }
    assert_eq!(trie.get(b"apple"), Some(&2));
    assert_eq!(trie.get(b"fig"), Some(&3));
    assert_eq!(trie.get(b"pear"), Some(&1));
}

#[test]
fn nibble_trie_insert_then_get_index_finds_returned_slot() {
    let mut trie: NibbleTrie<Vec<u8>, i32> = NibbleTrie::new();
    for (n, k) in [&b"m"[..], b"ma", b"mb", b"a", b"mab", b"z", b""].iter().enumerate() {
        let slot = trie.insert(k.to_vec(), n as i32).unwrap();
        assert_eq!(trie.get_index(k), Some(slot));
        assert_eq!(trie.get(k), Some(&(n as i32)));
    }
}

#[test]
fn nibble_trie_key_ending_inside_a_span_is_found() {
    let mut trie: NibbleTrie<Vec<u8>, i32> = NibbleTrie::new();
    trie.insert(b"abc\0\0x".to_vec(), 1).unwrap();
    trie.insert(b"abc\0\0y".to_vec(), 2).unwrap();
    trie.insert(b"abc".to_vec(), 3).unwrap();
    assert_eq!(trie.get(b"abc"), Some(&3));
    assert_eq!(trie.get(b"abc\0\0x"), Some(&1));
    assert_eq!(trie.get(b"abc\0\0y"), Some(&2));
    assert_eq!(trie.insert(b"abc".to_vec(), 4), Err(()));
    assert_eq!(trie.len(), 3);
}

#[test]
fn nibble_trie_get_unchecked_agrees_with_get_index() {
    let mut trie: NibbleTrie<Vec<u8>, i32> = NibbleTrie::new();
    for (i, k) in [&b"abc"[..], b"abd", b"ab", b"xyz", b""].iter().enumerate() {
        trie.insert(k.to_vec(), i as i32).unwrap();
    }
    for k in [&b"abc"[..], b"abd", b"ab", b"xyz", b""] {
        assert_eq!(trie.get_unchecked(k), trie.get_index(k));
        assert!(trie.get_unchecked(k).is_some());
    }
}

#[test]
fn fill_exceeds_is_the_ninety_percent_test() {
    // 10 * 9 = 90 is not over 9 * 10 = 90; 10 * 10 = 100 is.
    assert!(!fill_exceeds(9, 10, 0, 0));
    assert!(fill_exceeds(10, 10, 0, 0));
    assert!(!fill_exceeds(0, 0, 9, 10));
    assert!(fill_exceeds(0, 0, 10, 10));
    // A zero capacity never counts as full.
    assert!(!fill_exceeds(5, 0, 5, 0));
    assert!(fill_exceeds(usize::MAX, usize::MAX, 0, 0));
}
