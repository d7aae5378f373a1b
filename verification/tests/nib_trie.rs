use tiny_trie::nib_trie::{NibNode, NibTrie};

#[test]
fn nib_trie_node_size_default() {
    // Default PTR=u32, LEN=u16: 4*4 + 4 + 2 + 3*1 = 25 → padded to 28
    assert_eq!(std::mem::size_of::<NibNode<u32, u16>>(), 28);
}

#[test]
fn nib_trie_node_size_compact() {
    // Compact PTR=u16, LEN=u16: 4*2 + 2 + 2 + 3*1 = 13 → padded to 16
    assert_eq!(std::mem::size_of::<NibNode<u16, u16>>(), 16);
}

#[test]
fn nib_trie_insert_empty_and_get() {
    let mut trie: NibTrie<i32> = NibTrie::new();
    trie.insert(b"hello".to_vec(), 42).unwrap();
    assert_eq!(trie.get(b"hello"), Some(&42));
    assert_eq!(trie.get(b"world"), None);
}

#[test]
fn nib_trie_insert_duplicate_returns_error() {
    let mut trie: NibTrie<i32> = NibTrie::new();
    trie.insert(b"hello".to_vec(), 1).unwrap();
    let result = trie.insert(b"hello".to_vec(), 2);
    assert_eq!(result, Err(()));
    assert_eq!(trie.len(), 1);
}

#[test]
fn nib_trie_insert_null_byte_allowed() {
    let mut trie: NibTrie<i32> = NibTrie::new();
    trie.insert(b"hel\0lo".to_vec(), 1).unwrap();
    assert_eq!(trie.get(b"hel\0lo"), Some(&1));
}

#[test]
fn nib_trie_insert_two_keys_split_leaf() {
    let mut trie: NibTrie<i32> = NibTrie::new();
    trie.insert(b"abc".to_vec(), 1).unwrap();
    trie.insert(b"abd".to_vec(), 2).unwrap();
    assert_eq!(trie.get(b"abc"), Some(&1));
    assert_eq!(trie.get(b"abd"), Some(&2));
    assert_eq!(trie.len(), 2);
}

#[test]
fn nib_trie_insert_prefix_key() {
    let mut trie: NibTrie<i32> = NibTrie::new();
    trie.insert(b"abc".to_vec(), 1).unwrap();
    trie.insert(b"abcd".to_vec(), 2).unwrap();
    assert_eq!(trie.get(b"abc"), Some(&1));
    assert_eq!(trie.get(b"abcd"), Some(&2));
}

#[test]
fn nib_trie_insert_reverse_prefix_key() {
    let mut trie: NibTrie<i32> = NibTrie::new();
    trie.insert(b"abcd".to_vec(), 1).unwrap();
    trie.insert(b"abc".to_vec(), 2).unwrap();
    assert_eq!(trie.get(b"abcd"), Some(&1));
    assert_eq!(trie.get(b"abc"), Some(&2));
}

#[test]
fn nib_trie_insert_no_common_prefix() {
    let mut trie: NibTrie<i32> = NibTrie::new();
    trie.insert(b"abc".to_vec(), 1).unwrap();
    trie.insert(b"xyz".to_vec(), 2).unwrap();
    assert_eq!(trie.get(b"abc"), Some(&1));
    assert_eq!(trie.get(b"xyz"), Some(&2));
}

#[test]
fn nib_trie_insert_three_keys() {
    let mut trie: NibTrie<i32> = NibTrie::new();
    trie.insert(b"abc".to_vec(), 1).unwrap();
    trie.insert(b"abd".to_vec(), 2).unwrap();
    trie.insert(b"abx".to_vec(), 3).unwrap();
    assert_eq!(trie.get(b"abc"), Some(&1));
    assert_eq!(trie.get(b"abd"), Some(&2));
    assert_eq!(trie.get(b"abx"), Some(&3));
    assert_eq!(trie.len(), 3);
}

#[test]
fn nib_trie_insert_empty_key() {
    let mut trie: NibTrie<i32> = NibTrie::new();
    trie.insert(b"".to_vec(), 42).unwrap();
    assert_eq!(trie.get(b""), Some(&42));
    assert_eq!(trie.get(b"a"), None);
}

#[test]
fn insert_single_byte_keys() {
    let mut trie: NibTrie<i32> = NibTrie::new();
    trie.insert(b"\x00".to_vec(), 0).unwrap();
    trie.insert(b"\x01".to_vec(), 1).unwrap();
    trie.insert(b"\x02".to_vec(), 2).unwrap();
    trie.insert(b"\x03".to_vec(), 3).unwrap();
    trie.insert(b"\x04".to_vec(), 4).unwrap();
    assert_eq!(trie.get(b"\x00"), Some(&0));
    assert_eq!(trie.get(b"\x01"), Some(&1));
    assert_eq!(trie.get(b"\x02"), Some(&2));
    assert_eq!(trie.get(b"\x03"), Some(&3));
    assert_eq!(trie.get(b"\x04"), Some(&4));
    assert_eq!(trie.len(), 5);
}

#[test]
fn insert_many_sequential() {
    let mut trie: NibTrie<i32> = NibTrie::new();
    let n = 1000;
    for i in 0..n {
        let key = format!("key_{:04}", i).into_bytes();
        trie.insert(key, i).unwrap();
    }
    assert_eq!(trie.len(), n as usize);
    for i in 0..n {
        let key = format!("key_{:04}", i).into_bytes();
        assert_eq!(trie.get(&key), Some(&i));
    }
    assert_eq!(trie.get(b"key_9999"), None);
}

#[test]
fn iteration_forward() {
    let mut trie: NibTrie<i32> = NibTrie::new();
    let keys = vec![b"abc".to_vec(), b"abd".to_vec(), b"abe".to_vec(), b"xyz".to_vec()];
    for (i, k) in keys.iter().enumerate() {
        trie.insert(k.clone(), i as i32).unwrap();
    }
    let mut it = trie.iter();
    let mut result = Vec::new();
    if let Some((k, v)) = it.current() {
        result.push((k.to_vec(), *v));
    }
    while let Some((k, v)) = it.next() {
        result.push((k.to_vec(), *v));
    }
    assert_eq!(result.len(), 4);
    // Should be in sorted order
    for i in 1..result.len() {
        assert!(result[i - 1].0 < result[i].0);
    }
}

#[test]
fn iteration_backward() {
    let mut trie: NibTrie<i32> = NibTrie::new();
    let keys = vec![b"abc".to_vec(), b"abd".to_vec(), b"abe".to_vec(), b"xyz".to_vec()];
    for (i, k) in keys.iter().enumerate() {
        trie.insert(k.clone(), i as i32).unwrap();
    }
    let mut it = trie.iter_last();
    let mut result = Vec::new();
    if let Some((k, v)) = it.current() {
        result.push((k.to_vec(), *v));
    }
    while let Some((k, v)) = it.prev() {
        result.push((k.to_vec(), *v));
    }
    assert_eq!(result.len(), 4);
    // Should be in reverse sorted order
    for i in 1..result.len() {
        assert!(result[i - 1].0 > result[i].0);
    }
}

#[test]
fn optimize_preserves_keys() {
    let mut trie: NibTrie<i32> = NibTrie::new();
    let n = 100;
    for i in 0..n {
        let key = format!("key_{:04}", i).into_bytes();
        trie.insert(key, i).unwrap();
    }
    trie.optimize();
    assert_eq!(trie.len(), n as usize);
    for i in 0..n {
        let key = format!("key_{:04}", i).into_bytes();
        assert_eq!(trie.get(&key), Some(&i));
    }
}

#[test]
fn seek_basic() {
    let mut trie: NibTrie<i32> = NibTrie::new();
    for i in 0..10 {
        let key = format!("key_{:02}", i).into_bytes();
        trie.insert(key, i).unwrap();
    }
    let mut it = trie.iter();
    let result = it.seek(b"key_05");
    assert!(result.is_some());
    let (k, v) = result.unwrap();
    assert!(k >= b"key_05");
    assert_eq!(*v, 5);
}

#[test]
fn nib_trie_insert_then_get_index_finds_new_index() {
    let mut trie: NibTrie<i32> = NibTrie::new();
    for (n, k) in [&b"m"[..], b"ma", b"mb", b"a", b"mab", b"z", b""].iter().enumerate() {
        let idx = trie.insert(k.to_vec(), n as i32).unwrap();
        assert_eq!(idx, n + 1);
        assert_eq!(trie.get_index(k), Some(idx));
        assert_eq!(trie.get(k), Some(&(n as i32)));
    }
}

#[test]
fn nib_trie_key_ending_inside_a_span_is_found() {
    // The two long keys share "abc\0\0", so their node sits past the end of
    // "abc", and the nibs of "abc\0\0" past "abc" are all zero.
    let mut trie: NibTrie<i32> = NibTrie::new();
    trie.insert(b"abc\0\0x".to_vec(), 1).unwrap();
    trie.insert(b"abc\0\0y".to_vec(), 2).unwrap();
    trie.insert(b"abc".to_vec(), 3).unwrap();
    assert_eq!(trie.get(b"abc"), Some(&3));
    assert_eq!(trie.get(b"abc\0\0x"), Some(&1));
    assert_eq!(trie.get(b"abc\0\0y"), Some(&2));
    assert_eq!(trie.insert(b"abc".to_vec(), 4), Err(()));
    assert_eq!(trie.get(b"abc"), Some(&3));
}

#[test]
fn nib_trie_get_unchecked_agrees_with_get_index() {
    let mut trie: NibTrie<i32> = NibTrie::new();
    for (i, k) in [&b"abc"[..], b"abd", b"ab", b"xyz", b""].iter().enumerate() {
        trie.insert(k.to_vec(), i as i32).unwrap();
    }
    for k in [&b"abc"[..], b"abd", b"ab", b"xyz", b""] {
        assert_eq!(trie.get_unchecked(k), trie.get_index(k));
        assert!(trie.get_unchecked(k).is_some());
    }
    assert_eq!(trie.get_unchecked(b"xyz"), Some(4));
}

#[test]
fn nib_trie_seek_lands_on_each_stored_key() {
    let mut trie: NibTrie<i32> = NibTrie::new();
    let keys: [&[u8]; 5] = [b"abc", b"ab", b"abcd", b"b", b""];
    for (i, k) in keys.iter().enumerate() {
        trie.insert(k.to_vec(), i as i32).unwrap();
    }
    for (i, k) in keys.iter().enumerate() {
        let mut it = trie.iter();
        assert_eq!(it.seek(k), Some((*k, &(i as i32))));
        assert_eq!(it.current_index(), trie.get_index(k));
    }
}
