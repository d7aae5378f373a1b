use tiny_trie::bit_trie::{BitTrie, Node};

#[test]
fn node_size() {
    assert_eq!(std::mem::size_of::<Node>(), 16);
}

#[test]
fn bit_trie_insert_empty_and_get() {
    let mut trie: BitTrie<Vec<u8>, i32> = BitTrie::new();
    trie.insert(b"hello".to_vec(), 42).unwrap();
    assert_eq!(trie.get(b"hello"), Some(&42));
    assert_eq!(trie.get(b"world"), None);
}

#[test]
fn bit_trie_insert_duplicate_returns_error() {
    let mut trie: BitTrie<Vec<u8>, i32> = BitTrie::new();
    trie.insert(b"hello".to_vec(), 1).unwrap();
    let result = trie.insert(b"hello".to_vec(), 2);
    assert_eq!(result, Err(()));
    assert_eq!(trie.len(), 1);
}

#[test]
fn bit_trie_insert_null_byte_allowed() {
    let mut trie: BitTrie<Vec<u8>, i32> = BitTrie::new();
    trie.insert(b"hel\0lo".to_vec(), 1).unwrap();
    assert_eq!(trie.get(b"hel\0lo"), Some(&1));
}

#[test]
fn bit_trie_insert_two_keys_split_leaf() {
    let mut trie: BitTrie<Vec<u8>, i32> = BitTrie::new();
    trie.insert(b"abc".to_vec(), 1).unwrap();
    trie.insert(b"abd".to_vec(), 2).unwrap();
    assert_eq!(trie.get(b"abc"), Some(&1));
    assert_eq!(trie.get(b"abd"), Some(&2));
    assert_eq!(trie.len(), 2);
}

#[test]
fn bit_trie_insert_prefix_key() {
    let mut trie: BitTrie<Vec<u8>, i32> = BitTrie::new();
    trie.insert(b"abc".to_vec(), 1).unwrap();
    trie.insert(b"abcd".to_vec(), 2).unwrap();
    assert_eq!(trie.get(b"abc"), Some(&1));
    assert_eq!(trie.get(b"abcd"), Some(&2));
}

#[test]
fn bit_trie_insert_reverse_prefix_key() {
    let mut trie: BitTrie<Vec<u8>, i32> = BitTrie::new();
    trie.insert(b"abcd".to_vec(), 1).unwrap();
    trie.insert(b"abc".to_vec(), 2).unwrap();
    assert_eq!(trie.get(b"abcd"), Some(&1));
    assert_eq!(trie.get(b"abc"), Some(&2));
}

#[test]
fn bit_trie_insert_empty_key() {
    let mut trie: BitTrie<Vec<u8>, i32> = BitTrie::new();
    trie.insert(b"".to_vec(), 1).unwrap();
    trie.insert(b"abc".to_vec(), 2).unwrap();
    assert_eq!(trie.get(b""), Some(&1));
    assert_eq!(trie.get(b"abc"), Some(&2));
}

#[test]
fn insert_empty_key_after() {
    let mut trie: BitTrie<Vec<u8>, i32> = BitTrie::new();
    trie.insert(b"abc".to_vec(), 1).unwrap();
    trie.insert(b"".to_vec(), 2).unwrap();
    assert_eq!(trie.get(b"abc"), Some(&1));
    assert_eq!(trie.get(b""), Some(&2));
}

#[test]
fn bit_trie_insert_no_common_prefix() {
    let mut trie: BitTrie<Vec<u8>, i32> = BitTrie::new();
    trie.insert(b"abc".to_vec(), 1).unwrap();
    trie.insert(b"xyz".to_vec(), 2).unwrap();
    assert_eq!(trie.get(b"abc"), Some(&1));
    assert_eq!(trie.get(b"xyz"), Some(&2));
}

#[test]
fn bit_trie_insert_three_keys() {
    let mut trie: BitTrie<Vec<u8>, i32> = BitTrie::new();
    trie.insert(b"abc".to_vec(), 1).unwrap();
    trie.insert(b"abd".to_vec(), 2).unwrap();
    trie.insert(b"abe".to_vec(), 3).unwrap();
    assert_eq!(trie.get(b"abc"), Some(&1));
    assert_eq!(trie.get(b"abd"), Some(&2));
    assert_eq!(trie.get(b"abe"), Some(&3));
}

#[test]
fn bit_trie_insert_single_char_keys() {
    let mut trie: BitTrie<Vec<u8>, i32> = BitTrie::new();
    for c in b'a'..=b'f' {
        trie.insert(vec![c], c as i32).unwrap();
    }
    for c in b'a'..=b'f' {
        let v = c as i32;
        assert_eq!(trie.get(&[c]), Some(&v));
    }
}

#[test]
fn bit_trie_insert_many_keys_same_prefix() {
    let mut trie: BitTrie<Vec<u8>, i32> = BitTrie::new();
    for i in 0..50 {
        let key = format!("prefix_{:02}", i);
        trie.insert(key.into_bytes(), i).unwrap();
    }
    for i in 0..50 {
        let key = format!("prefix_{:02}", i);
        let result = trie.get(key.as_bytes());
        assert!(result.is_some(), "get({:?}) returned None for i={}", key, i);
    }
}

#[test]
fn bit_trie_insert_deeply_nested() {
    let mut trie: BitTrie<Vec<u8>, i32> = BitTrie::new();
    let mut key = Vec::new();
    for i in 0..100 {
        key.push(b'a');
        trie.insert(key.clone(), i).unwrap();
        assert_eq!(trie.get(&key), Some(&i));
    }
}

#[test]
fn bit_trie_len_and_is_empty() {
    let mut trie: BitTrie<Vec<u8>, i32> = BitTrie::new();
    assert!(trie.is_empty());
    assert_eq!(trie.len(), 0);
    trie.insert(b"hello".to_vec(), 1).unwrap();
    assert!(!trie.is_empty());
    assert_eq!(trie.len(), 1);
}

#[test]
fn bit_trie_into_keys_values_roundtrip() {
    let mut trie: BitTrie<Vec<u8>, i32> = BitTrie::new();
    trie.insert(b"abc".to_vec(), 1).unwrap();
    trie.insert(b"def".to_vec(), 2).unwrap();
    let (keys, values) = trie.into_keys_values();
    assert_eq!(keys, vec![b"abc".to_vec(), b"def".to_vec()]);
    assert_eq!(values, vec![1, 2]);
}

#[test]
fn bit_trie_iter_empty() {
    let trie: BitTrie<Vec<u8>, i32> = BitTrie::new();
    let mut iter = trie.iter();
    assert!(iter.next().is_none());
}

#[test]
fn bit_trie_iter_single_key() {
    let mut trie: BitTrie<Vec<u8>, i32> = BitTrie::new();
    trie.insert(b"hello".to_vec(), 42).unwrap();
    let mut iter = trie.iter();
    let (k, v) = iter.next().unwrap();
    assert_eq!(k, b"hello");
    assert_eq!(*v, 42);
    assert!(iter.next().is_none());
}

#[test]
fn bit_trie_iter_forward() {
    let mut trie: BitTrie<Vec<u8>, i32> = BitTrie::new();
    trie.insert(b"abc".to_vec(), 1).unwrap();
    trie.insert(b"abd".to_vec(), 2).unwrap();
    trie.insert(b"abe".to_vec(), 3).unwrap();

    let mut results = Vec::new();
    let mut iter = trie.iter();
    while let Some((k, _)) = iter.next() {
        results.push(k.to_vec());
    }
    assert_eq!(results, vec![b"abc", b"abd", b"abe"]);
}

#[test]
fn bit_trie_iter_backward() {
    let mut trie: BitTrie<Vec<u8>, i32> = BitTrie::new();
    trie.insert(b"abc".to_vec(), 1).unwrap();
    trie.insert(b"abd".to_vec(), 2).unwrap();
    trie.insert(b"abe".to_vec(), 3).unwrap();

    let mut iter = trie.iter_last();
    let mut results = Vec::new();
    loop {
        match iter.current() {
            Some((k, _)) => results.push(k.to_vec()),
            None => break,
        }
        if iter.prev().is_none() {
            break;
        }
    }
    assert_eq!(results, vec![b"abe", b"abd", b"abc"]);
}

#[test]
fn iter_with_prefix_key() {
    let mut trie: BitTrie<Vec<u8>, i32> = BitTrie::new();
    trie.insert(b"abc".to_vec(), 1).unwrap();
    trie.insert(b"abcd".to_vec(), 2).unwrap();

    let mut results = Vec::new();
    let mut iter = trie.iter();
    while let Some((k, _)) = iter.next() {
        results.push(k.to_vec());
    }
    assert_eq!(results, vec![b"abc".to_vec(), b"abcd".to_vec()]);
}

#[test]
fn iter_with_empty_key() {
    let mut trie: BitTrie<Vec<u8>, i32> = BitTrie::new();
    trie.insert(b"".to_vec(), 0).unwrap();
    trie.insert(b"abc".to_vec(), 1).unwrap();
    trie.insert(b"def".to_vec(), 2).unwrap();

    let mut results = Vec::new();
    let mut iter = trie.iter();
    while let Some((k, _)) = iter.next() {
        results.push(k.to_vec());
    }
    // Empty string sorts before everything
    assert_eq!(results, vec![b"".to_vec(), b"abc".to_vec(), b"def".to_vec()]);
}

#[test]
fn bit_trie_iter_seek_exact() {
    let mut trie: BitTrie<Vec<u8>, i32> = BitTrie::new();
    trie.insert(b"abc".to_vec(), 1).unwrap();
    trie.insert(b"abd".to_vec(), 2).unwrap();
    trie.insert(b"abe".to_vec(), 3).unwrap();

    let mut iter = trie.iter();
    let (k, _) = iter.seek(b"abd").unwrap();
    assert_eq!(k, b"abd");
}

#[test]
fn bit_trie_iter_seek_between() {
    let mut trie: BitTrie<Vec<u8>, i32> = BitTrie::new();
    trie.insert(b"abc".to_vec(), 1).unwrap();
    trie.insert(b"abd".to_vec(), 2).unwrap();
    trie.insert(b"abe".to_vec(), 3).unwrap();

    let mut iter = trie.iter();
    let (k, _) = iter.seek(b"abc\x7f").unwrap();
    assert_eq!(k, b"abd");
}

#[test]
fn bit_trie_iter_seek_prefix_key() {
    let mut trie: BitTrie<Vec<u8>, i32> = BitTrie::new();
    trie.insert(b"abc".to_vec(), 1).unwrap();
    trie.insert(b"abcd".to_vec(), 2).unwrap();

    let mut iter = trie.iter();
    let (k, _) = iter.seek(b"abc").unwrap();
    assert_eq!(k, b"abc");
}

#[test]
fn bit_trie_get_found_and_missing() {
    let mut trie: BitTrie<Vec<u8>, String> = BitTrie::new();
    trie.insert(b"hello".to_vec(), "world".to_string()).unwrap();
    assert_eq!(trie.get(b"hello"), Some(&"world".to_string()));
    assert_eq!(trie.get(b"world"), None);
}

#[test]
fn bit_trie_iter_backward_large() {
    let mut trie: BitTrie<Vec<u8>, i32> = BitTrie::new();
    for i in 0..100 {
        let key = format!("key_{:03}", i);
        trie.insert(key.into_bytes(), i).unwrap();
    }

    let mut iter = trie.iter_last();
    let mut count = 0;
    let mut last_key: Vec<u8> = Vec::new();
    if let Some((k, _)) = iter.current() {
        last_key = k.to_vec();
        count += 1;
    }
    while let Some((k, _)) = iter.prev() {
        assert!(k < &last_key[..], "not descending: {:?} >= {:?}",
            String::from_utf8_lossy(k), String::from_utf8_lossy(&last_key));
        last_key = k.to_vec();
        count += 1;
    }
    assert_eq!(count, 100);
}

#[test]
fn bit_trie_string_key_insert_and_get() {
    let mut trie: BitTrie<String, i32> = BitTrie::new();
    trie.insert("hello".to_string(), 1).unwrap();
    trie.insert("world".to_string(), 2).unwrap();
    assert_eq!(trie.get(b"hello"), Some(&1));
    assert_eq!(trie.get(b"world"), Some(&2));
    assert_eq!(trie.get(b"xyz"), None);
}

#[test]
fn string_key_prefix() {
    let mut trie: BitTrie<String, i32> = BitTrie::new();
    trie.insert("abc".to_string(), 1).unwrap();
    trie.insert("abcd".to_string(), 2).unwrap();
    assert_eq!(trie.get(b"abc"), Some(&1));
    assert_eq!(trie.get(b"abcd"), Some(&2));
}

#[test]
fn bit_trie_string_key_into_keys_values() {
    let mut trie: BitTrie<String, i32> = BitTrie::new();
    trie.insert("abc".to_string(), 1).unwrap();
    trie.insert("def".to_string(), 2).unwrap();
    let (keys, values) = trie.into_keys_values();
    assert_eq!(keys, vec!["abc".to_string(), "def".to_string()]);
    assert_eq!(values, vec![1, 2]);
}


#[test]
fn bit_trie_insert_then_get_index_finds_new_index() {
    let mut trie: BitTrie<Vec<u8>, i32> = BitTrie::new();
    for (n, k) in [&b"m"[..], b"ma", b"mb", b"a", b"mab", b"z", b"", b"\x00", b"\x00\x00"].iter().enumerate() {
        let idx = trie.insert(k.to_vec(), n as i32).unwrap();
        assert_eq!(idx, n + 1);
        assert_eq!(trie.get_index(k), Some(idx));
        assert_eq!(trie.get(k), Some(&(n as i32)));
    }
}

#[test]
fn bit_trie_reinsert_terminal_key_is_refused() {
    let mut trie: BitTrie<Vec<u8>, i32> = BitTrie::new();
    assert_eq!(trie.insert(b"abc".to_vec(), 1), Ok(1));
    assert_eq!(trie.insert(b"abcd".to_vec(), 2), Ok(2));
    assert_eq!(trie.insert(b"abc".to_vec(), 3), Err(()));
    assert_eq!(trie.len(), 2);
    assert_eq!(trie.get_value(b"abc"), Some(&1));
    assert_eq!(trie.get_value(b"abcd"), Some(&2));
}

#[test]
fn bit_trie_prev_reaches_terminal_before_high_child() {
    // After "a" the second key continues with a 1 bit, so the node that holds
    // "a" as its terminal value has child 1 and no child 0.
    let mut trie: BitTrie<Vec<u8>, i32> = BitTrie::new();
    trie.insert(b"a".to_vec(), 1).unwrap();
    trie.insert(b"a\x80".to_vec(), 2).unwrap();
    let mut iter = trie.iter_last();
    assert_eq!(iter.current(), Some((&b"a\x80"[..], &2)));
    assert_eq!(iter.prev(), Some((&b"a"[..], &1)));
    assert_eq!(iter.prev(), None);
}

#[test]
fn bit_trie_seek_lands_on_stored_key() {
    let mut trie: BitTrie<Vec<u8>, i32> = BitTrie::new();
    trie.insert(b"abc".to_vec(), 1).unwrap();
    trie.insert(b"abcd".to_vec(), 2).unwrap();
    trie.insert(b"b".to_vec(), 3).unwrap();
    let mut iter = trie.iter();
    assert_eq!(iter.seek(b"abcd"), Some((&b"abcd"[..], &2)));
    assert_eq!(iter.current_index(), Some(2));
    assert_eq!(iter.seek(b"b"), Some((&b"b"[..], &3)));
    assert_eq!(iter.seek(b"abc"), Some((&b"abc"[..], &1)));
}

#[test]
fn bit_trie_next_runs_out_only_at_the_end() {
    let mut trie: BitTrie<Vec<u8>, i32> = BitTrie::new();
    trie.insert(b"x".to_vec(), 1).unwrap();
    trie.insert(b"y".to_vec(), 2).unwrap();
    let mut iter = trie.iter();
    assert!(iter.next().is_some());
    assert!(iter.next().is_some());
    assert_eq!(iter.next(), None);
}

#[test]
fn bit_trie_insert_keeps_earlier_keys() {
    let mut t: BitTrie<Vec<u8>, i32> = BitTrie::new();
    assert_eq!(t.insert(b"abc".to_vec(), 1), Ok(1));
    assert_eq!(t.insert(b"abd".to_vec(), 2), Ok(2));
    assert_eq!(t.insert(b"xyz".to_vec(), 3), Ok(3));
    assert_eq!(t.len(), 3);
    assert_eq!(t.get_value(b"xyz"), Some(&3));
    assert_eq!(t.get_value(b"abc"), Some(&1));
    assert_eq!(t.get_value(b"abd"), Some(&2));
    assert_eq!(t.get_index(b"abc"), Some(1));
    assert_eq!(t.get(b"ab"), None);
}

#[test]
fn bit_trie_iter_last_sits_on_the_only_key() {
    let mut t: BitTrie<Vec<u8>, i32> = BitTrie::new();
    t.insert(b"hello".to_vec(), 42).unwrap();
    assert_eq!(t.iter().current(), None);
    let it = t.iter_last();
    assert_eq!(it.current(), Some((&b"hello"[..], &42)));
    assert_eq!(it.current(), Some((&b"hello"[..], &42)));
    assert_eq!(it.current_index(), Some(1));
}

#[test]
fn bit_trie_walk_is_strictly_ascending_both_ways() {
    let mut t: BitTrie<Vec<u8>, usize> = BitTrie::new();
    let keys: [&[u8]; 9] = [b"m", b"", b"abc", b"ab", b"abd", b"\x00", b"\x00\x00", b"zz", b"a\xff"];
    for (i, k) in keys.iter().enumerate() {
        t.insert(k.to_vec(), i).unwrap();
    }
    let mut it = t.iter();
    let mut seen: Vec<Vec<u8>> = Vec::new();
    while let Some((k, _)) = it.next() {
        if let Some(last) = seen.last() {
            assert!(last.as_slice() < k);
        }
        seen.push(k.to_vec());
    }
    assert_eq!(seen.len(), keys.len());
    let mut back = t.iter_last();
    let mut prev_key = back.current().unwrap().0.to_vec();
    assert_eq!(prev_key, b"zz".to_vec());
    let mut count = 1;
    while let Some((k, _)) = back.prev() {
        assert!(k < prev_key.as_slice());
        prev_key = k.to_vec();
        count += 1;
    }
    assert_eq!(count, keys.len());
    assert_eq!(prev_key, b"".to_vec());
}

#[test]
fn bit_trie_first_next_is_smallest_and_iter_last_is_largest() {
    let mut t: BitTrie<Vec<u8>, i32> = BitTrie::new();
    for (i, k) in [&b"m"[..], b"b", b"\x01", b"zz", b"b\x00"].iter().enumerate() {
        t.insert(k.to_vec(), i as i32).unwrap();
    }
    let mut it = t.iter();
    assert_eq!(it.next(), Some((&b"\x01"[..], &2)));
    assert_eq!(t.iter_last().current(), Some((&b"zz"[..], &3)));
}
