use tiny_trie::key_store::{BufKeyStore, KeyStore, VecKeyStore};


#[test]
fn buf_store_push_and_key_bytes() {
    let mut store = BufKeyStore::default();
    assert_eq!(store.len(), 0);

    let ki1 = store.push(b"hello".to_vec());
    assert_eq!(ki1, 1);
    assert_eq!(store.key_bytes(1), b"hello");
    assert_eq!(store.len(), 1);

    let ki2 = store.push(b"world".to_vec());
    assert_eq!(ki2, 2);
    assert_eq!(store.key_bytes(2), b"world");
    assert_eq!(store.len(), 2);
}

#[test]
fn buf_store_rollback() {
    let mut store = BufKeyStore::default();
    store.push(b"hello".to_vec());
    store.push(b"world".to_vec());
    assert_eq!(store.len(), 2);

    store.rollback();
    assert_eq!(store.len(), 1);
    assert_eq!(store.key_bytes(1), b"hello");
}

#[test]
fn buf_store_into_keys() {
    let mut store = BufKeyStore::default();
    store.push(b"abc".to_vec());
    store.push(b"def".to_vec());
    let keys = store.into_keys();
    assert_eq!(keys, vec![b"abc".to_vec(), b"def".to_vec()]);
}

#[test]
fn buf_store_empty_key() {
    let mut store = BufKeyStore::default();
    let ki = store.push(b"".to_vec());
    assert_eq!(ki, 1);
    assert_eq!(store.key_bytes(1), b"");
}

#[test]
fn buf_store_dummy_entry() {
    let store = BufKeyStore::default();
    assert_eq!(store.key_bytes(0), b"");
}

#[test]
fn vec_store_push_and_key_bytes() {
    let mut store = VecKeyStore::<String>::default();
    assert_eq!(store.len(), 0);

    let ki1 = store.push("hello".to_string());
    assert_eq!(ki1, 1);
    assert_eq!(store.key_bytes(1), b"hello");
    assert_eq!(store.len(), 1);

    let ki2 = store.push("world".to_string());
    assert_eq!(ki2, 2);
    assert_eq!(store.key_bytes(2), b"world");
}

#[test]
fn vec_store_rollback() {
    let mut store = VecKeyStore::<String>::default();
    store.push("hello".to_string());
    store.push("world".to_string());
    store.rollback();
    assert_eq!(store.len(), 1);
    assert_eq!(store.key_bytes(1), b"hello");
}

#[test]
fn vec_store_into_keys() {
    let mut store = VecKeyStore::<String>::default();
    store.push("abc".to_string());
    store.push("def".to_string());
    let keys = store.into_keys();
    assert_eq!(keys, vec!["abc".to_string(), "def".to_string()]);
}

#[test]
fn vec_store_dummy_entry() {
    let store = VecKeyStore::<String>::default();
    assert_eq!(store.key_bytes(0), b"");
}
