use tiny_trie::flat_node::FlatNode;
use tiny_trie::tiny_array::TinyArray;

#[test]
fn tiny_array_push_pop_and_full() {
    let mut a: TinyArray<u32, 3> = TinyArray::new();
    assert_eq!(a.len(), 0);
    assert_eq!(a.pop(), None);
    a.push(1);
    a.push(2);
    assert!(!a.is_full());
    a.push(3);
    assert!(a.is_full());
    assert_eq!(a.as_slice(), &[1, 2, 3]);
    assert_eq!(a.pop(), Some(3));
    assert_eq!(a.as_slice(), &[1, 2]);
}

#[test]
fn tiny_array_insert_and_remove_shift() {
    let mut a: TinyArray<u8, 8> = TinyArray::default();
    a.push(10);
    a.push(30);
    a.insert_at(1, 20);
    a.insert_at(0, 5);
    assert_eq!(a.as_slice(), &[5, 10, 20, 30]);
    assert_eq!(a.remove_at(2), 20);
    assert_eq!(a.as_slice(), &[5, 10, 30]);
    assert_eq!(*a.get(1), 10);
    *a.get_mut(1) = 11;
    assert_eq!(a.as_slice(), &[5, 11, 30]);
}

#[test]
fn tiny_array_truncate_keeps_prefix() {
    let mut a: TinyArray<u8, 4> = TinyArray::new();
    for v in 0..4u8 {
        a.push(v);
    }
    a.truncate(2);
    assert_eq!(a.as_slice(), &[0, 1]);
}

#[test]
fn tiny_array_permute_in_place() {
    let mut a: TinyArray<char, 5> = TinyArray::new();
    for c in ['a', 'b', 'c', 'd', 'e'] {
        a.push(c);
    }
    a.permute_in_place(&[2, 0, 4, 1, 3]);
    assert_eq!(a.as_slice(), &['c', 'a', 'e', 'b', 'd']);
}

#[test]
fn tiny_array_permute_of_owned_values() {
    let mut a: TinyArray<String, 3> = TinyArray::new();
    a.push("x".to_string());
    a.push("y".to_string());
    a.push("z".to_string());
    a.permute_in_place(&[2, 1, 0, 7]);
    assert_eq!(a.as_slice(), &["z".to_string(), "y".to_string(), "x".to_string()]);
}

#[test]
fn tiny_array_drains() {
    let mut a: TinyArray<u8, 8> = TinyArray::new();
    let mut b: TinyArray<u8, 8> = TinyArray::new();
    for v in 1..=5u8 {
        a.push(v);
    }
    b.push(9);
    a.drain_into(3, &mut b);
    assert_eq!(a.as_slice(), &[1, 2, 3]);
    assert_eq!(b.as_slice(), &[9, 4, 5]);
    a.drain_into_front(1, &mut b);
    assert_eq!(a.as_slice(), &[1]);
    assert_eq!(b.as_slice(), &[2, 3, 9, 4, 5]);
    b.drain_front_into(2, &mut a);
    assert_eq!(a.as_slice(), &[1, 2, 3]);
    assert_eq!(b.as_slice(), &[9, 4, 5]);
}

#[test]
fn flat_node_starts_empty() {
    let n: FlatNode<u32, u16, 8> = FlatNode::new();
    assert_eq!(n.nibbles, 0);
    assert_eq!(n.slots.len(), 0);
}

#[test]
fn tiny_array_get_unchecked_and_read_slot() {
    let mut a: TinyArray<u32, 4> = TinyArray::new();
    a.push(7);
    a.push(8);
    a.push(9);
    assert_eq!(*a.get_unchecked(0), 7);
    assert_eq!(*a.get_unchecked(2), 9);
    assert_eq!(a.read_slot(1), 8);
    assert_eq!(a.as_slice(), &[7, 8, 9]);
}
