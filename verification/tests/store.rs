use btt::store::same_digest;
use btt::{Digest, Node, Store};

fn key(first: u8, last: u8) -> Digest {
    let mut d = [0u8; 32];
    d[0] = first;
    d[31] = last;
    d
}

#[test]
fn new_store_is_empty() {
    let store = Store::new();
    assert_eq!(store.len(), 0);
    assert!(!store.contains_key(&key(0, 0)));
    assert_eq!(store.get(&key(0, 0)), None);
}

#[test]
fn insert_then_get() {
    let mut store = Store::new();
    assert_eq!(store.insert(key(1, 0), Node::Leaf(10)), None);
    assert_eq!(store.insert(key(2, 0), Node::Branch(key(1, 0), key(1, 0))), None);
    assert_eq!(store.len(), 2);
    assert_eq!(store.get(&key(1, 0)), Some(&Node::Leaf(10)));
    assert_eq!(store.get(&key(2, 0)), Some(&Node::Branch(key(1, 0), key(1, 0))));
    assert_eq!(store.get(&key(3, 0)), None);
    assert!(store.contains_key(&key(2, 0)));
    assert!(!store.contains_key(&key(3, 0)));
}

#[test]
fn insert_replaces_and_hands_back_the_old_node() {
    let mut store = Store::new();
    assert_eq!(store.insert(key(1, 0), Node::Leaf(10)), None);
    assert_eq!(store.insert(key(2, 0), Node::Leaf(20)), None);
    assert_eq!(store.insert(key(1, 0), Node::Leaf(11)), Some(Node::Leaf(10)));
    assert_eq!(store.len(), 2);
    assert_eq!(store.get(&key(1, 0)), Some(&Node::Leaf(11)));
    assert_eq!(store.get(&key(2, 0)), Some(&Node::Leaf(20)));
}

#[test]
fn digests_differ_by_any_byte() {
    let mut store = Store::new();
    store.insert(key(7, 0), Node::Leaf(1));
    store.insert(key(7, 1), Node::Leaf(2));
    store.insert(key(8, 0), Node::Leaf(3));
    assert_eq!(store.len(), 3);
    assert_eq!(store.get(&key(7, 0)), Some(&Node::Leaf(1)));
    assert_eq!(store.get(&key(7, 1)), Some(&Node::Leaf(2)));
    assert_eq!(store.get(&key(8, 0)), Some(&Node::Leaf(3)));
}

#[test]
fn same_digest_compares_all_32_bytes() {
    let a = key(1, 2);
    assert!(same_digest(&a, &a));
    assert!(same_digest(&a, &key(1, 2)));
    assert!(!same_digest(&a, &key(1, 3)));
    assert!(!same_digest(&a, &key(0, 2)));
    let mut middle = a;
    middle[16] = 1;
    assert!(!same_digest(&a, &middle));
}

#[test]
fn default_store_is_empty() {
    let mut store = Store::default();
    assert_eq!(store.len(), 0);
    assert_eq!(store.get(&key(1, 1)), None);
    assert_eq!(store.insert(key(1, 1), Node::Leaf(4)), None);
    assert_eq!(store.len(), 1);
}
