use bnc::{Mapi, Veci};

#[test]
fn in_memory_map_walks_in_insertion_order() {
    let mut m = Mapi::new("mem");
    assert_eq!(m.get_path(), "mem");
    assert!(m.is_empty());
    assert_eq!(m.insert(&[2], b"b"), None);
    assert_eq!(m.insert(&[1], b"a"), None);
    assert_eq!(m.insert(&[3], b"c"), None);
    assert_eq!(m.insert(&[1], b"A"), Some(b"a".to_vec()));
    assert_eq!(m.len(), 3);
    assert_eq!(
        m.entries(),
        vec![(vec![2], b"b".to_vec()), (vec![1], b"A".to_vec()), (vec![3], b"c".to_vec())]
    );
    assert_eq!(m.get(&[1]), Some(b"A".to_vec()));
    assert_eq!(m.get(&[4]), None);
    assert!(m.contains_key(&[3]));
    assert!(!m.contains_key(&[4]));
    assert_eq!(m.remove(&[2]), Some(b"b".to_vec()));
    assert_eq!(m.remove(&[2]), None);
    assert_eq!(m.entries(), vec![(vec![1], b"A".to_vec()), (vec![3], b"c".to_vec())]);
    assert_eq!(m.len(), 2);
}

#[test]
fn in_memory_map_counts_inserts_and_removals() {
    let mut m = Mapi::new("A");
    m.insert(&[1], b"x");
    m.insert(&[2], b"y");
    assert_eq!(m.len(), 2);
    m.remove(&[1]);
    assert_eq!(m.len(), 1);
    assert_eq!(m.get(&[1]), None);
    assert_eq!(m.get(&[2]), Some(b"y".to_vec()));
    m.insert(&[2], b"y");
    assert_eq!(m.len(), 1);
}

#[test]
fn in_memory_maps_are_equal_as_far_as_the_shorter_one_goes() {
    let mut a = Mapi::new("a");
    let mut b = Mapi::new("b");
    assert!(a.eq(&b));
    a.insert(b"k", b"v");
    assert!(a.eq(&b));
    b.insert(b"k", b"w");
    assert!(!a.eq(&b));
    b.insert(b"k", b"v");
    b.insert(b"l", b"v");
    assert!(a.eq(&b));
    a.insert(b"m", b"v");
    assert!(!a.eq(&b));
}

#[test]
fn in_memory_maps_with_the_same_entries_in_another_order_differ() {
    let mut a = Mapi::new("a");
    let mut b = Mapi::new("b");
    a.insert(b"k1", b"v1");
    a.insert(b"k2", b"v2");
    b.insert(b"k2", b"v2");
    b.insert(b"k1", b"v1");
    assert!(!a.eq(&b));
    assert_eq!(a.len(), b.len());
}

#[test]
fn in_memory_sequence() {
    let mut v = Veci::new("B");
    assert_eq!(v.get_path(), "B");
    assert!(v.is_empty());
    v.push(b"a");
    v.push(b"b");
    v.push(b"c");
    assert_eq!(v.values(), vec![b"a".to_vec(), b"b".to_vec(), b"c".to_vec()]);
    assert_eq!(v.pop(), Some(b"c".to_vec()));
    assert_eq!(v.len(), 2);
    assert_eq!(v.get(1), Some(b"b".to_vec()));
    assert_eq!(v.get(2), None);
    v.set(2, b"C");
    v.set(0, b"A");
    assert_eq!(v.values(), vec![b"A".to_vec(), b"b".to_vec(), b"C".to_vec()]);
    v.truncate(5);
    assert_eq!(v.len(), 3);
    v.truncate(1);
    assert_eq!(v.values(), vec![b"A".to_vec()]);
    assert_eq!(v.pop(), Some(b"A".to_vec()));
    assert_eq!(v.pop(), None);
}
