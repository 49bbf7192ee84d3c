use bnc::{Error, Mapx, MemEngine, ShardPool, Vecx};

fn vecx_pool() -> ShardPool<MemEngine> {
    let mut shards = Vec::new();
    for _ in 0..8 {
        shards.push(MemEngine::new());
    }
    ShardPool::new(shards).unwrap()
}

#[test]
fn sequence_keeps_push_order_and_pops_from_the_end() {
    let mut pool = vecx_pool();
    let mut v = Vecx::load_or_create(&mut pool, "B").unwrap();
    v.push(&mut pool, b"a");
    v.push(&mut pool, b"b");
    v.push(&mut pool, b"c");
    assert_eq!(v.values(&pool), vec![b"a".to_vec(), b"b".to_vec(), b"c".to_vec()]);
    assert_eq!(v.pop(&mut pool), Some(b"c".to_vec()));
    assert_eq!(v.len(), 2);
}

#[test]
fn elements_come_in_index_order_past_the_first_byte() {
    let mut pool = vecx_pool();
    let mut v = Vecx::load_or_create(&mut pool, "long").unwrap();
    let n = 600usize;
    for i in 0..n {
        v.push(&mut pool, &(i as u32).to_be_bytes());
    }
    assert_eq!(v.len(), n);
    let all = v.values(&pool);
    assert_eq!(all.len(), n);
    for (i, e) in all.iter().enumerate() {
        assert_eq!(e, &(i as u32).to_be_bytes().to_vec());
    }
    let mut it = v.iter();
    for i in 0..n {
        assert_eq!(it.next(&pool), Some((i as u32).to_be_bytes().to_vec()));
    }
    assert_eq!(it.next(&pool), None);
}

#[test]
fn get_past_the_end_finds_nothing() {
    let mut pool = vecx_pool();
    let mut v = Vecx::load_or_create(&mut pool, "get").unwrap();
    assert_eq!(v.get(&pool, 0), None);
    v.push(&mut pool, b"x");
    assert_eq!(v.get(&pool, 0), Some(b"x".to_vec()));
    assert_eq!(v.get(&pool, 1), None);
    assert_eq!(v.get(&pool, usize::MAX), None);
}

#[test]
fn set_replaces_in_place_and_appends_at_the_length() {
    let mut pool = vecx_pool();
    let mut v = Vecx::load_or_create(&mut pool, "set").unwrap();
    v.set(&mut pool, 0, b"a");
    v.set(&mut pool, 1, b"b");
    assert_eq!(v.len(), 2);
    v.set(&mut pool, 0, b"A");
    assert_eq!(v.len(), 2);
    assert_eq!(v.values(&pool), vec![b"A".to_vec(), b"b".to_vec()]);
}

#[test]
fn pop_of_an_empty_sequence_gives_nothing() {
    let mut pool = vecx_pool();
    let mut v = Vecx::load_or_create(&mut pool, "pop").unwrap();
    assert!(v.is_empty());
    assert_eq!(v.pop(&mut pool), None);
    assert_eq!(v.len(), 0);
    v.push(&mut pool, b"1");
    assert_eq!(v.pop(&mut pool), Some(b"1".to_vec()));
    assert_eq!(v.pop(&mut pool), None);
    assert!(v.is_empty());
}

#[test]
fn truncate_cuts_from_the_end() {
    let mut pool = vecx_pool();
    let mut v = Vecx::load_or_create(&mut pool, "truncate").unwrap();
    for i in 0..5u8 {
        v.push(&mut pool, &[i]);
    }
    v.truncate(&mut pool, 7);
    assert_eq!(v.len(), 5);
    v.truncate(&mut pool, 2);
    assert_eq!(v.values(&pool), vec![vec![0], vec![1]]);
    v.truncate(&mut pool, 0);
    assert!(v.is_empty());
    assert!(v.values(&pool).is_empty());
}

#[test]
fn reopened_sequence_has_its_elements() {
    let mut pool = vecx_pool();
    let mut v = Vecx::load_or_create(&mut pool, "again").unwrap();
    v.push(&mut pool, b"one");
    v.push(&mut pool, b"two");
    let w = Vecx::load_or_create(&mut pool, "again").unwrap();
    assert_eq!(w.len(), 2);
    assert_eq!(w.get_path(), "again");
    assert_eq!(w.values(&pool), vec![b"one".to_vec(), b"two".to_vec()]);
}

#[test]
fn wholeness_check_notices_a_missing_element() {
    let mut pool = vecx_pool();
    let mut v = Vecx::load_or_create(&mut pool, "whole").unwrap();
    v.push(&mut pool, b"0");
    v.push(&mut pool, b"1");
    assert!(v.check_indexed(&pool));
    let mut raw = Mapx::load_or_create(&mut pool, "whole").unwrap();
    raw.remove(&mut pool, &0usize.to_le_bytes());
    assert!(!v.check_indexed(&pool));
    raw.insert(&mut pool, &5usize.to_le_bytes(), b"5");
    assert!(!v.check_indexed(&pool));
    raw.remove(&mut pool, &5usize.to_le_bytes());
    raw.insert(&mut pool, &0usize.to_le_bytes(), b"again");
    assert!(v.check_indexed(&pool));
    assert_eq!(v.values(&pool), vec![b"again".to_vec(), b"1".to_vec()]);
}

#[test]
fn sequences_on_one_pool_keep_apart() {
    let mut pool = vecx_pool();
    let mut a = Vecx::load_or_create(&mut pool, "left").unwrap();
    let mut b = Vecx::load_or_create(&mut pool, "right").unwrap();
    for i in 0..10u8 {
        a.push(&mut pool, &[i]);
        b.push(&mut pool, &[100 + i]);
    }
    a.truncate(&mut pool, 3);
    assert_eq!(b.len(), 10);
    assert_eq!(b.get(&pool, 9), Some(vec![109]));
    assert_eq!(a.values(&pool), vec![vec![0], vec![1], vec![2]]);
    assert!(a.check_indexed(&pool));
    assert!(b.check_indexed(&pool));
}

#[test]
fn sequence_with_a_gap_is_reported() {
    let mut pool = vecx_pool();
    let mut m = Mapx::load_or_create(&mut pool, "gap").unwrap();
    m.insert(&mut pool, &1usize.to_le_bytes(), b"second");
    assert_eq!(Vecx::load_or_create(&mut pool, "gap").err(), Some(Error::Decode));
    m.insert(&mut pool, &0usize.to_le_bytes(), b"first");
    let v = Vecx::load_or_create(&mut pool, "gap").unwrap();
    assert_eq!(v.values(&pool), vec![b"first".to_vec(), b"second".to_vec()]);
}
