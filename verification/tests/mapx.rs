use bnc::pool::shard_index;
use bnc::{Engine, Error, Mapx, MemEngine, ShardPool};

fn mapx_pool() -> ShardPool<MemEngine> {
    let mut shards = Vec::new();
    for _ in 0..8 {
        shards.push(MemEngine::new());
    }
    ShardPool::new(shards).unwrap()
}

fn two_paths_on_one_shard() -> (String, String) {
    let first = String::from("p0");
    let want = shard_index(&first);
    for i in 1..1000 {
        let other = format!("p{}", i);
        if shard_index(&other) == want {
            return (first, other);
        }
    }
    unreachable!()
}

#[test]
fn map_counts_what_it_holds_and_finds_it_again_after_reopening() {
    let mut pool = mapx_pool();
    let mut m = Mapx::load_or_create(&mut pool, "A").unwrap();
    assert_eq!(m.insert(&mut pool, &[1], b"x"), None);
    assert_eq!(m.insert(&mut pool, &[2], b"y"), None);
    assert_eq!(m.len(), 2);
    assert_eq!(m.remove(&mut pool, &[1]), Some(b"x".to_vec()));
    assert_eq!(m.len(), 1);
    assert_eq!(m.get(&pool, &[1]), None);
    assert_eq!(m.get(&pool, &[2]), Some(b"y".to_vec()));

    let again = Mapx::load_or_create(&mut pool, "A").unwrap();
    assert_eq!(again.get(&pool, &[2]), Some(b"y".to_vec()));
    assert_eq!(again.entries(&pool).len(), 1);
    assert_eq!(again.len(), 1);
}

#[test]
fn stored_value_is_loaded_unchanged() {
    let mut pool = mapx_pool();
    let mut m = Mapx::load_or_create(&mut pool, "roundtrip").unwrap();
    let keys: Vec<Vec<u8>> = vec![vec![], vec![0], vec![0, 0], vec![255], b"key".to_vec()];
    for (i, k) in keys.iter().enumerate() {
        let v = vec![i as u8; i];
        assert_eq!(m.insert(&mut pool, k, &v), None);
        assert_eq!(m.get(&pool, k), Some(v));
    }
    assert_eq!(m.len(), keys.len());
}

#[test]
fn len_is_the_number_of_keys_not_yet_removed() {
    let mut pool = mapx_pool();
    let mut m = Mapx::load_or_create(&mut pool, "counter").unwrap();
    for i in 0..20u8 {
        m.insert(&mut pool, &[i], &[i]);
        assert_eq!(m.len(), i as usize + 1);
        assert!(m.check_count(&pool));
    }
    for i in 0..20u8 {
        if i % 2 == 0 {
            assert_eq!(m.remove(&mut pool, &[i]), Some(vec![i]));
        }
    }
    assert_eq!(m.len(), 10);
    assert_eq!(m.remove(&mut pool, &[0]), None);
    assert_eq!(m.len(), 10);
    assert!(!m.is_empty());
    assert!(m.check_count(&pool));
    assert_eq!(m.entries(&pool).len(), 10);
}

#[test]
fn inserting_the_same_pair_twice_changes_nothing() {
    let mut pool = mapx_pool();
    let mut m = Mapx::load_or_create(&mut pool, "twice").unwrap();
    assert_eq!(m.insert(&mut pool, b"k", b"v"), None);
    assert_eq!(m.len(), 1);
    assert_eq!(m.insert(&mut pool, b"k", b"v"), Some(b"v".to_vec()));
    assert_eq!(m.len(), 1);
    assert_eq!(m.get(&pool, b"k"), Some(b"v".to_vec()));
}

#[test]
fn insert_replaces_and_returns_the_old_value() {
    let mut pool = mapx_pool();
    let mut m = Mapx::load_or_create(&mut pool, "replace").unwrap();
    assert_eq!(m.set_value(&mut pool, b"k", b"old"), None);
    assert_eq!(m.set_value(&mut pool, b"k", b"new"), Some(b"old".to_vec()));
    assert_eq!(m.get(&pool, b"k"), Some(b"new".to_vec()));
    assert_eq!(m.unset_value(&mut pool, b"k"), Some(b"new".to_vec()));
    assert_eq!(m.unset_value(&mut pool, b"k"), None);
    assert!(m.is_empty());
    assert!(!m.contains_key(&pool, b"k"));
}

#[test]
fn instances_on_one_shard_do_not_see_each_other() {
    let (pa, pb) = two_paths_on_one_shard();
    assert_eq!(shard_index(&pa), shard_index(&pb));
    let mut pool = mapx_pool();
    let mut a = Mapx::load_or_create(&mut pool, &pa).unwrap();
    let mut b = Mapx::load_or_create(&mut pool, &pb).unwrap();
    a.insert(&mut pool, b"k", b"from a");
    a.insert(&mut pool, b"only a", b"1");
    assert_eq!(b.get(&pool, b"k"), None);
    assert_eq!(b.len(), 0);
    assert!(b.check_count(&pool));
    assert!(b.entries(&pool).is_empty());
    b.insert(&mut pool, b"k", b"from b");
    assert_eq!(a.get(&pool, b"k"), Some(b"from a".to_vec()));
    assert_eq!(b.get(&pool, b"k"), Some(b"from b".to_vec()));
    b.remove(&mut pool, b"only a");
    assert_eq!(a.get(&pool, b"only a"), Some(b"1".to_vec()));
    assert_eq!(a.len(), 2);
    assert_eq!(b.len(), 1);
    assert!(a.check_count(&pool));
    assert_eq!(
        a.entries(&pool),
        vec![(b"k".to_vec(), b"from a".to_vec()), (b"only a".to_vec(), b"1".to_vec())]
    );
}

#[test]
fn reopening_a_path_gives_the_same_contents() {
    let mut pool = mapx_pool();
    let mut m = Mapx::load_or_create(&mut pool, "persist").unwrap();
    for i in 0..5u8 {
        m.insert(&mut pool, &[i, i], &[i]);
    }
    let before = m.entries(&pool);
    let reopened = Mapx::load_or_create(&mut pool, "persist").unwrap();
    assert_eq!(reopened.len(), 5);
    assert_eq!(reopened.entries(&pool), before);
    assert_eq!(reopened.get(&pool, &[3, 3]), Some(vec![3]));
    assert_eq!(reopened.get_path(), "persist");
    assert!(reopened.eq(&pool, &m));
}

#[test]
fn entries_come_in_byte_order_of_the_keys() {
    let mut pool = mapx_pool();
    let mut m = Mapx::load_or_create(&mut pool, "order").unwrap();
    m.insert(&mut pool, &[2], b"c");
    m.insert(&mut pool, &[1, 0], b"b");
    m.insert(&mut pool, &[], b"empty");
    m.insert(&mut pool, &[1], b"a");
    m.insert(&mut pool, &[255], b"z");
    let keys: Vec<Vec<u8>> = m.entries(&pool).into_iter().map(|e| e.0).collect();
    assert_eq!(keys, vec![vec![], vec![1], vec![1, 0], vec![2], vec![255]]);
}

#[test]
fn cursor_yields_each_entry_once_and_then_nothing() {
    let mut pool = mapx_pool();
    let mut m = Mapx::load_or_create(&mut pool, "cursor").unwrap();
    m.insert(&mut pool, b"b", b"2");
    m.insert(&mut pool, b"a", b"1");
    let mut it = m.iter();
    assert_eq!(it.next(&pool), Some((b"a".to_vec(), b"1".to_vec())));
    assert_eq!(it.next(&pool), Some((b"b".to_vec(), b"2".to_vec())));
    assert_eq!(it.next(&pool), None);
    assert_eq!(it.next(&pool), None);
}

#[test]
fn maps_are_equal_as_far_as_the_shorter_one_goes() {
    let mut pool = mapx_pool();
    let mut a = Mapx::load_or_create(&mut pool, "eq a").unwrap();
    let mut b = Mapx::load_or_create(&mut pool, "eq b").unwrap();
    assert!(a.eq(&pool, &b));
    a.insert(&mut pool, b"k1", b"v1");
    assert!(a.eq(&pool, &b));
    b.insert(&mut pool, b"k1", b"v1");
    b.insert(&mut pool, b"k2", b"v2");
    assert!(a.eq(&pool, &b));
    assert!(b.eq(&pool, &a));
    a.insert(&mut pool, b"k2", b"other");
    assert!(!a.eq(&pool, &b));
    a.insert(&mut pool, b"k2", b"v2");
    a.insert(&mut pool, b"k0", b"v0");
    assert!(!a.eq(&pool, &b));
}

#[test]
fn first_instance_of_a_partition_gets_range_zero() {
    let mut pool = mapx_pool();
    let mut m = Mapx::load_or_create(&mut pool, "A").unwrap();
    assert_eq!(shard_index("A"), 6);
    m.insert(&mut pool, &[7], &[9]);
    let shard = pool.handle(6);
    assert_eq!(shard.get(&[0, 0, 0, 0, 0, 0, 0, 0, 0, 7]), Some(vec![9]));
    assert_eq!(shard.get(&[0xff, 1, b'A']), Some(vec![0, 0, 0, 0, 0, 0, 0, 0, 0]));
    assert_eq!(shard.get(&[0xff, 0]), Some(vec![1, 0, 0, 0, 0, 0, 0, 0]));
}

#[test]
fn corrupt_record_of_a_path_is_reported() {
    let mut pool = mapx_pool();
    let idx = shard_index("broken");
    let mut key = vec![0xff, 1];
    key.extend_from_slice(b"broken");
    pool.put(idx, &key, &[0, 1, 2]);
    assert_eq!(Mapx::load_or_create(&mut pool, "broken").err(), Some(Error::Decode));
    pool.put(idx, &key, &[1, 0, 0, 0, 0, 0, 0, 0, 0]);
    assert_eq!(Mapx::load_or_create(&mut pool, "broken").err(), Some(Error::Decode));
    assert_eq!(pool.handle(idx).get(&key), Some(vec![1, 0, 0, 0, 0, 0, 0, 0, 0]));
}

#[test]
fn corrupt_counter_is_reported() {
    let mut pool = mapx_pool();
    let idx = shard_index("fresh");
    pool.put(idx, &[0xff, 0], &[1, 2, 3]);
    assert_eq!(Mapx::load_or_create(&mut pool, "fresh").err(), Some(Error::Decode));
}

#[test]
fn partition_without_a_free_range_refuses_new_paths() {
    let mut pool = mapx_pool();
    let idx = shard_index("late");
    pool.put(idx, &[0xff, 0], &[0xff; 8]);
    assert_eq!(Mapx::load_or_create(&mut pool, "late").err(), Some(Error::Initialization));
}

#[test]
fn count_check_notices_a_key_written_behind_the_map() {
    let mut pool = mapx_pool();
    let mut m = Mapx::load_or_create(&mut pool, "A").unwrap();
    m.insert(&mut pool, &[1], &[1]);
    assert!(m.check_count(&pool));
    pool.put(6, &[0, 0, 0, 0, 0, 0, 0, 0, 0, 2], &[2]);
    assert!(!m.check_count(&pool));
    let reopened = Mapx::load_or_create(&mut pool, "A").unwrap();
    assert_eq!(reopened.len(), 2);
}

#[test]
fn error_has_a_text() {
    assert_eq!(Error::Initialization.describe(), "initialization failed");
    assert_eq!(Error::Decode.describe(), "stored bytes could not be decoded");
}
