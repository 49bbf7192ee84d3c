use bnc::{Error, Mapx, Mapxnk, MemEngine, ShardPool};

fn mapxnk_pool() -> ShardPool<MemEngine> {
    let mut shards = Vec::new();
    for _ in 0..8 {
        shards.push(MemEngine::new());
    }
    ShardPool::new(shards).unwrap()
}

#[test]
fn numeric_keys_store_and_load() {
    let mut pool = mapxnk_pool();
    let mut m: Mapxnk<u64> = Mapxnk::load_or_create(&mut pool, "nk").unwrap();
    assert_eq!(m.insert(&mut pool, 1, b"x"), None);
    assert_eq!(m.insert(&mut pool, u64::MAX, b"y"), None);
    assert_eq!(m.insert(&mut pool, 1, b"z"), Some(b"x".to_vec()));
    assert_eq!(m.len(), 2);
    assert_eq!(m.get(&pool, &1), Some(b"z".to_vec()));
    assert_eq!(m.get(&pool, &u64::MAX), Some(b"y".to_vec()));
    assert_eq!(m.get(&pool, &2), None);
    assert!(m.contains_key(&pool, &1));
    assert!(!m.contains_key(&pool, &0));
    assert_eq!(m.remove(&mut pool, &1), Some(b"z".to_vec()));
    assert_eq!(m.remove(&mut pool, &1), None);
    assert_eq!(m.len(), 1);
    assert!(!m.is_empty());
    assert_eq!(m.get_path(), "nk");
}

#[test]
fn numeric_keys_are_walked_in_little_endian_byte_order() {
    let mut pool = mapxnk_pool();
    let mut m: Mapxnk<u16> = Mapxnk::load_or_create(&mut pool, "le").unwrap();
    for k in [1u16, 2, 255, 256, 257, 512] {
        m.insert(&mut pool, k, &[]);
    }
    let keys: Vec<u16> = m.entries(&pool).unwrap().into_iter().map(|e| e.0).collect();
    assert_eq!(keys, vec![256, 512, 1, 257, 2, 255]);
}

#[test]
fn signed_keys_come_back_as_they_went_in() {
    let mut pool = mapxnk_pool();
    let mut m: Mapxnk<i32> = Mapxnk::load_or_create(&mut pool, "signed").unwrap();
    for k in [i32::MIN, -2, -1, 0, 1, i32::MAX] {
        m.insert(&mut pool, k, &k.to_be_bytes());
    }
    let got = m.entries(&pool).unwrap();
    assert_eq!(got.len(), 6);
    for (k, v) in got {
        assert_eq!(v, k.to_be_bytes().to_vec());
    }
    let mut it = m.iter();
    assert_eq!(it.next(&pool), Ok(Some((0, 0i32.to_be_bytes().to_vec()))));
}

#[test]
fn stored_key_of_another_width_is_a_decode_error() {
    let mut pool = mapxnk_pool();
    let mut raw = Mapx::load_or_create(&mut pool, "mixed").unwrap();
    raw.insert(&mut pool, &[1, 2, 3], b"odd");
    let m: Mapxnk<u32> = Mapxnk::load_or_create(&mut pool, "mixed").unwrap();
    assert_eq!(m.len(), 1);
    assert_eq!(m.entries(&pool), Err(Error::Decode));
    let mut it = m.iter();
    assert_eq!(it.next(&pool), Err(Error::Decode));
    assert_eq!(it.next(&pool), Ok(None));
}

#[test]
fn numeric_map_counts_like_the_map_below_it() {
    let mut pool = mapxnk_pool();
    let mut m: Mapxnk<i8> = Mapxnk::load_or_create(&mut pool, "count").unwrap();
    for k in [-3i8, 0, 3] {
        m.insert(&mut pool, k, &[k as u8]);
    }
    assert!(m.check_count(&pool));
    let reopened: Mapxnk<i8> = Mapxnk::load_or_create(&mut pool, "count").unwrap();
    assert_eq!(reopened.len(), 3);
    assert_eq!(reopened.get(&pool, &-3), Some(vec![0xfd]));
    let keys: Vec<i8> = reopened.entries(&pool).unwrap().into_iter().map(|e| e.0).collect();
    assert_eq!(keys, vec![0, 3, -3]);
}
