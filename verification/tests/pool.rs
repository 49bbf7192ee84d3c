use bnc::pool::{hash_bytes, shard_index};
use bnc::{clear, flush_data, Engine, Error, Mapx, MemEngine, ShardPool, DB_NUM};

fn pool_of(n: usize) -> Result<ShardPool<MemEngine>, Error> {
    let mut shards = Vec::new();
    for _ in 0..n {
        shards.push(MemEngine::new());
    }
    ShardPool::new(shards)
}

#[test]
fn pool_takes_exactly_eight_partitions() {
    assert_eq!(DB_NUM, 8);
    assert!(pool_of(8).is_ok());
    assert_eq!(pool_of(0).err(), Some(Error::Initialization));
    assert_eq!(pool_of(7).err(), Some(Error::Initialization));
    assert_eq!(pool_of(9).err(), Some(Error::Initialization));
}

#[test]
fn hash_depends_on_the_bytes_alone() {
    assert_eq!(hash_bytes(b""), 5381);
    assert_eq!(hash_bytes(b"A"), 177638);
    assert_eq!(hash_bytes(b"ab"), 5863208);
    assert_eq!(hash_bytes(&[255; 40]), hash_bytes(&[255; 40]));
    assert_eq!(shard_index(""), 5);
    assert_eq!(shard_index("A"), 6);
    assert_eq!(shard_index("ab"), 0);
    for i in 0..100 {
        assert!(shard_index(&format!("path/{}", i)) < 8);
    }
}

#[test]
fn hash_wraps_at_sixty_four_bits() {
    let long = vec![0xffu8; 64];
    let mut h: u128 = 5381;
    for b in &long {
        h = (h * 33 + *b as u128) % (1u128 << 64);
    }
    assert_eq!(hash_bytes(&long) as u128, h);
}

#[test]
fn writes_go_to_the_partition_named() {
    let mut pool = pool_of(8).unwrap();
    pool.put(3, b"k", b"v");
    assert_eq!(pool.handle(3).get(b"k"), Some(b"v".to_vec()));
    for i in 0..8 {
        if i != 3 {
            assert_eq!(pool.handle(i).get(b"k"), None);
        }
    }
    pool.delete(3, b"k");
    assert_eq!(pool.handle(3).get(b"k"), None);
}

#[test]
fn flush_leaves_the_contents_alone() {
    let mut pool = pool_of(8).unwrap();
    let mut m = Mapx::load_or_create(&mut pool, "flush").unwrap();
    m.insert(&mut pool, b"k", b"v");
    flush_data(&mut pool);
    assert_eq!(m.get(&pool, b"k"), Some(b"v".to_vec()));
    assert_eq!(m.len(), 1);
}

#[test]
fn clear_erases_every_partition() {
    let mut pool = pool_of(8).unwrap();
    for i in 0..8 {
        pool.put(i, &[i as u8], b"v");
        pool.put(i, &[0xff, i as u8], b"w");
    }
    let mut m = Mapx::load_or_create(&mut pool, "gone").unwrap();
    m.insert(&mut pool, b"k", b"v");
    clear(&mut pool);
    for i in 0..8 {
        assert_eq!(pool.handle(i).seek(&[], None), None);
    }
    let again = Mapx::load_or_create(&mut pool, "gone").unwrap();
    assert_eq!(again.len(), 0);
    assert_eq!(again.get(&pool, b"k"), None);
}
