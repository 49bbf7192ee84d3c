use bnc::{Engine, Mapx, ShardPool, Vecx};
use std::collections::BTreeMap;

struct TreeEngine {
    map: BTreeMap<Vec<u8>, Vec<u8>>,
    flushes: usize,
}

impl TreeEngine {
    fn new() -> Self {
        TreeEngine { map: BTreeMap::new(), flushes: 0 }
    }
}

impl Engine for TreeEngine {
    fn get(&self, key: &[u8]) -> Option<Vec<u8>> {
        self.map.get(key).cloned()
    }

    fn put(&mut self, key: &[u8], value: &[u8]) {
        self.map.insert(key.to_vec(), value.to_vec());
    }

    fn delete(&mut self, key: &[u8]) {
        self.map.remove(key);
    }

    fn seek(&self, prefix: &[u8], after: Option<&[u8]>) -> Option<(Vec<u8>, Vec<u8>)> {
        self.map
            .iter()
            .find(|(k, _)| k.starts_with(prefix) && after.map_or(true, |a| a < k.as_slice()))
            .map(|(k, v)| (k.clone(), v.clone()))
    }

    fn flush(&mut self) {
        self.flushes += 1;
    }
}

fn tree_pool() -> ShardPool<TreeEngine> {
    let mut shards = Vec::new();
    for _ in 0..8 {
        shards.push(TreeEngine::new());
    }
    ShardPool::new(shards).unwrap()
}

#[test]
fn collections_work_on_an_engine_of_the_caller() {
    let mut pool = tree_pool();
    let mut m = Mapx::load_or_create(&mut pool, "A").unwrap();
    m.insert(&mut pool, &[2], b"y");
    m.insert(&mut pool, &[1], b"x");
    assert_eq!(m.len(), 2);
    assert_eq!(m.entries(&pool), vec![(vec![1], b"x".to_vec()), (vec![2], b"y".to_vec())]);
    let mut v = Vecx::load_or_create(&mut pool, "B").unwrap();
    v.push(&mut pool, b"a");
    v.push(&mut pool, b"b");
    assert_eq!(v.values(&pool), vec![b"a".to_vec(), b"b".to_vec()]);
    assert_eq!(m.len(), 2);
    assert!(m.check_count(&pool));
}

#[test]
fn flush_reaches_every_partition() {
    let mut pool = tree_pool();
    bnc::flush_data(&mut pool);
    bnc::flush_data(&mut pool);
    for i in 0..8 {
        assert_eq!(pool.handle(i).flushes, 2);
    }
}
