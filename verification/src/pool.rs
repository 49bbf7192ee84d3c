//! The fixed pool of partitions that all instances of a process share, and
//! the rule that sends a path to one of them.

use vstd::prelude::*;
use crate::engine::{in_scan, Engine, Store};
use crate::error::Error;

verus! {

/// Number of partitions in a pool.
pub const DB_NUM: usize = 8;

/// The partitions of one data directory, indexed `0..DB_NUM`.
pub struct ShardPool<E: Engine> {
    shards: Vec<E>,
}

/// A hash of `bytes` that depends on nothing but the bytes: the same on every
/// run and every machine.
pub open spec fn stable_hash(bytes: Seq<u8>) -> nat
    decreases bytes.len(),
{
    if bytes.len() == 0 {
        5381
    } else {
        (stable_hash(bytes.drop_last()) * 33 + bytes.last() as nat) % 0x1_0000_0000_0000_0000
    }
}

/// The bytes of a path: its text in UTF-8.
pub open spec fn path_bytes(path: Seq<char>) -> Seq<u8> {
    vstd::utf8::encode_utf8(path)
}

/// The partition that serves the instance at a path with these bytes.
pub open spec fn shard_of(path: Seq<u8>) -> int {
    (stable_hash(path) % (DB_NUM as nat)) as int
}

/// Computes `stable_hash`.
pub fn hash_bytes(bytes: &[u8]) -> (h: u64)
    ensures
        h == stable_hash(bytes@),
{
    let mut h: u64 = 5381;
    let mut i: usize = 0;
    assert(bytes@.subrange(0, 0) =~= Seq::<u8>::empty());
    while i < bytes.len()
        invariant
            i <= bytes.len(),
            h == stable_hash(bytes@.subrange(0, i as int)),
        decreases bytes.len() - i,
    {
        let wide: u128 = (h as u128) * 33 + (bytes[i] as u128);
        assert(bytes@.subrange(0, i + 1).drop_last() =~= bytes@.subrange(0, i as int));
        h = (wide % 0x1_0000_0000_0000_0000) as u64;
        i += 1;
    }
    assert(bytes@.subrange(0, i as int) =~= bytes@);
    h
}

/// The index of the partition that serves the instance at `path`.
pub fn shard_index(path: &str) -> (idx: usize)
    ensures
        idx == shard_of(path_bytes(path@)),
        idx < DB_NUM,
{
    (hash_bytes(path.as_bytes()) % 8) as usize
}

impl<E: Engine> ShardPool<E> {
    /// The pool holds its full number of partitions, each in working order.
    pub closed spec fn wf(&self) -> bool {
        &&& self.shards@.len() == DB_NUM
        &&& forall|i: int|
            0 <= i < DB_NUM ==> (#[trigger] self.shards@[i]).inv() && self.shards@[i].view().dom().finite()
    }

    /// The contents of the partitions, by index.
    pub closed spec fn view(&self) -> Seq<Store> {
        Seq::new(self.shards@.len(), |i: int| self.shards@[i].view())
    }

    /// Everything written to partition `idx` so far is on durable storage.
    pub closed spec fn flushed(&self, idx: int) -> bool {
        self.shards@[idx].flushed()
    }

    /// A pool in working order has `DB_NUM` partitions of finitely many keys.
    pub proof fn lemma_wf(&self)
        requires
            self.wf(),
        ensures
            self@.len() == DB_NUM,
            forall|i: int| 0 <= i < DB_NUM ==> (#[trigger] self@[i]).dom().finite(),
    {
        assert forall|i: int| 0 <= i < DB_NUM implies (#[trigger] self@[i]).dom().finite() by {
            assert(self.shards@[i].inv());
        }
    }

    /// Makes a pool of the given partitions, which must be `DB_NUM` in
    /// number.
    pub fn new(shards: Vec<E>) -> (r: Result<Self, Error>)
        requires
            forall|i: int|
                0 <= i < shards@.len() ==> (#[trigger] shards@[i]).inv()
                    && shards@[i].view().dom().finite(),
        ensures
            r is Ok == (shards@.len() == DB_NUM),
            r matches Ok(p) ==> p.wf() && p@ == Seq::new(DB_NUM as nat, |i: int| shards@[i].view()),
            r matches Err(e) ==> e == Error::Initialization,
    {
        if shards.len() != DB_NUM {
            return Err(Error::Initialization);
        }
        let p = ShardPool { shards };
        assert(p@ =~= Seq::new(DB_NUM as nat, |i: int| shards@[i].view()));
        Ok(p)
    }

    /// The partition with index `idx`, for reading.
    pub fn handle(&self, idx: usize) -> (r: &E)
        requires
            self.wf(),
            idx < DB_NUM,
        ensures
            r.inv(),
            r.view().dom().finite(),
            r.view() == self@[idx as int],
    {
        &self.shards[idx]
    }

    /// Stores `value` under `key` in partition `idx`.
    pub fn put(&mut self, idx: usize, key: &[u8], value: &[u8])
        requires
            old(self).wf(),
            idx < DB_NUM,
        ensures
            final(self).wf(),
            final(self)@ == old(self)@.update(idx as int, old(self)@[idx as int].insert(key@, value@)),
    {
        self.shards[idx].put(key, value);
        assert(self@ =~= old(self)@.update(idx as int, old(self)@[idx as int].insert(key@, value@)));
    }

    /// Removes `key` from partition `idx`.
    pub fn delete(&mut self, idx: usize, key: &[u8])
        requires
            old(self).wf(),
            idx < DB_NUM,
        ensures
            final(self).wf(),
            final(self)@ == old(self)@.update(idx as int, old(self)@[idx as int].remove(key@)),
    {
        self.shards[idx].delete(key);
        assert(self@ =~= old(self)@.update(idx as int, old(self)@[idx as int].remove(key@)));
    }
}

/// Forces every partition's writes to durable storage. The contents stay as
/// they are.
pub fn flush_data<E: Engine>(pool: &mut ShardPool<E>)
    requires
        old(pool).wf(),
    ensures
        final(pool).wf(),
        final(pool)@ == old(pool)@,
        forall|i: int| 0 <= i < DB_NUM ==> final(pool).flushed(i),
{
    let mut i: usize = 0;
    while i < DB_NUM
        invariant
            i <= DB_NUM,
            pool.wf(),
            pool@ == old(pool)@,
            forall|j: int| 0 <= j < i ==> pool.flushed(j),
        decreases DB_NUM - i,
    {
        let ghost before = *pool;
        pool.shards[i].flush();
        assert(pool@ =~= before@);
        assert forall|j: int| 0 <= j < i + 1 implies pool.flushed(j) by {
            if j < i {
                assert(before.flushed(j));
            }
        }
        i += 1;
    }
}

/// Erases every key of every partition.
pub fn clear<E: Engine>(pool: &mut ShardPool<E>)
    requires
        old(pool).wf(),
    ensures
        final(pool).wf(),
        forall|i: int| 0 <= i < DB_NUM ==> (#[trigger] final(pool)@[i]) == Map::<Seq<u8>, Seq<u8>>::empty(),
{
    // The empty prefix: every key starts with it.
    let any: Vec<u8> = Vec::new();
    let mut i: usize = 0;
    while i < DB_NUM
        invariant
            i <= DB_NUM,
            pool.wf(),
            any@.len() == 0,
            forall|j: int| 0 <= j < i ==> (#[trigger] pool@[j]) == Map::<Seq<u8>, Seq<u8>>::empty(),
        decreases DB_NUM - i,
    {
        loop
            invariant_except_break
                i < DB_NUM,
                pool.wf(),
                any@.len() == 0,
                forall|j: int| 0 <= j < i ==> (#[trigger] pool@[j]) == Map::<Seq<u8>, Seq<u8>>::empty(),
            ensures
                i < DB_NUM,
                pool.wf(),
                forall|j: int| 0 <= j < i + 1 ==> (#[trigger] pool@[j]) == Map::<Seq<u8>, Seq<u8>>::empty(),
            decreases pool@[i as int].dom().len(),
        {
            let ghost before = *pool;
            proof {
                pool.lemma_wf();
            }
            match pool.shards[i].seek(any.as_slice(), None) {
                Some((k, _v)) => {
                    pool.shards[i].delete(k.as_slice());
                    assert(pool@ =~= before@.update(i as int, before@[i as int].remove(k@)));
                },
                None => {
                    assert forall|x: Seq<u8>| !before@[i as int].dom().contains(x) by {
                        assert(any@.is_prefix_of(x));
                        assert(!in_scan(before@[i as int], any@, None, x));
                    }
                    assert(pool@[i as int] =~= Map::<Seq<u8>, Seq<u8>>::empty());
                    break;
                },
            }
        }
        i += 1;
    }
}

} // verus!
