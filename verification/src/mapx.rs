//! The namespaced map: a map from byte keys to byte values that lives in
//! the key range of one prefix inside one partition of the pool.

use vstd::prelude::*;
use crate::bytes::{bytes_eq, join, tail};
use crate::engine::{opt_bytes, Engine};
use crate::error::Error;
use crate::meta::{is_prefix_record, resolve, resolve_prefix};
use crate::namespace::{
    apply, lemma_count_step, lemma_listing, lemma_view_after_delete, lemma_view_after_put,
    listing_of, lookup, opt_vec, pairs_view, recount, strip, view_of, zip_equal, Op, Pair,
};
use crate::pool::{path_bytes, shard_index, shard_of, ShardPool, DB_NUM};
use crate::scan::{
    lemma_scan_done, lemma_scan_keys_finite, lemma_scan_step, lemma_scan_unfold, range_keys,
    scan_from, scan_keys,
};

verus! {

/// Where an instance lives: its path, the prefix of its key range and the
/// index of its partition.
#[derive(Debug)]
pub struct InstanceMeta {
    pub path: String,
    pub prefix: Vec<u8>,
    pub shard_index: usize,
}

impl InstanceMeta {
    /// The partition is the one that the path selects, and the prefix has
    /// the shape of an allocated range.
    pub open spec fn wf(&self) -> bool {
        &&& self.shard_index == shard_of(path_bytes(self.path@))
        &&& is_prefix_record(self.prefix@)
    }
}

/// A map from byte keys to byte values, kept in the pool.
///
/// The map itself holds no entries: it knows where they are, and how many.
#[derive(Debug)]
pub struct Mapx {
    meta: InstanceMeta,
    cnter: usize,
}

/// A cursor over the entries of a `Mapx`, in ascending byte order of the
/// raw keys. It moves forward only.
pub struct MapxIter<'a> {
    hdr: &'a Mapx,
    after: Option<Vec<u8>>,
}

/// Counts the keys of partition `idx` that start with `prefix`. `None`
/// where there are more than a `usize` can count.
pub fn count_range<E: Engine>(pool: &ShardPool<E>, idx: usize, prefix: &[u8]) -> (r: Option<usize>)
    requires
        pool.wf(),
        idx < DB_NUM,
    ensures
        match r {
            Some(n) => n == range_keys(pool@[idx as int], prefix@).len(),
            None => range_keys(pool@[idx as int], prefix@).len() > usize::MAX,
        },
{
    proof {
        pool.lemma_wf();
    }
    let ghost store = pool@[idx as int];
    let mut n: usize = 0;
    let mut after: Option<Vec<u8>> = None;
    loop
        invariant
            pool.wf(),
            idx < DB_NUM,
            store == pool@[idx as int],
            store.dom().finite(),
            n + scan_keys(store, prefix@, opt_vec(after)).len() == range_keys(store, prefix@).len(),
        decreases scan_keys(store, prefix@, opt_vec(after)).len(),
    {
        let lower: Option<&[u8]> = match &after {
            Some(a) => Some(a.as_slice()),
            None => None,
        };
        assert(opt_bytes(lower) == opt_vec(after));
        match pool.handle(idx).seek(prefix, lower) {
            Some((k, _v)) => {
                proof {
                    lemma_scan_step(store, prefix@, opt_vec(after), k@);
                }
                if n == usize::MAX {
                    return None;
                }
                n += 1;
                after = Some(k);
            },
            None => {
                proof {
                    lemma_scan_keys_finite(store, prefix@, opt_vec(after));
                    assert(scan_keys(store, prefix@, opt_vec(after)) =~= Set::<Seq<u8>>::empty());
                }
                return Some(n);
            },
        }
    }
}

impl Mapx {
    #[verifier::type_invariant]
    spec fn type_inv(self) -> bool {
        self.meta.wf() && self.meta.shard_index < DB_NUM
    }

    /// Where the instance lives.
    pub closed spec fn meta(&self) -> InstanceMeta {
        self.meta
    }

    /// The prefix of the instance's key range.
    pub open spec fn prefix(&self) -> Seq<u8> {
        self.meta().prefix@
    }

    /// The index of the instance's partition.
    pub open spec fn shard(&self) -> int {
        self.meta().shard_index as int
    }

    /// The number of entries that the instance believes it has.
    pub closed spec fn count(&self) -> nat {
        self.cnter as nat
    }

    /// The count is one that a `usize` holds.
    pub proof fn lemma_count_fits(&self)
        ensures
            self.count() <= usize::MAX,
    {
    }

    /// The map as its user sees it.
    pub open spec fn view<E: Engine>(&self, pool: &ShardPool<E>) -> Map<Seq<u8>, Seq<u8>> {
        view_of(pool@[self.shard()], self.prefix())
    }

    /// What iterating over the map yields.
    pub open spec fn listing<E: Engine>(&self, pool: &ShardPool<E>) -> Seq<Pair> {
        listing_of(pool@[self.shard()], self.prefix())
    }

    /// The cached count is the number of keys that the pool holds below the
    /// instance's prefix.
    pub open spec fn counted<E: Engine>(&self, pool: &ShardPool<E>) -> bool {
        &&& pool.wf()
        &&& self.meta().wf()
        &&& 0 <= self.shard() < DB_NUM
        &&& self.count() == range_keys(pool@[self.shard()], self.prefix()).len()
    }

    /// A count that is right is the number of keys of the map, and the
    /// number of entries that iterating over it yields.
    pub proof fn lemma_counted<E: Engine>(&self, pool: &ShardPool<E>)
        requires
            self.counted(pool),
        ensures
            self.count() == self.view(pool).dom().len(),
            self.count() == self.listing(pool).len(),
            self.view(pool).dom().finite(),
    {
        pool.lemma_wf();
        lemma_listing(pool@[self.shard()], self.prefix());
        crate::namespace::lemma_view_len(pool@[self.shard()], self.prefix());
    }

    /// Opens the instance at `path`: under the prefix that the path was
    /// given before, or under a fresh one that is recorded for next time.
    /// The instance comes back with its entries counted.
    ///
    /// Fails with `Error::Decode` where the partition's record for the path,
    /// or its allocation counter, is corrupt, and with
    /// `Error::Initialization` where the partition has no range left or
    /// holds more entries below the prefix than a `usize` can count.
    pub fn load_or_create<E: Engine>(pool: &mut ShardPool<E>, path: &str) -> (r: Result<Mapx, Error>)
        requires
            old(pool).wf(),
        ensures
            final(pool).wf(),
            ({
                let idx = shard_of(path_bytes(path@));
                let opened = resolve(old(pool)@[idx], path_bytes(path@));
                &&& final(pool)@ == old(pool)@.update(idx, opened.1)
                &&& match r {
                    Ok(m) => {
                        &&& opened.0 == Ok::<Seq<u8>, Error>(m.prefix())
                        &&& m.shard() == idx
                        &&& m.meta().path@ == path@
                        &&& m.counted(final(pool))
                    },
                    Err(e) => match opened.0 {
                        Ok(prefix) => e == Error::Initialization && range_keys(opened.1, prefix).len()
                            > usize::MAX,
                        Err(cause) => e == cause,
                    },
                }
            }),
    {
        proof {
            pool.lemma_wf();
            crate::meta::lemma_resolve_shape(
                pool@[shard_of(path_bytes(path@))],
                path_bytes(path@),
            );
        }
        let idx = shard_index(path);
        let prefix = match resolve_prefix(pool, idx, path.as_bytes()) {
            Ok(p) => p,
            Err(e) => {
                return Err(e);
            },
        };
        match count_range(pool, idx, prefix.as_slice()) {
            Some(cnter) => Ok(
                Mapx { meta: InstanceMeta { path: path.to_owned(), prefix, shard_index: idx }, cnter },
            ),
            None => Err(Error::Initialization),
        }
    }

    /// Get the storage path
    pub fn get_path(&self) -> (r: &str)
        ensures
            r@ == self.meta().path@,
    {
        self.meta.path.as_str()
    }

    /// The raw key of `key`: the instance's prefix, then the key.
    fn raw_key(&self, key: &[u8]) -> (r: Vec<u8>)
        ensures
            r@ == self.prefix() + key@,
    {
        join(self.meta.prefix.as_slice(), key)
    }

    /// The bytes stored under `key`, if any.
    pub fn get<E: Engine>(&self, pool: &ShardPool<E>, key: &[u8]) -> (r: Option<Vec<u8>>)
        requires
            pool.wf(),
        ensures
            opt_vec(r) == lookup(self.view(pool), key@),
    {
        proof {
            use_type_invariant(self);
        }
        let k = self.raw_key(key);
        pool.handle(self.meta.shard_index).get(k.as_slice())
    }

    /// The number of entries, as cached. Where the instance is `counted`,
    /// this is the number of keys of its map.
    pub fn len(&self) -> (r: usize)
        ensures
            r == self.count(),
    {
        self.cnter
    }

    /// Whether the cached number of entries is zero.
    pub fn is_empty(&self) -> (r: bool)
        ensures
            r == (self.count() == 0),
    {
        self.cnter == 0
    }

    /// Whether the cached count is the number of keys that a full scan of
    /// the instance's range finds.
    pub fn check_count<E: Engine>(&self, pool: &ShardPool<E>) -> (r: bool)
        requires
            pool.wf(),
        ensures
            r == self.counted(pool),
            self.meta().wf(),
            0 <= self.shard() < DB_NUM,
    {
        proof {
            use_type_invariant(self);
        }
        match count_range(pool, self.meta.shard_index, self.meta.prefix.as_slice()) {
            Some(n) => n == self.cnter,
            None => false,
        }
    }

    /// Stores `value` under `key` and returns what was stored there before.
    pub fn insert<E: Engine>(&mut self, pool: &mut ShardPool<E>, key: &[u8], value: &[u8]) -> (r:
        Option<Vec<u8>>)
        requires
            old(self).counted(old(pool)),
            recount(
                old(pool)@[old(self).shard()],
                old(self).prefix(),
                old(self).count(),
                Op::Put(key@, value@),
            ) <= usize::MAX,
        ensures
            final(self).meta() == old(self).meta(),
            final(self).counted(final(pool)),
            final(pool)@ == old(pool)@.update(
                old(self).shard(),
                apply(old(pool)@[old(self).shard()], old(self).prefix(), Op::Put(key@, value@)),
            ),
            final(self).count() == recount(
                old(pool)@[old(self).shard()],
                old(self).prefix(),
                old(self).count(),
                Op::Put(key@, value@),
            ),
            final(self).view(final(pool)) == old(self).view(old(pool)).insert(key@, value@),
            opt_vec(r) == lookup(old(self).view(old(pool)), key@),
    {
        self.set_value(pool, key, value)
    }

    /// Stores `value` under `key`, counts the key if it is new, and returns
    /// the bytes that were stored under it before.
    pub fn set_value<E: Engine>(&mut self, pool: &mut ShardPool<E>, key: &[u8], value: &[u8]) -> (r:
        Option<Vec<u8>>)
        requires
            old(self).counted(old(pool)),
            recount(
                old(pool)@[old(self).shard()],
                old(self).prefix(),
                old(self).count(),
                Op::Put(key@, value@),
            ) <= usize::MAX,
        ensures
            final(self).meta() == old(self).meta(),
            final(self).counted(final(pool)),
            final(pool)@ == old(pool)@.update(
                old(self).shard(),
                apply(old(pool)@[old(self).shard()], old(self).prefix(), Op::Put(key@, value@)),
            ),
            final(self).count() == recount(
                old(pool)@[old(self).shard()],
                old(self).prefix(),
                old(self).count(),
                Op::Put(key@, value@),
            ),
            final(self).view(final(pool)) == old(self).view(old(pool)).insert(key@, value@),
            opt_vec(r) == lookup(old(self).view(old(pool)), key@),
    {
        proof {
            use_type_invariant(&*self);
            pool.lemma_wf();
            lemma_view_after_put(pool@[self.shard()], self.prefix(), key@, value@);
            lemma_count_step(
                pool@[self.shard()],
                self.prefix(),
                self.count(),
                Op::Put(key@, value@),
            );
        }
        let k = self.raw_key(key);
        let old_v = pool.handle(self.meta.shard_index).get(k.as_slice());
        pool.put(self.meta.shard_index, k.as_slice(), value);
        if old_v.is_none() {
            self.cnter += 1;
        }
        old_v
    }

    /// A cursor at the first entry of the map.
    pub fn iter(&self) -> (r: MapxIter<'_>)
        ensures
            r.map() == *self,
            r.cursor() == None::<Seq<u8>>,
    {
        MapxIter { hdr: self, after: None }
    }

    /// All entries of the map, in the order in which a cursor visits them.
    pub fn entries<E: Engine>(&self, pool: &ShardPool<E>) -> (r: Vec<(Vec<u8>, Vec<u8>)>)
        requires
            pool.wf(),
        ensures
            pairs_view(r@) == self.listing(pool),
    {
        let mut out: Vec<(Vec<u8>, Vec<u8>)> = Vec::new();
        let mut it = self.iter();
        assert(pairs_view(out@) + it.remaining(pool) =~= self.listing(pool));
        loop
            invariant
                pool.wf(),
                it.map() == *self,
                pairs_view(out@) + it.remaining(pool) == self.listing(pool),
            decreases it.remaining(pool).len(),
        {
            let ghost before = it.remaining(pool);
            let ghost done = pairs_view(out@);
            match it.next(pool) {
                Some(e) => {
                    out.push(e);
                    assert(pairs_view(out@) =~= done.push((e.0@, e.1@)));
                    assert(done.push(before[0]) + before.drop_first() =~= done + before);
                },
                None => {
                    assert(done + before =~= done);
                    return out;
                },
            }
        }
    }

    /// Whether `key` has an entry.
    pub fn contains_key<E: Engine>(&self, pool: &ShardPool<E>, key: &[u8]) -> (r: bool)
        requires
            pool.wf(),
        ensures
            r == self.view(pool).dom().contains(key@),
    {
        proof {
            use_type_invariant(self);
        }
        let k = self.raw_key(key);
        pool.handle(self.meta.shard_index).get(k.as_slice()).is_some()
    }

    /// Removes the entry of `key` and returns what was stored under it.
    pub fn remove<E: Engine>(&mut self, pool: &mut ShardPool<E>, key: &[u8]) -> (r: Option<Vec<u8>>)
        requires
            old(self).counted(old(pool)),
        ensures
            final(self).meta() == old(self).meta(),
            final(self).counted(final(pool)),
            final(pool)@ == old(pool)@.update(
                old(self).shard(),
                apply(old(pool)@[old(self).shard()], old(self).prefix(), Op::Delete(key@)),
            ),
            final(self).count() == recount(
                old(pool)@[old(self).shard()],
                old(self).prefix(),
                old(self).count(),
                Op::Delete(key@),
            ),
            final(self).view(final(pool)) == old(self).view(old(pool)).remove(key@),
            opt_vec(r) == lookup(old(self).view(old(pool)), key@),
    {
        self.unset_value(pool, key)
    }

    /// Deletes `key`, takes it off the count if it was there, and returns
    /// the bytes that were stored under it.
    pub fn unset_value<E: Engine>(&mut self, pool: &mut ShardPool<E>, key: &[u8]) -> (r: Option<
        Vec<u8>,
    >)
        requires
            old(self).counted(old(pool)),
        ensures
            final(self).meta() == old(self).meta(),
            final(self).counted(final(pool)),
            final(pool)@ == old(pool)@.update(
                old(self).shard(),
                apply(old(pool)@[old(self).shard()], old(self).prefix(), Op::Delete(key@)),
            ),
            final(self).count() == recount(
                old(pool)@[old(self).shard()],
                old(self).prefix(),
                old(self).count(),
                Op::Delete(key@),
            ),
            final(self).view(final(pool)) == old(self).view(old(pool)).remove(key@),
            opt_vec(r) == lookup(old(self).view(old(pool)), key@),
    {
        proof {
            use_type_invariant(&*self);
            pool.lemma_wf();
            lemma_view_after_delete(pool@[self.shard()], self.prefix(), key@);
            lemma_count_step(pool@[self.shard()], self.prefix(), self.count(), Op::Delete(key@));
            lemma_scan_keys_finite(pool@[self.shard()], self.prefix(), None);
        }
        let k = self.raw_key(key);
        let old_v = pool.handle(self.meta.shard_index).get(k.as_slice());
        pool.delete(self.meta.shard_index, k.as_slice());
        if old_v.is_some() {
            self.cnter -= 1;
        }
        old_v
    }

    /// Whether a cursor over this map and one over `other` yield equal
    /// entries for as long as both yield one. A map that runs out first is
    /// equal to the other as far as it goes.
    pub fn eq<E: Engine>(&self, pool: &ShardPool<E>, other: &Mapx) -> (r: bool)
        requires
            pool.wf(),
        ensures
            r == zip_equal(self.listing(pool), other.listing(pool)),
    {
        let mut a = self.iter();
        let mut b = other.iter();
        let ghost la = self.listing(pool);
        let ghost lb = other.listing(pool);
        let ghost mut n: int = 0;
        assert(la.skip(0) =~= la);
        assert(lb.skip(0) =~= lb);
        loop
            invariant
                pool.wf(),
                a.map() == *self,
                b.map() == *other,
                la == self.listing(pool),
                lb == other.listing(pool),
                0 <= n <= la.len(),
                n <= lb.len(),
                a.remaining(pool) == la.skip(n),
                b.remaining(pool) == lb.skip(n),
                forall|i: int| 0 <= i < n ==> la[i] == lb[i],
            decreases la.len() - n,
        {
            let x = match a.next(pool) {
                Some(x) => x,
                None => {
                    return true;
                },
            };
            let y = match b.next(pool) {
                Some(y) => y,
                None => {
                    return true;
                },
            };
            assert(la.skip(n)[0] == la[n]);
            assert(lb.skip(n)[0] == lb[n]);
            if !bytes_eq(x.0.as_slice(), y.0.as_slice()) || !bytes_eq(
                x.1.as_slice(),
                y.1.as_slice(),
            ) {
                return false;
            }
            assert(la.skip(n).drop_first() =~= la.skip(n + 1));
            assert(lb.skip(n).drop_first() =~= lb.skip(n + 1));
            proof {
                n = n + 1;
            }
        }
    }
}

impl<'a> MapxIter<'a> {
    /// The map that the cursor walks.
    pub closed spec fn map(&self) -> Mapx {
        *self.hdr
    }

    /// The raw key of the entry that the cursor yielded last.
    pub closed spec fn cursor(&self) -> Option<Seq<u8>> {
        opt_vec(self.after)
    }

    /// What the cursor has yet to yield.
    pub open spec fn remaining<E: Engine>(&self, pool: &ShardPool<E>) -> Seq<Pair> {
        strip(
            scan_from(pool@[self.map().shard()], self.map().prefix(), self.cursor()),
            self.map().prefix().len(),
        )
    }

    /// The next entry of the map, or `None` once all were yielded.
    pub fn next<E: Engine>(&mut self, pool: &ShardPool<E>) -> (r: Option<(Vec<u8>, Vec<u8>)>)
        requires
            pool.wf(),
        ensures
            final(self).map() == old(self).map(),
            match r {
                Some((k, v)) => {
                    &&& old(self).remaining(pool).len() > 0
                    &&& (k@, v@) == old(self).remaining(pool)[0]
                    &&& final(self).remaining(pool) == old(self).remaining(pool).drop_first()
                },
                None => old(self).remaining(pool).len() == 0 && final(self).remaining(pool).len()
                    == 0,
            },
    {
        proof {
            use_type_invariant(self.hdr);
            pool.lemma_wf();
        }
        let ghost store = pool@[self.map().shard()];
        let ghost prefix = self.map().prefix();
        let ghost from = self.cursor();
        let lower: Option<&[u8]> = match &self.after {
            Some(a) => Some(a.as_slice()),
            None => None,
        };
        assert(opt_bytes(lower) == from);
        let found = pool.handle(self.hdr.meta.shard_index).seek(
            self.hdr.meta.prefix.as_slice(),
            lower,
        );
        match found {
            Some((raw, v)) => {
                proof {
                    lemma_scan_unfold(store, prefix, from, raw@);
                    let rest = scan_from(store, prefix, Some(raw@));
                    assert(strip(seq![(raw@, store[raw@])] + rest, prefix.len()).drop_first()
                        =~= strip(rest, prefix.len()));
                }
                let k = tail(raw.as_slice(), self.hdr.meta.prefix.len());
                self.after = Some(raw);
                Some((k, v))
            },
            None => {
                proof {
                    lemma_scan_done(store, prefix, from);
                }
                None
            },
        }
    }
}

} // verus!
