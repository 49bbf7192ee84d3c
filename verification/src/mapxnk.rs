//! The numeric-key map: a namespaced map whose keys are machine integers,
//! each stored under its fixed-width little-endian bytes.
//!
//! The entries are walked in the byte order of the encoded keys. For keys
//! wider than one byte that is not the order of the numbers: 256 is
//! visited before 1.

use vstd::prelude::*;
use core::marker::PhantomData;
use crate::engine::Engine;
use crate::error::Error;
use crate::mapx::{Mapx, MapxIter};
use crate::meta::resolve;
use crate::namespace::{apply, lookup, opt_vec, recount, Op, Pair};
use crate::numkey::NumKey;
use crate::pool::{path_bytes, shard_of, ShardPool};
use crate::scan::range_keys;

verus! {

/// A map from integer keys to byte values, kept in the pool.
#[derive(Debug)]
pub struct Mapxnk<K: NumKey> {
    inner: Mapx,
    _pd: PhantomData<K>,
}

/// A cursor over the entries of a `Mapxnk`, in ascending byte order of the
/// encoded keys.
pub struct MapxnkIter<'a, K: NumKey> {
    iter: MapxIter<'a>,
    _pd: PhantomData<K>,
}

/// A map over byte keys, read as a map over the keys of type `K` whose
/// byte forms they are.
pub open spec fn keyed<K: NumKey>(m: Map<Seq<u8>, Seq<u8>>) -> Map<K, Seq<u8>> {
    Map::new(|k: K| m.dom().contains(k.spec_to_bytes()), |k: K| m[k.spec_to_bytes()])
}

/// The plain values of a vector of decoded entries.
pub open spec fn keyed_pairs<K: NumKey>(v: Seq<(K, Vec<u8>)>) -> Seq<Pair> {
    Seq::new(v.len(), |i: int| (v[i].0.spec_to_bytes(), v[i].1@))
}

/// Every key of the listing has the width of `K`.
pub open spec fn all_decodable<K: NumKey>(listing: Seq<Pair>) -> bool {
    forall|i: int| 0 <= i < listing.len() ==> (#[trigger] listing[i]).0.len() == K::width()
}

/// Storing under a key changes that key of the keyed map and no other.
pub proof fn lemma_keyed_insert<K: NumKey>(m: Map<Seq<u8>, Seq<u8>>, key: K, value: Seq<u8>)
    ensures
        keyed::<K>(m.insert(key.spec_to_bytes(), value)) == keyed::<K>(m).insert(key, value),
{
    assert forall|k: K| k.spec_to_bytes() == key.spec_to_bytes() implies k == key by {
        K::lemma_byte_form(k, key);
    }
    assert(keyed::<K>(m.insert(key.spec_to_bytes(), value)) =~= keyed::<K>(m).insert(key, value));
}

/// Removing a key takes that key out of the keyed map and no other.
pub proof fn lemma_keyed_remove<K: NumKey>(m: Map<Seq<u8>, Seq<u8>>, key: K)
    ensures
        keyed::<K>(m.remove(key.spec_to_bytes())) == keyed::<K>(m).remove(key),
{
    assert forall|k: K| k.spec_to_bytes() == key.spec_to_bytes() implies k == key by {
        K::lemma_byte_form(k, key);
    }
    assert(keyed::<K>(m.remove(key.spec_to_bytes())) =~= keyed::<K>(m).remove(key));
}

/// A key that was encoded and decoded again is the key that it was.
pub proof fn lemma_key_roundtrip<K: NumKey>(key: K, decoded: K)
    requires
        decoded.spec_to_bytes() == key.spec_to_bytes(),
    ensures
        decoded == key,
{
    K::lemma_byte_form(decoded, key);
}

/// The byte order of encoded keys is not the order of the numbers: the
/// two-byte key 256 sorts before the two-byte key 1.
pub proof fn lemma_byte_order_is_not_numeric()
    ensures
        crate::bytes::lex_lt(256u16.spec_to_bytes(), 1u16.spec_to_bytes()),
{
    reveal_with_fuel(crate::codec::le_bytes, 3);
    assert(256u16.spec_to_bytes()[0] == 0u8);
    assert(1u16.spec_to_bytes()[0] == 1u8);
}

impl<K: NumKey> Mapxnk<K> {
    /// The map over byte keys that holds the entries.
    pub closed spec fn raw(&self) -> Mapx {
        self.inner
    }

    /// The map as its user sees it.
    pub open spec fn view<E: Engine>(&self, pool: &ShardPool<E>) -> Map<K, Seq<u8>> {
        keyed::<K>(self.raw().view(pool))
    }

    /// Opens the instance at `path`, as `Mapx::load_or_create` does.
    pub fn load_or_create<E: Engine>(pool: &mut ShardPool<E>, path: &str) -> (r: Result<Self, Error>)
        requires
            old(pool).wf(),
        ensures
            final(pool).wf(),
            ({
                let idx = shard_of(path_bytes(path@));
                let opened = resolve(old(pool)@[idx], path_bytes(path@));
                &&& final(pool)@ == old(pool)@.update(idx, opened.1)
                &&& match r {
                    Ok(m) => {
                        &&& opened.0 == Ok::<Seq<u8>, Error>(m.raw().prefix())
                        &&& m.raw().shard() == idx
                        &&& m.raw().meta().path@ == path@
                        &&& m.raw().counted(final(pool))
                    },
                    Err(e) => match opened.0 {
                        Ok(prefix) => e == Error::Initialization && range_keys(opened.1, prefix).len()
                            > usize::MAX,
                        Err(cause) => e == cause,
                    },
                }
            }),
    {
        match Mapx::load_or_create(pool, path) {
            Ok(inner) => Ok(Mapxnk { inner, _pd: PhantomData }),
            Err(e) => Err(e),
        }
    }

    /// Get the storage path
    pub fn get_path(&self) -> (r: &str)
        ensures
            r@ == self.raw().meta().path@,
    {
        self.inner.get_path()
    }

    /// The bytes stored under `key`, if any.
    pub fn get<E: Engine>(&self, pool: &ShardPool<E>, key: &K) -> (r: Option<Vec<u8>>)
        requires
            pool.wf(),
        ensures
            opt_vec(r) == lookup(self.raw().view(pool), key.spec_to_bytes()),
            r is Some == self.view(pool).dom().contains(*key),
            r matches Some(v) ==> v@ == self.view(pool)[*key],
    {
        let k = key.to_bytes();
        self.inner.get(pool, k.as_slice())
    }

    /// The number of entries, as cached.
    pub fn len(&self) -> (r: usize)
        ensures
            r == self.raw().count(),
    {
        self.inner.len()
    }

    /// Whether the cached number of entries is zero.
    pub fn is_empty(&self) -> (r: bool)
        ensures
            r == (self.raw().count() == 0),
    {
        self.inner.is_empty()
    }

    /// Whether the cached count is the number of keys that a full scan of
    /// the instance's range finds.
    pub fn check_count<E: Engine>(&self, pool: &ShardPool<E>) -> (r: bool)
        requires
            pool.wf(),
        ensures
            r == self.raw().counted(pool),
    {
        self.inner.check_count(pool)
    }

    /// Stores `value` under `key` and returns what was stored there before.
    pub fn insert<E: Engine>(&mut self, pool: &mut ShardPool<E>, key: K, value: &[u8]) -> (r: Option<
        Vec<u8>,
    >)
        requires
            old(self).raw().counted(old(pool)),
            recount(
                old(pool)@[old(self).raw().shard()],
                old(self).raw().prefix(),
                old(self).raw().count(),
                Op::Put(key.spec_to_bytes(), value@),
            ) <= usize::MAX,
        ensures
            final(self).raw().meta() == old(self).raw().meta(),
            final(self).raw().counted(final(pool)),
            final(pool)@ == old(pool)@.update(
                old(self).raw().shard(),
                apply(
                    old(pool)@[old(self).raw().shard()],
                    old(self).raw().prefix(),
                    Op::Put(key.spec_to_bytes(), value@),
                ),
            ),
            final(self).raw().count() == recount(
                old(pool)@[old(self).raw().shard()],
                old(self).raw().prefix(),
                old(self).raw().count(),
                Op::Put(key.spec_to_bytes(), value@),
            ),
            final(self).raw().view(final(pool)) == old(self).raw().view(old(pool)).insert(
                key.spec_to_bytes(),
                value@,
            ),
            final(self).view(final(pool)) == old(self).view(old(pool)).insert(key, value@),
            opt_vec(r) == lookup(old(self).raw().view(old(pool)), key.spec_to_bytes()),
    {
        proof {
            lemma_keyed_insert::<K>(self.raw().view(pool), key, value@);
        }
        let k = key.to_bytes();
        self.inner.insert(pool, k.as_slice(), value)
    }

    /// Whether `key` has an entry.
    pub fn contains_key<E: Engine>(&self, pool: &ShardPool<E>, key: &K) -> (r: bool)
        requires
            pool.wf(),
        ensures
            r == self.view(pool).dom().contains(*key),
    {
        let k = key.to_bytes();
        self.inner.contains_key(pool, k.as_slice())
    }

    /// Removes the entry of `key` and returns what was stored under it.
    pub fn remove<E: Engine>(&mut self, pool: &mut ShardPool<E>, key: &K) -> (r: Option<Vec<u8>>)
        requires
            old(self).raw().counted(old(pool)),
        ensures
            final(self).raw().meta() == old(self).raw().meta(),
            final(self).raw().counted(final(pool)),
            final(pool)@ == old(pool)@.update(
                old(self).raw().shard(),
                apply(
                    old(pool)@[old(self).raw().shard()],
                    old(self).raw().prefix(),
                    Op::Delete(key.spec_to_bytes()),
                ),
            ),
            final(self).raw().count() == recount(
                old(pool)@[old(self).raw().shard()],
                old(self).raw().prefix(),
                old(self).raw().count(),
                Op::Delete(key.spec_to_bytes()),
            ),
            final(self).raw().view(final(pool)) == old(self).raw().view(old(pool)).remove(
                key.spec_to_bytes(),
            ),
            final(self).view(final(pool)) == old(self).view(old(pool)).remove(*key),
            opt_vec(r) == lookup(old(self).raw().view(old(pool)), key.spec_to_bytes()),
    {
        proof {
            lemma_keyed_remove::<K>(self.raw().view(pool), *key);
        }
        let k = key.to_bytes();
        self.inner.remove(pool, k.as_slice())
    }

    /// Whether a cursor over this map and one over `other` yield equal
    /// entries for as long as both yield one.
    pub fn eq<E: Engine>(&self, pool: &ShardPool<E>, other: &Mapxnk<K>) -> (r: bool)
        requires
            pool.wf(),
        ensures
            r == crate::namespace::zip_equal(
                self.raw().listing(pool),
                other.raw().listing(pool),
            ),
    {
        self.inner.eq(pool, &other.inner)
    }

    /// A cursor at the first entry of the map.
    pub fn iter(&self) -> (r: MapxnkIter<'_, K>)
        ensures
            r.raw().map() == self.raw(),
            r.raw().cursor() == None::<Seq<u8>>,
    {
        MapxnkIter { iter: self.inner.iter(), _pd: PhantomData }
    }

    /// All entries of the map with their keys decoded, in the order in
    /// which a cursor visits them. Fails with `Error::Decode` where a
    /// stored key does not have the width of `K`.
    pub fn entries<E: Engine>(&self, pool: &ShardPool<E>) -> (r: Result<Vec<(K, Vec<u8>)>, Error>)
        requires
            pool.wf(),
        ensures
            r is Ok == all_decodable::<K>(self.raw().listing(pool)),
            r matches Ok(v) ==> keyed_pairs(v@) == self.raw().listing(pool),
            r matches Err(e) ==> e == Error::Decode,
    {
        let mut out: Vec<(K, Vec<u8>)> = Vec::new();
        let mut it = self.iter();
        let ghost all = self.raw().listing(pool);
        assert(all.skip(0) =~= all);
        assert(keyed_pairs(out@) =~= all.take(0));
        loop
            invariant
                pool.wf(),
                all == self.raw().listing(pool),
                it.raw().map() == self.raw(),
                out@.len() <= all.len(),
                keyed_pairs(out@) == all.take(out@.len() as int),
                it.raw().remaining(pool) == all.skip(out@.len() as int),
            decreases all.len() - out@.len(),
        {
            let ghost n = out@.len() as int;
            let ghost done = keyed_pairs(out@);
            match it.next(pool) {
                Ok(Some(e)) => {
                    assert(all.skip(n)[0] == all[n]);
                    assert(all.skip(n).drop_first() =~= all.skip(n + 1));
                    out.push(e);
                    assert(keyed_pairs(out@) =~= all.take(n + 1));
                },
                Ok(None) => {
                    assert(all.take(n) =~= all);
                    assert forall|i: int| 0 <= i < all.len() implies (#[trigger] all[i]).0.len()
                        == K::width() by {
                        assert(all[i] == keyed_pairs(out@)[i]);
                        K::lemma_byte_form(out@[i].0, out@[i].0);
                    }
                    return Ok(out);
                },
                Err(e) => {
                    assert(all.skip(n)[0] == all[n]);
                    return Err(e);
                },
            }
        }
    }
}

impl<'a, K: NumKey> MapxnkIter<'a, K> {
    /// The cursor over the raw entries.
    pub closed spec fn raw(&self) -> MapxIter<'a> {
        self.iter
    }

    /// The next entry of the map with its key decoded, `None` once all were
    /// yielded, or `Error::Decode` where the next stored key does not have
    /// the width of `K`. The cursor moves past the entry in either case.
    pub fn next<E: Engine>(&mut self, pool: &ShardPool<E>) -> (r: Result<Option<(K, Vec<u8>)>, Error>)
        requires
            pool.wf(),
        ensures
            final(self).raw().map() == old(self).raw().map(),
            match r {
                Ok(Some((k, v))) => {
                    &&& old(self).raw().remaining(pool).len() > 0
                    &&& (k.spec_to_bytes(), v@) == old(self).raw().remaining(pool)[0]
                    &&& final(self).raw().remaining(pool) == old(self).raw().remaining(
                        pool,
                    ).drop_first()
                },
                Ok(None) => {
                    &&& old(self).raw().remaining(pool).len() == 0
                    &&& final(self).raw().remaining(pool).len() == 0
                },
                Err(e) => {
                    &&& e == Error::Decode
                    &&& old(self).raw().remaining(pool).len() > 0
                    &&& old(self).raw().remaining(pool)[0].0.len() != K::width()
                    &&& final(self).raw().remaining(pool) == old(self).raw().remaining(
                        pool,
                    ).drop_first()
                },
            },
    {
        match self.iter.next(pool) {
            Some((raw, v)) => match K::from_bytes(raw.as_slice()) {
                Ok(k) => Ok(Some((k, v))),
                Err(e) => Err(e),
            },
            None => Ok(None),
        }
    }
}

} // verus!
