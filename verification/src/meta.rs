//! The prefix allocator: which key range belongs to which path, and where a
//! partition records it.
//!
//! A partition's keys fall into two ranges. Keys that begin with
//! `META_MARKER` are bookkeeping: one record holds the next free range
//! number, and one record per path holds the prefix given to that path.
//! Every other key begins with `DATA_MARKER` and the eight bytes of a range
//! number, and belongs to the instance that owns that range.

use vstd::prelude::*;
use crate::bytes::{join, prefixes_overlap};
use crate::codec::{
    decode_le, encode_le, le_bytes, le_value, lemma_le_bytes_injective, lemma_le_bytes_len,
    lemma_le_value_bound, lemma_pow256_widths,
};
use crate::engine::{Engine, Store};
use crate::error::Error;
use crate::namespace::{apply, lemma_foreign_write, listing_of, run, view_of, Op};
use crate::pool::{ShardPool, DB_NUM};
use crate::scan::range_keys;

verus! {

/// First byte of every bookkeeping key.
pub const META_MARKER: u8 = 0xff;

/// First byte of every instance prefix.
pub const DATA_MARKER: u8 = 0x00;

/// Number of bytes in an instance prefix.
pub const PREFIX_LEN: usize = 9;

/// The key of the record that holds the next free range number.
pub open spec fn counter_key() -> Seq<u8> {
    seq![META_MARKER, 0u8]
}

/// The key of the record that holds the prefix of the instance at `path`.
pub open spec fn meta_key(path: Seq<u8>) -> Seq<u8> {
    seq![META_MARKER, 1u8] + path
}

/// The prefix of the range with number `id`.
pub open spec fn prefix_of(id: nat) -> Seq<u8> {
    seq![DATA_MARKER] + le_bytes(id, 8)
}

/// `v` has the shape of an instance prefix.
pub open spec fn is_prefix_record(v: Seq<u8>) -> bool {
    v.len() == PREFIX_LEN && v[0] == DATA_MARKER
}

/// The number of the next range that `store` would give out: zero in a
/// store that never gave one, `None` where the record is unreadable.
pub open spec fn next_id(store: Store) -> Option<nat> {
    if !store.dom().contains(counter_key()) {
        Some(0)
    } else if store[counter_key()].len() == 8 {
        Some(le_value(store[counter_key()]))
    } else {
        None
    }
}

/// What opening `path` on `store` gives: the prefix or the failure, and the
/// store as the call leaves it.
pub open spec fn resolve(store: Store, path: Seq<u8>) -> (Result<Seq<u8>, Error>, Store) {
    let mk = meta_key(path);
    if store.dom().contains(mk) {
        if is_prefix_record(store[mk]) {
            (Ok(store[mk]), store)
        } else {
            (Err(Error::Decode), store)
        }
    } else {
        match next_id(store) {
            None => (Err(Error::Decode), store),
            Some(id) => if id >= u64::MAX {
                (Err(Error::Initialization), store)
            } else {
                (
                    Ok(prefix_of(id)),
                    store.insert(counter_key(), le_bytes(id + 1, 8)).insert(mk, prefix_of(id)),
                )
            },
        }
    }
}

/// `k` is a bookkeeping key.
pub open spec fn is_bookkeeping(k: Seq<u8>) -> bool {
    k.len() > 0 && k[0] == META_MARKER
}

/// `prefix` is the prefix of a range that `store` has given out.
pub open spec fn allocated(store: Store, prefix: Seq<u8>) -> bool {
    exists|id: nat|
        next_id(store) is Some && id < next_id(store)->0 && id < u64::MAX && prefix
            == #[trigger] prefix_of(id)
}

/// The bookkeeping of `store` is sound: the counter is readable, every
/// recorded prefix names a range that was given out, no two paths share a
/// range, and every key that is not bookkeeping lies in a range that was
/// given out.
pub open spec fn meta_wf(store: Store) -> bool {
    &&& next_id(store) is Some
    &&& forall|p: Seq<u8>| #[trigger]
        store.dom().contains(meta_key(p)) ==> allocated(store, store[meta_key(p)])
    &&& forall|p: Seq<u8>, q: Seq<u8>|
        p != q && #[trigger] store.dom().contains(meta_key(p)) && #[trigger] store.dom().contains(
            meta_key(q),
        ) ==> store[meta_key(p)] != store[meta_key(q)]
    &&& forall|k: Seq<u8>| #[trigger]
        store.dom().contains(k) ==> is_bookkeeping(k) || exists|id: nat|
            id < next_id(store)->0 && id < u64::MAX && (#[trigger] prefix_of(id)).is_prefix_of(k)
}

/// Different paths have different record keys, and none of them is the
/// counter's key.
pub proof fn lemma_meta_keys_distinct(p: Seq<u8>, q: Seq<u8>)
    ensures
        meta_key(p) != counter_key(),
        is_bookkeeping(meta_key(p)),
        is_bookkeeping(counter_key()),
        meta_key(p) == meta_key(q) ==> p == q,
{
    assert(meta_key(p)[1] == 1u8);
    assert(counter_key()[1] == 0u8);
    if meta_key(p) == meta_key(q) {
        crate::bytes::lemma_concat_injective(seq![META_MARKER, 1u8], p, q);
    }
}

/// Range prefixes have the fixed shape, and different range numbers give
/// different prefixes.
pub proof fn lemma_prefix_of(a: nat, b: nat)
    requires
        a <= u64::MAX,
        b <= u64::MAX,
    ensures
        is_prefix_record(prefix_of(a)),
        prefix_of(a) == prefix_of(b) ==> a == b,
{
    lemma_le_bytes_len(a, 8);
    lemma_pow256_widths();
    if prefix_of(a) == prefix_of(b) {
        crate::bytes::lemma_concat_injective(seq![DATA_MARKER], le_bytes(a, 8), le_bytes(b, 8));
        lemma_le_bytes_injective(a, b, 8);
    }
}

/// No key below an instance prefix is a bookkeeping key.
pub proof fn lemma_data_key_not_meta(prefix: Seq<u8>, key: Seq<u8>, path: Seq<u8>)
    requires
        is_prefix_record(prefix),
    ensures
        !is_bookkeeping(prefix + key),
        prefix + key != counter_key(),
        prefix + key != meta_key(path),
{
    assert((prefix + key)[0] == DATA_MARKER);
    lemma_meta_keys_distinct(path, path);
}

/// Two prefixes of the fixed shape overlap only if they are the same.
pub proof fn lemma_prefix_records_disjoint(p: Seq<u8>, q: Seq<u8>)
    requires
        is_prefix_record(p),
        is_prefix_record(q),
        p != q,
    ensures
        !prefixes_overlap(p, q),
{
    if prefixes_overlap(p, q) {
        crate::bytes::lemma_prefix_same_len(p, q);
    }
}

/// A prefix that opening a path gives has the fixed shape.
pub proof fn lemma_resolve_shape(store: Store, path: Seq<u8>)
    ensures
        resolve(store, path).0 matches Ok(prefix) ==> is_prefix_record(prefix),
{
    if !store.dom().contains(meta_key(path)) && next_id(store) is Some && next_id(store)->0
        < u64::MAX {
        lemma_prefix_of(next_id(store)->0, 0);
    }
}

/// A store that holds nothing has sound bookkeeping.
pub proof fn lemma_empty_wf()
    ensures
        meta_wf(Map::<Seq<u8>, Seq<u8>>::empty()),
{
}

/// The store after giving out a fresh range still knows every range that
/// it gave out before.
proof fn lemma_fresh_keeps_allocated(store: Store, path: Seq<u8>, prefix: Seq<u8>)
    requires
        !store.dom().contains(meta_key(path)),
        resolve(store, path).0 is Ok,
        allocated(store, prefix),
    ensures
        allocated(resolve(store, path).1, prefix),
        next_id(resolve(store, path).1) == Some(next_id(store)->0 + 1),
{
    let after = resolve(store, path).1;
    let id = next_id(store)->0;
    lemma_pow256_widths();
    lemma_le_bytes_len(id + 1, 8);
    crate::codec::lemma_le_value_of_bytes(id + 1, 8);
    lemma_meta_keys_distinct(path, path);
    assert(next_id(after) == Some(id + 1));
    let i = choose|i: nat|
        next_id(store) is Some && i < next_id(store)->0 && i < u64::MAX && prefix
            == #[trigger] prefix_of(i);
    assert(prefix == prefix_of(i) && i < id + 1);
}

/// Opening a path keeps sound bookkeeping sound, gives a range that the
/// store then knows as given out, and forgets no range.
pub proof fn lemma_resolve_keeps_wf(store: Store, path: Seq<u8>)
    requires
        meta_wf(store),
    ensures
        meta_wf(resolve(store, path).1),
        resolve(store, path).0 matches Ok(prefix) ==> allocated(resolve(store, path).1, prefix),
        forall|q: Seq<u8>| allocated(store, q) ==> allocated(resolve(store, path).1, q),
{
    let after = resolve(store, path).1;
    let mk = meta_key(path);
    if after != store {
        let id = next_id(store)->0;
        lemma_pow256_widths();
        lemma_le_bytes_len(id + 1, 8);
        crate::codec::lemma_le_value_of_bytes(id + 1, 8);
        lemma_meta_keys_distinct(path, path);
        assert(next_id(after) == Some(id + 1));
        assert(allocated(after, prefix_of(id)));
        assert forall|q: Seq<u8>| allocated(store, q) implies allocated(after, q) by {
            lemma_fresh_keeps_allocated(store, path, q);
        }
        assert forall|p: Seq<u8>| #[trigger] after.dom().contains(meta_key(p)) implies allocated(
            after,
            after[meta_key(p)],
        ) by {
            lemma_meta_keys_distinct(p, path);
            if p != path {
                assert(store.dom().contains(meta_key(p)));
            }
        }
        assert forall|p: Seq<u8>, q: Seq<u8>|
            p != q && #[trigger] after.dom().contains(meta_key(p)) && #[trigger] after.dom().contains(
                meta_key(q),
            ) implies after[meta_key(p)] != after[meta_key(q)] by {
            lemma_meta_keys_distinct(p, path);
            lemma_meta_keys_distinct(q, path);
            lemma_meta_keys_distinct(p, q);
            if p == path || q == path {
                let other = if p == path {
                    q
                } else {
                    p
                };
                assert(store.dom().contains(meta_key(other)));
                let i = choose|i: nat|
                    next_id(store) is Some && i < next_id(store)->0 && i < u64::MAX
                        && store[meta_key(other)] == #[trigger] prefix_of(i);
                lemma_prefix_of(i, id);
            } else {
                assert(store.dom().contains(meta_key(p)));
                assert(store.dom().contains(meta_key(q)));
            }
        }
        assert forall|k: Seq<u8>| #[trigger] after.dom().contains(k) implies is_bookkeeping(k)
            || exists|i: nat|
            i < next_id(after)->0 && i < u64::MAX && (#[trigger] prefix_of(i)).is_prefix_of(k) by {
            if k != mk && k != counter_key() {
                assert(store.dom().contains(k));
                if !is_bookkeeping(k) {
                    let i = choose|i: nat|
                        i < next_id(store)->0 && i < u64::MAX && (#[trigger] prefix_of(
                            i,
                        )).is_prefix_of(k);
                    assert(i < next_id(after)->0 && prefix_of(i).is_prefix_of(k));
                }
            }
        }
    } else {
        if resolve(store, path).0 is Ok {
            assert(store.dom().contains(mk));
        }
    }
}

/// Opening a path a second time gives the prefix of the first time and
/// leaves the store as the first call left it.
pub proof fn lemma_resolve_again(store: Store, path: Seq<u8>)
    requires
        resolve(store, path).0 is Ok,
    ensures
        resolve(resolve(store, path).1, path) == resolve(store, path),
{
    let mk = meta_key(path);
    if !store.dom().contains(mk) {
        let id = next_id(store)->0;
        lemma_prefix_of(id, id);
    }
}

/// In a store with sound bookkeeping, the instances at two different paths
/// own key ranges that do not overlap.
pub proof fn lemma_paths_disjoint(store: Store, p: Seq<u8>, q: Seq<u8>)
    requires
        meta_wf(store),
        p != q,
        store.dom().contains(meta_key(p)),
        store.dom().contains(meta_key(q)),
    ensures
        !prefixes_overlap(store[meta_key(p)], store[meta_key(q)]),
{
    let i = choose|i: nat|
        next_id(store) is Some && i < next_id(store)->0 && i < u64::MAX && store[meta_key(p)]
            == #[trigger] prefix_of(i);
    let j = choose|j: nat|
        next_id(store) is Some && j < next_id(store)->0 && j < u64::MAX && store[meta_key(q)]
            == #[trigger] prefix_of(j);
    lemma_prefix_of(i, j);
    lemma_prefix_of(j, i);
    lemma_prefix_records_disjoint(prefix_of(i), prefix_of(j));
}

/// In a store with sound bookkeeping, the range that a path is given on
/// its first opening holds no key yet.
pub proof fn lemma_fresh_range_empty(store: Store, path: Seq<u8>, k: Seq<u8>)
    requires
        meta_wf(store),
        !store.dom().contains(meta_key(path)),
        resolve(store, path).0 is Ok,
    ensures
        !(resolve(store, path).1.dom().contains(k) && resolve(store, path).0->Ok_0.is_prefix_of(k)),
{
    let after = resolve(store, path).1;
    let id = next_id(store)->0;
    let prefix = prefix_of(id);
    lemma_prefix_of(id, id);
    if after.dom().contains(k) && prefix.is_prefix_of(k) {
        assert(k[0] == prefix[0]);
        lemma_meta_keys_distinct(path, path);
        assert(store.dom().contains(k));
        let i = choose|i: nat|
            i < next_id(store)->0 && i < u64::MAX && (#[trigger] prefix_of(i)).is_prefix_of(k);
        lemma_prefix_of(i, id);
        lemma_prefix_of(id, i);
        lemma_prefix_records_disjoint(prefix_of(i), prefix);
        crate::bytes::lemma_disjoint_ranges(prefix_of(i), prefix, k);
    }
}

/// An instance that is opened for the first time in a store with sound
/// bookkeeping starts with no entry.
pub proof fn lemma_fresh_instance_empty(store: Store, path: Seq<u8>)
    requires
        meta_wf(store),
        !store.dom().contains(meta_key(path)),
        resolve(store, path).0 is Ok,
    ensures
        crate::scan::range_keys(resolve(store, path).1, resolve(store, path).0->Ok_0)
            == Set::<Seq<u8>>::empty(),
{
    let after = resolve(store, path).1;
    let prefix = resolve(store, path).0->Ok_0;
    assert forall|k: Seq<u8>| !crate::scan::range_keys(after, prefix).contains(k) by {
        lemma_fresh_range_empty(store, path, k);
    }
    assert(crate::scan::range_keys(after, prefix) =~= Set::<Seq<u8>>::empty());
}

/// Writing or deleting a key below an instance prefix leaves every record
/// of the bookkeeping as it is.
pub proof fn lemma_data_write_keeps_meta(store: Store, prefix: Seq<u8>, key: Seq<u8>, value: Seq<u8>)
    requires
        is_prefix_record(prefix),
    ensures
        forall|path: Seq<u8>|
            resolve(store.insert(prefix + key, value), path).0 == resolve(store, path).0,
        forall|path: Seq<u8>| resolve(store.remove(prefix + key), path).0 == resolve(store, path).0,
        next_id(store.insert(prefix + key, value)) == next_id(store),
        next_id(store.remove(prefix + key)) == next_id(store),
{
    let put = store.insert(prefix + key, value);
    let del = store.remove(prefix + key);
    lemma_data_key_not_meta(prefix, key, Seq::empty());
    assert forall|path: Seq<u8>| resolve(put, path).0 == resolve(store, path).0 && resolve(
        del,
        path,
    ).0 == resolve(store, path).0 by {
        lemma_data_key_not_meta(prefix, key, path);
    }
}

/// Writing or deleting a key in a range that was given out keeps sound
/// bookkeeping sound.
pub proof fn lemma_data_write_keeps_wf(store: Store, prefix: Seq<u8>, key: Seq<u8>, value: Seq<u8>)
    requires
        meta_wf(store),
        allocated(store, prefix),
    ensures
        meta_wf(store.insert(prefix + key, value)),
        meta_wf(store.remove(prefix + key)),
        forall|q: Seq<u8>| allocated(store, q) == allocated(store.insert(prefix + key, value), q),
        forall|q: Seq<u8>| allocated(store, q) == allocated(store.remove(prefix + key), q),
{
    let put = store.insert(prefix + key, value);
    let del = store.remove(prefix + key);
    let id = choose|id: nat|
        next_id(store) is Some && id < next_id(store)->0 && id < u64::MAX && prefix
            == #[trigger] prefix_of(id);
    lemma_prefix_of(id, id);
    lemma_data_write_keeps_meta(store, prefix, key, value);
    assert((prefix + key).subrange(0, prefix.len() as int) =~= prefix);
    assert forall|p: Seq<u8>| #[trigger] put.dom().contains(meta_key(p)) implies allocated(
        put,
        put[meta_key(p)],
    ) by {
        lemma_data_key_not_meta(prefix, key, p);
        assert(store.dom().contains(meta_key(p)));
    }
    assert forall|p: Seq<u8>, q: Seq<u8>|
        p != q && #[trigger] put.dom().contains(meta_key(p)) && #[trigger] put.dom().contains(
            meta_key(q),
        ) implies put[meta_key(p)] != put[meta_key(q)] by {
        lemma_data_key_not_meta(prefix, key, p);
        lemma_data_key_not_meta(prefix, key, q);
        assert(store.dom().contains(meta_key(p)));
        assert(store.dom().contains(meta_key(q)));
    }
    assert forall|k: Seq<u8>| #[trigger] put.dom().contains(k) implies is_bookkeeping(k) || exists|
        i: nat,
    |
        i < next_id(put)->0 && i < u64::MAX && (#[trigger] prefix_of(i)).is_prefix_of(k) by {
        if k == prefix + key {
            assert(prefix_of(id).is_prefix_of(k));
        } else {
            assert(store.dom().contains(k));
        }
    }
    assert forall|p: Seq<u8>| #[trigger] del.dom().contains(meta_key(p)) implies allocated(
        del,
        del[meta_key(p)],
    ) by {
        lemma_data_key_not_meta(prefix, key, p);
        assert(store.dom().contains(meta_key(p)));
    }
    assert forall|p: Seq<u8>, q: Seq<u8>|
        p != q && #[trigger] del.dom().contains(meta_key(p)) && #[trigger] del.dom().contains(
            meta_key(q),
        ) implies del[meta_key(p)] != del[meta_key(q)] by {
        lemma_data_key_not_meta(prefix, key, p);
        lemma_data_key_not_meta(prefix, key, q);
        assert(store.dom().contains(meta_key(p)));
        assert(store.dom().contains(meta_key(q)));
    }
    assert forall|k: Seq<u8>| #[trigger] del.dom().contains(k) implies is_bookkeeping(k) || exists|
        i: nat,
    |
        i < next_id(del)->0 && i < u64::MAX && (#[trigger] prefix_of(i)).is_prefix_of(k) by {
        assert(store.dom().contains(k));
    }
}

/// In a store with sound bookkeeping, a change that the instance at one
/// path makes is not seen by the instance at another path of the same
/// partition: not in its map, not in its key count, not in its listing.
pub proof fn lemma_instances_isolated(store: Store, path_a: Seq<u8>, path_b: Seq<u8>, op: Op)
    requires
        store.dom().finite(),
        meta_wf(store),
        path_a != path_b,
        store.dom().contains(meta_key(path_a)),
        store.dom().contains(meta_key(path_b)),
    ensures
        ({
            let a = store[meta_key(path_a)];
            let b = store[meta_key(path_b)];
            let after = apply(store, a, op);
            &&& view_of(after, b) == view_of(store, b)
            &&& range_keys(after, b) == range_keys(store, b)
            &&& listing_of(after, b) == listing_of(store, b)
        }),
{
    let a = store[meta_key(path_a)];
    let b = store[meta_key(path_b)];
    lemma_paths_disjoint(store, path_a, path_b);
    match op {
        Op::Put(key, value) => {
            lemma_foreign_write(store, a, b, key, value);
        },
        Op::Delete(key) => {
            lemma_foreign_write(store, a, b, key, Seq::empty());
        },
    }
}

/// An instance that was opened and then changed in any way is found again
/// under the prefix that it had, and finding it changes nothing: what it
/// reads after it was opened again is what it read before.
pub proof fn lemma_reopen(store: Store, path: Seq<u8>, count: nat, ops: Seq<Op>)
    requires
        resolve(store, path).0 is Ok,
    ensures
        ({
            let opened = resolve(store, path);
            let prefix = opened.0->Ok_0;
            let later = run(opened.1, prefix, count, ops).0;
            resolve(later, path) == (Ok::<Seq<u8>, Error>(prefix), later)
        }),
    decreases ops.len(),
{
    let opened = resolve(store, path);
    let prefix = opened.0->Ok_0;
    lemma_resolve_shape(store, path);
    if ops.len() == 0 {
        lemma_resolve_again(store, path);
    } else {
        lemma_reopen(store, path, count, ops.drop_last());
        let before = run(opened.1, prefix, count, ops.drop_last()).0;
        match ops.last() {
            Op::Put(key, _) => {
                lemma_data_key_not_meta(prefix, key, path);
            },
            Op::Delete(key) => {
                lemma_data_key_not_meta(prefix, key, path);
            },
        }
    }
}

/// The key of the record for the path with bytes `path`.
pub fn make_meta_key(path: &[u8]) -> (r: Vec<u8>)
    ensures
        r@ == meta_key(path@),
{
    let mut head: Vec<u8> = Vec::new();
    head.push(META_MARKER);
    head.push(1u8);
    assert(head@ =~= seq![META_MARKER, 1u8]);
    join(head.as_slice(), path)
}

/// The prefix of the range with number `id`.
pub fn make_prefix(id: u64) -> (r: Vec<u8>)
    ensures
        r@ == prefix_of(id as nat),
{
    let mut head: Vec<u8> = Vec::new();
    head.push(DATA_MARKER);
    assert(head@ =~= seq![DATA_MARKER]);
    let digits = encode_le(id as u128, 8);
    join(head.as_slice(), digits.as_slice())
}

/// Finds the prefix that partition `idx` recorded for the path with bytes
/// `path`, or gives the path the next free range and records it.
///
/// A record that does not have the shape of a prefix, or a counter that is
/// not eight bytes, is reported and left as it is.
pub fn resolve_prefix<E: Engine>(pool: &mut ShardPool<E>, idx: usize, path: &[u8]) -> (r: Result<
    Vec<u8>,
    Error,
>)
    requires
        old(pool).wf(),
        idx < DB_NUM,
    ensures
        final(pool).wf(),
        final(pool)@ == old(pool)@.update(idx as int, resolve(old(pool)@[idx as int], path@).1),
        match r {
            Ok(prefix) => resolve(old(pool)@[idx as int], path@).0 == Ok::<Seq<u8>, Error>(prefix@),
            Err(e) => resolve(old(pool)@[idx as int], path@).0 == Err::<Seq<u8>, Error>(e),
        },
{
    proof {
        pool.lemma_wf();
    }
    let ghost store = pool@[idx as int];
    assert(pool@ =~= pool@.update(idx as int, store));
    let mk = make_meta_key(path);
    match pool.handle(idx).get(mk.as_slice()) {
        Some(rec) => {
            if rec.len() == PREFIX_LEN && rec[0] == DATA_MARKER {
                Ok(rec)
            } else {
                Err(Error::Decode)
            }
        },
        None => {
            let mut ck: Vec<u8> = Vec::new();
            ck.push(META_MARKER);
            ck.push(0u8);
            assert(ck@ =~= counter_key());
            let id: u64 = match pool.handle(idx).get(ck.as_slice()) {
                Some(c) => {
                    if c.len() != 8 {
                        return Err(Error::Decode);
                    }
                    proof {
                        lemma_le_value_bound(c@);
                        lemma_pow256_widths();
                    }
                    decode_le(c.as_slice()) as u64
                },
                None => 0,
            };
            if id == u64::MAX {
                return Err(Error::Initialization);
            }
            let next = encode_le((id + 1) as u128, 8);
            let prefix = make_prefix(id);
            pool.put(idx, ck.as_slice(), next.as_slice());
            pool.put(idx, mk.as_slice(), prefix.as_slice());
            assert(pool@ =~= old(pool)@.update(idx as int, resolve(store, path@).1));
            Ok(prefix)
        },
    }
}

} // verus!
