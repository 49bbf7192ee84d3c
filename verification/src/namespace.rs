//! Namespaces: what the keys below one prefix mean to the instance that
//! owns the prefix, and why instances with other prefixes never see them.

use vstd::prelude::*;
use vstd::set_lib::lemma_map_size;
use crate::bytes::{
    lemma_concat_injective, lemma_disjoint_ranges, lemma_lex_skip_common, lemma_prefix_split,
    lex_lt, prefixes_overlap,
};
use crate::engine::{in_scan, Store};
use crate::scan::{
    lemma_scan_agree, lemma_scan_keys_finite, lemma_scan_len, lemma_scan_listing, range_keys,
    scan_from, RawEntry,
};

verus! {

/// A key as the instance's user wrote it, with the bytes stored under it.
pub type Pair = (Seq<u8>, Seq<u8>);

/// The map that the keys below `prefix` spell: each raw key without the
/// prefix, with the bytes stored under it.
pub open spec fn view_of(store: Store, prefix: Seq<u8>) -> Map<Seq<u8>, Seq<u8>> {
    Map::new(|k: Seq<u8>| store.dom().contains(prefix + k), |k: Seq<u8>| store[prefix + k])
}

/// The entries of a raw listing with the first `n` bytes taken off each key.
pub open spec fn strip(entries: Seq<RawEntry>, n: nat) -> Seq<Pair> {
    Seq::new(entries.len(), |i: int| (entries[i].0.skip(n as int), entries[i].1))
}

/// What iterating over the instance with this prefix yields: its pairs in
/// ascending byte order of the raw keys.
pub open spec fn listing_of(store: Store, prefix: Seq<u8>) -> Seq<Pair> {
    strip(scan_from(store, prefix, None), prefix.len())
}

/// The plain value of an optional byte vector.
pub open spec fn opt_vec(o: Option<Vec<u8>>) -> Option<Seq<u8>> {
    match o {
        Some(b) => Some(b@),
        None => None,
    }
}

/// The plain values of a vector of pairs.
pub open spec fn pairs_view(v: Seq<(Vec<u8>, Vec<u8>)>) -> Seq<Pair> {
    Seq::new(v.len(), |i: int| (v[i].0@, v[i].1@))
}

/// Two listings agree wherever both have an entry.
pub open spec fn zip_equal(a: Seq<Pair>, b: Seq<Pair>) -> bool {
    forall|i: int| 0 <= i < a.len() && i < b.len() ==> a[i] == b[i]
}

/// A change to one instance: a value stored under a key, or a key removed.
pub enum Op {
    Put(Seq<u8>, Seq<u8>),
    Delete(Seq<u8>),
}

/// The partition after the instance with this prefix made the change.
pub open spec fn apply(store: Store, prefix: Seq<u8>, op: Op) -> Store {
    match op {
        Op::Put(key, value) => store.insert(prefix + key, value),
        Op::Delete(key) => store.remove(prefix + key),
    }
}

/// The entry count that the instance keeps after the change: one more for
/// a key that was not there, one less for a key that was.
pub open spec fn recount(store: Store, prefix: Seq<u8>, count: nat, op: Op) -> nat {
    match op {
        Op::Put(key, _) => if store.dom().contains(prefix + key) {
            count
        } else {
            count + 1
        },
        Op::Delete(key) => if store.dom().contains(prefix + key) {
            (count - 1) as nat
        } else {
            count
        },
    }
}

/// The partition and the entry count after a run of changes, first to last.
pub open spec fn run(store: Store, prefix: Seq<u8>, count: nat, ops: Seq<Op>) -> (Store, nat)
    decreases ops.len(),
{
    if ops.len() == 0 {
        (store, count)
    } else {
        let before = run(store, prefix, count, ops.drop_last());
        (apply(before.0, prefix, ops.last()), recount(before.0, prefix, before.1, ops.last()))
    }
}

/// What was stored under a key, if anything.
pub open spec fn lookup(m: Map<Seq<u8>, Seq<u8>>, key: Seq<u8>) -> Option<Seq<u8>> {
    if m.dom().contains(key) {
        Some(m[key])
    } else {
        None
    }
}

/// Writing a key of an instance changes that key of its map and no other.
pub proof fn lemma_view_after_put(store: Store, prefix: Seq<u8>, key: Seq<u8>, value: Seq<u8>)
    ensures
        view_of(store.insert(prefix + key, value), prefix) == view_of(store, prefix).insert(
            key,
            value,
        ),
        range_keys(store.insert(prefix + key, value), prefix) == range_keys(store, prefix).insert(
            prefix + key,
        ),
{
    let after = store.insert(prefix + key, value);
    assert forall|k: Seq<u8>| prefix + k == prefix + key implies k == key by {
        lemma_concat_injective(prefix, k, key);
    }
    assert(view_of(after, prefix) =~= view_of(store, prefix).insert(key, value));
    assert((prefix + key).subrange(0, prefix.len() as int) =~= prefix);
    assert(range_keys(after, prefix) =~= range_keys(store, prefix).insert(prefix + key));
}

/// Deleting a key of an instance removes that key from its map and no
/// other.
pub proof fn lemma_view_after_delete(store: Store, prefix: Seq<u8>, key: Seq<u8>)
    ensures
        view_of(store.remove(prefix + key), prefix) == view_of(store, prefix).remove(key),
        range_keys(store.remove(prefix + key), prefix) == range_keys(store, prefix).remove(
            prefix + key,
        ),
{
    let after = store.remove(prefix + key);
    assert forall|k: Seq<u8>| prefix + k == prefix + key implies k == key by {
        lemma_concat_injective(prefix, k, key);
    }
    assert(view_of(after, prefix) =~= view_of(store, prefix).remove(key));
    assert(range_keys(after, prefix) =~= range_keys(store, prefix).remove(prefix + key));
}

/// An instance's map has one key for each raw key below its prefix.
pub proof fn lemma_view_len(store: Store, prefix: Seq<u8>)
    requires
        store.dom().finite(),
    ensures
        view_of(store, prefix).dom().finite(),
        view_of(store, prefix).dom().len() == range_keys(store, prefix).len(),
{
    let raw = range_keys(store, prefix);
    let logical = view_of(store, prefix).dom();
    let f = |k: Seq<u8>| k.skip(prefix.len() as int);
    lemma_scan_keys_finite(store, prefix, None);
    assert forall|a: Seq<u8>, b: Seq<u8>|
        raw.contains(a) && raw.contains(b) && #[trigger] f(a) == #[trigger] f(b) implies a == b by {
        lemma_prefix_split(prefix, a);
        lemma_prefix_split(prefix, b);
    }
    assert forall|k: Seq<u8>| logical.contains(k) == raw.map(f).contains(k) by {
        if logical.contains(k) {
            assert((prefix + k).subrange(0, prefix.len() as int) =~= prefix);
            assert(raw.contains(prefix + k));
            assert(f(prefix + k) =~= k);
        }
        if raw.map(f).contains(k) {
            let r = choose|r: Seq<u8>| raw.contains(r) && f(r) == k;
            lemma_prefix_split(prefix, r);
        }
    }
    assert(raw.map(f) =~= logical);
    lemma_map_size(raw, logical, f);
}

/// What was stored under a key is what a lookup of the key finds, whatever
/// else the partition holds.
pub proof fn lemma_store_then_load(store: Store, prefix: Seq<u8>, key: Seq<u8>, value: Seq<u8>)
    ensures
        lookup(view_of(apply(store, prefix, Op::Put(key, value)), prefix), key) == Some(value),
{
    lemma_view_after_put(store, prefix, key, value);
}

/// A count that is right stays right over one change.
pub proof fn lemma_count_step(store: Store, prefix: Seq<u8>, count: nat, op: Op)
    requires
        store.dom().finite(),
        count == range_keys(store, prefix).len(),
    ensures
        apply(store, prefix, op).dom().finite(),
        recount(store, prefix, count, op) == range_keys(apply(store, prefix, op), prefix).len(),
{
    lemma_scan_keys_finite(store, prefix, None);
    match op {
        Op::Put(key, value) => {
            lemma_view_after_put(store, prefix, key, value);
            assert((prefix + key).subrange(0, prefix.len() as int) =~= prefix);
        },
        Op::Delete(key) => {
            lemma_view_after_delete(store, prefix, key);
            assert((prefix + key).subrange(0, prefix.len() as int) =~= prefix);
        },
    }
}

/// Over any run of insertions and removals, an entry count that started
/// right ends right: it is the number of keys that the map then holds.
pub proof fn lemma_count_tracks_keys(store: Store, prefix: Seq<u8>, count: nat, ops: Seq<Op>)
    requires
        store.dom().finite(),
        count == range_keys(store, prefix).len(),
    ensures
        run(store, prefix, count, ops).0.dom().finite(),
        run(store, prefix, count, ops).1 == range_keys(run(store, prefix, count, ops).0, prefix).len(),
        run(store, prefix, count, ops).1 == view_of(run(store, prefix, count, ops).0, prefix).dom().len(),
    decreases ops.len(),
{
    if ops.len() > 0 {
        lemma_count_tracks_keys(store, prefix, count, ops.drop_last());
        let before = run(store, prefix, count, ops.drop_last());
        lemma_count_step(before.0, prefix, before.1, ops.last());
    }
    lemma_view_len(run(store, prefix, count, ops).0, prefix);
}

/// Storing the same value under the same key a second time changes
/// neither the partition nor the entry count, and the key still finds the
/// value.
pub proof fn lemma_put_twice(store: Store, prefix: Seq<u8>, count: nat, key: Seq<u8>, value: Seq<u8>)
    ensures
        ({
            let op = Op::Put(key, value);
            let once = apply(store, prefix, op);
            let n = recount(store, prefix, count, op);
            &&& apply(once, prefix, op) == once
            &&& recount(once, prefix, n, op) == n
            &&& lookup(view_of(once, prefix), key) == Some(value)
        }),
{
    let once = store.insert(prefix + key, value);
    assert(once.insert(prefix + key, value) =~= once);
    lemma_view_after_put(store, prefix, key, value);
}

/// Writing or deleting below one prefix changes nothing that an instance
/// with a prefix that does not overlap it can see: not its map, not its key
/// count, not its listing.
pub proof fn lemma_foreign_write(
    store: Store,
    p: Seq<u8>,
    q: Seq<u8>,
    key: Seq<u8>,
    value: Seq<u8>,
)
    requires
        store.dom().finite(),
        !prefixes_overlap(p, q),
    ensures
        view_of(store.insert(p + key, value), q) == view_of(store, q),
        view_of(store.remove(p + key), q) == view_of(store, q),
        range_keys(store.insert(p + key, value), q) == range_keys(store, q),
        range_keys(store.remove(p + key), q) == range_keys(store, q),
        listing_of(store.insert(p + key, value), q) == listing_of(store, q),
        listing_of(store.remove(p + key), q) == listing_of(store, q),
{
    let put = store.insert(p + key, value);
    let del = store.remove(p + key);
    assert((p + key).subrange(0, p.len() as int) =~= p);
    lemma_disjoint_ranges(p, q, p + key);
    assert forall|k: Seq<u8>| q + k != p + key by {
        assert((q + k).subrange(0, q.len() as int) =~= q);
    }
    assert(view_of(put, q) =~= view_of(store, q));
    assert(view_of(del, q) =~= view_of(store, q));
    lemma_scan_agree(put, store, q, None);
    lemma_scan_agree(del, store, q, None);
}

/// The two partitions agree on every key that does not start with `prefix`.
pub open spec fn same_outside(before: Store, after: Store, prefix: Seq<u8>) -> bool {
    forall|k: Seq<u8>|
        !prefix.is_prefix_of(k) ==> (before.dom().contains(k) == after.dom().contains(k)) && (
        before.dom().contains(k) ==> before[k] == after[k])
}

/// Between `before` and `after`, nothing changed but keys below `prefix` in
/// partition `shard`.
pub open spec fn confined(before: Seq<Store>, after: Seq<Store>, shard: int, prefix: Seq<u8>) -> bool {
    &&& after.len() == before.len()
    &&& 0 <= shard < before.len()
    &&& forall|j: int| 0 <= j < before.len() && j != shard ==> after[j] == before[j]
    &&& same_outside(before[shard], after[shard], prefix)
}

/// One change by an instance is confined to its key range.
pub proof fn lemma_apply_confined(stores: Seq<Store>, shard: int, prefix: Seq<u8>, op: Op)
    requires
        0 <= shard < stores.len(),
    ensures
        confined(stores, stores.update(shard, apply(stores[shard], prefix, op)), shard, prefix),
{
    match op {
        Op::Put(key, _) => {
            assert((prefix + key).subrange(0, prefix.len() as int) =~= prefix);
        },
        Op::Delete(key) => {
            assert((prefix + key).subrange(0, prefix.len() as int) =~= prefix);
        },
    }
}

/// Changes that are confined to a key range, one after another, are
/// confined to it together; and no change at all is confined to any range.
pub proof fn lemma_confined_chain(
    a: Seq<Store>,
    b: Seq<Store>,
    c: Seq<Store>,
    shard: int,
    prefix: Seq<u8>,
)
    requires
        0 <= shard < a.len(),
        confined(a, b, shard, prefix),
        confined(b, c, shard, prefix),
    ensures
        confined(a, a, shard, prefix),
        confined(a, c, shard, prefix),
{
}

/// Changes confined to one key range change nothing that an instance
/// elsewhere can see: one in another partition, or one in the same
/// partition whose prefix does not overlap the range.
pub proof fn lemma_confined_elsewhere(
    before: Seq<Store>,
    after: Seq<Store>,
    shard: int,
    prefix: Seq<u8>,
    other_shard: int,
    other_prefix: Seq<u8>,
)
    requires
        confined(before, after, shard, prefix),
        0 <= other_shard < before.len(),
        before[other_shard].dom().finite(),
        after[other_shard].dom().finite(),
        other_shard != shard || !prefixes_overlap(prefix, other_prefix),
    ensures
        view_of(after[other_shard], other_prefix) == view_of(before[other_shard], other_prefix),
        range_keys(after[other_shard], other_prefix) == range_keys(
            before[other_shard],
            other_prefix,
        ),
        listing_of(after[other_shard], other_prefix) == listing_of(
            before[other_shard],
            other_prefix,
        ),
{
    if other_shard == shard {
        let a = before[shard];
        let b = after[shard];
        assert forall|k: Seq<u8>| other_prefix.is_prefix_of(k) implies (a.dom().contains(k)
            == b.dom().contains(k)) && (a.dom().contains(k) ==> a[k] == b[k]) by {
            if prefix.is_prefix_of(k) {
                lemma_disjoint_ranges(prefix, other_prefix, k);
            }
        }
        assert forall|k: Seq<u8>| a.dom().contains(other_prefix + k) == b.dom().contains(
            other_prefix + k,
        ) && (a.dom().contains(other_prefix + k) ==> a[other_prefix + k] == b[other_prefix + k]) by {
            assert((other_prefix + k).subrange(0, other_prefix.len() as int) =~= other_prefix);
            assert(other_prefix.is_prefix_of(other_prefix + k));
        }
        assert(view_of(b, other_prefix) =~= view_of(a, other_prefix));
        lemma_scan_agree(a, b, other_prefix, None);
    }
}

/// Keys of one instance are listed in the byte order of the keys as the
/// user wrote them, each once, with what is stored under it.
pub proof fn lemma_listing(store: Store, prefix: Seq<u8>)
    requires
        store.dom().finite(),
    ensures
        listing_of(store, prefix).len() == view_of(store, prefix).dom().len(),
        forall|i: int|
            0 <= i < listing_of(store, prefix).len() ==> {
                let e = #[trigger] listing_of(store, prefix)[i];
                view_of(store, prefix).dom().contains(e.0) && view_of(store, prefix)[e.0] == e.1
            },
        forall|i: int, j: int|
            0 <= i < j < listing_of(store, prefix).len() ==> lex_lt(
                (#[trigger] listing_of(store, prefix)[i]).0,
                (#[trigger] listing_of(store, prefix)[j]).0,
            ),
        forall|k: Seq<u8>|
            view_of(store, prefix).dom().contains(k) ==> exists|i: int|
                0 <= i < listing_of(store, prefix).len() && (#[trigger] listing_of(
                    store,
                    prefix,
                )[i]).0 == k,
{
    let raw = scan_from(store, prefix, None);
    let out = listing_of(store, prefix);
    let n = prefix.len() as int;
    lemma_scan_len(store, prefix, None);
    lemma_view_len(store, prefix);
    lemma_scan_listing(store, prefix, None);
    assert forall|i: int| 0 <= i < out.len() implies {
        let e = #[trigger] out[i];
        view_of(store, prefix).dom().contains(e.0) && view_of(store, prefix)[e.0] == e.1
    } by {
        let r = raw[i];
        assert(in_scan(store, prefix, None, r.0));
        lemma_prefix_split(prefix, r.0);
    }
    assert forall|i: int, j: int| 0 <= i < j < out.len() implies lex_lt(
        (#[trigger] out[i]).0,
        (#[trigger] out[j]).0,
    ) by {
        let a = raw[i];
        let b = raw[j];
        assert(in_scan(store, prefix, None, a.0));
        assert(in_scan(store, prefix, None, b.0));
        lemma_lex_skip_common(a.0, b.0, n);
    }
    assert forall|k: Seq<u8>| view_of(store, prefix).dom().contains(k) implies exists|i: int|
        0 <= i < out.len() && (#[trigger] out[i]).0 == k by {
        assert((prefix + k).subrange(0, n) =~= prefix);
        assert(in_scan(store, prefix, None, prefix + k));
        let i = choose|i: int| 0 <= i < raw.len() && (#[trigger] raw[i]).0 == prefix + k;
        assert(out[i].0 =~= k);
    }
}

} // verus!
