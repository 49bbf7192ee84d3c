//! The ordered walk over one key range, as a mathematical object: the keys
//! that a scan covers, the least of them, and the listing that visiting them
//! in ascending byte order gives.

use vstd::prelude::*;
use vstd::set_lib::lemma_len_subset;
use crate::bytes::{
    lemma_lex_asymmetric, lemma_lex_irreflexive, lemma_lex_total, lemma_lex_transitive, lex_lt,
};
use crate::engine::{in_scan, is_first_in_scan, Store};

verus! {

/// A raw key with the bytes stored under it.
pub type RawEntry = (Seq<u8>, Seq<u8>);

/// The keys that a scan below `prefix` still has to visit after `after`.
pub open spec fn scan_keys(store: Store, prefix: Seq<u8>, after: Option<Seq<u8>>) -> Set<Seq<u8>> {
    Set::new(|k: Seq<u8>| in_scan(store, prefix, after, k))
}

/// All keys of `store` that start with `prefix`.
pub open spec fn range_keys(store: Store, prefix: Seq<u8>) -> Set<Seq<u8>> {
    scan_keys(store, prefix, None)
}

/// The scan has a key left to visit.
pub open spec fn has_first(store: Store, prefix: Seq<u8>, after: Option<Seq<u8>>) -> bool {
    exists|k: Seq<u8>| is_first_in_scan(store, prefix, after, k)
}

/// The key that the scan visits next.
pub open spec fn first_key(store: Store, prefix: Seq<u8>, after: Option<Seq<u8>>) -> Seq<u8> {
    choose|k: Seq<u8>| is_first_in_scan(store, prefix, after, k)
}

/// The entries below `prefix` that sort after `after`, in ascending byte
/// order of their raw keys.
pub open spec fn scan_from(store: Store, prefix: Seq<u8>, after: Option<Seq<u8>>) -> Seq<RawEntry>
    decreases scan_keys(store, prefix, after).len(),
    when store.dom().finite()
    via scan_from_decreases
{
    if has_first(store, prefix, after) {
        let k = first_key(store, prefix, after);
        seq![(k, store[k])] + scan_from(store, prefix, Some(k))
    } else {
        Seq::empty()
    }
}

#[via_fn]
proof fn scan_from_decreases(store: Store, prefix: Seq<u8>, after: Option<Seq<u8>>) {
    if has_first(store, prefix, after) {
        let k = first_key(store, prefix, after);
        lemma_scan_step(store, prefix, after, k);
    }
}

/// The keys of a scan are keys of the store, so there are finitely many.
pub proof fn lemma_scan_keys_finite(store: Store, prefix: Seq<u8>, after: Option<Seq<u8>>)
    requires
        store.dom().finite(),
    ensures
        scan_keys(store, prefix, after).finite(),
        scan_keys(store, prefix, after).len() <= store.dom().len(),
{
    lemma_len_subset(scan_keys(store, prefix, after), store.dom());
}

/// Visiting the least key leaves exactly the other keys of the scan.
pub proof fn lemma_scan_step(store: Store, prefix: Seq<u8>, after: Option<Seq<u8>>, k: Seq<u8>)
    requires
        store.dom().finite(),
        is_first_in_scan(store, prefix, after, k),
    ensures
        scan_keys(store, prefix, Some(k)) == scan_keys(store, prefix, after).remove(k),
        scan_keys(store, prefix, after).contains(k),
        scan_keys(store, prefix, after).finite(),
        scan_keys(store, prefix, Some(k)).len() + 1 == scan_keys(store, prefix, after).len(),
{
    let old_keys = scan_keys(store, prefix, after);
    let new_keys = scan_keys(store, prefix, Some(k));
    lemma_scan_keys_finite(store, prefix, after);
    assert forall|x: Seq<u8>| new_keys.contains(x) == old_keys.remove(k).contains(x) by {
        if new_keys.contains(x) {
            lemma_lex_irreflexive(k);
            if after is Some {
                lemma_lex_transitive(after->0, k, x);
            }
        }
        if old_keys.remove(k).contains(x) {
            assert(in_scan(store, prefix, after, x));
        }
    }
    assert(new_keys =~= old_keys.remove(k));
}

/// A scan has at most one least key.
pub proof fn lemma_first_unique(
    store: Store,
    prefix: Seq<u8>,
    after: Option<Seq<u8>>,
    k1: Seq<u8>,
    k2: Seq<u8>,
)
    requires
        is_first_in_scan(store, prefix, after, k1),
        is_first_in_scan(store, prefix, after, k2),
    ensures
        k1 == k2,
{
    if k1 != k2 {
        assert(in_scan(store, prefix, after, k1));
        assert(in_scan(store, prefix, after, k2));
        lemma_lex_asymmetric(k1, k2);
    }
}

/// A finite set of byte strings that is not empty has a least member.
pub proof fn lemma_least_exists(s: Set<Seq<u8>>)
    requires
        s.finite(),
        s.len() > 0,
    ensures
        exists|m: Seq<u8>|
            s.contains(m) && forall|x: Seq<u8>| #[trigger] s.contains(x) ==> x == m || lex_lt(m, x),
    decreases s.len(),
{
    let e = s.choose();
    let rest = s.remove(e);
    if rest.len() == 0 {
        assert forall|x: Seq<u8>| #[trigger] s.contains(x) implies x == e || lex_lt(e, x) by {
            if x != e {
                assert(rest.contains(x));
            }
        }
    } else {
        lemma_least_exists(rest);
        let m0 = choose|m: Seq<u8>|
            rest.contains(m) && forall|x: Seq<u8>| #[trigger]
                rest.contains(x) ==> x == m || lex_lt(m, x);
        let m = if lex_lt(e, m0) {
            e
        } else {
            m0
        };
        assert forall|x: Seq<u8>| #[trigger] s.contains(x) implies x == m || lex_lt(m, x) by {
            lemma_lex_total(e, m0);
            if x != e {
                assert(rest.contains(x));
                if lex_lt(e, m0) && x != m0 {
                    lemma_lex_transitive(e, m0, x);
                }
            }
        }
        assert(s.contains(m));
    }
}

/// A scan with a key left has a least key.
pub proof fn lemma_has_first(store: Store, prefix: Seq<u8>, after: Option<Seq<u8>>)
    requires
        store.dom().finite(),
    ensures
        has_first(store, prefix, after) == (scan_keys(store, prefix, after).len() > 0),
        has_first(store, prefix, after) ==> is_first_in_scan(
            store,
            prefix,
            after,
            first_key(store, prefix, after),
        ),
{
    let keys = scan_keys(store, prefix, after);
    lemma_scan_keys_finite(store, prefix, after);
    if keys.len() > 0 {
        lemma_least_exists(keys);
        let m = choose|m: Seq<u8>|
            keys.contains(m) && forall|x: Seq<u8>| #[trigger]
                keys.contains(x) ==> x == m || lex_lt(m, x);
        assert forall|x: Seq<u8>| #[trigger] in_scan(store, prefix, after, x) implies x == m
            || lex_lt(m, x) by {
            assert(keys.contains(x));
        }
        assert(is_first_in_scan(store, prefix, after, m));
    } else {
        if has_first(store, prefix, after) {
            let k = first_key(store, prefix, after);
            assert(keys.contains(k));
        }
    }
}

/// What a scan lists once its least key is known.
pub proof fn lemma_scan_unfold(store: Store, prefix: Seq<u8>, after: Option<Seq<u8>>, k: Seq<u8>)
    requires
        store.dom().finite(),
        is_first_in_scan(store, prefix, after, k),
    ensures
        scan_from(store, prefix, after) == seq![(k, store[k])] + scan_from(store, prefix, Some(k)),
{
    lemma_first_unique(store, prefix, after, k, first_key(store, prefix, after));
}

/// A scan with no key left lists nothing.
pub proof fn lemma_scan_done(store: Store, prefix: Seq<u8>, after: Option<Seq<u8>>)
    requires
        store.dom().finite(),
        forall|x: Seq<u8>| !in_scan(store, prefix, after, x),
    ensures
        scan_from(store, prefix, after) == Seq::<RawEntry>::empty(),
{
    if has_first(store, prefix, after) {
        let k = first_key(store, prefix, after);
        assert(in_scan(store, prefix, after, k));
    }
}

/// The listing holds one entry for each key of the scan.
pub proof fn lemma_scan_len(store: Store, prefix: Seq<u8>, after: Option<Seq<u8>>)
    requires
        store.dom().finite(),
    ensures
        scan_from(store, prefix, after).len() == scan_keys(store, prefix, after).len(),
    decreases scan_keys(store, prefix, after).len(),
{
    lemma_has_first(store, prefix, after);
    if has_first(store, prefix, after) {
        let k = first_key(store, prefix, after);
        lemma_scan_step(store, prefix, after, k);
        lemma_scan_len(store, prefix, Some(k));
    }
}

/// Every entry of the listing is an entry of the store within the scan, the
/// keys ascend strictly, and every key of the scan is listed.
pub proof fn lemma_scan_listing(store: Store, prefix: Seq<u8>, after: Option<Seq<u8>>)
    requires
        store.dom().finite(),
    ensures
        forall|i: int|
            0 <= i < scan_from(store, prefix, after).len() ==> {
                let e = #[trigger] scan_from(store, prefix, after)[i];
                in_scan(store, prefix, after, e.0) && e.1 == store[e.0]
            },
        forall|i: int, j: int|
            0 <= i < j < scan_from(store, prefix, after).len() ==> lex_lt(
                (#[trigger] scan_from(store, prefix, after)[i]).0,
                (#[trigger] scan_from(store, prefix, after)[j]).0,
            ),
        forall|k: Seq<u8>|
            in_scan(store, prefix, after, k) ==> exists|i: int|
                0 <= i < scan_from(store, prefix, after).len() && (#[trigger] scan_from(
                    store,
                    prefix,
                    after,
                )[i]).0 == k,
    decreases scan_keys(store, prefix, after).len(),
{
    let all = scan_from(store, prefix, after);
    lemma_has_first(store, prefix, after);
    if has_first(store, prefix, after) {
        let k = first_key(store, prefix, after);
        let rest = scan_from(store, prefix, Some(k));
        lemma_scan_step(store, prefix, after, k);
        lemma_scan_listing(store, prefix, Some(k));
        assert(all == seq![(k, store[k])] + rest);
        assert forall|i: int| 0 <= i < all.len() implies {
            let e = #[trigger] all[i];
            in_scan(store, prefix, after, e.0) && e.1 == store[e.0]
        } by {
            if i > 0 {
                let e = rest[i - 1];
                assert(all[i] == e);
                assert(in_scan(store, prefix, Some(k), e.0));
                assert(scan_keys(store, prefix, Some(k)).contains(e.0));
                assert(scan_keys(store, prefix, after).contains(e.0));
            }
        }
        assert forall|i: int, j: int| 0 <= i < j < all.len() implies lex_lt(
            (#[trigger] all[i]).0,
            (#[trigger] all[j]).0,
        ) by {
            assert(all[j] == rest[j - 1]);
            if i > 0 {
                assert(all[i] == rest[i - 1]);
            } else {
                assert(in_scan(store, prefix, Some(k), rest[j - 1].0));
            }
        }
        assert forall|x: Seq<u8>| in_scan(store, prefix, after, x) implies exists|i: int|
            0 <= i < all.len() && (#[trigger] all[i]).0 == x by {
            if x == k {
                assert(all[0].0 == x);
            } else {
                assert(scan_keys(store, prefix, after).remove(k).contains(x));
                assert(scan_keys(store, prefix, Some(k)).contains(x));
                assert(in_scan(store, prefix, Some(k), x));
                let i = choose|i: int| 0 <= i < rest.len() && (#[trigger] rest[i]).0 == x;
                assert(all[i + 1] == rest[i]);
            }
        }
    } else {
        lemma_scan_keys_finite(store, prefix, after);
        scan_keys(store, prefix, after).lemma_len0_is_empty();
        assert forall|x: Seq<u8>| !in_scan(store, prefix, after, x) by {
            if in_scan(store, prefix, after, x) {
                assert(scan_keys(store, prefix, after).contains(x));
            }
        }
    }
}

/// Two stores that agree on every key below `prefix` list the same entries
/// there.
pub proof fn lemma_scan_agree(s1: Store, s2: Store, prefix: Seq<u8>, after: Option<Seq<u8>>)
    requires
        s1.dom().finite(),
        s2.dom().finite(),
        forall|k: Seq<u8>|
            prefix.is_prefix_of(k) ==> (s1.dom().contains(k) == s2.dom().contains(k)) && (
            s1.dom().contains(k) ==> s1[k] == s2[k]),
    ensures
        scan_from(s1, prefix, after) == scan_from(s2, prefix, after),
        scan_keys(s1, prefix, after) == scan_keys(s2, prefix, after),
    decreases scan_keys(s1, prefix, after).len(),
{
    assert(scan_keys(s1, prefix, after) =~= scan_keys(s2, prefix, after));
    lemma_has_first(s1, prefix, after);
    lemma_has_first(s2, prefix, after);
    if has_first(s1, prefix, after) {
        let k = first_key(s1, prefix, after);
        assert forall|x: Seq<u8>| #[trigger] in_scan(s2, prefix, after, x) implies x == k
            || lex_lt(k, x) by {
            assert(in_scan(s1, prefix, after, x));
        }
        assert(is_first_in_scan(s2, prefix, after, k));
        lemma_scan_unfold(s2, prefix, after, k);
        lemma_scan_step(s1, prefix, after, k);
        lemma_scan_agree(s1, s2, prefix, Some(k));
    }
}

} // verus!
