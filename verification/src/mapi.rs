//! The map of the in-memory variant: the same operations as the namespaced
//! map, on entries that live in the value itself. Nothing is stored, no
//! partition is involved, and the entries are walked in the order in which
//! their keys were first inserted.

use vstd::prelude::*;
use vstd::slice::slice_to_vec;
use vstd::string::StringExecFns;
use crate::bytes::bytes_eq;
use crate::mem::Entry;
use crate::namespace::{opt_vec, pairs_view, zip_equal, Pair};

verus! {

/// A map from byte keys to byte values, kept in memory.
#[derive(Debug)]
pub struct Mapi {
    path: String,
    entries: Vec<Entry>,
}

/// The position of the first entry of `listing` with key `key`; the length
/// of `listing` where there is none.
pub open spec fn find_key(listing: Seq<Pair>, key: Seq<u8>) -> int
    decreases listing.len(),
{
    if listing.len() == 0 {
        0
    } else if listing[0].0 == key {
        0
    } else {
        1 + find_key(listing.drop_first(), key)
    }
}

/// What `listing` holds under `key`.
pub open spec fn lookup_in(listing: Seq<Pair>, key: Seq<u8>) -> Option<Seq<u8>> {
    if find_key(listing, key) < listing.len() {
        Some(listing[find_key(listing, key)].1)
    } else {
        None
    }
}

/// `listing` after `value` was stored under `key`: in the place of the
/// key's entry, or at the end where the key is new.
pub open spec fn put_in(listing: Seq<Pair>, key: Seq<u8>, value: Seq<u8>) -> Seq<Pair> {
    if find_key(listing, key) < listing.len() {
        listing.update(find_key(listing, key), (key, value))
    } else {
        listing.push((key, value))
    }
}

/// `listing` without the entry of `key`, the others in their order.
pub open spec fn take_out(listing: Seq<Pair>, key: Seq<u8>) -> Seq<Pair> {
    if find_key(listing, key) < listing.len() {
        listing.remove(find_key(listing, key))
    } else {
        listing
    }
}

/// No key occurs twice in `listing`.
pub open spec fn unique_keys(listing: Seq<Pair>) -> bool {
    forall|i: int, j: int|
        0 <= i < j < listing.len() ==> (#[trigger] listing[i]).0 != (#[trigger] listing[j]).0
}

/// `find_key` gives a position within the listing or its length; nothing
/// before that position has the key, and the entry there has it.
pub proof fn lemma_find_key(listing: Seq<Pair>, key: Seq<u8>)
    ensures
        0 <= find_key(listing, key) <= listing.len(),
        forall|j: int| 0 <= j < find_key(listing, key) ==> (#[trigger] listing[j]).0 != key,
        find_key(listing, key) < listing.len() ==> listing[find_key(listing, key)].0 == key,
    decreases listing.len(),
{
    if listing.len() > 0 && listing[0].0 != key {
        let rest = listing.drop_first();
        lemma_find_key(rest, key);
        assert forall|j: int| 0 <= j < find_key(listing, key) implies (#[trigger] listing[j]).0
            != key by {
            if j > 0 {
                assert(listing[j] == rest[j - 1]);
            }
        }
    }
}

/// A position that has the key, with none before it that has, is the
/// position that `find_key` gives.
pub proof fn lemma_found_at(listing: Seq<Pair>, key: Seq<u8>, at: int)
    requires
        0 <= at <= listing.len(),
        forall|j: int| 0 <= j < at ==> (#[trigger] listing[j]).0 != key,
        at < listing.len() ==> listing[at].0 == key,
    ensures
        find_key(listing, key) == at,
{
    lemma_find_key(listing, key);
    let f = find_key(listing, key);
    if f < at {
        assert(listing[f].0 != key);
    }
}

/// What was stored under a key is found under it; the number of entries
/// grows by one for a new key and stays for a known one; keys stay unique;
/// and storing the same once more changes nothing.
pub proof fn lemma_put_in(listing: Seq<Pair>, key: Seq<u8>, value: Seq<u8>)
    requires
        unique_keys(listing),
    ensures
        lookup_in(put_in(listing, key, value), key) == Some(value),
        put_in(listing, key, value).len() == listing.len() + (if lookup_in(listing, key) is None {
            1int
        } else {
            0int
        }),
        unique_keys(put_in(listing, key, value)),
        put_in(put_in(listing, key, value), key, value) == put_in(listing, key, value),
        forall|other: Seq<u8>|
            other != key ==> lookup_in(put_in(listing, key, value), other) == lookup_in(
                listing,
                other,
            ),
{
    let after = put_in(listing, key, value);
    let f = find_key(listing, key);
    lemma_find_key(listing, key);
    lemma_found_at(after, key, f);
    assert(unique_keys(after));
    assert(put_in(after, key, value) =~= after);
    assert forall|other: Seq<u8>| other != key implies lookup_in(after, other) == lookup_in(
        listing,
        other,
    ) by {
        lemma_find_key(listing, other);
        let g = find_key(listing, other);
        if g < listing.len() {
            lemma_found_at(after, other, g);
        } else {
            lemma_found_at(after, other, after.len() as int);
        }
    }
}

/// A key that was removed is not found any more; the number of entries
/// falls by one if the key was there; keys stay unique; and every other key
/// finds what it found.
pub proof fn lemma_take_out(listing: Seq<Pair>, key: Seq<u8>)
    requires
        unique_keys(listing),
    ensures
        lookup_in(take_out(listing, key), key) == None::<Seq<u8>>,
        take_out(listing, key).len() == listing.len() - (if lookup_in(listing, key) is Some {
            1int
        } else {
            0int
        }),
        unique_keys(take_out(listing, key)),
        forall|other: Seq<u8>|
            other != key ==> lookup_in(take_out(listing, key), other) == lookup_in(listing, other),
{
    let after = take_out(listing, key);
    let f = find_key(listing, key);
    lemma_find_key(listing, key);
    assert forall|j: int| 0 <= j < after.len() implies (#[trigger] after[j]).0 != key by {
        if f < listing.len() {
            if j < f {
                assert(after[j] == listing[j]);
            } else {
                assert(after[j] == listing[j + 1]);
            }
        }
    }
    lemma_found_at(after, key, after.len() as int);
    assert forall|i: int, j: int| 0 <= i < j < after.len() implies (#[trigger] after[i]).0 != (
    #[trigger] after[j]).0 by {
        if f < listing.len() {
            let a = if i < f {
                i
            } else {
                i + 1
            };
            let b = if j < f {
                j
            } else {
                j + 1
            };
            assert(after[i] == listing[a]);
            assert(after[j] == listing[b]);
        }
    }
    assert forall|other: Seq<u8>| other != key implies lookup_in(after, other) == lookup_in(
        listing,
        other,
    ) by {
        lemma_find_key(listing, other);
        let g = find_key(listing, other);
        if f < listing.len() {
            let h = if g < f {
                g
            } else {
                g - 1
            };
            assert forall|j: int| 0 <= j < h implies (#[trigger] after[j]).0 != other by {
                if j < f {
                    assert(after[j] == listing[j]);
                } else {
                    assert(after[j] == listing[j + 1]);
                }
            }
            if g < listing.len() {
                assert(after[h] == listing[g]);
            }
            lemma_found_at(after, other, h);
        }
    }
}

impl Mapi {
    /// The entries in the order in which a cursor visits them.
    pub closed spec fn listing(&self) -> Seq<Pair> {
        Seq::new(self.entries@.len(), |i: int| (self.entries@[i].key@, self.entries@[i].value@))
    }

    /// The path that the map was made for.
    pub closed spec fn spec_path(&self) -> Seq<char> {
        self.path@
    }

    /// An empty map for `path`.
    pub fn new(path: &str) -> (r: Mapi)
        ensures
            r.listing() == Seq::<Pair>::empty(),
            r.spec_path() == path@,
    {
        let r = Mapi { path: String::from_str(path), entries: Vec::new() };
        assert(r.listing() =~= Seq::<Pair>::empty());
        r
    }

    /// Get the storage path
    pub fn get_path(&self) -> (r: &str)
        ensures
            r@ == self.spec_path(),
    {
        self.path.as_str()
    }

    /// The position of the entry of `key`, or the number of entries.
    fn find(&self, key: &[u8]) -> (r: usize)
        ensures
            r == find_key(self.listing(), key@),
            r <= self.entries@.len(),
            self.listing().len() == self.entries@.len(),
    {
        let mut i: usize = 0;
        while i < self.entries.len()
            invariant
                i <= self.entries@.len(),
                forall|j: int| 0 <= j < i ==> (#[trigger] self.listing()[j]).0 != key@,
            decreases self.entries@.len() - i,
        {
            if bytes_eq(self.entries[i].key.as_slice(), key) {
                proof {
                    lemma_found_at(self.listing(), key@, i as int);
                }
                return i;
            }
            assert(self.listing()[i as int].0 != key@);
            i += 1;
        }
        proof {
            lemma_found_at(self.listing(), key@, i as int);
        }
        i
    }

    /// The bytes stored under `key`, if any.
    pub fn get(&self, key: &[u8]) -> (r: Option<Vec<u8>>)
        ensures
            opt_vec(r) == lookup_in(self.listing(), key@),
    {
        let i = self.find(key);
        if i < self.entries.len() {
            Some(slice_to_vec(self.entries[i].value.as_slice()))
        } else {
            None
        }
    }

    /// The number of entries.
    pub fn len(&self) -> (r: usize)
        ensures
            r == self.listing().len(),
    {
        self.entries.len()
    }

    /// Whether the map has no entry.
    pub fn is_empty(&self) -> (r: bool)
        ensures
            r == (self.listing().len() == 0),
    {
        self.entries.len() == 0
    }

    /// Stores `value` under `key` and returns what was stored there before.
    pub fn insert(&mut self, key: &[u8], value: &[u8]) -> (r: Option<Vec<u8>>)
        ensures
            final(self).listing() == put_in(old(self).listing(), key@, value@),
            final(self).spec_path() == old(self).spec_path(),
            opt_vec(r) == lookup_in(old(self).listing(), key@),
    {
        let i = self.find(key);
        let e = Entry { key: slice_to_vec(key), value: slice_to_vec(value) };
        if i < self.entries.len() {
            let was = slice_to_vec(self.entries[i].value.as_slice());
            self.entries.set(i, e);
            assert(self.listing() =~= put_in(old(self).listing(), key@, value@));
            Some(was)
        } else {
            self.entries.push(e);
            assert(self.listing() =~= put_in(old(self).listing(), key@, value@));
            None
        }
    }

    /// Whether `key` has an entry.
    pub fn contains_key(&self, key: &[u8]) -> (r: bool)
        ensures
            r == (lookup_in(self.listing(), key@) is Some),
    {
        self.find(key) < self.entries.len()
    }

    /// Removes the entry of `key` and returns what was stored under it.
    pub fn remove(&mut self, key: &[u8]) -> (r: Option<Vec<u8>>)
        ensures
            final(self).listing() == take_out(old(self).listing(), key@),
            final(self).spec_path() == old(self).spec_path(),
            opt_vec(r) == lookup_in(old(self).listing(), key@),
    {
        let i = self.find(key);
        if i < self.entries.len() {
            let gone = self.entries.remove(i);
            assert(self.listing() =~= take_out(old(self).listing(), key@));
            Some(gone.value)
        } else {
            None
        }
    }

    /// All entries, in the order in which their keys were first inserted.
    pub fn entries(&self) -> (r: Vec<(Vec<u8>, Vec<u8>)>)
        ensures
            pairs_view(r@) == self.listing(),
    {
        let mut out: Vec<(Vec<u8>, Vec<u8>)> = Vec::new();
        let mut i: usize = 0;
        while i < self.entries.len()
            invariant
                i <= self.entries@.len(),
                out@.len() == i,
                forall|j: int|
                    0 <= j < i ==> (#[trigger] out@[j]).0@ == self.entries@[j].key@ && out@[j].1@
                        == self.entries@[j].value@,
            decreases self.entries@.len() - i,
        {
            let k = slice_to_vec(self.entries[i].key.as_slice());
            let v = slice_to_vec(self.entries[i].value.as_slice());
            out.push((k, v));
            i += 1;
        }
        assert(pairs_view(out@) =~= self.listing());
        out
    }

    /// Whether this map and `other` hold equal entries at equal positions
    /// for as long as both have one.
    pub fn eq(&self, other: &Mapi) -> (r: bool)
        ensures
            r == zip_equal(self.listing(), other.listing()),
    {
        let mut i: usize = 0;
        while i < self.entries.len() && i < other.entries.len()
            invariant
                i <= self.entries@.len(),
                i <= other.entries@.len(),
                forall|j: int| 0 <= j < i ==> self.listing()[j] == other.listing()[j],
            decreases self.entries@.len() - i,
        {
            if !bytes_eq(self.entries[i].key.as_slice(), other.entries[i].key.as_slice())
                || !bytes_eq(self.entries[i].value.as_slice(), other.entries[i].value.as_slice()) {
                assert(self.listing()[i as int] != other.listing()[i as int]);
                return false;
            }
            i += 1;
        }
        true
    }
}

} // verus!
