//! The storage engine as this library sees it: one partition is a finite map
//! from raw byte keys to stored bytes, read and written one key at a time and
//! walked in ascending byte order of its keys.

use vstd::prelude::*;
use crate::bytes::lex_lt;

verus! {

/// What one partition holds: raw key to stored bytes.
pub type Store = Map<Seq<u8>, Seq<u8>>;

/// The plain value of an optional byte slice.
pub open spec fn opt_bytes(o: Option<&[u8]>) -> Option<Seq<u8>> {
    match o {
        Some(b) => Some(b@),
        None => None,
    }
}

/// `k` is a key of `store` that starts with `prefix` and, where a lower
/// bound is given, sorts strictly after it.
pub open spec fn in_scan(store: Store, prefix: Seq<u8>, after: Option<Seq<u8>>, k: Seq<u8>) -> bool {
    &&& store.dom().contains(k)
    &&& prefix.is_prefix_of(k)
    &&& (after matches Some(a) ==> lex_lt(a, k))
}

/// `k` is the least key of the scan that `prefix` and `after` delimit.
pub open spec fn is_first_in_scan(
    store: Store,
    prefix: Seq<u8>,
    after: Option<Seq<u8>>,
    k: Seq<u8>,
) -> bool {
    &&& in_scan(store, prefix, after, k)
    &&& forall|x: Seq<u8>| #[trigger] in_scan(store, prefix, after, x) ==> x == k || lex_lt(k, x)
}

/// One partition of the backing key-value engine.
///
/// An implementation answers from its own contents alone: a key that was
/// put is found until it is deleted, and `seek` walks the keys in ascending
/// byte order. Everything that this library proves of its collections, it
/// proves of every engine that keeps to the contracts below.
///
/// `view`, `inv` and `flushed` say what an engine holds. A verified engine
/// states them over its own fields, as `MemEngine` does. They carry a body
/// here, which stands for nothing in particular, so that an engine written
/// outside verified code can implement the trait without stating them: of
/// such an engine the contracts are taken on trust.
pub trait Engine: Sized {
    /// The contents of the partition.
    open spec fn view(&self) -> Store {
        arbitrary()
    }

    /// What the implementation needs to hold of its own representation.
    open spec fn inv(&self) -> bool {
        arbitrary()
    }

    /// Every write so far has reached durable storage.
    open spec fn flushed(&self) -> bool {
        arbitrary()
    }

    /// The bytes stored under `key`, if any.
    fn get(&self, key: &[u8]) -> (r: Option<Vec<u8>>)
        requires
            self.inv(),
            self.view().dom().finite(),
        ensures
            r is Some == self.view().dom().contains(key@),
            r matches Some(v) ==> v@ == self.view()[key@],
    ;

    /// Stores `value` under `key`, replacing what was there.
    fn put(&mut self, key: &[u8], value: &[u8])
        requires
            old(self).inv(),
            old(self).view().dom().finite(),
        ensures
            final(self).inv(),
            final(self).view() == old(self).view().insert(key@, value@),
    ;

    /// Removes `key` and what is stored under it.
    fn delete(&mut self, key: &[u8])
        requires
            old(self).inv(),
            old(self).view().dom().finite(),
        ensures
            final(self).inv(),
            final(self).view() == old(self).view().remove(key@),
    ;

    /// The entry with the least key that starts with `prefix` and sorts
    /// strictly after `after`, or `None` where no key does.
    fn seek(&self, prefix: &[u8], after: Option<&[u8]>) -> (r: Option<(Vec<u8>, Vec<u8>)>)
        requires
            self.inv(),
            self.view().dom().finite(),
        ensures
            match r {
                Some((k, v)) => is_first_in_scan(self.view(), prefix@, opt_bytes(after), k@)
                    && v@ == self.view()[k@],
                None => forall|x: Seq<u8>| !in_scan(self.view(), prefix@, opt_bytes(after), x),
            },
    ;

    /// Forces what was written so far to durable storage; the contents stay
    /// as they are.
    fn flush(&mut self)
        requires
            old(self).inv(),
            old(self).view().dom().finite(),
        ensures
            final(self).inv(),
            final(self).flushed(),
            final(self).view() == old(self).view(),
    ;
}

} // verus!
