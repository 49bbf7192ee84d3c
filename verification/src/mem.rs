//! A transient engine: one partition kept in memory, for programs and tests
//! that have no storage engine at hand. Nothing in it outlives the value.

use vstd::prelude::*;
use vstd::slice::slice_to_vec;
use crate::bytes::{bytes_eq, bytes_lt, lemma_lex_total, lemma_lex_transitive, starts_with};
use crate::engine::{in_scan, is_first_in_scan, opt_bytes, Engine, Store};

verus! {

/// One stored key with its bytes.
#[derive(Debug)]
pub struct Entry {
    pub key: Vec<u8>,
    pub value: Vec<u8>,
}

/// A partition held in memory: its entries in no particular order, each key
/// at most once.
#[derive(Debug)]
pub struct MemEngine {
    entries: Vec<Entry>,
}

impl MemEngine {
    /// Some entry holds `k`.
    pub closed spec fn has(&self, k: Seq<u8>) -> bool {
        exists|i: int| 0 <= i < self.entries@.len() && (#[trigger] self.entries@[i]).key@ == k
    }

    /// The position of an entry that holds `k`.
    pub closed spec fn index_of(&self, k: Seq<u8>) -> int {
        choose|i: int| 0 <= i < self.entries@.len() && (#[trigger] self.entries@[i]).key@ == k
    }

    /// An engine that holds nothing.
    pub fn new() -> (r: MemEngine)
        ensures
            r.inv(),
            r.view() == Map::<Seq<u8>, Seq<u8>>::empty(),
    {
        let r = MemEngine { entries: Vec::new() };
        assert(r.view() =~= Map::<Seq<u8>, Seq<u8>>::empty());
        r
    }

    /// The position of the entry that holds `key`, if there is one.
    fn find(&self, key: &[u8]) -> (r: Option<usize>)
        requires
            self.inv(),
        ensures
            match r {
                Some(i) => i < self.entries@.len() && self.entries@[i as int].key@ == key@
                    && self.has(key@) && self.index_of(key@) == i,
                None => !self.has(key@),
            },
    {
        let mut i: usize = 0;
        while i < self.entries.len()
            invariant
                i <= self.entries@.len(),
                self.inv(),
                forall|j: int| 0 <= j < i ==> (#[trigger] self.entries@[j]).key@ != key@,
            decreases self.entries@.len() - i,
        {
            if bytes_eq(self.entries[i].key.as_slice(), key) {
                proof {
                    assert(self.entries@[i as int].key@ == key@);
                    assert(self.has(key@));
                    let j = self.index_of(key@);
                    assert(self.entries@[j].key@ == key@);
                    assert(j == i);
                }
                return Some(i);
            }
            i += 1;
        }
        None
    }
}

impl Engine for MemEngine {
    closed spec fn view(&self) -> Store {
        Map::new(|k: Seq<u8>| self.has(k), |k: Seq<u8>| self.entries@[self.index_of(k)].value@)
    }

    closed spec fn inv(&self) -> bool {
        forall|i: int, j: int|
            0 <= i < j < self.entries@.len() ==> (#[trigger] self.entries@[i]).key@ != (
            #[trigger] self.entries@[j]).key@
    }

    /// Nothing held in memory is ever waiting to be written out.
    closed spec fn flushed(&self) -> bool {
        true
    }

    fn get(&self, key: &[u8]) -> (r: Option<Vec<u8>>) {
        match self.find(key) {
            Some(i) => Some(slice_to_vec(self.entries[i].value.as_slice())),
            None => None,
        }
    }

    fn put(&mut self, key: &[u8], value: &[u8]) {
        let ghost before = *self;
        match self.find(key) {
            Some(i) => {
                let e = Entry { key: slice_to_vec(key), value: slice_to_vec(value) };
                self.entries.set(i, e);
                proof {
                    assert forall|k: Seq<u8>| self.has(k) == (before.has(k) || k == key@) by {
                        if before.has(k) {
                            let j = before.index_of(k);
                            assert(self.entries@[j].key@ == k);
                        }
                        if k == key@ {
                            assert(self.entries@[i as int].key@ == k);
                        }
                        if self.has(k) {
                            let j = self.index_of(k);
                            assert(before.entries@[j].key@ == k);
                        }
                    }
                    assert forall|k: Seq<u8>| self.has(k) implies #[trigger] self.view()[k] == (
                    if k == key@ {
                        value@
                    } else {
                        before.view()[k]
                    }) by {
                        let j = self.index_of(k);
                        assert(before.entries@[j].key@ == k);
                        assert(before.has(k));
                        let jb = before.index_of(k);
                        assert(jb == j);
                    }
                    assert(self.view() =~= before.view().insert(key@, value@));
                }
            },
            None => {
                let e = Entry { key: slice_to_vec(key), value: slice_to_vec(value) };
                self.entries.push(e);
                proof {
                    let n = before.entries@.len() as int;
                    assert forall|k: Seq<u8>| self.has(k) == (before.has(k) || k == key@) by {
                        if before.has(k) {
                            let j = before.index_of(k);
                            assert(self.entries@[j].key@ == k);
                        }
                        if k == key@ {
                            assert(self.entries@[n].key@ == k);
                        }
                        if self.has(k) {
                            let j = self.index_of(k);
                            if j < n {
                                assert(before.entries@[j].key@ == k);
                            }
                        }
                    }
                    assert forall|k: Seq<u8>| self.has(k) implies #[trigger] self.view()[k] == (
                    if k == key@ {
                        value@
                    } else {
                        before.view()[k]
                    }) by {
                        let j = self.index_of(k);
                        if j < n {
                            assert(before.entries@[j].key@ == k);
                            assert(before.has(k));
                            let jb = before.index_of(k);
                            assert(jb == j);
                        }
                    }
                    assert(self.view() =~= before.view().insert(key@, value@));
                }
            },
        }
    }

    fn delete(&mut self, key: &[u8]) {
        let ghost before = *self;
        match self.find(key) {
            Some(i) => {
                let _gone = self.entries.remove(i);
                proof {
                    let at = i as int;
                    assert forall|k: Seq<u8>| self.has(k) == (before.has(k) && k != key@) by {
                        if before.has(k) && k != key@ {
                            let j = before.index_of(k);
                            if j < at {
                                assert(self.entries@[j].key@ == k);
                            } else {
                                assert(self.entries@[j - 1].key@ == k);
                            }
                        }
                        if self.has(k) {
                            let j = self.index_of(k);
                            if j < at {
                                assert(before.entries@[j].key@ == k);
                            } else {
                                assert(before.entries@[j + 1].key@ == k);
                            }
                        }
                    }
                    assert forall|k: Seq<u8>| self.has(k) implies #[trigger] self.view()[k]
                        == before.view()[k] by {
                        let j = self.index_of(k);
                        let jb = before.index_of(k);
                        if j < at {
                            assert(before.entries@[j].key@ == k);
                            assert(jb == j);
                        } else {
                            assert(before.entries@[j + 1].key@ == k);
                            assert(jb == j + 1);
                        }
                    }
                    assert(self.view() =~= before.view().remove(key@));
                }
            },
            None => {
                assert(self.view() =~= before.view().remove(key@));
            },
        }
    }

    fn seek(&self, prefix: &[u8], after: Option<&[u8]>) -> (r: Option<(Vec<u8>, Vec<u8>)>) {
        let ghost lower = opt_bytes(after);
        let mut best: Option<usize> = None;
        let mut i: usize = 0;
        while i < self.entries.len()
            invariant
                i <= self.entries@.len(),
                self.inv(),
                lower == opt_bytes(after),
                match best {
                    Some(b) => b < i && in_scan(
                        self.view(),
                        prefix@,
                        lower,
                        self.entries@[b as int].key@,
                    ) && forall|j: int|
                        0 <= j < i && in_scan(
                            self.view(),
                            prefix@,
                            lower,
                            (#[trigger] self.entries@[j]).key@,
                        ) ==> j == b || crate::bytes::lex_lt(
                            self.entries@[b as int].key@,
                            self.entries@[j].key@,
                        ),
                    None => forall|j: int|
                        0 <= j < i ==> !in_scan(
                            self.view(),
                            prefix@,
                            lower,
                            (#[trigger] self.entries@[j]).key@,
                        ),
                },
            decreases self.entries@.len() - i,
        {
            let k = self.entries[i].key.as_slice();
            assert(self.has(k@));
            let above = match after {
                Some(a) => bytes_lt(a, k),
                None => true,
            };
            if above && starts_with(k, prefix) {
                match best {
                    Some(b) => {
                        let kb = self.entries[b].key.as_slice();
                        if bytes_lt(k, kb) {
                            proof {
                                assert forall|j: int|
                                    0 <= j < i + 1 && in_scan(
                                        self.view(),
                                        prefix@,
                                        lower,
                                        (#[trigger] self.entries@[j]).key@,
                                    ) implies j == i || crate::bytes::lex_lt(
                                    k@,
                                    self.entries@[j].key@,
                                ) by {
                                    if j != i && j != b {
                                        lemma_lex_transitive(k@, kb@, self.entries@[j].key@);
                                    }
                                }
                            }
                            best = Some(i);
                        } else {
                            proof {
                                lemma_lex_total(k@, kb@);
                            }
                        }
                    },
                    None => {
                        best = Some(i);
                    },
                }
            }
            i += 1;
        }
        match best {
            Some(b) => {
                let k = slice_to_vec(self.entries[b].key.as_slice());
                let v = slice_to_vec(self.entries[b].value.as_slice());
                proof {
                    assert(self.has(k@));
                    assert(self.index_of(k@) == b);
                    assert forall|x: Seq<u8>| #[trigger]
                        in_scan(self.view(), prefix@, lower, x) implies x == k@
                        || crate::bytes::lex_lt(k@, x) by {
                        let j = self.index_of(x);
                        assert(self.entries@[j].key@ == x);
                    }
                    assert(is_first_in_scan(self.view(), prefix@, lower, k@));
                }
                Some((k, v))
            },
            None => {
                proof {
                    assert forall|x: Seq<u8>| !in_scan(self.view(), prefix@, lower, x) by {
                        if in_scan(self.view(), prefix@, lower, x) {
                            let j = self.index_of(x);
                            assert(self.entries@[j].key@ == x);
                        }
                    }
                }
                None
            },
        }
    }

    fn flush(&mut self) {
    }
}

} // verus!
