//! The sequence: a list of byte values kept in the pool, each under the
//! bytes of its index. Its elements are read by index, so they come in the
//! order of their positions whatever the byte order of the stored keys.

use vstd::prelude::*;
use vstd::set_lib::{lemma_int_range, lemma_map_size, lemma_subset_equality, set_int_range};
use crate::codec::{
    le_bytes, le_value, lemma_le_bytes_len, lemma_le_bytes_of_value, lemma_le_value_of_bytes,
};
use crate::engine::Engine;
use crate::error::Error;
use crate::mapx::Mapx;
use crate::mapxnk::Mapxnk;
use crate::meta::resolve;
use crate::namespace::{
    confined, lemma_apply_confined, lemma_confined_chain, lemma_view_len, opt_vec, Op,
};
use crate::numkey::{lemma_word_width, word_width, NumKey};
use crate::pool::{path_bytes, shard_of, ShardPool};
use crate::scan::range_keys;

verus! {

/// A list of byte values, kept in the pool.
#[derive(Debug)]
pub struct Vecx {
    inner: Mapxnk<usize>,
}

/// A cursor over the elements of a `Vecx`, first to last.
pub struct VecxIter<'a> {
    hdr: &'a Vecx,
    at: usize,
}

/// The key under which the element at position `i` is stored.
pub open spec fn index_key(i: nat) -> Seq<u8> {
    le_bytes(i, word_width())
}

/// `k` is the key of a position below `n`.
pub open spec fn in_bounds(k: Seq<u8>, n: nat) -> bool {
    k.len() == word_width() && le_value(k) < n
}

/// The keys of `m` are the keys of the positions below `n`, all of them and
/// no other.
pub open spec fn holds_positions(m: Map<Seq<u8>, Seq<u8>>, n: nat) -> bool {
    forall|k: Seq<u8>| m.dom().contains(k) <==> in_bounds(k, n)
}

/// Every position below `n` has a key in `m`.
pub open spec fn contiguous(m: Map<Seq<u8>, Seq<u8>>, n: nat) -> bool {
    forall|i: nat| i < n ==> m.dom().contains(#[trigger] index_key(i))
}

/// The values of `m` at the positions below `n`, in the order of the
/// positions.
pub open spec fn elements_of(m: Map<Seq<u8>, Seq<u8>>, n: nat) -> Seq<Seq<u8>> {
    Seq::new(n, |i: int| m[index_key(i as nat)])
}

/// The plain values of a vector of byte vectors.
pub open spec fn values_view(v: Seq<Vec<u8>>) -> Seq<Seq<u8>> {
    Seq::new(v.len(), |i: int| v[i]@)
}

/// The key of a position is in bounds exactly below the positions after
/// it, and a key in bounds is the key of the position that it spells.
pub proof fn lemma_index_key(i: nat, n: nat, k: Seq<u8>)
    requires
        i <= usize::MAX,
    ensures
        index_key(i).len() == word_width(),
        le_value(index_key(i)) == i,
        in_bounds(index_key(i), n) == (i < n),
        in_bounds(k, n) ==> k == index_key(le_value(k)),
        index_key(i) == (i as usize).spec_to_bytes(),
{
    lemma_word_width();
    lemma_le_bytes_len(i, word_width());
    lemma_le_value_of_bytes(i, word_width());
    lemma_le_bytes_of_value(k);
}

/// A map of `n` keys that has a key for every position below `n` has no
/// other key.
pub proof fn lemma_contiguous_holds_positions(m: Map<Seq<u8>, Seq<u8>>, n: nat)
    requires
        n <= usize::MAX,
        m.dom().finite(),
        m.dom().len() == n,
        contiguous(m, n),
    ensures
        holds_positions(m, n),
{
    let f = |i: int| index_key(i as nat);
    let range = set_int_range(0, n as int);
    let keys = Set::new(|k: Seq<u8>| in_bounds(k, n));
    lemma_int_range(0, n as int);
    assert forall|a: int, b: int|
        range.contains(a) && range.contains(b) && #[trigger] f(a) == #[trigger] f(b) implies a
        == b by {
        lemma_index_key(a as nat, n, f(a));
        lemma_index_key(b as nat, n, f(b));
    }
    assert forall|k: Seq<u8>| keys.contains(k) == range.map(f).contains(k) by {
        if keys.contains(k) {
            lemma_index_key(0, n, k);
            assert(range.contains(le_value(k) as int));
            assert(f(le_value(k) as int) == k);
        }
        if range.map(f).contains(k) {
            let i = choose|i: int| range.contains(i) && f(i) == k;
            lemma_index_key(i as nat, n, k);
        }
    }
    assert(range.map(f) =~= keys);
    lemma_map_size(range, keys, f);
    assert forall|k: Seq<u8>| keys.contains(k) implies m.dom().contains(k) by {
        lemma_index_key(0, n, k);
        assert(m.dom().contains(index_key(le_value(k))));
    }
    lemma_subset_equality(keys, m.dom());
    assert forall|k: Seq<u8>| m.dom().contains(k) <==> in_bounds(k, n) by {
        assert(keys.contains(k) == in_bounds(k, n));
    }
}

/// The map and the length after the values of `values` were appended to a
/// sequence of length `n`, one after another.
pub open spec fn push_all(m: Map<Seq<u8>, Seq<u8>>, n: nat, values: Seq<Seq<u8>>) -> (
    Map<Seq<u8>, Seq<u8>>,
    nat,
)
    decreases values.len(),
{
    if values.len() == 0 {
        (m, n)
    } else {
        let before = push_all(m, n, values.drop_last());
        (before.0.insert(index_key(before.1), values.last()), before.1 + 1)
    }
}

/// Appending to a whole sequence keeps it whole, and its elements are then
/// the old elements followed by the new ones in the order in which they were
/// appended, whatever the byte order of the keys under which they lie.
pub proof fn lemma_push_order(m: Map<Seq<u8>, Seq<u8>>, n: nat, values: Seq<Seq<u8>>)
    requires
        holds_positions(m, n),
        n + values.len() <= usize::MAX,
    ensures
        push_all(m, n, values).1 == n + values.len(),
        holds_positions(push_all(m, n, values).0, push_all(m, n, values).1),
        elements_of(push_all(m, n, values).0, push_all(m, n, values).1) == elements_of(m, n)
            + values,
    decreases values.len(),
{
    if values.len() == 0 {
        assert(elements_of(m, n) + values =~= elements_of(m, n));
    } else {
        let front = values.drop_last();
        lemma_push_order(m, n, front);
        let before = push_all(m, n, front);
        let after = push_all(m, n, values);
        let c = before.1;
        assert(c == n + front.len());
        assert(after.1 == c + 1);
        assert(after.0 == before.0.insert(index_key(c), values.last()));
        assert forall|k: Seq<u8>| after.0.dom().contains(k) <==> in_bounds(k, after.1) by {
            lemma_index_key(c, after.1, k);
            lemma_index_key(c, c, k);
            assert(before.0.dom().contains(k) <==> in_bounds(k, c));
            if k != index_key(c) {
                if in_bounds(k, after.1) && !in_bounds(k, c) {
                    assert(le_value(k) == c);
                    assert(k == index_key(c));
                }
            }
        }
        assert forall|i: int| 0 <= i < after.1 implies #[trigger] elements_of(after.0, after.1)[i]
            == (elements_of(m, n) + values)[i] by {
            lemma_index_key(i as nat, c, index_key(c));
            lemma_index_key(c, c, index_key(i as nat));
            if i < c {
                assert(elements_of(before.0, c)[i] == (elements_of(m, n) + front)[i]);
            }
        }
        assert(elements_of(after.0, after.1) =~= elements_of(m, n) + values);
    }
}

impl Vecx {
    /// The map that holds the elements under their positions.
    pub closed spec fn raw(&self) -> Mapx {
        self.inner.raw()
    }

    /// The number of elements.
    pub open spec fn count(&self) -> nat {
        self.raw().count()
    }

    /// The sequence is whole: it has an element at every position below its
    /// length and nothing else, and its length is counted right.
    pub open spec fn indexed<E: Engine>(&self, pool: &ShardPool<E>) -> bool {
        &&& self.raw().counted(pool)
        &&& holds_positions(self.raw().view(pool), self.count())
    }

    /// The elements, first to last.
    pub open spec fn elements<E: Engine>(&self, pool: &ShardPool<E>) -> Seq<Seq<u8>> {
        elements_of(self.raw().view(pool), self.count())
    }

    /// Opens the sequence at `path`, as `Mapx::load_or_create` opens a map,
    /// and makes sure that it is whole.
    ///
    /// Fails as `Mapx::load_or_create` does, and with `Error::Decode` where
    /// a position below the length has no element.
    pub fn load_or_create<E: Engine>(pool: &mut ShardPool<E>, path: &str) -> (r: Result<Vecx, Error>)
        requires
            old(pool).wf(),
        ensures
            final(pool).wf(),
            ({
                let idx = shard_of(path_bytes(path@));
                let opened = resolve(old(pool)@[idx], path_bytes(path@));
                &&& final(pool)@ == old(pool)@.update(idx, opened.1)
                &&& match r {
                    Ok(v) => {
                        &&& opened.0 == Ok::<Seq<u8>, Error>(v.raw().prefix())
                        &&& v.raw().shard() == idx
                        &&& v.raw().meta().path@ == path@
                        &&& v.indexed(final(pool))
                    },
                    Err(e) => match opened.0 {
                        Ok(prefix) => if range_keys(opened.1, prefix).len() > usize::MAX {
                            e == Error::Initialization
                        } else {
                            e == Error::Decode && !contiguous(
                                crate::namespace::view_of(opened.1, prefix),
                                range_keys(opened.1, prefix).len(),
                            )
                        },
                        Err(cause) => e == cause,
                    },
                }
            }),
    {
        proof {
            pool.lemma_wf();
        }
        let inner: Mapxnk<usize> = match Mapxnk::load_or_create(pool, path) {
            Ok(m) => m,
            Err(e) => {
                return Err(e);
            },
        };
        let v = Vecx { inner };
        proof {
            pool.lemma_wf();
            let opened = resolve(old(pool)@[shard_of(path_bytes(path@))], path_bytes(path@));
            assert(pool@[v.raw().shard()] == opened.1);
            v.raw().lemma_count_fits();
        }
        if v.check_contiguous(pool) {
            Ok(v)
        } else {
            Err(Error::Decode)
        }
    }

    /// Whether the sequence is whole: whether its length is the number of
    /// its keys and every position below it has an element.
    pub fn check_indexed<E: Engine>(&self, pool: &ShardPool<E>) -> (r: bool)
        requires
            pool.wf(),
        ensures
            r == self.indexed(pool),
    {
        if !self.inner.check_count(pool) {
            return false;
        }
        self.check_contiguous(pool)
    }

    /// Whether every position below the length has an element, given that
    /// the length is counted right.
    fn check_contiguous<E: Engine>(&self, pool: &ShardPool<E>) -> (r: bool)
        requires
            self.raw().counted(pool),
        ensures
            r == contiguous(self.raw().view(pool), self.count()),
            r == self.indexed(pool),
    {
        let n: usize = self.inner.len();
        let ghost m = self.raw().view(pool);
        let mut i: usize = 0;
        while i < n
            invariant
                i <= n,
                pool.wf(),
                n == self.count(),
                m == self.raw().view(pool),
                contiguous(m, i as nat),
            decreases n - i,
        {
            proof {
                lemma_index_key(i as nat, n as nat, index_key(i as nat));
            }
            if !self.inner.contains_key(pool, &i) {
                proof {
                    assert(!m.dom().contains(index_key(i as nat)));
                    assert(!contiguous(m, n as nat));
                    assert(!in_bounds(index_key(i as nat), n as nat) || !holds_positions(
                        m,
                        n as nat,
                    ));
                }
                return false;
            }
            assert forall|j: nat| j < i + 1 implies m.dom().contains(#[trigger] index_key(j)) by {
                if j == i {
                } else {
                    assert(j < i);
                }
            }
            i += 1;
        }
        proof {
            pool.lemma_wf();
            lemma_view_len(pool@[self.raw().shard()], self.raw().prefix());
            lemma_contiguous_holds_positions(m, n as nat);
        }
        true
    }

    /// Get the storage path
    pub fn get_path(&self) -> (r: &str)
        ensures
            r@ == self.raw().meta().path@,
    {
        self.inner.get_path()
    }

    /// The number of elements.
    pub fn len(&self) -> (r: usize)
        ensures
            r == self.count(),
    {
        self.inner.len()
    }

    /// Whether the sequence has no element.
    pub fn is_empty(&self) -> (r: bool)
        ensures
            r == (self.count() == 0),
    {
        self.inner.is_empty()
    }

    /// The element at position `idx`, or `None` past the end.
    pub fn get<E: Engine>(&self, pool: &ShardPool<E>, idx: usize) -> (r: Option<Vec<u8>>)
        requires
            self.indexed(pool),
        ensures
            opt_vec(r) == (if idx < self.count() {
                Some(self.elements(pool)[idx as int])
            } else {
                None
            }),
    {
        proof {
            lemma_index_key(idx as nat, self.count(), index_key(idx as nat));
        }
        self.inner.get(pool, &idx)
    }

    /// Appends `value`.
    pub fn push<E: Engine>(&mut self, pool: &mut ShardPool<E>, value: &[u8])
        requires
            old(self).indexed(old(pool)),
            old(self).count() < usize::MAX,
        ensures
            final(self).raw().meta() == old(self).raw().meta(),
            final(self).indexed(final(pool)),
            final(self).count() == old(self).count() + 1,
            final(self).raw().view(final(pool)) == old(self).raw().view(old(pool)).insert(
                index_key(old(self).count()),
                value@,
            ),
            final(self).elements(final(pool)) == old(self).elements(old(pool)).push(value@),
            confined(old(pool)@, final(pool)@, old(self).raw().shard(), old(self).raw().prefix()),
    {
        let n: usize = self.inner.len();
        self.set(pool, n, value);
    }

    /// Stores `value` at position `idx`: in place of the element there, or
    /// as a new last element where `idx` is the length.
    pub fn set<E: Engine>(&mut self, pool: &mut ShardPool<E>, idx: usize, value: &[u8])
        requires
            old(self).indexed(old(pool)),
            idx <= old(self).count(),
            idx < usize::MAX,
        ensures
            final(self).raw().meta() == old(self).raw().meta(),
            final(self).indexed(final(pool)),
            final(self).count() == (if idx < old(self).count() {
                old(self).count()
            } else {
                old(self).count() + 1
            }),
            final(self).raw().view(final(pool)) == old(self).raw().view(old(pool)).insert(
                index_key(idx as nat),
                value@,
            ),
            final(self).elements(final(pool)) == (if idx < old(self).count() {
                old(self).elements(old(pool)).update(idx as int, value@)
            } else {
                old(self).elements(old(pool)).push(value@)
            }),
            confined(old(pool)@, final(pool)@, old(self).raw().shard(), old(self).raw().prefix()),
    {
        let ghost n = self.count();
        let ghost before = self.raw().view(pool);
        proof {
            lemma_index_key(idx as nat, n, index_key(idx as nat));
            lemma_index_key(idx as nat, n + 1, index_key(idx as nat));
            self.raw().lemma_count_fits();
            assert(before.dom().contains(index_key(idx as nat)) == (idx < n));
            pool.lemma_wf();
            lemma_apply_confined(
                pool@,
                self.raw().shard(),
                self.raw().prefix(),
                Op::Put(index_key(idx as nat), value@),
            );
        }
        let _old = self.inner.insert(pool, idx, value);
        proof {
            self.raw().lemma_count_fits();
            let after = self.raw().view(pool);
            assert(after == before.insert(index_key(idx as nat), value@));
            assert(before.dom().contains(index_key(idx as nat)) == (idx < n));
            assert(self.count() == (if idx < n {
                n
            } else {
                n + 1
            }));
            assert forall|k: Seq<u8>| after.dom().contains(k) <==> in_bounds(k, self.count()) by {
                lemma_index_key(idx as nat, self.count(), k);
                lemma_index_key(idx as nat, n, k);
                assert(before.dom().contains(k) <==> in_bounds(k, n));
                if k != index_key(idx as nat) {
                    assert(after.dom().contains(k) == before.dom().contains(k));
                    if in_bounds(k, self.count()) && !in_bounds(k, n) {
                        assert(le_value(k) == n);
                        assert(k == index_key(n));
                    }
                }
            }
            assert forall|i: int| 0 <= i < self.count() implies #[trigger] self.elements(pool)[i]
                == (if idx < n {
                old(self).elements(old(pool)).update(idx as int, value@)
            } else {
                old(self).elements(old(pool)).push(value@)
            })[i] by {
                lemma_index_key(i as nat, n, index_key(idx as nat));
                lemma_index_key(idx as nat, n, index_key(i as nat));
            }
            assert(self.elements(pool) =~= (if idx < n {
                old(self).elements(old(pool)).update(idx as int, value@)
            } else {
                old(self).elements(old(pool)).push(value@)
            }));
        }
    }

    /// Removes the last element and returns it; `None` where the sequence
    /// is empty.
    pub fn pop<E: Engine>(&mut self, pool: &mut ShardPool<E>) -> (r: Option<Vec<u8>>)
        requires
            old(self).indexed(old(pool)),
        ensures
            final(self).raw().meta() == old(self).raw().meta(),
            final(self).indexed(final(pool)),
            confined(old(pool)@, final(pool)@, old(self).raw().shard(), old(self).raw().prefix()),
            match r {
                Some(v) => {
                    &&& old(self).count() > 0
                    &&& v@ == old(self).elements(old(pool)).last()
                    &&& final(self).elements(final(pool)) == old(self).elements(
                        old(pool),
                    ).drop_last()
                },
                None => {
                    &&& old(self).count() == 0
                    &&& final(self).count() == 0
                    &&& final(pool)@ == old(pool)@
                },
            },
    {
        let n: usize = self.inner.len();
        if n == 0 {
            proof {
                pool.lemma_wf();
            }
            return None;
        }
        let last: usize = n - 1;
        let ghost before = self.raw().view(pool);
        proof {
            lemma_index_key(last as nat, n as nat, index_key(last as nat));
        }
        proof {
            pool.lemma_wf();
            lemma_apply_confined(
                pool@,
                self.raw().shard(),
                self.raw().prefix(),
                Op::Delete(index_key(last as nat)),
            );
        }
        let r = self.inner.remove(pool, &last);
        proof {
            let after = self.raw().view(pool);
            assert(after == before.remove(index_key(last as nat)));
            assert(before.dom().contains(index_key(last as nat)));
            assert(self.count() == last);
            assert forall|k: Seq<u8>| after.dom().contains(k) <==> in_bounds(k, self.count()) by {
                lemma_index_key(last as nat, self.count(), k);
                lemma_index_key(last as nat, n as nat, k);
                assert(before.dom().contains(k) <==> in_bounds(k, n as nat));
                if k != index_key(last as nat) {
                    assert(after.dom().contains(k) == before.dom().contains(k));
                    if in_bounds(k, n as nat) && !in_bounds(k, last as nat) {
                        assert(le_value(k) == last);
                        assert(k == index_key(last as nat));
                    }
                }
            }
            assert forall|i: int| 0 <= i < self.count() implies #[trigger] self.elements(pool)[i]
                == old(self).elements(old(pool)).drop_last()[i] by {
                lemma_index_key(i as nat, n as nat, index_key(last as nat));
                lemma_index_key(last as nat, n as nat, index_key(i as nat));
            }
            assert(self.elements(pool) =~= old(self).elements(old(pool)).drop_last());
        }
        r
    }

    /// Removes elements from the end until at most `len` are left.
    pub fn truncate<E: Engine>(&mut self, pool: &mut ShardPool<E>, len: usize)
        requires
            old(self).indexed(old(pool)),
        ensures
            final(self).raw().meta() == old(self).raw().meta(),
            final(self).indexed(final(pool)),
            confined(old(pool)@, final(pool)@, old(self).raw().shard(), old(self).raw().prefix()),
            final(self).elements(final(pool)) == (if len < old(self).count() {
                old(self).elements(old(pool)).take(len as int)
            } else {
                old(self).elements(old(pool))
            }),
    {
        let ghost all = self.elements(pool);
        proof {
            pool.lemma_wf();
            assert(all.take(all.len() as int) =~= all);
        }
        while self.inner.len() > len
            invariant
                self.raw().meta() == old(self).raw().meta(),
                self.indexed(pool),
                self.count() <= all.len(),
                len < all.len() ==> self.count() >= len,
                len >= all.len() ==> self.count() == all.len(),
                all == old(self).elements(old(pool)),
                self.elements(pool) == all.take(self.count() as int),
                confined(old(pool)@, pool@, old(self).raw().shard(), old(self).raw().prefix()),
            decreases self.count(),
        {
            let ghost n = self.count() as int;
            let ghost mid = pool@;
            let _gone = self.pop(pool);
            proof {
                assert(all.take(n).drop_last() =~= all.take(n - 1));
                lemma_confined_chain(
                    old(pool)@,
                    mid,
                    pool@,
                    old(self).raw().shard(),
                    old(self).raw().prefix(),
                );
            }
        }
    }

    /// A cursor at the first element.
    pub fn iter(&self) -> (r: VecxIter<'_>)
        ensures
            r.list() == *self,
            r.position() == 0,
    {
        VecxIter { hdr: self, at: 0 }
    }

    /// All elements, first to last.
    pub fn values<E: Engine>(&self, pool: &ShardPool<E>) -> (r: Vec<Vec<u8>>)
        requires
            self.indexed(pool),
        ensures
            values_view(r@) == self.elements(pool),
    {
        let mut out: Vec<Vec<u8>> = Vec::new();
        let mut it = self.iter();
        assert(values_view(out@) =~= self.elements(pool).take(0));
        loop
            invariant
                self.indexed(pool),
                it.list() == *self,
                it.position() == out@.len(),
                it.position() <= self.count(),
                values_view(out@) == self.elements(pool).take(out@.len() as int),
            decreases self.count() - it.position(),
        {
            let ghost n = out@.len() as int;
            match it.next(pool) {
                Some(v) => {
                    out.push(v);
                    assert(values_view(out@) =~= self.elements(pool).take(n + 1));
                },
                None => {
                    assert(self.elements(pool).take(n) =~= self.elements(pool));
                    return out;
                },
            }
        }
    }
}

impl<'a> VecxIter<'a> {
    /// The sequence that the cursor walks.
    pub closed spec fn list(&self) -> Vecx {
        *self.hdr
    }

    /// The position of the element that the cursor yields next.
    pub closed spec fn position(&self) -> nat {
        self.at as nat
    }

    /// The next element, or `None` past the last.
    pub fn next<E: Engine>(&mut self, pool: &ShardPool<E>) -> (r: Option<Vec<u8>>)
        requires
            old(self).list().indexed(pool),
        ensures
            final(self).list() == old(self).list(),
            match r {
                Some(v) => {
                    &&& old(self).position() < old(self).list().count()
                    &&& v@ == old(self).list().elements(pool)[old(self).position() as int]
                    &&& final(self).position() == old(self).position() + 1
                },
                None => {
                    &&& old(self).position() >= old(self).list().count()
                    &&& final(self).position() == old(self).position()
                },
            },
    {
        if self.at < self.hdr.len() {
            let r = self.hdr.get(pool, self.at);
            self.at += 1;
            r
        } else {
            None
        }
    }
}

} // verus!
