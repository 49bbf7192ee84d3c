//! The sequence of the in-memory variant: the same operations as the stored
//! sequence, on elements that live in the value itself.

use vstd::prelude::*;
use vstd::slice::slice_to_vec;
use vstd::string::StringExecFns;
use crate::namespace::opt_vec;
use crate::vecx::values_view;

verus! {

/// A list of byte values, kept in memory.
#[derive(Debug)]
pub struct Veci {
    path: String,
    items: Vec<Vec<u8>>,
}

impl Veci {
    /// The elements, first to last.
    pub closed spec fn elements(&self) -> Seq<Seq<u8>> {
        values_view(self.items@)
    }

    /// The path that the sequence was made for.
    pub closed spec fn spec_path(&self) -> Seq<char> {
        self.path@
    }

    /// An empty sequence for `path`.
    pub fn new(path: &str) -> (r: Veci)
        ensures
            r.elements() == Seq::<Seq<u8>>::empty(),
            r.spec_path() == path@,
    {
        let r = Veci { path: String::from_str(path), items: Vec::new() };
        assert(r.elements() =~= Seq::<Seq<u8>>::empty());
        r
    }

    /// Get the storage path
    pub fn get_path(&self) -> (r: &str)
        ensures
            r@ == self.spec_path(),
    {
        self.path.as_str()
    }

    /// The number of elements.
    pub fn len(&self) -> (r: usize)
        ensures
            r == self.elements().len(),
    {
        self.items.len()
    }

    /// Whether the sequence has no element.
    pub fn is_empty(&self) -> (r: bool)
        ensures
            r == (self.elements().len() == 0),
    {
        self.items.len() == 0
    }

    /// The element at position `idx`, or `None` past the end.
    pub fn get(&self, idx: usize) -> (r: Option<Vec<u8>>)
        ensures
            opt_vec(r) == (if idx < self.elements().len() {
                Some(self.elements()[idx as int])
            } else {
                None
            }),
    {
        if idx < self.items.len() {
            Some(slice_to_vec(self.items[idx].as_slice()))
        } else {
            None
        }
    }

    /// Appends `value`.
    pub fn push(&mut self, value: &[u8])
        ensures
            final(self).elements() == old(self).elements().push(value@),
            final(self).spec_path() == old(self).spec_path(),
    {
        self.items.push(slice_to_vec(value));
        assert(self.elements() =~= old(self).elements().push(value@));
    }

    /// Stores `value` at position `idx`: in place of the element there, or
    /// as a new last element where `idx` is the length.
    pub fn set(&mut self, idx: usize, value: &[u8])
        requires
            idx <= old(self).elements().len(),
        ensures
            final(self).elements() == (if idx < old(self).elements().len() {
                old(self).elements().update(idx as int, value@)
            } else {
                old(self).elements().push(value@)
            }),
            final(self).spec_path() == old(self).spec_path(),
    {
        if idx < self.items.len() {
            self.items.set(idx, slice_to_vec(value));
            assert(self.elements() =~= old(self).elements().update(idx as int, value@));
        } else {
            self.push(value);
        }
    }

    /// Removes the last element and returns it; `None` where the sequence
    /// is empty.
    pub fn pop(&mut self) -> (r: Option<Vec<u8>>)
        ensures
            final(self).spec_path() == old(self).spec_path(),
            match r {
                Some(v) => {
                    &&& old(self).elements().len() > 0
                    &&& v@ == old(self).elements().last()
                    &&& final(self).elements() == old(self).elements().drop_last()
                },
                None => old(self).elements().len() == 0 && final(self).elements() == old(
                    self,
                ).elements(),
            },
    {
        let r = self.items.pop();
        assert(r is Some ==> self.elements() =~= old(self).elements().drop_last());
        r
    }

    /// Removes elements from the end until at most `len` are left.
    pub fn truncate(&mut self, len: usize)
        ensures
            final(self).spec_path() == old(self).spec_path(),
            final(self).elements() == (if len < old(self).elements().len() {
                old(self).elements().take(len as int)
            } else {
                old(self).elements()
            }),
    {
        if len < self.items.len() {
            self.items.truncate(len);
            assert(self.elements() =~= old(self).elements().take(len as int));
        }
    }

    /// All elements, first to last.
    pub fn values(&self) -> (r: Vec<Vec<u8>>)
        ensures
            values_view(r@) == self.elements(),
    {
        let mut out: Vec<Vec<u8>> = Vec::new();
        let mut i: usize = 0;
        while i < self.items.len()
            invariant
                i <= self.items@.len(),
                out@.len() == i,
                forall|j: int| 0 <= j < i ==> (#[trigger] out@[j])@ == self.items@[j]@,
            decreases self.items@.len() - i,
        {
            out.push(slice_to_vec(self.items[i].as_slice()));
            i += 1;
        }
        assert(values_view(out@) =~= self.elements());
        out
    }
}

} // verus!
