//! A table that is read both by position and by name.

use std::cmp::Ordering;
use std::marker::PhantomData;
use vstd::hash_map::StringHashMap;
use vstd::prelude::*;

verus! {

/// The position of a value in a [`HashVec`] of `T`.
#[derive(Debug)]
#[verifier::reject_recursive_types(T)]
pub struct OpaqueIndex<T> {
    index: usize,
    _p: PhantomData<T>,
}

impl<T> View for OpaqueIndex<T> {
    type V = int;

    closed spec fn view(&self) -> int {
        self.index as int
    }
}

impl<T> OpaqueIndex<T> {
    /// The position `index`.
    pub fn new(index: usize) -> (r: Self)
        ensures
            r@ == index,
    {
        Self { index, _p: PhantomData }
    }

    /// The position as a number.
    pub fn index(&self) -> (i: usize)
        ensures
            i == self@,
    {
        self.index
    }

    /// Whether the two are the same position.
    pub fn same(self, other: Self) -> (r: bool)
        ensures
            r == (self@ == other@),
            r == (self == other),
    {
        self == other
    }

    /// Whether this position comes before the other.
    pub fn precedes(self, other: Self) -> (r: bool)
        ensures
            r == (self@ < other@),
    {
        self < other
    }

    /// Two indices of one table are equal when their positions are.
    pub proof fn lemma_view_eq(a: Self, b: Self)
        ensures
            (a@ == b@) == (a == b),
    {
    }
}

impl<T> Clone for OpaqueIndex<T> {
    fn clone(&self) -> (r: Self)
        ensures
            r == *self,
    {
        *self
    }
}

impl<T> Copy for OpaqueIndex<T> {

}

impl<T> PartialEq for OpaqueIndex<T> {
    fn eq(&self, other: &Self) -> (r: bool) {
        self.index == other.index
    }
}

impl<T> Eq for OpaqueIndex<T> {

}

impl<T> vstd::std_specs::cmp::PartialEqSpecImpl for OpaqueIndex<T> {
    open spec fn obeys_eq_spec() -> bool {
        true
    }

    open spec fn eq_spec(&self, other: &Self) -> bool {
        self@ == other@
    }
}

impl<T> PartialOrd for OpaqueIndex<T> {
    fn partial_cmp(&self, other: &Self) -> (r: Option<Ordering>) {
        if self.index < other.index {
            Some(Ordering::Less)
        } else if self.index == other.index {
            Some(Ordering::Equal)
        } else {
            Some(Ordering::Greater)
        }
    }
}

impl<T> vstd::std_specs::cmp::PartialOrdSpecImpl for OpaqueIndex<T> {
    open spec fn obeys_partial_cmp_spec() -> bool {
        true
    }

    /// Indices are in the order of their positions.
    open spec fn partial_cmp_spec(&self, other: &Self) -> Option<Ordering> {
        if self@ < other@ {
            Some(Ordering::Less)
        } else if self@ == other@ {
            Some(Ordering::Equal)
        } else {
            Some(Ordering::Greater)
        }
    }
}

/// One of `names` stands for the position `i`.
spec fn has_name<V>(names: Map<Seq<char>, OpaqueIndex<V>>, i: int) -> bool {
    exists|k: Seq<char>| names.contains_key(k) && (#[trigger] names[k])@ == i
}

/// Values in insertion order, each under a name of its own.
#[verifier::reject_recursive_types(V)]
pub struct HashVec<V> {
    vec: Vec<V>,
    hm: StringHashMap<OpaqueIndex<V>>,
}

impl<V> HashVec<V> {
    /// The values, by position.
    pub closed spec fn values(&self) -> Seq<V> {
        self.vec@
    }

    /// The position that each name stands for.
    pub closed spec fn names(&self) -> Map<Seq<char>, int> {
        Map::new(|k: Seq<char>| self.hm@.contains_key(k), |k: Seq<char>| self.hm@[k]@)
    }

    /// The position that `key` stands for, as an index of this table.
    pub closed spec fn position(&self, key: Seq<char>) -> OpaqueIndex<V> {
        self.hm@[key]
    }

    /// A name stands for the position `i`.
    pub closed spec fn named_at(&self, i: int) -> bool {
        has_name(self.hm@, i)
    }

    /// Every name stands for a position in the table, no two for the same,
    /// and every position has its name.
    pub closed spec fn wf(&self) -> bool {
        &&& forall|k: Seq<char>| #[trigger]
            self.hm@.contains_key(k) ==> 0 <= self.hm@[k]@ < self.vec@.len()
        &&& forall|j: Seq<char>, k: Seq<char>|
            self.hm@.contains_key(j) && self.hm@.contains_key(k) && #[trigger] self.hm@[j]@
                == #[trigger] self.hm@[k]@ ==> j == k
        &&& forall|i: int| 0 <= i < self.vec@.len() ==> #[trigger] has_name(self.hm@, i)
    }

    /// What a table in order is, said of its names and its values.
    pub proof fn lemma_wf(&self)
        requires
            self.wf(),
        ensures
            forall|k: Seq<char>|
                self.names().contains_key(k) ==> #[trigger] self.position(k)@ == self.names()[k],
            forall|k: Seq<char>| #[trigger]
                self.names().contains_key(k) ==> 0 <= self.names()[k] < self.values().len(),
            forall|j: Seq<char>, k: Seq<char>|
                self.names().contains_key(j) && self.names().contains_key(k)
                    && #[trigger] self.names()[j] == #[trigger] self.names()[k] ==> j == k,
            forall|i: int| 0 <= i < self.values().len() ==> #[trigger] self.named_at(i),
    {
    }

    /// The name of a position that has one.
    pub proof fn lemma_named_at(&self, i: int) -> (key: Seq<char>)
        requires
            self.named_at(i),
        ensures
            self.names().contains_key(key),
            self.names()[key] == i,
    {
        choose|k: Seq<char>| self.hm@.contains_key(k) && (#[trigger] self.hm@[k])@ == i
    }

    /// A table without values.
    pub fn new() -> (r: Self)
        ensures
            r.wf(),
            r.values() == Seq::<V>::empty(),
            r.names() == Map::<Seq<char>, int>::empty(),
    {
        let r = Self { vec: Vec::new(), hm: StringHashMap::new() };
        assert(r.names() =~= Map::<Seq<char>, int>::empty());
        r
    }

    /// How many values the table holds.
    pub fn len(&self) -> (n: usize)
        ensures
            n == self.values().len(),
    {
        self.vec.len()
    }

    /// The value at a position.
    pub fn get(&self, index: OpaqueIndex<V>) -> (v: &V)
        requires
            index@ < self.values().len(),
        ensures
            *v == self.values()[index@],
    {
        &self.vec[index.index]
    }

    /// The position that `key` stands for.
    pub fn opaque(&self, key: &str) -> (r: OpaqueIndex<V>)
        requires
            self.names().contains_key(key@),
        ensures
            r@ == self.names()[key@],
    {
        let found = self.hm.get(key);
        *found.unwrap()
    }

    /// The position that `key` stands for, if it names one.
    pub fn get_opaque(&self, key: &str) -> (r: Option<OpaqueIndex<V>>)
        ensures
            match r {
                Some(i) => self.names().contains_key(key@) && i@ == self.names()[key@],
                None => !self.names().contains_key(key@),
            },
    {
        match self.hm.get(key) {
            Some(i) => Some(*i),
            None => None,
        }
    }

    /// The value under `key`.
    pub fn by_key(&self, key: &str) -> (v: &V)
        requires
            self.wf(),
            self.names().contains_key(key@),
        ensures
            *v == self.values()[self.names()[key@]],
    {
        &self[self.opaque(key)]
    }

    /// Appends `value` under the new name `key` and gives its position.
    pub fn insert(&mut self, key: String, value: V) -> (r: OpaqueIndex<V>)
        requires
            old(self).wf(),
            !old(self).names().contains_key(key@),
        ensures
            final(self).wf(),
            r@ == old(self).values().len(),
            final(self).values() == old(self).values().push(value),
            final(self).names() == old(self).names().insert(key@, r@),
    {
        let index = OpaqueIndex::new(self.vec.len());
        self.vec.push(value);
        self.hm.insert(key, index);
        proof {
            assert(self.names() =~= old(self).names().insert(key@, index@));
            assert forall|i: int| 0 <= i < self.vec@.len() implies #[trigger] has_name(
                self.hm@,
                i,
            ) by {
                if i < old(self).vec@.len() {
                    assert(has_name(old(self).hm@, i));
                    let k = choose|k: Seq<char>|
                        old(self).hm@.contains_key(k) && (#[trigger] old(self).hm@[k])@ == i;
                    assert(self.hm@.contains_key(k) && self.hm@[k]@ == i);
                } else {
                    assert(self.hm@.contains_key(key@) && self.hm@[key@]@ == i);
                }
            }
        }
        index
    }

    /// The values, to be changed in their places: the table holds
    /// afterwards what the slice then holds, under the names as they were.
    pub fn values_mut(&mut self) -> (values: &mut [V])
        ensures
            values@ == old(self).values(),
            final(self).values() == final(values)@,
            final(self).names() == old(self).names(),
            old(self).wf() && final(values)@.len() == values@.len() ==> final(self).wf(),
    {
        self.vec.as_mut_slice()
    }

    /// Whether `key` names a value of the table.
    pub fn contains_key(&self, key: &str) -> (b: bool)
        ensures
            b == self.names().contains_key(key@),
    {
        self.hm.contains_key(key)
    }
}

impl<V> Default for HashVec<V> {
    fn default() -> (r: Self)
        ensures
            r.wf(),
            r.values() == Seq::<V>::empty(),
            r.names() == Map::<Seq<char>, int>::empty(),
    {
        HashVec::new()
    }
}

impl<V> std::ops::Index<OpaqueIndex<V>> for HashVec<V> {
    type Output = V;

    fn index(&self, index: OpaqueIndex<V>) -> (v: &V)
        ensures
            *v == self.values()[index@],
    {
        &self.vec[index.index]
    }
}

impl<V> vstd::std_specs::core::IndexSpecImpl<OpaqueIndex<V>> for HashVec<V> {
    open spec fn index_req(&self, index: &OpaqueIndex<V>) -> bool {
        0 <= index@ < self.values().len()
    }
}

impl<T> std::ops::Deref for OpaqueIndex<T> {
    type Target = usize;

    fn deref(&self) -> (i: &usize)
        ensures
            *i == self@,
    {
        &self.index
    }
}

} // verus!
