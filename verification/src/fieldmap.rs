//! An insertion-ordered, string-keyed table.
//!
//! The engine keys columns, version counters, cache entries, and field
//! metadata by field name. [`FieldMap`] pairs a hash table (for lookups) with
//! the list of keys in insertion order (for deterministic listings). Its view
//! is the map from key characters to entries; `key_views` gives the key order.

use vstd::hash_map::StringHashMap;
use vstd::prelude::*;
use vstd::seq_lib::*;

verus! {

/// An insertion-ordered map from field names to entries.
#[verifier::reject_recursive_types(T)]
pub struct FieldMap<T> {
    /// The keys, in insertion order.
    pub keys: Vec<String>,
    /// The backing table.
    pub table: StringHashMap<T>,
}

impl<T> View for FieldMap<T> {
    type V = Map<Seq<char>, T>;

    open spec fn view(&self) -> Map<Seq<char>, T> {
        self.table@
    }
}

impl<T> FieldMap<T> {
    /// The key character sequences, in insertion order.
    pub open spec fn key_views(&self) -> Seq<Seq<char>> {
        self.keys@.map_values(|n: String| n@)
    }

    /// Well-formed: the ordered key list holds each key of the table exactly
    /// once.
    pub open spec fn wf(&self) -> bool {
        &&& forall|i: int, j: int|
            0 <= i < j < self.key_views().len() ==> self.key_views()[i] != self.key_views()[j]
        &&& forall|i: int|
            0 <= i < self.key_views().len() ==> self@.contains_key(#[trigger] self.key_views()[i])
        &&& forall|k: Seq<char>| self@.contains_key(k) ==> self.key_views().contains(k)
    }

    /// Creates an empty map.
    pub fn new() -> (m: Self)
        ensures
            m@ == Map::<Seq<char>, T>::empty(),
            m.key_views() == Seq::<Seq<char>>::empty(),
            m.wf(),
    {
        let m = FieldMap { keys: Vec::new(), table: StringHashMap::new() };
        proof {
            assert(m.key_views() =~= Seq::<Seq<char>>::empty());
        }
        m
    }

    /// The number of entries.
    pub fn len(&self) -> (n: usize)
        ensures
            n == self.key_views().len(),
    {
        self.keys.len()
    }

    /// True when there are no entries.
    pub fn is_empty(&self) -> (r: bool)
        ensures
            r == (self.key_views().len() == 0),
    {
        self.keys.len() == 0
    }

    /// True when the key is present.
    pub fn contains_key(&self, k: &str) -> (r: bool)
        ensures
            r == self@.contains_key(k@),
    {
        self.table.contains_key(k)
    }

    /// Looks the key up.
    pub fn get<'a>(&'a self, k: &str) -> (r: Option<&'a T>)
        ensures
            match r {
                Some(v) => self@.contains_key(k@) && *v == self@[k@],
                None => !self@.contains_key(k@),
            },
    {
        self.table.get(k)
    }

    /// Inserts or replaces the entry for a key. A fresh key goes to the end
    /// of the key order; a replaced one keeps its place.
    pub fn insert(&mut self, k: String, v: T)
        requires
            old(self).wf(),
        ensures
            final(self)@ == old(self)@.insert(k@, v),
            old(self)@.contains_key(k@) ==> final(self).key_views() == old(self).key_views(),
            !old(self)@.contains_key(k@) ==> final(self).key_views() == old(self).key_views().push(
                k@,
            ),
            final(self).wf(),
    {
        let fresh = !self.table.contains_key(k.as_str());
        if fresh {
            self.keys.push(k.clone());
        }
        self.table.insert(k, v);
        proof {
            let oldkv = old(self).key_views();
            if fresh {
                assert(self.key_views() =~= oldkv.push(k@));
                assert forall|q: Seq<char>| self@.contains_key(q) implies self.key_views().contains(
                    q,
                ) by {
                    if old(self)@.contains_key(q) {
                        assert(oldkv.contains(q));
                        let i = choose|i: int| 0 <= i < oldkv.len() && oldkv[i] == q;
                        assert(self.key_views()[i] == q);
                    } else {
                        assert(q == k@);
                        assert(self.key_views()[self.key_views().len() - 1] == q);
                    }
                }
            } else {
                assert(self.key_views() =~= oldkv);
                assert forall|q: Seq<char>| self@.contains_key(q) implies self.key_views().contains(
                    q,
                ) by {
                    if old(self)@.contains_key(q) {
                        assert(oldkv.contains(q));
                        let i = choose|i: int| 0 <= i < oldkv.len() && oldkv[i] == q;
                        assert(self.key_views()[i] == q);
                    } else {
                        assert(q == k@);
                        assert(oldkv.contains(q));
                    }
                }
            }
        }
    }

    /// Removes the entry for a key, if present; later keys keep their
    /// relative order.
    pub fn remove(&mut self, k: &String)
        requires
            old(self).wf(),
        ensures
            final(self)@ == old(self)@.remove(k@),
            final(self).key_views() == old(self).key_views().remove_value(k@),
            final(self).wf(),
    {
        self.table.remove(k.as_str());
        let mut i: usize = 0;
        while i < self.keys.len()
            invariant
                i <= self.keys@.len(),
                old(self).wf(),
                self.keys@ == old(self).keys@,
                self@ == old(self)@.remove(k@),
                forall|j: int| 0 <= j < i ==> self.keys@[j]@ != k@,
            decreases self.keys@.len() - i,
        {
            if self.keys[i] == *k {
                let ghost pre = self.keys@;
                self.keys.remove(i);
                proof {
                    let vs = pre.map_values(|n: String| n@);
                    let oldkv = old(self).key_views();
                    assert(vs == oldkv);
                    assert(vs[i as int] == k@);
                    assert(vs.contains(k@));
                    vs.index_of_first_ensures(k@);
                    let idx = vs.index_of_first(k@)->0;
                    assert(idx == i as int) by {
                        assert(vs[idx] == k@);
                        assert(forall|j: int| 0 <= j < idx ==> vs[j] != k@);
                        assert(forall|j: int| 0 <= j < i ==> vs[j] != k@);
                    }
                    assert(self.key_views() =~= vs.remove(i as int));
                    assert(self.key_views() =~= oldkv.remove_value(k@));
                    assert forall|q: Seq<char>| self@.contains_key(q) implies self.key_views()
                        .contains(q) by {
                        assert(old(self)@.contains_key(q));
                        assert(oldkv.contains(q));
                        let m = choose|m: int| 0 <= m < oldkv.len() && oldkv[m] == q;
                        assert(q != k@);
                        if m < i {
                            assert(self.key_views()[m] == q);
                        } else {
                            assert(self.key_views()[m - 1] == q);
                        }
                    }
                }
                return ;
            }
            i += 1;
        }
        proof {
            let oldkv = old(self).key_views();
            assert(forall|j: int| 0 <= j < oldkv.len() ==> oldkv[j] != k@);
            assert(!oldkv.contains(k@));
            oldkv.index_of_first_ensures(k@);
            assert(oldkv.remove_value(k@) == oldkv);
            assert forall|q: Seq<char>| self@.contains_key(q) implies self.key_views().contains(
                q,
            ) by {
                assert(old(self)@.contains_key(q));
            }
        }
    }

    /// The field names, in insertion order.
    pub fn field_names(&self) -> (r: Vec<String>)
        ensures
            r@.len() == self.key_views().len(),
            forall|i: int| 0 <= i < r@.len() ==> r@[i]@ == self.key_views()[i],
    {
        let mut r: Vec<String> = Vec::new();
        let mut i: usize = 0;
        while i < self.keys.len()
            invariant
                i <= self.keys@.len(),
                r@.len() == i,
                forall|j: int| 0 <= j < i ==> r@[j]@ == self.key_views()[j],
            decreases self.keys@.len() - i,
        {
            r.push(self.keys[i].clone());
            i += 1;
        }
        r
    }
}

impl<T: Clone> Clone for FieldMap<T> {
    /// Clones the table. On a well-formed map the copy has the same keys in
    /// the same order, and each entry is a clone of the original's.
    fn clone(&self) -> (r: Self)
        ensures
            self.wf() ==> {
                &&& r.key_views() == self.key_views()
                &&& r.wf()
                &&& forall|k: Seq<char>| r@.contains_key(k) <==> self@.contains_key(k)
                &&& forall|k: Seq<char>|
                    self@.contains_key(k) ==> cloned::<T>(self@[k], #[trigger] r@[k])
            },
    {
        let mut r: FieldMap<T> = FieldMap::new();
        let mut i: usize = 0;
        while i < self.keys.len()
            invariant
                i <= self.keys@.len(),
                r.wf(),
                self.wf() ==> {
                    &&& r.key_views() == self.key_views().take(i as int)
                    &&& forall|k: Seq<char>|
                        #[trigger] r@.contains_key(k) ==> self@.contains_key(k) && cloned::<T>(
                            self@[k],
                            r@[k],
                        )
                },
            decreases self.keys@.len() - i,
        {
            let name = &self.keys[i];
            match self.table.get(name.as_str()) {
                Some(v) => {
                    proof {
                        if self.wf() {
                            assert(self.key_views()[i as int] == name@);
                            if r@.contains_key(name@) {
                                assert(r.key_views().contains(name@));
                                let j = choose|j: int|
                                    0 <= j < r.key_views().len() && r.key_views()[j] == name@;
                                assert(self.key_views()[j] == name@);
                                assert(false);
                            }
                        }
                    }
                    let ghost r0 = r@;
                    r.insert(name.clone(), v.clone());
                    proof {
                        if self.wf() {
                            assert(r.key_views() =~= self.key_views().take(i + 1));
                            assert forall|q: Seq<char>| #[trigger] r@.contains_key(q) implies self@
                                .contains_key(q) && cloned::<T>(self@[q], r@[q]) by {
                                if q != name@ {
                                    assert(r0.contains_key(q));
                                    assert(r@[q] == r0[q]);
                                }
                            }
                        }
                    }
                },
                None => {
                    proof {
                        if self.wf() {
                            assert(self.key_views()[i as int] == name@);
                            assert(self@.contains_key(self.key_views()[i as int]));
                            assert(false);
                        }
                    }
                },
            }
            i += 1;
        }
        proof {
            if self.wf() {
                assert(self.key_views().take(self.keys@.len() as int) =~= self.key_views());
                assert forall|k: Seq<char>| self@.contains_key(k) implies r@.contains_key(k) by {
                    assert(self.key_views().contains(k));
                    let j = choose|j: int|
                        0 <= j < self.key_views().len() && self.key_views()[j] == k;
                    assert(r.key_views()[j] == k);
                    assert(r@.contains_key(r.key_views()[j]));
                }
                assert forall|k: Seq<char>| self@.contains_key(k) implies cloned::<T>(
                    self@[k],
                    #[trigger] r@[k],
                ) by {
                    assert(r@.contains_key(k));
                }
            }
        }
        r
    }
}

} // verus!
