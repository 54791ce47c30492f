//! Name-keyed tables and name sets: a vector of distinct names beside a
//! vector of values, read as a finite map from names to values.
use vstd::prelude::*;
use vstd::multiset::Multiset;
use crate::assoc::{
    assoc, distinct, lemma_assoc_dom, lemma_assoc_index, lemma_assoc_push, lemma_assoc_remove, lemma_assoc_update,
    lemma_push_to_set, lemma_str_views_push, str_views,
};
use crate::index::key::{chars_order, lemma_chars_order_basic, lemma_chars_order_trans};
use crate::text::{compare_strs, find_name};

verus! {

/// Values by distinct name, in the order the names were added.
pub struct NameTable<V> {
    names: Vec<String>,
    items: Vec<V>,
}

impl<V> NameTable<V> {
    pub closed spec fn wf(&self) -> bool {
        &&& self.names@.len() == self.items@.len()
        &&& distinct(str_views(self.names@))
    }

    /// The names, in table order.
    pub closed spec fn keys(&self) -> Seq<Seq<char>> {
        str_views(self.names@)
    }

    /// The values, in table order.
    pub closed spec fn values(&self) -> Seq<V> {
        self.items@
    }

    /// The values by name.
    pub closed spec fn map(&self) -> Map<Seq<char>, V> {
        assoc(str_views(self.names@), self.items@)
    }

    /// The names are distinct and are the map's keys; the value at a
    /// position is the map's value of the name at that position.
    pub proof fn lemma_table(&self)
        requires
            self.wf(),
        ensures
            distinct(self.keys()),
            self.keys().len() == self.values().len(),
            self.map().dom().finite(),
            forall|k: Seq<char>| #[trigger] self.map().dom().contains(k) <==> self.keys().contains(k),
            forall|i: int| 0 <= i < self.keys().len() ==> #[trigger] self.map()[self.keys()[i]] == self.values()[i],
    {
        lemma_assoc_dom(str_views(self.names@), self.items@);
        assert forall|i: int| 0 <= i < self.keys().len() implies #[trigger] self.map()[self.keys()[i]]
            == self.values()[i] by {
            lemma_assoc_index(str_views(self.names@), self.items@, i);
        }
    }

    /// An empty table.
    pub fn new() -> (t: Self)
        ensures
            t.wf(),
            t.keys() == Seq::<Seq<char>>::empty(),
            t.values() == Seq::<V>::empty(),
            t.map() == Map::<Seq<char>, V>::empty(),
    {
        let t = NameTable { names: Vec::new(), items: Vec::new() };
        assert(str_views(t.names@) =~= Seq::<Seq<char>>::empty());
        t
    }

    /// Number of entries.
    pub fn len(&self) -> (n: usize)
        requires
            self.wf(),
        ensures
            n == self.keys().len(),
            n == self.values().len(),
    {
        self.names.len()
    }

    /// Position of a name.
    pub fn find(&self, name: &str) -> (r: Option<usize>)
        requires
            self.wf(),
        ensures
            match r {
                Some(i) => i < self.keys().len() && self.keys()[i as int] == name@,
                None => !self.map().dom().contains(name@),
            },
            r is Some <==> self.map().dom().contains(name@),
    {
        proof {
            self.lemma_table();
        }
        find_name(&self.names, name)
    }

    /// The name at a position.
    pub fn name_at(&self, i: usize) -> (s: &String)
        requires
            self.wf(),
            i < self.keys().len(),
        ensures
            s@ == self.keys()[i as int],
    {
        &self.names[i]
    }

    /// The value at a position.
    pub fn at(&self, i: usize) -> (v: &V)
        requires
            self.wf(),
            i < self.keys().len(),
        ensures
            *v == self.values()[i as int],
    {
        &self.items[i]
    }

    /// The value at a position, to change in place.
    pub fn at_mut(&mut self, i: usize) -> (v: &mut V)
        requires
            old(self).wf(),
            i < old(self).keys().len(),
        ensures
            *v == old(self).values()[i as int],
            final(self).wf(),
            final(self).keys() == old(self).keys(),
            final(self).values() == old(self).values().update(i as int, *final(v)),
            final(self).map() == old(self).map().insert(old(self).keys()[i as int], *final(v)),
    {
        let ghost ks = str_views(self.names@);
        let ghost vs = self.items@;
        let v = &mut self.items[i];
        proof {
            lemma_assoc_update(ks, vs, i as int, *final(v));
        }
        v
    }

    /// The value of a name.
    pub fn get(&self, name: &str) -> (res: Option<&V>)
        requires
            self.wf(),
        ensures
            match res {
                Some(v) => self.map().dom().contains(name@) && *v == self.map()[name@],
                None => !self.map().dom().contains(name@),
            },
    {
        match self.find(name) {
            Some(i) => {
                proof {
                    self.lemma_table();
                }
                Some(&self.items[i])
            },
            None => None,
        }
    }

    /// The value of a name, to change in place.
    pub fn get_mut(&mut self, name: &str) -> (res: Option<&mut V>)
        requires
            old(self).wf(),
        ensures
            final(self).wf(),
            final(self).keys() == old(self).keys(),
            match res {
                Some(v) => {
                    &&& old(self).map().dom().contains(name@)
                    &&& *v == old(self).map()[name@]
                    &&& final(self).map() == old(self).map().insert(name@, *final(v))
                },
                None => {
                    &&& !old(self).map().dom().contains(name@)
                    &&& *final(self) == *old(self)
                },
            },
    {
        match self.find(name) {
            Some(i) => {
                proof {
                    self.lemma_table();
                }
                let v = self.at_mut(i);
                Some(v)
            },
            None => None,
        }
    }

    /// Set the value of a name: replaced in place when the name is there,
    /// else added at the end.
    pub fn insert(&mut self, name: String, v: V)
        requires
            old(self).wf(),
        ensures
            final(self).wf(),
            final(self).map() == old(self).map().insert(name@, v),
            old(self).map().dom().contains(name@) ==> final(self).keys() == old(self).keys(),
            !old(self).map().dom().contains(name@) ==> {
                &&& final(self).keys() == old(self).keys().push(name@)
                &&& final(self).values() == old(self).values().push(v)
            },
    {
        let ghost ks = str_views(self.names@);
        let ghost vs = self.items@;
        proof {
            lemma_assoc_dom(ks, vs);
        }
        match find_name(&self.names, name.as_str()) {
            Some(i) => {
                self.items.set(i, v);
                proof {
                    lemma_assoc_update(ks, vs, i as int, v);
                }
            },
            None => {
                let ghost nv = name@;
                self.names.push(name);
                self.items.push(v);
                proof {
                    assert(str_views(self.names@) =~= ks.push(nv));
                    lemma_assoc_push(ks, vs, nv, v);
                }
            },
        }
    }

    /// Remove a name and hand back its value.
    pub fn remove(&mut self, name: &str) -> (res: Option<V>)
        requires
            old(self).wf(),
        ensures
            final(self).wf(),
            final(self).map() == old(self).map().remove(name@),
            match res {
                Some(v) => old(self).map().dom().contains(name@) && v == old(self).map()[name@],
                None => !old(self).map().dom().contains(name@) && *final(self) == *old(self),
            },
            forall|k: Seq<char>| #[trigger] final(self).keys().contains(k) <==> (old(self).keys().contains(k) && k != name@),
    {
        proof {
            self.lemma_table();
        }
        match find_name(&self.names, name) {
            None => None,
            Some(i) => {
                let ghost ks = str_views(self.names@);
                let ghost vs = self.items@;
                self.names.remove(i);
                let v = self.items.remove(i);
                proof {
                    assert(str_views(self.names@) =~= ks.remove(i as int));
                    lemma_assoc_remove(ks, vs, i as int);
                    lemma_assoc_dom(ks.remove(i as int), vs.remove(i as int));
                    lemma_assoc_dom(ks, vs);
                    assert forall|k: Seq<char>| #[trigger] ks.remove(i as int).contains(k) <==> (ks.contains(k) && k
                        != name@) by {
                        assert(assoc(ks.remove(i as int), vs.remove(i as int)).dom().contains(k) <==> assoc(ks, vs).remove(
                            name@,
                        ).dom().contains(k));
                    }
                }
                Some(v)
            },
        }
    }

    /// Copy of the names, in table order.
    pub fn names(&self) -> (res: Vec<String>)
        ensures
            str_views(res@) == self.keys(),
    {
        let mut out: Vec<String> = Vec::new();
        let mut i: usize = 0;
        while i < self.names.len()
            invariant
                i <= self.names@.len(),
                str_views(out@) == str_views(self.names@).subrange(0, i as int),
            decreases self.names@.len() - i,
        {
            let c = self.names[i].clone();
            proof {
                lemma_str_views_push(self.names@, out@, c, i as int);
            }
            out.push(c);
            i = i + 1;
        }
        assert(str_views(self.names@).subrange(0, i as int) =~= str_views(self.names@));
        out
    }
}

/// A set of names, kept as a vector of distinct names.
pub struct NameSet {
    names: Vec<String>,
}

impl NameSet {
    pub closed spec fn wf(&self) -> bool {
        distinct(str_views(self.names@))
    }

    /// The names, in the order they were added.
    pub closed spec fn elems(&self) -> Seq<Seq<char>> {
        str_views(self.names@)
    }

    /// The set of names.
    pub open spec fn set(&self) -> Set<Seq<char>> {
        self.elems().to_set()
    }

    /// No name occurs twice among the elements.
    pub proof fn lemma_elems(&self)
        requires
            self.wf(),
        ensures
            self.elems().no_duplicates(),
    {
    }

    /// An empty set.
    pub fn new() -> (s: Self)
        ensures
            s.wf(),
            s.elems() == Seq::<Seq<char>>::empty(),
            s.set() == Set::<Seq<char>>::empty(),
    {
        let s = NameSet { names: Vec::new() };
        assert(str_views(s.names@) =~= Seq::<Seq<char>>::empty());
        assert(s.set() =~= Set::<Seq<char>>::empty());
        s
    }

    /// Whether the set is empty.
    pub fn is_empty(&self) -> (r: bool)
        ensures
            r == (self.set() == Set::<Seq<char>>::empty()),
    {
        if self.names.len() == 0 {
            assert(self.set() =~= Set::<Seq<char>>::empty());
            true
        } else {
            assert(self.set().contains(self.elems()[0]));
            false
        }
    }

    /// Whether a name is in the set.
    pub fn contains(&self, name: &str) -> (r: bool)
        ensures
            r == self.set().contains(name@),
    {
        find_name(&self.names, name).is_some()
    }

    /// Add a name.
    pub fn insert(&mut self, name: &str)
        requires
            old(self).wf(),
        ensures
            final(self).wf(),
            final(self).set() == old(self).set().insert(name@),
    {
        match find_name(&self.names, name) {
            Some(_) => {
                assert(self.set() =~= self.set().insert(name@));
            },
            None => {
                let ghost before = str_views(self.names@);
                self.names.push(name.to_string());
                proof {
                    assert(str_views(self.names@) =~= before.push(name@));
                    lemma_assoc_push(before, before, name@, name@);
                    lemma_push_to_set(before, name@);
                }
            },
        }
    }

    /// Remove a name.
    pub fn remove(&mut self, name: &str)
        requires
            old(self).wf(),
        ensures
            final(self).wf(),
            final(self).set() == old(self).set().remove(name@),
    {
        let ghost ds = str_views(self.names@);
        match find_name(&self.names, name) {
            Some(j) => {
                self.names.remove(j);
                proof {
                    assert(str_views(self.names@) =~= ds.remove(j as int));
                    lemma_assoc_remove(ds, ds, j as int);
                    assert forall|k: Seq<char>| #[trigger] ds.remove(j as int).contains(k) <==> (ds.contains(k) && k
                        != name@) by {
                        if ds.contains(k) && k != name@ {
                            let a = choose|a: int| 0 <= a < ds.len() && ds[a] == k;
                            let a2 = if a < j { a } else { a - 1 };
                            assert(ds.remove(j as int)[a2] == k);
                        }
                        if ds.remove(j as int).contains(k) {
                            let a = choose|a: int| 0 <= a < ds.remove(j as int).len() && ds.remove(j as int)[a] == k;
                            let a2 = if a < j { a } else { a + 1 };
                            assert(ds[a2] == k);
                        }
                    }
                    assert(str_views(self.names@).to_set() =~= ds.to_set().remove(name@));
                }
            },
            None => {
                assert(ds.to_set() =~= ds.to_set().remove(name@));
            },
        }
    }

    /// Copy of the names, in the order they were added.
    pub fn names(&self) -> (res: Vec<String>)
        ensures
            str_views(res@) == self.elems(),
    {
        let mut out: Vec<String> = Vec::new();
        let mut i: usize = 0;
        while i < self.names.len()
            invariant
                i <= self.names@.len(),
                str_views(out@) == str_views(self.names@).subrange(0, i as int),
            decreases self.names@.len() - i,
        {
            let c = self.names[i].clone();
            proof {
                lemma_str_views_push(self.names@, out@, c, i as int);
            }
            out.push(c);
            i = i + 1;
        }
        assert(str_views(self.names@).subrange(0, i as int) =~= str_views(self.names@));
        out
    }
}

/// Values that carry a name to be sorted by.
pub trait Named {
    spec fn name_chars(&self) -> Seq<char>;

    fn name_str(&self) -> (r: &str)
        ensures
            r@ == self.name_chars(),
    ;
}

impl Named for String {
    open spec fn name_chars(&self) -> Seq<char> {
        self@
    }

    fn name_str(&self) -> (r: &str) {
        self.as_str()
    }
}

/// The names of a sequence of named values.
pub open spec fn names_of<T: Named>(s: Seq<T>) -> Seq<Seq<char>> {
    Seq::new(s.len(), |i: int| s[i].name_chars())
}

/// The names are in order.
pub open spec fn chars_sorted(s: Seq<Seq<char>>) -> bool {
    forall|i: int, j: int| 0 <= i < j < s.len() ==> chars_order(s[i], s[j]) <= 0
}

/// The values sorted by name (equal names keep their order).
pub fn sort_by_name<T: Named>(v: Vec<T>) -> (res: Vec<T>)
    ensures
        res@.to_multiset() == v@.to_multiset(),
        names_of(res@).to_multiset() == names_of(v@).to_multiset(),
        chars_sorted(names_of(res@)),
{
    broadcast use {vstd::seq_lib::group_to_multiset_ensures, vstd::multiset::group_multiset_axioms};

    let ghost orig = v@;
    let mut rest = v;
    let mut out: Vec<T> = Vec::new();
    assert(out@.to_multiset() =~= Multiset::empty());
    assert(names_of(out@).to_multiset() =~= Multiset::empty());
    while rest.len() > 0
        invariant
            out@.to_multiset().add(rest@.to_multiset()) == orig.to_multiset(),
            names_of(out@).to_multiset().add(names_of(rest@).to_multiset()) == names_of(orig).to_multiset(),
            chars_sorted(names_of(out@)),
        decreases rest@.len(),
    {
        let ghost before = rest@;
        let x = rest.remove(0);
        assert(rest@ =~= before.remove(0));
        let mut p: usize = 0;
        while p < out.len() && compare_strs(out[p].name_str(), x.name_str()) <= 0
            invariant
                p <= out@.len(),
                forall|q: int| 0 <= q < p ==> chars_order(#[trigger] out@[q].name_chars(), x.name_chars()) <= 0,
            decreases out@.len() - p,
        {
            p = p + 1;
        }
        let ghost o = out@;
        out.insert(p, x);
        proof {
            let no = names_of(o);
            assert(out@ == o.insert(p as int, x));
            assert(names_of(out@) =~= no.insert(p as int, x.name_chars()));
            assert(names_of(rest@) =~= names_of(before).remove(0));
            assert forall|i: int, j: int| 0 <= i < j < out@.len() implies chars_order(
                names_of(out@)[i],
                names_of(out@)[j],
            ) <= 0 by {
                if p < o.len() {
                    lemma_chars_order_basic(o[p as int].name_chars(), x.name_chars());
                }
                if j < p {
                    assert(out@[i] == o[i] && out@[j] == o[j]);
                    assert(no[i] == o[i].name_chars() && no[j] == o[j].name_chars());
                } else if j == p {
                    assert(out@[i] == o[i]);
                } else if i == p {
                    assert(out@[j] == o[j - 1]);
                    if j - 1 > p {
                        assert(no[p as int] == o[p as int].name_chars() && no[j - 1] == o[j - 1].name_chars());
                        lemma_chars_order_trans(x.name_chars(), o[p as int].name_chars(), o[j - 1].name_chars());
                    }
                } else if i < p {
                    assert(out@[i] == o[i] && out@[j] == o[j - 1]);
                    assert(no[i] == o[i].name_chars() && no[j - 1] == o[j - 1].name_chars());
                } else {
                    assert(out@[i] == o[i - 1] && out@[j] == o[j - 1]);
                    assert(no[i - 1] == o[i - 1].name_chars() && no[j - 1] == o[j - 1].name_chars());
                }
            }
            vstd::seq_lib::to_multiset_insert(o, p as int, x);
            vstd::seq_lib::to_multiset_remove(before, 0);
            assert(before[0] == x);
            assert(before.contains(x));
            vstd::seq_lib::to_multiset_contains(before, x);
            assert(out@.to_multiset().add(rest@.to_multiset()) =~= o.to_multiset().add(before.to_multiset()));
            let nb = names_of(before);
            vstd::seq_lib::to_multiset_insert(no, p as int, x.name_chars());
            vstd::seq_lib::to_multiset_remove(nb, 0);
            assert(nb[0] == x.name_chars());
            assert(nb.contains(x.name_chars()));
            vstd::seq_lib::to_multiset_contains(nb, x.name_chars());
            assert(names_of(out@).to_multiset().add(names_of(rest@).to_multiset()) =~= no.to_multiset().add(
                nb.to_multiset(),
            ));
        }
    }
    assert(rest@.to_multiset() =~= Multiset::empty());
    assert(names_of(rest@).to_multiset() =~= Multiset::empty());
    out
}

} // verus!
