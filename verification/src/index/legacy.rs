//! The first, map-based index: a key to the documents that hold it.
use vstd::prelude::*;
use crate::assoc::{assoc, distinct, lemma_assoc_dom, lemma_assoc_index, lemma_assoc_push, lemma_assoc_remove, lemma_assoc_update, str_views};
use crate::document::{DocIdView, DocumentId};
use crate::error::IronBaseError;
use crate::index::scan::id_views;
use crate::text::{concat3, find_name};

verus! {

/// Kinds of index.
#[derive(Debug, Clone, Copy, PartialEq, Eq, Structural)]
pub enum IndexType {
    Regular,
    Unique,
    Text,
    Geo2d,
}

/// Description of an index.
#[derive(Debug, Clone)]
pub struct IndexDefinition {
    pub name: String,
    pub field: String,
    pub index_type: IndexType,
    pub unique: bool,
}

/// Map-based index from string keys to document ids.
pub struct Index {
    pub definition: IndexDefinition,
    keys: Vec<String>,
    ids: Vec<Vec<DocumentId>>,
}

/// Views of a sequence of id lists.
pub open spec fn id_lists(v: Seq<Vec<DocumentId>>) -> Seq<Seq<DocIdView>> {
    Seq::new(v.len(), |i: int| id_views(v[i]@))
}

/// The ids of `ids` other than `d`, in order.
pub open spec fn without(ids: Seq<DocIdView>, d: DocIdView) -> Seq<DocIdView> {
    ids.filter(|x: DocIdView| x != d)
}

proof fn lemma_without_push(s: Seq<DocIdView>, x: DocIdView, d: DocIdView)
    ensures
        without(s.push(x), d) == if x != d {
            without(s, d).push(x)
        } else {
            without(s, d)
        },
{
    reveal(Seq::filter);
    assert(s.push(x).drop_last() =~= s);
}

impl Index {
    /// The index as a map from key to the documents holding it, in insertion order.
    pub closed spec fn map(&self) -> Map<Seq<char>, Seq<DocIdView>> {
        assoc(str_views(self.keys@), id_lists(self.ids@))
    }

    /// The definition (a public field; contracts read it through this).
    pub closed spec fn def(&self) -> IndexDefinition {
        self.definition
    }

    pub closed spec fn wf(&self) -> bool {
        &&& self.keys@.len() == self.ids@.len()
        &&& distinct(str_views(self.keys@))
        &&& forall|i: int| 0 <= i < self.ids@.len() ==> #[trigger] self.ids@[i]@.len() > 0
    }

    /// The definition, read through a reference.
    pub fn definition_ref(&self) -> (d: &IndexDefinition)
        ensures
            *d == self.def(),
    {
        &self.definition
    }

    /// An empty index.
    pub fn new(definition: IndexDefinition) -> (ix: Self)
        ensures
            ix.wf(),
            ix.map() == Map::<Seq<char>, Seq<DocIdView>>::empty(),
            ix.def() == definition,
    {
        let ix = Index { definition, keys: Vec::new(), ids: Vec::new() };
        assert(str_views(ix.keys@) =~= Seq::<Seq<char>>::empty());
        ix
    }

    /// Add a document under a key. A unique index refuses a key it holds.
    pub fn insert(&mut self, key: String, doc_id: DocumentId) -> (res: Result<(), IronBaseError>)
        requires
            old(self).wf(),
        ensures
            final(self).wf(),
            final(self).def() == old(self).def(),
            res is Err <==> old(self).def().unique && old(self).map().dom().contains(key@),
            res is Err ==> {
                &&& res->Err_0 is IndexError
                &&& res->Err_0->IndexError_0@ == "Duplicate key: "@ + key@ + " (unique index)"@
                &&& final(self).map() == old(self).map()
            },
            res is Ok ==> final(self).map() == old(self).map().insert(
                key@,
                if old(self).map().dom().contains(key@) {
                    old(self).map()[key@]
                } else {
                    Seq::<DocIdView>::empty()
                }.push(doc_id@),
            ),
    {
        let ghost ks = str_views(self.keys@);
        let ghost vs = id_lists(self.ids@);
        proof {
            lemma_assoc_dom(ks, vs);
        }
        let found = find_name(&self.keys, key.as_str());
        match found {
            Some(i) => {
                if self.definition.unique {
                    return Err(IronBaseError::IndexError(concat3("Duplicate key: ", key.as_str(), " (unique index)")));
                }
                proof {
                    lemma_assoc_index(ks, vs, i as int);
                }
                let ghost dv = doc_id@;
                let mut list = self.ids.remove(i);
                let ghost old_list = list@;
                list.push(doc_id);
                self.ids.insert(i, list);
                proof {
                    assert(id_views(list@) =~= id_views(old_list).push(dv));
                    assert(id_lists(self.ids@) =~= vs.update(i as int, id_views(old_list).push(dv)));
                    lemma_assoc_update(ks, vs, i as int, id_views(old_list).push(dv));
                    assert forall|j: int| 0 <= j < self.ids@.len() implies #[trigger] self.ids@[j]@.len() > 0 by {
                        if j != i {
                            assert(self.ids@[j] == old(self).ids@[j]);
                        }
                    }
                }
            },
            None => {
                let ghost kv = key@;
                let mut list: Vec<DocumentId> = Vec::new();
                list.push(doc_id);
                self.keys.push(key);
                self.ids.push(list);
                proof {
                    assert(str_views(self.keys@) =~= ks.push(kv));
                    assert(id_views(list@) =~= Seq::<DocIdView>::empty().push(doc_id@));
                    assert(id_lists(self.ids@) =~= vs.push(id_views(list@)));
                    lemma_assoc_push(ks, vs, kv, id_views(list@));
                    assert forall|j: int| 0 <= j < self.ids@.len() implies #[trigger] self.ids@[j]@.len() > 0 by {
                        if j < old(self).ids@.len() {
                            assert(self.ids@[j] == old(self).ids@[j]);
                        }
                    }
                }
            },
        }
        Ok(())
    }

    /// The documents under a key.
    pub fn find(&self, key: &str) -> (res: Option<&Vec<DocumentId>>)
        requires
            self.wf(),
        ensures
            match res {
                Some(v) => self.map().dom().contains(key@) && id_views(v@) == self.map()[key@],
                None => !self.map().dom().contains(key@),
            },
    {
        proof {
            lemma_assoc_dom(str_views(self.keys@), id_lists(self.ids@));
        }
        match find_name(&self.keys, key) {
            Some(i) => {
                proof {
                    lemma_assoc_index(str_views(self.keys@), id_lists(self.ids@), i as int);
                }
                Some(&self.ids[i])
            },
            None => None,
        }
    }

    /// Drop a document from a key; a key left without documents goes.
    pub fn remove(&mut self, key: &str, doc_id: &DocumentId)
        requires
            old(self).wf(),
        ensures
            final(self).wf(),
            final(self).def() == old(self).def(),
            !old(self).map().dom().contains(key@) ==> final(self).map() == old(self).map(),
            old(self).map().dom().contains(key@) ==> {
                let rest = without(old(self).map()[key@], doc_id@);
                final(self).map() == if rest.len() == 0 {
                    old(self).map().remove(key@)
                } else {
                    old(self).map().insert(key@, rest)
                }
            },
    {
        let ghost ks = str_views(self.keys@);
        let ghost vs = id_lists(self.ids@);
        proof {
            lemma_assoc_dom(ks, vs);
        }
        match find_name(&self.keys, key) {
            None => {},
            Some(i) => {
                proof {
                    lemma_assoc_index(ks, vs, i as int);
                }
                let list = self.ids.remove(i);
                let ghost lv = id_views(list@);
                let mut kept: Vec<DocumentId> = Vec::new();
                let mut j: usize = 0;
                proof {
                    reveal(Seq::filter);
                    assert(lv.subrange(0, 0) =~= Seq::<DocIdView>::empty());
                    assert(id_views(kept@) =~= without(lv.subrange(0, 0), doc_id@));
                }
                while j < list.len()
                    invariant
                        lv == id_views(list@),
                        j <= list@.len(),
                        id_views(kept@) == without(lv.subrange(0, j as int), doc_id@),
                    decreases list@.len() - j,
                {
                    proof {
                        assert(lv.subrange(0, j + 1) =~= lv.subrange(0, j as int).push(lv[j as int]));
                        lemma_without_push(lv.subrange(0, j as int), lv[j as int], doc_id@);
                        assert(lv[j as int] == list@[j as int]@);
                    }
                    if !list[j].same_as(doc_id) {
                        let c = list[j].copy_id();
                        let ghost prev = kept@;
                        kept.push(c);
                        proof {
                            assert(id_views(kept@) =~= id_views(prev).push(lv[j as int]));
                        }
                    }
                    j = j + 1;
                }
                proof {
                    assert(lv.subrange(0, j as int) =~= lv);
                }
                if kept.len() == 0 {
                    self.keys.remove(i);
                    proof {
                        assert(str_views(self.keys@) =~= ks.remove(i as int));
                        assert(id_lists(self.ids@) =~= vs.remove(i as int));
                        lemma_assoc_remove(ks, vs, i as int);
                        assert forall|a: int| 0 <= a < self.ids@.len() implies #[trigger] self.ids@[a]@.len() > 0 by {
                            let a2 = if a < i { a } else { a + 1 };
                            assert(self.ids@[a] == old(self).ids@[a2]);
                        }
                    }
                } else {
                    let ghost kv = id_views(kept@);
                    self.ids.insert(i, kept);
                    proof {
                        assert(id_lists(self.ids@) =~= vs.update(i as int, kv));
                        lemma_assoc_update(ks, vs, i as int, kv);
                        assert forall|a: int| 0 <= a < self.ids@.len() implies #[trigger] self.ids@[a]@.len() > 0 by {
                            if a != i {
                                assert(self.ids@[a] == old(self).ids@[a]);
                            }
                        }
                    }
                }
            },
        }
    }

    /// An index keeps no key without documents: every key it holds lists at
    /// least one. (So `size` counts exactly the keys `find` answers with a
    /// non-empty list.)
    pub proof fn lemma_no_empty_id_list(&self)
        requires
            self.wf(),
        ensures
            forall|k: Seq<char>| #[trigger] self.map().dom().contains(k) ==> self.map()[k].len() > 0,
    {
        let ks = str_views(self.keys@);
        let vs = id_lists(self.ids@);
        lemma_assoc_dom(ks, vs);
        assert forall|k: Seq<char>| #[trigger] self.map().dom().contains(k) implies self.map()[k].len() > 0 by {
            let i = choose|i: int| 0 <= i < ks.len() && ks[i] == k;
            lemma_assoc_index(ks, vs, i);
            assert(self.ids@[i]@.len() > 0);
        }
    }

    /// Number of keys.
    pub fn size(&self) -> (n: usize)
        requires
            self.wf(),
        ensures
            n == self.map().dom().len(),
    {
        proof {
            lemma_assoc_dom(str_views(self.keys@), id_lists(self.ids@));
            crate::assoc::lemma_distinct_len(str_views(self.keys@));
            assert(self.map().dom() =~= str_views(self.keys@).to_set());
        }
        self.keys.len()
    }
}

} // verus!
