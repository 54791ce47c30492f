//! Bookkeeping of a collection's HNSW vector indexes: the indexes by name,
//! their cache-file paths, and which of them changed since the last flush.
use vstd::prelude::*;
use crate::assoc::{
    assoc, distinct, lemma_assoc_dom, lemma_push_to_set, lemma_str_views_push, lemma_assoc_index, lemma_assoc_push, lemma_assoc_remove,
    lemma_assoc_update, str_views,
};
use crate::document::DocumentId;
use crate::error::IronBaseError;
use crate::text::{concat2, concat3, find_name, i64_text};

verus! {

/// Number of the names among `ns` that `dom` holds.
pub open spec fn count_present(ns: Seq<Seq<char>>, dom: Set<Seq<char>>) -> nat
    decreases ns.len(),
{
    if ns.len() == 0 {
        0
    } else {
        count_present(ns.drop_last(), dom) + if dom.contains(ns.last()) {
            1nat
        } else {
            0nat
        }
    }
}

/// What the manager asks of a vector index it holds.
pub trait VectorIndexOps {
    /// Drop the vector stored for a document id, if any.
    fn remove(&mut self, id: &str);

    /// Rebuild when too many nodes are orphaned; whether it rebuilt.
    fn rebuild_if_needed(&mut self) -> Result<bool, IronBaseError>;

    /// Number of orphaned nodes.
    fn orphan_count(&self) -> usize;

    /// Rebuild unconditionally.
    fn rebuild(&mut self) -> Result<(), IronBaseError>;

    /// Record the transaction id up to which the index is persisted.
    fn set_flushed_tx_id(&mut self, tx_id: u64);

    /// Forget the index's own changed flag after a flush.
    fn mark_clean(&mut self);
}

/// Writes an index to its cache file (the application does the file work).
pub trait IndexWriter<I> {
    /// Persist `index` atomically at `cache_path`; the file size in bytes.
    fn persist(&mut self, index: &I, cache_path: &str) -> Result<u64, IronBaseError>;
}

/// The vector indexes of one collection.
pub struct VectorIndexManager<I> {
    names: Vec<String>,
    indexes: Vec<I>,
    path_names: Vec<String>,
    paths: Vec<String>,
    dirty: Vec<String>,
}

/// Name of the vector index of `field` in `collection`.
pub open spec fn field_index_name(collection: Seq<char>, field: Seq<char>) -> Seq<char> {
    collection + "_vec_"@ + field
}

/// What `Path::parent` of std gives for `path`, as text.
pub uninterp spec fn parent_path(path: Seq<char>) -> Option<Seq<char>>;

/// What `Path::join` of std gives for `base` and `file_name`, as text.
pub uninterp spec fn joined_path(base: Seq<char>, file_name: Seq<char>) -> Seq<char>;

/// File `file_name` in the directory that holds `db_path`, or joined to
/// `db_path` itself when it has no parent.
pub open spec fn sibling_path(db_path: Seq<char>, file_name: Seq<char>) -> Seq<char> {
    match parent_path(db_path) {
        Some(dir) => joined_path(dir, file_name),
        None => joined_path(db_path, file_name),
    }
}

/// `Path::parent` of std on `path` (its text, lossily converted).
#[verifier::external_body]
fn path_parent(path: &str) -> (res: Option<String>)
    ensures
        match res {
            Some(p) => parent_path(path@) == Some(p@),
            None => parent_path(path@) is None,
        },
{
    match std::path::Path::new(path).parent() {
        Some(p) => Some(p.to_string_lossy().into_owned()),
        None => None,
    }
}

/// `Path::join` of std: `file_name` under `base` (its text, lossily converted).
#[verifier::external_body]
fn path_join(base: &str, file_name: &str) -> (res: String)
    ensures
        res@ == joined_path(base@, file_name@),
{
    std::path::Path::new(base).join(file_name).to_string_lossy().into_owned()
}

/// The path of `file_name` next to `db_path`.
fn path_sibling(db_path: &str, file_name: &str) -> (p: String)
    ensures
        p@ == sibling_path(db_path@, file_name@),
{
    match path_parent(db_path) {
        Some(dir) => path_join(dir.as_str(), file_name),
        None => path_join(db_path, file_name),
    }
}

/// Text of a document id as vector indexes key it.
pub open spec fn doc_key(d: DocumentId) -> Seq<char> {
    match d {
        DocumentId::Int(i) => crate::text::decimal(i as int),
        DocumentId::String(s) => s@,
        DocumentId::ObjectId(s) => s@,
    }
}

fn doc_key_text(d: &DocumentId) -> (s: String)
    ensures
        s@ == doc_key(*d),
{
    match d {
        DocumentId::Int(i) => i64_text(*i),
        DocumentId::String(s) => s.clone(),
        DocumentId::ObjectId(s) => s.clone(),
    }
}

impl<I> VectorIndexManager<I> {
    /// Names of the indexes, in the order they were added.
    pub closed spec fn index_names(&self) -> Seq<Seq<char>> {
        str_views(self.names@)
    }

    /// The indexes by name.
    pub closed spec fn index_map(&self) -> Map<Seq<char>, I> {
        assoc(str_views(self.names@), self.indexes@)
    }

    /// The cache-file paths by index name.
    pub closed spec fn path_map(&self) -> Map<Seq<char>, Seq<char>> {
        assoc(str_views(self.path_names@), str_views(self.paths@))
    }

    /// Names of the indexes changed since their last flush, in marking order.
    pub closed spec fn dirty_names(&self) -> Seq<Seq<char>> {
        str_views(self.dirty@)
    }

    pub closed spec fn wf(&self) -> bool {
        &&& self.names@.len() == self.indexes@.len()
        &&& distinct(str_views(self.names@))
        &&& self.path_names@.len() == self.paths@.len()
        &&& distinct(str_views(self.path_names@))
        &&& distinct(str_views(self.dirty@))
    }

    /// The names are the keys of the index map, each once.
    pub proof fn lemma_names(&self)
        requires
            self.wf(),
        ensures
            distinct(self.index_names()),
            forall|k: Seq<char>| #[trigger] self.index_map().dom().contains(k) <==> self.index_names().contains(k),
            forall|i: int|
                0 <= i < self.index_names().len() ==> #[trigger] self.index_map()[self.index_names()[i]]
                    == self.index_values()[i],
            self.index_names().len() == self.index_values().len(),
    {
        lemma_assoc_dom(str_views(self.names@), self.indexes@);
        assert forall|i: int| 0 <= i < self.index_names().len() implies #[trigger] self.index_map()[self.index_names()[i]]
            == self.indexes@[i] by {
            lemma_assoc_index(str_views(self.names@), self.indexes@, i);
        }
    }

    /// The indexes, in the order of [`Self::index_names`].
    pub closed spec fn index_values(&self) -> Seq<I> {
        self.indexes@
    }

    /// An empty manager.
    pub fn new() -> (m: Self)
        ensures
            m.wf(),
            m.index_names() == Seq::<Seq<char>>::empty(),
            m.index_map() == Map::<Seq<char>, I>::empty(),
            m.path_map() == Map::<Seq<char>, Seq<char>>::empty(),
            m.dirty_names() == Seq::<Seq<char>>::empty(),
    {
        let m = VectorIndexManager {
            names: Vec::new(),
            indexes: Vec::new(),
            path_names: Vec::new(),
            paths: Vec::new(),
            dirty: Vec::new(),
        };
        assert(str_views(m.names@) =~= Seq::<Seq<char>>::empty());
        assert(str_views(m.path_names@) =~= Seq::<Seq<char>>::empty());
        assert(str_views(m.dirty@) =~= Seq::<Seq<char>>::empty());
        m
    }

    /// Whether some index changed since its last flush.
    pub fn has_dirty(&self) -> (r: bool)
        ensures
            r == (self.dirty_names().len() > 0),
    {
        self.dirty.len() > 0
    }

    /// Mark an index as changed since its last flush.
    pub fn mark_vector_dirty(&mut self, name: &str)
        requires
            old(self).wf(),
        ensures
            final(self).wf(),
            final(self).dirty_names().to_set() == old(self).dirty_names().to_set().insert(name@),
            final(self).dirty_names().contains(name@),
            distinct(final(self).dirty_names()),
            final(self).index_map() == old(self).index_map(),
            final(self).index_names() == old(self).index_names(),
            final(self).path_map() == old(self).path_map(),
    {
        match find_name(&self.dirty, name) {
            Some(_) => {
                assert(self.dirty_names().to_set() =~= self.dirty_names().to_set().insert(name@));
            },
            None => {
                let ghost before = str_views(self.dirty@);
                self.dirty.push(name.to_string());
                proof {
                    assert(str_views(self.dirty@) =~= before.push(name@));
                    lemma_assoc_push(before, before, name@, name@);
                    lemma_push_to_set(before, name@);
                }
            },
        }
    }

    /// Names of the indexes changed since their last flush.
    pub fn dirty_vector_index_names(&self) -> (res: Vec<String>)
        ensures
            str_views(res@) == self.dirty_names(),
    {
        let mut out: Vec<String> = Vec::new();
        let mut i: usize = 0;
        while i < self.dirty.len()
            invariant
                i <= self.dirty@.len(),
                str_views(out@) == str_views(self.dirty@).subrange(0, i as int),
            decreases self.dirty@.len() - i,
        {
            let c = self.dirty[i].clone();
            proof {
                lemma_str_views_push(self.dirty@, out@, c, i as int);
            }
            out.push(c);
            i = i + 1;
        }
        assert(str_views(self.dirty@).subrange(0, i as int) =~= str_views(self.dirty@));
        out
    }

    /// Whether an index of this name exists.
    pub fn contains(&self, name: &str) -> (r: bool)
        requires
            self.wf(),
        ensures
            r == self.index_map().dom().contains(name@),
    {
        proof {
            lemma_assoc_dom(str_views(self.names@), self.indexes@);
        }
        find_name(&self.names, name).is_some()
    }

    /// Set the cache-file path of an index.
    pub fn set_index_path(&mut self, index_name: &str, path: String)
        requires
            old(self).wf(),
        ensures
            final(self).wf(),
            final(self).path_map() == old(self).path_map().insert(index_name@, path@),
            final(self).index_map() == old(self).index_map(),
            final(self).index_names() == old(self).index_names(),
            final(self).dirty_names() == old(self).dirty_names(),
    {
        let ghost ks = str_views(self.path_names@);
        let ghost vs = str_views(self.paths@);
        match find_name(&self.path_names, index_name) {
            Some(i) => {
                let ghost pv = path@;
                self.paths.set(i, path);
                proof {
                    assert(str_views(self.paths@) =~= vs.update(i as int, pv));
                    lemma_assoc_update(ks, vs, i as int, pv);
                }
            },
            None => {
                let ghost pv = path@;
                self.path_names.push(index_name.to_string());
                self.paths.push(path);
                proof {
                    assert(str_views(self.path_names@) =~= ks.push(index_name@));
                    assert(str_views(self.paths@) =~= vs.push(pv));
                    lemma_assoc_push(ks, vs, index_name@, pv);
                }
            },
        }
    }

    /// The cache-file path of an index, if one is set.
    pub fn get_index_path(&self, index_name: &str) -> (res: Option<&String>)
        requires
            self.wf(),
        ensures
            match res {
                Some(p) => self.path_map().dom().contains(index_name@) && p@ == self.path_map()[index_name@],
                None => !self.path_map().dom().contains(index_name@),
            },
    {
        proof {
            lemma_assoc_dom(str_views(self.path_names@), str_views(self.paths@));
        }
        match find_name(&self.path_names, index_name) {
            Some(i) => {
                proof {
                    lemma_assoc_index(str_views(self.path_names@), str_views(self.paths@), i as int);
                }
                Some(&self.paths[i])
            },
            None => None,
        }
    }

    /// Add an index under a new name. `built` is the index made from its
    /// configuration, or the reason the configuration was refused. An existing
    /// name is refused first; a storage path, when given, becomes the
    /// index's cache path.
    pub fn create_vector_index(
        &mut self,
        name: String,
        _field: String,
        built: Result<I, String>,
        storage_path: Option<String>,
    ) -> (res: Result<(), IronBaseError>)
        requires
            old(self).wf(),
        ensures
            final(self).wf(),
            old(self).index_map().dom().contains(name@) ==> res == Err::<(), IronBaseError>(
                IronBaseError::IndexError(res->Err_0->IndexError_0),
            ) && res->Err_0->IndexError_0@ == "Index already exists: "@ + name@,
            !old(self).index_map().dom().contains(name@) && built is Err ==> res is Err && res->Err_0 is IndexError
                && res->Err_0->IndexError_0@ == built->Err_0@,
            res is Err ==> final(self).index_map() == old(self).index_map() && final(self).path_map()
                == old(self).path_map() && final(self).index_names() == old(self).index_names(),
            res is Ok <==> !old(self).index_map().dom().contains(name@) && built is Ok,
            res is Ok ==> {
                &&& final(self).index_map() == old(self).index_map().insert(name@, built->Ok_0)
                &&& final(self).index_names() == old(self).index_names().push(name@)
                &&& final(self).path_map() == match storage_path {
                    Some(p) => old(self).path_map().insert(name@, p@),
                    None => old(self).path_map(),
                }
            },
            final(self).dirty_names() == old(self).dirty_names(),
    {
        proof {
            lemma_assoc_dom(str_views(self.names@), self.indexes@);
        }
        if find_name(&self.names, name.as_str()).is_some() {
            return Err(IronBaseError::IndexError(concat2("Index already exists: ", name.as_str())));
        }
        let index = match built {
            Ok(index) => index,
            Err(e) => {
                return Err(IronBaseError::IndexError(e));
            },
        };
        match storage_path {
            Some(path) => {
                self.set_index_path(name.as_str(), path);
            },
            None => {},
        }
        let ghost ks = str_views(self.names@);
        let ghost vs = self.indexes@;
        let ghost nv = name@;
        self.names.push(name);
        self.indexes.push(index);
        proof {
            assert(str_views(self.names@) =~= ks.push(nv));
            lemma_assoc_push(ks, vs, nv, index);
        }
        Ok(())
    }

    /// The index of this name.
    pub fn get_vector_index(&self, name: &str) -> (res: Option<&I>)
        requires
            self.wf(),
        ensures
            match res {
                Some(r) => self.index_map().dom().contains(name@) && *r == self.index_map()[name@],
                None => !self.index_map().dom().contains(name@),
            },
    {
        proof {
            lemma_assoc_dom(str_views(self.names@), self.indexes@);
        }
        match find_name(&self.names, name) {
            Some(i) => {
                proof {
                    lemma_assoc_index(str_views(self.names@), self.indexes@, i as int);
                }
                Some(&self.indexes[i])
            },
            None => None,
        }
    }

    /// The index of this name, to change; an index handed out is marked
    /// as changed since its last flush.
    pub fn get_vector_index_mut(&mut self, name: &str) -> (res: Option<&mut I>)
        requires
            old(self).wf(),
        ensures
            final(self).wf(),
            final(self).path_map() == old(self).path_map(),
            final(self).index_names() == old(self).index_names(),
            match res {
                Some(r) => {
                    &&& old(self).index_map().dom().contains(name@)
                    &&& *r == old(self).index_map()[name@]
                    &&& final(self).index_map() == old(self).index_map().insert(name@, *final(r))
                    &&& final(self).dirty_names().to_set() == old(self).dirty_names().to_set().insert(name@)
                },
                None => {
                    &&& !old(self).index_map().dom().contains(name@)
                    &&& final(self).index_map() == old(self).index_map()
                    &&& final(self).dirty_names() == old(self).dirty_names()
                },
            },
    {
        proof {
            lemma_assoc_dom(str_views(self.names@), self.indexes@);
        }
        match find_name(&self.names, name) {
            Some(i) => {
                self.mark_vector_dirty(name);
                proof {
                    lemma_assoc_index(str_views(self.names@), self.indexes@, i as int);
                }
                let ghost ks = str_views(self.names@);
                let ghost vs = self.indexes@;
                let r = &mut self.indexes[i];
                proof {
                    lemma_assoc_update(ks, vs, i as int, *final(r));
                }
                Some(r)
            },
            None => None,
        }
    }

    /// The index of `field` in `collection` (named `<collection>_vec_<field>`).
    pub fn get_vector_index_for_field(&self, collection_name: &str, field: &str) -> (res: Option<&I>)
        requires
            self.wf(),
        ensures
            ({
                let n = field_index_name(collection_name@, field@);
                match res {
                    Some(r) => self.index_map().dom().contains(n) && *r == self.index_map()[n],
                    None => !self.index_map().dom().contains(n),
                }
            }),
    {
        let expected = concat3(collection_name, "_vec_", field);
        self.get_vector_index(expected.as_str())
    }

    /// The index of `field` in `collection`, to change; marked as changed.
    pub fn get_vector_index_for_field_mut(&mut self, collection_name: &str, field: &str) -> (res: Option<&mut I>)
        requires
            old(self).wf(),
        ensures
            final(self).wf(),
            final(self).path_map() == old(self).path_map(),
            final(self).index_names() == old(self).index_names(),
            ({
                let n = field_index_name(collection_name@, field@);
                match res {
                    Some(r) => {
                        &&& old(self).index_map().dom().contains(n)
                        &&& *r == old(self).index_map()[n]
                        &&& final(self).index_map() == old(self).index_map().insert(n, *final(r))
                        &&& final(self).dirty_names().to_set() == old(self).dirty_names().to_set().insert(n)
                    },
                    None => {
                        &&& !old(self).index_map().dom().contains(n)
                        &&& final(self).index_map() == old(self).index_map()
                        &&& final(self).dirty_names() == old(self).dirty_names()
                    },
                }
            }),
    {
        let expected = concat3(collection_name, "_vec_", field);
        self.get_vector_index_mut(expected.as_str())
    }

    /// All indexes, in the order of [`Self::index_names`].
    pub fn list_vector_indexes(&self) -> (res: Vec<&I>)
        ensures
            res@.len() == self.index_values().len(),
            forall|i: int| 0 <= i < res@.len() ==> *res@[i] == self.index_values()[i],
    {
        let mut out: Vec<&I> = Vec::new();
        let mut i: usize = 0;
        while i < self.indexes.len()
            invariant
                i <= self.indexes@.len(),
                out@.len() == i,
                forall|j: int| 0 <= j < i ==> *out@[j] == self.indexes@[j],
            decreases self.indexes@.len() - i,
        {
            out.push(&self.indexes[i]);
            i = i + 1;
        }
        out
    }

    /// Names of all indexes.
    pub fn vector_index_names(&self) -> (res: Vec<String>)
        ensures
            str_views(res@) == self.index_names(),
    {
        let mut out: Vec<String> = Vec::new();
        let mut i: usize = 0;
        while i < self.names.len()
            invariant
                i <= self.names@.len(),
                str_views(out@) == str_views(self.names@).subrange(0, i as int),
            decreases self.names@.len() - i,
        {
            let c = self.names[i].clone();
            proof {
                lemma_str_views_push(self.names@, out@, c, i as int);
            }
            out.push(c);
            i = i + 1;
        }
        assert(str_views(self.names@).subrange(0, i as int) =~= str_views(self.names@));
        out
    }

    /// Add an index loaded from its cache file, replacing one of the same name.
    pub fn add_loaded_vector_index(&mut self, name: String, index: I)
        requires
            old(self).wf(),
        ensures
            final(self).wf(),
            final(self).index_map() == old(self).index_map().insert(name@, index),
            final(self).path_map() == old(self).path_map(),
            final(self).dirty_names() == old(self).dirty_names(),
    {
        let ghost ks = str_views(self.names@);
        let ghost vs = self.indexes@;
        proof {
            lemma_assoc_dom(ks, vs);
        }
        match find_name(&self.names, name.as_str()) {
            Some(i) => {
                self.indexes.set(i, index);
                proof {
                    lemma_assoc_update(ks, vs, i as int, index);
                }
            },
            None => {
                let ghost nv = name@;
                self.names.push(name);
                self.indexes.push(index);
                proof {
                    assert(str_views(self.names@) =~= ks.push(nv));
                    lemma_assoc_push(ks, vs, nv, index);
                }
            },
        }
    }

    /// Remove an index with its path and changed mark; an unknown name is an `IndexError`.
    pub fn drop_vector_index(&mut self, name: &str) -> (res: Result<(), IronBaseError>)
        requires
            old(self).wf(),
        ensures
            final(self).wf(),
            res is Ok <==> old(self).index_map().dom().contains(name@),
            res is Ok ==> {
                &&& final(self).index_map() == old(self).index_map().remove(name@)
                &&& final(self).path_map() == old(self).path_map().remove(name@)
                &&& final(self).dirty_names().to_set() == old(self).dirty_names().to_set().remove(name@)
            },
            res is Err ==> {
                &&& res->Err_0 is IndexError
                &&& res->Err_0->IndexError_0@ == "Vector index not found: "@ + name@
                &&& final(self).index_map() == old(self).index_map()
                &&& final(self).path_map() == old(self).path_map()
                &&& final(self).dirty_names() == old(self).dirty_names()
            },
    {
        proof {
            lemma_assoc_dom(str_views(self.names@), self.indexes@);
        }
        match find_name(&self.names, name) {
            None => Err(IronBaseError::IndexError(concat2("Vector index not found: ", name))),
            Some(i) => {
                let ghost ks = str_views(self.names@);
                let ghost vs = self.indexes@;
                self.names.remove(i);
                self.indexes.remove(i);
                proof {
                    assert(str_views(self.names@) =~= ks.remove(i as int));
                    lemma_assoc_remove(ks, vs, i as int);
                }
                let ghost pks = str_views(self.path_names@);
                let ghost pvs = str_views(self.paths@);
                proof {
                    lemma_assoc_dom(pks, pvs);
                }
                match find_name(&self.path_names, name) {
                    Some(j) => {
                        self.path_names.remove(j);
                        self.paths.remove(j);
                        proof {
                            assert(str_views(self.path_names@) =~= pks.remove(j as int));
                            assert(str_views(self.paths@) =~= pvs.remove(j as int));
                            lemma_assoc_remove(pks, pvs, j as int);
                        }
                    },
                    None => {
                        assert(self.path_map() =~= self.path_map().remove(name@));
                    },
                }
                let ghost ds = str_views(self.dirty@);
                match find_name(&self.dirty, name) {
                    Some(j) => {
                        self.dirty.remove(j);
                        proof {
                            assert(str_views(self.dirty@) =~= ds.remove(j as int));
                            lemma_assoc_remove(ds, ds, j as int);
                            assert forall|k: Seq<char>| #[trigger] ds.remove(j as int).contains(k) <==> (ds.contains(k) && k != name@) by {
                                if ds.contains(k) && k != name@ {
                                    let a = choose|a: int| 0 <= a < ds.len() && ds[a] == k;
                                    assert(a != j);
                                    let a2 = if a < j { a } else { a - 1 };
                                    assert(ds.remove(j as int)[a2] == k);
                                }
                                if ds.remove(j as int).contains(k) {
                                    let a = choose|a: int| 0 <= a < ds.remove(j as int).len() && ds.remove(j as int)[a] == k;
                                    let a2 = if a < j { a } else { a + 1 };
                                    assert(ds[a2] == k);
                                    assert(a2 != j);
                                }
                            }
                            assert(str_views(self.dirty@).to_set() =~= ds.to_set().remove(name@));
                        }
                    },
                    None => {
                        assert(ds.to_set() =~= ds.to_set().remove(name@));
                    },
                }
                Ok(())
            },
        }
    }

    /// Build the path of an index's cache file: `<index_name>.hnsw` beside `db_path`.
    pub fn build_vector_cache_path(db_path: &str, index_name: &str) -> (p: String)
        ensures
            p@ == sibling_path(db_path@, index_name@ + ".hnsw"@),
    {
        let file = concat2(index_name, ".hnsw");
        path_sibling(db_path, file.as_str())
    }
}


/// Index names a document removal touches: all but the excluded one.
pub open spec fn touched_names(names: Seq<Seq<char>>, exclude: Option<Seq<char>>) -> Set<Seq<char>> {
    Set::new(|k: Seq<char>| names.contains(k) && exclude != Some(k))
}

pub open spec fn opt_str_view(o: Option<&str>) -> Option<Seq<char>> {
    match o {
        Some(s) => Some(s@),
        None => None,
    }
}

impl<I: VectorIndexOps> VectorIndexManager<I> {
    /// Remove a document from every index but the excluded one, marking
    /// each as changed.
    pub fn remove_document_from_vector_indexes(&mut self, doc_id: &DocumentId, exclude_index: Option<&str>) -> (res: Result<(), IronBaseError>)
        requires
            old(self).wf(),
        ensures
            res is Ok,
            final(self).wf(),
            final(self).index_names() == old(self).index_names(),
            final(self).path_map() == old(self).path_map(),
            final(self).dirty_names().to_set() == old(self).dirty_names().to_set().union(
                touched_names(old(self).index_names(), opt_str_view(exclude_index)),
            ),
            final(self).index_map().dom() == old(self).index_map().dom(),
            forall|k: Seq<char>| #[trigger] old(self).index_map().dom().contains(k) && opt_str_view(exclude_index) == Some(k)
                ==> final(self).index_map()[k] == old(self).index_map()[k],
    {
        let id_str = doc_key_text(doc_id);
        let ghost names0 = str_views(self.names@);
        let ghost dirty0 = self.dirty_names().to_set();
        let ghost ex = opt_str_view(exclude_index);
        let mut i: usize = 0;
        proof {
            assert(dirty0 =~= dirty0.union(Set::new(|k: Seq<char>| names0.subrange(0, 0).contains(k) && ex != Some(k))));
        }
        while i < self.names.len()
            invariant
                self.wf(),
                str_views(self.names@) == names0,
                self.path_map() == old(self).path_map(),
                names0 == old(self).index_names(),
                dirty0 == old(self).dirty_names().to_set(),
                ex == opt_str_view(exclude_index),
                i <= names0.len(),
                self.dirty_names().to_set() == dirty0.union(
                    Set::new(|k: Seq<char>| names0.subrange(0, i as int).contains(k) && ex != Some(k)),
                ),
                self.index_map().dom() == old(self).index_map().dom(),
                forall|k: Seq<char>| #[trigger] old(self).index_map().dom().contains(k) && ex == Some(k)
                    ==> self.index_map()[k] == old(self).index_map()[k],
            decreases names0.len() - i,
        {
            let skip = match exclude_index {
                Some(excluded) => crate::text::str_eq(self.names[i].as_str(), excluded),
                None => false,
            };
            let ghost before = self.dirty_names().to_set();
            if !skip {
                let ghost map0 = self.index_map();
                proof {
                    self.lemma_names();
                    lemma_assoc_dom(str_views(self.names@), self.indexes@);
                    assert(names0[i as int] == self.names@[i as int]@);
                }
                let ghost vs0 = self.indexes@;
                self.indexes[i].remove(id_str.as_str());
                proof {
                    assert(self.indexes@ == vs0.update(i as int, self.indexes@[i as int]));
                    lemma_assoc_update(str_views(self.names@), vs0, i as int, self.indexes@[i as int]);
                    assert(ex != Some(names0[i as int]));
                    assert(self.index_map().dom() =~= map0.dom());
                }
                let name = self.names[i].clone();
                self.mark_vector_dirty(name.as_str());
            }
            proof {
                let ni = names0[i as int];
                assert(names0[i as int] == self.names@[i as int]@);
                assert forall|k: Seq<char>| #[trigger] names0.subrange(0, i + 1).contains(k) <==> (names0.subrange(0, i as int).contains(k) || k == ni) by {
                    if names0.subrange(0, i as int).contains(k) {
                        let a = choose|a: int| 0 <= a < i && #[trigger] names0.subrange(0, i as int)[a] == k;
                        assert(names0.subrange(0, i + 1)[a] == k);
                    }
                    if k == ni {
                        assert(names0.subrange(0, i + 1)[i as int] == k);
                    }
                    if names0.subrange(0, i + 1).contains(k) && k != ni {
                        let a = choose|a: int| 0 <= a < i + 1 && #[trigger] names0.subrange(0, i + 1)[a] == k;
                        assert(names0.subrange(0, i as int)[a] == k);
                    }
                }
                assert(self.dirty_names().to_set() =~= dirty0.union(
                    Set::new(|k: Seq<char>| names0.subrange(0, i + 1).contains(k) && ex != Some(k)),
                ));
            }
            i = i + 1;
        }
        proof {
            assert(names0.subrange(0, i as int) =~= names0);
            assert(self.dirty_names().to_set() =~= dirty0.union(touched_names(names0, ex)));
        }
        Ok(())
    }

    /// Rebuild the indexes that ask for it (too many orphaned nodes), marking
    /// each rebuilt one as changed; the number rebuilt, or the first error.
    /// Whether an index asks is its own answer: whatever the answers, the
    /// count and the new marks are those [`Self::record_vector_rebuilds`]
    /// gives for them.
    pub fn rebuild_vector_indexes_if_needed(&mut self) -> (res: Result<usize, IronBaseError>)
        requires
            old(self).wf(),
        ensures
            final(self).wf(),
            final(self).index_names() == old(self).index_names(),
            final(self).path_map() == old(self).path_map(),
            exists|flags: Seq<bool>| #[trigger] flags.len() <= old(self).index_names().len()
                && final(self).dirty_names().to_set() == old(self).dirty_names().to_set().union(
                    rebuilt_names(old(self).index_names(), flags),
                ) && (res is Ok ==> flags.len() == old(self).index_names().len() && res->Ok_0 == count_true(flags)),
            old(self).index_names().len() == 0 ==> res == Ok::<usize, IronBaseError>(0),
    {
        let mut flags: Vec<bool> = Vec::new();
        let mut i: usize = 0;
        while i < self.names.len()
            invariant
                self.wf(),
                self.names@ == old(self).names@,
                self.dirty@ == old(self).dirty@,
                self.path_names@ == old(self).path_names@,
                self.paths@ == old(self).paths@,
                flags@.len() == i,
                i <= self.names@.len(),
            decreases self.names@.len() - i,
        {
            match self.indexes[i].rebuild_if_needed() {
                Err(e) => {
                    let _ = self.record_vector_rebuilds(&flags);
                    return Err(e);
                },
                Ok(b) => {
                    flags.push(b);
                },
            }
            i = i + 1;
        }
        let n = self.record_vector_rebuilds(&flags);
        Ok(n)
    }

    /// Rebuild every index that has orphaned nodes, marking each as changed;
    /// the number rebuilt, or the first error. Which indexes have orphans,
    /// and whether a rebuild succeeds, are the indexes' own answers: the
    /// count and the new marks are those [`Self::record_vector_rebuilds`]
    /// gives for them.
    pub fn rebuild_all_vector_indexes(&mut self) -> (res: Result<usize, IronBaseError>)
        requires
            old(self).wf(),
        ensures
            final(self).wf(),
            final(self).index_names() == old(self).index_names(),
            final(self).path_map() == old(self).path_map(),
            exists|flags: Seq<bool>| #[trigger] flags.len() <= old(self).index_names().len()
                && final(self).dirty_names().to_set() == old(self).dirty_names().to_set().union(
                    rebuilt_names(old(self).index_names(), flags),
                ) && (res is Ok ==> flags.len() == old(self).index_names().len() && res->Ok_0 == count_true(flags)),
            old(self).index_names().len() == 0 ==> res == Ok::<usize, IronBaseError>(0),
    {
        let mut flags: Vec<bool> = Vec::new();
        let mut i: usize = 0;
        while i < self.names.len()
            invariant
                self.wf(),
                self.names@ == old(self).names@,
                self.dirty@ == old(self).dirty@,
                self.path_names@ == old(self).path_names@,
                self.paths@ == old(self).paths@,
                flags@.len() == i,
                i <= self.names@.len(),
            decreases self.names@.len() - i,
        {
            let orphans = self.indexes[i].orphan_count();
            if orphans > 0 {
                match self.indexes[i].rebuild() {
                    Err(e) => {
                        let _ = self.record_vector_rebuilds(&flags);
                        return Err(e);
                    },
                    Ok(()) => {},
                }
            }
            flags.push(orphans > 0);
            i = i + 1;
        }
        let n = self.record_vector_rebuilds(&flags);
        Ok(n)
    }
}


impl<I: VectorIndexOps> VectorIndexManager<I> {
    /// Flush one index if it is marked as changed: stamp it with the
    /// watermark, write it beside `db_path`, clear its marks. `Ok(false)`
    /// when it is not marked or does not exist.
    pub fn flush_one_vector_index<W: IndexWriter<I>>(
        &mut self,
        name: &str,
        db_path: &str,
        watermark: u64,
        writer: &mut W,
    ) -> (res: Result<bool, IronBaseError>)
        requires
            old(self).wf(),
        ensures
            final(self).wf(),
            final(self).index_names() == old(self).index_names(),
            final(self).path_map() == old(self).path_map(),
            !old(self).dirty_names().contains(name@) || !old(self).index_map().dom().contains(name@) ==> {
                &&& res == Ok::<bool, IronBaseError>(false)
                &&& final(self).dirty_names() == old(self).dirty_names()
                &&& final(self).index_map() == old(self).index_map()
            },
            final(self).index_map().dom() == old(self).index_map().dom(),
            res == Ok::<bool, IronBaseError>(true) ==> {
                &&& old(self).dirty_names().contains(name@)
                &&& old(self).index_map().dom().contains(name@)
                &&& final(self).dirty_names().to_set() == old(self).dirty_names().to_set().remove(name@)
            },
            res is Err ==> final(self).dirty_names() == old(self).dirty_names(),
            res == Ok::<bool, IronBaseError>(false) ==> final(self).dirty_names() == old(self).dirty_names(),
            old(self).dirty_names().contains(name@) && old(self).index_map().dom().contains(name@) ==> res
                != Ok::<bool, IronBaseError>(false),
    {
        let cache_path = match self.vector_flush_path(name, db_path) {
            None => {
                return Ok(false);
            },
            Some(p) => p,
        };
        proof {
            self.lemma_names();
            lemma_assoc_dom(str_views(self.names@), self.indexes@);
        }
        match find_name(&self.names, name) {
            None => Ok(false),
            Some(i) => {
                self.indexes[i].set_flushed_tx_id(watermark);
                proof {
                    lemma_assoc_dom(str_views(self.names@), self.indexes@);
                }
                let written = writer.persist(&self.indexes[i], cache_path.as_str());
                self.finish_vector_flush(name, written)
            },
        }
    }

    /// Where a flush writes an index: beside `db_path`, for an index that is
    /// marked as changed and exists; nothing to write otherwise.
    pub fn vector_flush_path(&self, name: &str, db_path: &str) -> (r: Option<String>)
        requires
            self.wf(),
        ensures
            r is Some <==> (self.dirty_names().contains(name@) && self.index_map().dom().contains(name@)),
            r matches Some(p) ==> p@ == sibling_path(db_path@, name@ + ".hnsw"@),
    {
        proof {
            lemma_assoc_dom(str_views(self.names@), self.indexes@);
            self.lemma_names();
        }
        if find_name(&self.dirty, name).is_none() {
            return None;
        }
        if find_name(&self.names, name).is_none() {
            return None;
        }
        Some(Self::build_vector_cache_path(db_path, name))
    }

    /// What a flush does with the writer's answer: after a write the index
    /// forgets its own changed flag and its mark is cleared (`Ok(true)`); a
    /// failed write is reported and changes nothing.
    pub fn finish_vector_flush(&mut self, name: &str, written: Result<u64, IronBaseError>) -> (res: Result<bool, IronBaseError>)
        requires
            old(self).wf(),
        ensures
            final(self).wf(),
            final(self).index_names() == old(self).index_names(),
            final(self).path_map() == old(self).path_map(),
            final(self).index_map().dom() == old(self).index_map().dom(),
            match written {
                Ok(_) => {
                    &&& res == Ok::<bool, IronBaseError>(true)
                    &&& final(self).dirty_names().to_set() == old(self).dirty_names().to_set().remove(name@)
                },
                Err(e) => {
                    &&& res == Err::<bool, IronBaseError>(e)
                    &&& *final(self) == *old(self)
                },
            },
    {
        match written {
            Err(e) => Err(e),
            Ok(_size) => {
                proof {
                    self.lemma_names();
                    lemma_assoc_dom(str_views(self.names@), self.indexes@);
                }
                match find_name(&self.names, name) {
                    Some(i) => {
                        self.indexes[i].mark_clean();
                    },
                    None => {},
                }
                proof {
                    lemma_assoc_dom(str_views(self.names@), self.indexes@);
                }
                self.unmark_dirty(name);
                Ok(true)
            },
        }
    }

    /// Flush every index marked as changed; the number flushed, or the first error.
    pub fn flush_vector_indexes<W: IndexWriter<I>>(&mut self, db_path: &str, watermark: u64, writer: &mut W) -> (res: Result<usize, IronBaseError>)
        requires
            old(self).wf(),
        ensures
            final(self).wf(),
            final(self).index_names() == old(self).index_names(),
            final(self).path_map() == old(self).path_map(),
            final(self).dirty_names().to_set().subset_of(old(self).dirty_names().to_set()),
            res is Ok ==> res->Ok_0 <= old(self).dirty_names().len(),
            res is Ok ==> forall|k: Seq<char>| #[trigger] final(self).dirty_names().contains(k)
                ==> !old(self).index_map().dom().contains(k),
            res is Ok ==> res->Ok_0 == count_present(old(self).dirty_names(), old(self).index_map().dom()),
            res is Ok ==> final(self).dirty_names().to_set() == old(self).dirty_names().to_set().difference(
                old(self).index_map().dom(),
            ),
            (forall|k: Seq<char>| #[trigger] old(self).dirty_names().contains(k) ==> !old(self).index_map().dom().contains(k))
                ==> res == Ok::<usize, IronBaseError>(0),
    {
        let names = self.dirty_vector_index_names();
        let ghost dirty0 = self.dirty_names();
        let ghost names0 = self.index_names();
        let mut count: usize = 0;
        let mut i: usize = 0;
        assert(dirty0.subrange(0, 0) =~= Seq::<Seq<char>>::empty());
        assert(self.dirty_names().to_set() =~= dirty0.to_set().difference(
            Set::new(|k: Seq<char>| dirty0.subrange(0, 0).contains(k) && old(self).index_map().dom().contains(k)),
        ));
        while i < names.len()
            invariant
                self.wf(),
                old(self).wf(),
                str_views(names@) == dirty0,
                dirty0 == old(self).dirty_names(),
                names0 == old(self).index_names(),
                self.index_names() == names0,
                self.path_map() == old(self).path_map(),
                self.dirty_names().to_set().subset_of(dirty0.to_set()),
                distinct(dirty0),
                i <= names@.len(),
                count <= i,
                forall|j: int| 0 <= j < i && #[trigger] self.dirty_names().contains(dirty0[j]) ==> !old(self).index_map().dom().contains(dirty0[j]),
                forall|k: Seq<char>| #[trigger] self.dirty_names().contains(k) ==> dirty0.contains(k),
                forall|k: Seq<char>| #[trigger] self.index_map().dom().contains(k) <==> old(self).index_map().dom().contains(k),
                count == count_present(dirty0.subrange(0, i as int), old(self).index_map().dom()),
                self.dirty_names().to_set() == dirty0.to_set().difference(
                    Set::new(|k: Seq<char>| dirty0.subrange(0, i as int).contains(k) && old(self).index_map().dom().contains(k)),
                ),
                (forall|k: Seq<char>| #[trigger] dirty0.contains(k) ==> !old(self).index_map().dom().contains(k)) ==> count == 0,
            decreases names@.len() - i,
        {
            let ghost before = self.dirty_names();
            let ghost x = dirty0[i as int];
            let ghost dom0 = old(self).index_map().dom();
            proof {
                self.lemma_names();
                lemma_assoc_dom(str_views(self.names@), self.indexes@);
                assert(names@[i as int]@ == x);
                assert(dirty0.contains(x));
                assert(!dirty0.subrange(0, i as int).contains(x)) by {
                    if dirty0.subrange(0, i as int).contains(x) {
                        let j = choose|j: int| 0 <= j < i && dirty0.subrange(0, i as int)[j] == x;
                        assert(dirty0[j] == dirty0[i as int]);
                    }
                }
                assert(before.to_set().contains(x));
                assert(before.contains(x));
                assert(self.index_map().dom().contains(x) == dom0.contains(x));
            }
            let flushed = self.flush_one_vector_index(names[i].as_str(), db_path, watermark, writer);
            proof {
                self.lemma_names();
                lemma_assoc_dom(str_views(self.names@), self.indexes@);
            }
            match flushed {
                Err(e) => {
                    assert(dom0.contains(x) && dirty0.contains(x));
                    return Err(e);
                },
                Ok(true) => {
                    count = count + 1;
                },
                Ok(false) => {},
            }
            proof {
                let pre = dirty0.subrange(0, i as int);
                let post = dirty0.subrange(0, i + 1);
                assert(post.drop_last() =~= pre);
                assert(post.last() == x);
                crate::assoc::lemma_push_to_set(pre, x);
                assert(post =~= pre.push(x));
                assert forall|k: Seq<char>| #[trigger] post.contains(k) <==> pre.contains(k) || k == x by {
                    assert(pre.push(x).to_set().contains(k) == pre.to_set().insert(x).contains(k));
                }
                if dom0.contains(x) {
                    assert(flushed == Ok::<bool, IronBaseError>(true));
                    assert(self.dirty_names().to_set() =~= dirty0.to_set().difference(
                        Set::new(|k: Seq<char>| post.contains(k) && dom0.contains(k)),
                    ));
                } else {
                    assert(flushed == Ok::<bool, IronBaseError>(false));
                    assert(self.dirty_names().to_set() =~= dirty0.to_set().difference(
                        Set::new(|k: Seq<char>| post.contains(k) && dom0.contains(k)),
                    ));
                }
            }
            proof {
                old(self).lemma_names();
                assert forall|k: Seq<char>| #[trigger] self.index_map().dom().contains(k) <==> old(self).index_map().dom().contains(k) by {
                    assert(self.index_map().dom().contains(k) <==> self.index_names().contains(k));
                    assert(old(self).index_map().dom().contains(k) <==> old(self).index_names().contains(k));
                }
                assert(dirty0[i as int] == names@[i as int]@);
                assert forall|k: Seq<char>| #[trigger] self.dirty_names().contains(k) implies dirty0.contains(k) by {
                    assert(self.dirty_names().to_set().contains(k));
                    assert(before.to_set().contains(k));
                }
                assert forall|j: int| 0 <= j < i + 1 && #[trigger] self.dirty_names().contains(dirty0[j]) implies !old(self).index_map().dom().contains(dirty0[j]) by {
                    assert(self.dirty_names().to_set().contains(dirty0[j]));
                    assert(before.to_set().contains(dirty0[j]));
                }
            }
            i = i + 1;
        }
        proof {
            assert forall|k: Seq<char>| #[trigger] self.dirty_names().contains(k) implies !old(self).index_map().dom().contains(k) by {
                let j = choose|j: int| 0 <= j < dirty0.len() && dirty0[j] == k;
                assert(self.dirty_names().contains(dirty0[j]));
            }
            assert(dirty0.subrange(0, i as int) =~= dirty0);
            assert(self.dirty_names().to_set() =~= dirty0.to_set().difference(old(self).index_map().dom()));
        }
        Ok(count)
    }
}

/// Number of `true` among `flags`.
pub open spec fn count_true(flags: Seq<bool>) -> nat
    decreases flags.len(),
{
    if flags.len() == 0 {
        0
    } else {
        count_true(flags.drop_last()) + if flags.last() {
            1nat
        } else {
            0nat
        }
    }
}

/// Names of the indexes whose flag is set (the `i`-th flag for the `i`-th name).
pub open spec fn rebuilt_names(names: Seq<Seq<char>>, flags: Seq<bool>) -> Set<Seq<char>> {
    Set::new(|k: Seq<char>| exists|i: int| 0 <= i < flags.len() && i < names.len() && #[trigger] flags[i] && names[i] == k)
}

impl<I> VectorIndexManager<I> {
    /// Mark as changed the indexes that were rebuilt (the `i`-th flag for the
    /// `i`-th index); how many there were.
    pub fn record_vector_rebuilds(&mut self, rebuilt: &Vec<bool>) -> (count: usize)
        requires
            old(self).wf(),
            rebuilt@.len() <= old(self).index_names().len(),
        ensures
            final(self).wf(),
            final(self).index_names() == old(self).index_names(),
            final(self).index_map() == old(self).index_map(),
            final(self).path_map() == old(self).path_map(),
            count == count_true(rebuilt@),
            final(self).dirty_names().to_set() == old(self).dirty_names().to_set().union(
                rebuilt_names(old(self).index_names(), rebuilt@),
            ),
    {
        let ghost names0 = self.index_names();
        let ghost dirty0 = self.dirty_names().to_set();
        let mut count: usize = 0;
        let mut i: usize = 0;
        proof {
            assert(rebuilt@.subrange(0, 0) =~= Seq::<bool>::empty());
            assert(dirty0.union(rebuilt_names(names0, Seq::<bool>::empty())) =~= dirty0);
        }
        while i < rebuilt.len()
            invariant
                self.wf(),
                self.index_names() == names0,
                names0 == old(self).index_names(),
                self.index_map() == old(self).index_map(),
                self.path_map() == old(self).path_map(),
                dirty0 == old(self).dirty_names().to_set(),
                rebuilt@.len() <= names0.len(),
                i <= rebuilt@.len(),
                count == count_true(rebuilt@.subrange(0, i as int)),
                count <= i,
                self.dirty_names().to_set() == dirty0.union(rebuilt_names(names0, rebuilt@.subrange(0, i as int))),
            decreases rebuilt@.len() - i,
        {
            let ghost pre = rebuilt@.subrange(0, i as int);
            let ghost post = rebuilt@.subrange(0, i + 1);
            proof {
                assert(post.drop_last() =~= pre);
                assert(post.last() == rebuilt@[i as int]);
            }
            if rebuilt[i] {
                let name = self.names[i].clone();
                proof {
                    assert(names0[i as int] == self.names@[i as int]@);
                }
                self.mark_vector_dirty(name.as_str());
                count = count + 1;
                proof {
                    assert(rebuilt_names(names0, post) =~= rebuilt_names(names0, pre).insert(names0[i as int])) by {
                        assert forall|k: Seq<char>| rebuilt_names(names0, post).contains(k) implies
                            #[trigger] rebuilt_names(names0, pre).insert(names0[i as int]).contains(k) by {
                            let j = choose|j: int| 0 <= j < post.len() && j < names0.len() && #[trigger] post[j] && names0[j] == k;
                            if j < i {
                                assert(pre[j]);
                            }
                        }
                        assert forall|k: Seq<char>| #[trigger] rebuilt_names(names0, pre).insert(names0[i as int]).contains(k) implies
                            rebuilt_names(names0, post).contains(k) by {
                            if k != names0[i as int] {
                                let j = choose|j: int| 0 <= j < pre.len() && j < names0.len() && #[trigger] pre[j] && names0[j] == k;
                                assert(post[j]);
                            } else {
                                assert(post[i as int]);
                            }
                        }
                    }
                    assert(self.dirty_names().to_set() =~= dirty0.union(rebuilt_names(names0, post)));
                }
            } else {
                proof {
                    assert(rebuilt_names(names0, post) =~= rebuilt_names(names0, pre)) by {
                        assert forall|k: Seq<char>| rebuilt_names(names0, post).contains(k) implies
                            #[trigger] rebuilt_names(names0, pre).contains(k) by {
                            let j = choose|j: int| 0 <= j < post.len() && j < names0.len() && #[trigger] post[j] && names0[j] == k;
                            assert(j < i);
                            assert(pre[j]);
                        }
                        assert forall|k: Seq<char>| #[trigger] rebuilt_names(names0, pre).contains(k) implies
                            rebuilt_names(names0, post).contains(k) by {
                            let j = choose|j: int| 0 <= j < pre.len() && j < names0.len() && #[trigger] pre[j] && names0[j] == k;
                            assert(post[j]);
                        }
                    }
                }
            }
            i = i + 1;
        }
        proof {
            assert(rebuilt@.subrange(0, i as int) =~= rebuilt@);
        }
        count
    }

    /// Forget the changed mark of an index.
    fn unmark_dirty(&mut self, name: &str)
        requires
            old(self).wf(),
        ensures
            final(self).wf(),
            final(self).dirty_names().to_set() == old(self).dirty_names().to_set().remove(name@),
            final(self).index_map() == old(self).index_map(),
            final(self).index_names() == old(self).index_names(),
            final(self).path_map() == old(self).path_map(),
    {
        let ghost ds = str_views(self.dirty@);
        match find_name(&self.dirty, name) {
            Some(j) => {
                self.dirty.remove(j);
                proof {
                    assert(str_views(self.dirty@) =~= ds.remove(j as int));
                    lemma_assoc_remove(ds, ds, j as int);
                    lemma_remove_to_set(ds, j as int);
                }
            },
            None => {
                assert(ds.to_set() =~= ds.to_set().remove(name@));
            },
        }
    }
}

/// Taking a name out of a list of distinct names takes it out of their set.
pub proof fn lemma_remove_to_set(ds: Seq<Seq<char>>, j: int)
    requires
        distinct(ds),
        0 <= j < ds.len(),
    ensures
        ds.remove(j).to_set() == ds.to_set().remove(ds[j]),
{
    assert forall|k: Seq<char>| #[trigger] ds.remove(j).contains(k) <==> (ds.contains(k) && k != ds[j]) by {
        if ds.contains(k) && k != ds[j] {
            let a = choose|a: int| 0 <= a < ds.len() && ds[a] == k;
            assert(a != j);
            let a2 = if a < j { a } else { a - 1 };
            assert(ds.remove(j)[a2] == k);
        }
        if ds.remove(j).contains(k) {
            let a = choose|a: int| 0 <= a < ds.remove(j).len() && ds.remove(j)[a] == k;
            let a2 = if a < j { a } else { a + 1 };
            assert(ds[a2] == k);
            assert(a2 != j);
        }
    }
    assert(ds.remove(j).to_set() =~= ds.to_set().remove(ds[j]));
}

} // verus!
