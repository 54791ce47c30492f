//! The indexes of one collection: B+ tree, map-based and fuzzy indexes by
//! name, their file paths, and which of them changed since their last flush.
use vstd::prelude::*;
use crate::error::IronBaseError;
use crate::document::{DocIdView, DocumentId};
use crate::index::btree::{
    key_absent, key_views, stats_refreshed, BPlusTree, Entry, Histogram, IndexMetadata, MostCommonValues,
};
use crate::index::extract::{doc_keys, DocumentFields};
use crate::index::fuzzy::{FuzzyAlgorithm, FuzzyIndex, FuzzyIndexMetadata};
use crate::index::key::{key_equal, keys_view, lemma_keys_view, IndexKey, IndexPrefixInfo, KeyView};
use crate::index::legacy::{Index, IndexDefinition};
use crate::query::value::{JsonValue, JsonView};
use crate::table::{chars_sorted, names_of, sort_by_name, Named, NameSet, NameTable};
use crate::text::{concat2, lowercase};

verus! {

/// `res` is an `IndexError` with message `msg`.
pub open spec fn is_index_error<T>(res: Result<T, IronBaseError>, msg: Seq<char>) -> bool {
    &&& res is Err
    &&& res->Err_0 is IndexError
    &&& res->Err_0->IndexError_0@ == msg
}

/// Message of a refused creation under a name already in use.
pub open spec fn exists_message(name: Seq<char>) -> Seq<char> {
    "Index already exists: "@ + name
}

/// Message of an operation on an unknown index.
pub open spec fn not_found_message(name: Seq<char>) -> Seq<char> {
    "Index not found: "@ + name
}

/// First field of an index: the field of a single-field index, the first
/// of a compound one.
pub open spec fn prefix_field_of(m: IndexMetadata) -> Seq<char> {
    if m.fields@.len() > 1 {
        m.fields@[0]@
    } else {
        m.field@
    }
}

/// `info` describes the B+ tree index `t` named `name`.
pub open spec fn describes_btree(info: IndexPrefixInfo, name: Seq<char>, t: BPlusTree) -> bool {
    let m = t.meta();
    &&& info.index_name@ == name
    &&& info.prefix_field@ == prefix_field_of(m)
    &&& info.is_compound == (m.fields@.len() > 1)
    &&& info.num_fields == (if m.fields@.len() > 1 {
        m.fields@.len()
    } else {
        1
    })
    &&& info.sparse == m.sparse
    &&& info.distinct_count == m.stats.distinct_count
    &&& info.building == m.building
    &&& info.num_keys == m.num_keys
    &&& info.case_insensitive == m.case_insensitive
    &&& info.null_count == m.stats.null_count
    &&& info.multikey_ratio == m.stats.multikey_ratio
    &&& match (info.histogram, m.stats.histogram) {
        (Some(a), Some(b)) => a.same_as(&b),
        (None, None) => true,
        _ => false,
    }
    &&& match (info.mcv, m.stats.mcv) {
        (Some(a), Some(b)) => a.same_as(&b),
        (None, None) => true,
        _ => false,
    }
}

/// `info` describes the map-based index `ix` named `name`: single field,
/// ready, with no statistics.
pub open spec fn describes_legacy(info: IndexPrefixInfo, name: Seq<char>, ix: Index) -> bool {
    &&& info.index_name@ == name
    &&& info.prefix_field@ == ix.def().field@
    &&& !info.is_compound
    &&& info.num_fields == 1
    &&& !info.sparse
    &&& info.distinct_count == 0
    &&& !info.building
    &&& info.num_keys == 0
    &&& !info.case_insensitive
    &&& info.null_count == 0
    &&& info.multikey_ratio == 0
    &&& info.histogram is None
    &&& info.mcv is None
}

/// Names of the B+ tree indexes among `ns` that are not being built, in order.
pub open spec fn ready_names(ns: Seq<Seq<char>>, m: Map<Seq<char>, BPlusTree>) -> Seq<Seq<char>>
    decreases ns.len(),
{
    if ns.len() == 0 {
        Seq::empty()
    } else {
        let r = ready_names(ns.drop_last(), m);
        if m[ns.last()].meta().building {
            r
        } else {
            r.push(ns.last())
        }
    }
}

/// Names among `ns` of the B+ tree indexes whose statistics are stale, in order.
pub open spec fn stale_names(ns: Seq<Seq<char>>, m: Map<Seq<char>, BPlusTree>) -> Seq<Seq<char>>
    decreases ns.len(),
{
    if ns.len() == 0 {
        Seq::empty()
    } else {
        let r = stale_names(ns.drop_last(), m);
        if m[ns.last()].counters_spec().stale() {
            r.push(ns.last())
        } else {
            r
        }
    }
}

/// What an automatic statistics check does to a tree: refresh it when its
/// statistics are stale, else leave it.
pub open spec fn stale_checked(t: BPlusTree, o: BPlusTree) -> bool {
    if o.counters_spec().stale() {
        stats_refreshed(t, o)
    } else {
        t == o
    }
}

/// Every part of the key is `Null` (a `Null` key, or a compound key of `Null`s).
pub open spec fn all_null(k: KeyView) -> bool {
    match k {
        KeyView::Null => true,
        KeyView::Compound(parts) => forall|i: int| 0 <= i < parts.len() ==> parts[i] == KeyView::Null,
        _ => false,
    }
}

/// An index stores a key for a document unless it is all `Null`; a unique
/// index that is not sparse stores null keys too (null is a value there).
pub open spec fn stores_key(m: IndexMetadata, k: KeyView) -> bool {
    !all_null(k) || (m.unique && !m.sparse)
}

/// The keys an index stores for a document: the stored ones among those it
/// derives from it, each once.
pub open spec fn stored_keys(m: IndexMetadata, d: DocumentFields) -> Set<KeyView> {
    Set::new(|k: KeyView| doc_keys(m, d).contains(k) && stores_key(m, k))
}

/// Number of the paths among `fs` that pass through an array.
pub open spec fn array_field_count(fs: Seq<String>, d: DocumentFields) -> nat
    decreases fs.len(),
{
    if fs.len() == 0 {
        0
    } else {
        array_field_count(fs.drop_last(), d) + if d.crosses_array(fs.last()@) {
            1nat
        } else {
            0nat
        }
    }
}

/// Some indexed path of the document passes through an array.
pub open spec fn has_array_path(m: IndexMetadata, d: DocumentFields) -> bool {
    if m.fields@.len() > 1 {
        exists|i: int| 0 <= i < m.fields@.len() && d.crosses_array(#[trigger] m.fields@[i]@)
    } else {
        d.crosses_array(m.field@)
    }
}

/// A compound index refuses a document with arrays on two of its paths.
pub open spec fn multi_array_error(m: IndexMetadata, d: DocumentFields) -> bool {
    m.fields@.len() > 1 && array_field_count(m.fields@, d) > 1
}

/// A sparse compound index leaves out a document missing one of its paths.
pub open spec fn sparse_skip(m: IndexMetadata, d: DocumentFields) -> bool {
    &&& m.sparse
    &&& m.fields@.len() > 1
    &&& exists|i: int| 0 <= i < m.fields@.len() && d.values_at(#[trigger] m.fields@[i]@).len() == 0
}

/// The fields of an index joined by `", "`.
pub open spec fn join_fields(fs: Seq<String>) -> Seq<char>
    decreases fs.len(),
{
    if fs.len() == 0 {
        Seq::empty()
    } else if fs.len() == 1 {
        fs[0]@
    } else {
        join_fields(fs.drop_last()) + ", "@ + fs.last()@
    }
}

/// Message of a document refused by a compound index for its arrays.
pub open spec fn array_error_message(m: IndexMetadata) -> Seq<char> {
    "Compound index '"@ + m.name@ + "' cannot index multiple array fields: "@ + join_fields(m.fields@)
}

/// Adding a document to a tree: the tree holds `(k, id)` once more for each
/// key it stores for the document (nothing when it leaves the document
/// out), and records whether an indexed path crossed an array.
pub open spec fn doc_added(t: BPlusTree, o: BPlusTree, d: DocumentFields, id: DocIdView) -> bool {
    let m = o.meta();
    &&& t.wf()
    &&& t.meta() == (IndexMetadata {
        multikey: m.multikey || has_array_path(m, d),
        num_keys: t.meta().num_keys,
        tree_height: t.meta().tree_height,
        ..m
    })
    &&& sparse_skip(m, d) ==> t.entries() == o.entries()
    &&& !sparse_skip(m, d) ==> forall|e: Entry| #[trigger]
        t.entries().to_multiset().count(e) == o.entries().to_multiset().count(e) + doc_entry_extra(e, id, doc_keys(m, d), m)
}

/// Adding a document can fail on this tree: arrays on two paths of a
/// compound index, or a key a unique index already holds.
pub open spec fn doc_conflict(o: BPlusTree, d: DocumentFields) -> bool {
    let m = o.meta();
    ||| multi_array_error(m, d)
    ||| !sparse_skip(m, d) && m.unique && exists|k: KeyView|
        #[trigger] stored_keys(m, d).contains(k) && !key_absent(o.entries(), k)
}

/// A tree has room for the keys of the document: no count overflows.
pub open spec fn room_for_doc(o: BPlusTree, d: DocumentFields) -> bool {
    let n = doc_keys(o.meta(), d).len();
    &&& o.meta().num_keys + n < usize::MAX
    &&& o.meta().tree_height + n < u32::MAX
    &&& o.counters_spec().writes_since_refresh + n < u64::MAX
    &&& o.counters_spec().total_writes + n < u64::MAX
}

/// Whether every part of a key is `Null`.
fn key_is_all_null(key: &IndexKey) -> (r: bool)
    ensures
        r == all_null(key@),
{
    match key {
        IndexKey::Null => true,
        IndexKey::Compound(parts) => {
            proof {
                lemma_keys_view(parts@);
            }
            let mut i: usize = 0;
            while i < parts.len()
                invariant
                    *key == IndexKey::Compound(*parts),
                    i <= parts@.len(),
                    keys_view(parts@).len() == parts@.len(),
                    forall|j: int| 0 <= j < parts@.len() ==> #[trigger] keys_view(parts@)[j] == parts@[j]@,
                    forall|j: int| 0 <= j < i ==> #[trigger] keys_view(parts@)[j] == KeyView::Null,
                decreases parts@.len() - i,
            {
                match &parts[i] {
                    IndexKey::Null => {},
                    _ => {
                        assert(keys_view(parts@)[i as int] != KeyView::Null);
                        assert(*key == IndexKey::Compound(*parts));
                        assert(key.view_key() == KeyView::Compound(keys_view(parts@)));
                        return false;
                    },
                }
                i = i + 1;
            }
            true
        },
        _ => false,
    }
}

/// Whether `k` is among `seen`.
fn seen_key(seen: &Vec<IndexKey>, k: &IndexKey) -> (r: bool)
    ensures
        r == key_views(seen@).contains(k@),
{
    let mut i: usize = 0;
    while i < seen.len()
        invariant
            i <= seen@.len(),
            forall|j: int| 0 <= j < i ==> key_views(seen@)[j] != k@,
        decreases seen@.len() - i,
    {
        if key_equal(&seen[i], k) {
            assert(key_views(seen@)[i as int] == k@);
            return true;
        }
        i = i + 1;
    }
    proof {
        if key_views(seen@).contains(k@) {
            let j = choose|j: int| 0 <= j < key_views(seen@).len() && key_views(seen@)[j] == k@;
            assert(key_views(seen@)[j] != k@);
        }
    }
    false
}

/// The fields of an index joined by `", "`.
fn join_with_commas(fs: &Vec<String>) -> (s: String)
    ensures
        s@ == join_fields(fs@),
{
    let mut out = String::new();
    let mut i: usize = 0;
    proof {
        assert(fs@.subrange(0, 0) =~= Seq::<String>::empty());
    }
    while i < fs.len()
        invariant
            i <= fs@.len(),
            out@ == join_fields(fs@.subrange(0, i as int)),
        decreases fs@.len() - i,
    {
        assert(fs@.subrange(0, i + 1).drop_last() =~= fs@.subrange(0, i as int));
        if i > 0 {
            out.append(", ");
        }
        out.append(fs[i].as_str());
        proof {
            if i == 0 {
                assert(out@ =~= fs@[0]@);
            }
        }
        i = i + 1;
    }
    assert(fs@.subrange(0, i as int) =~= fs@);
    out
}

/// Number of the paths among `fields` that pass through an array.
pub fn count_compound_array_fields(doc: &DocumentFields, fields: &Vec<String>) -> (n: usize)
    ensures
        n == array_field_count(fields@, *doc),
{
    let mut n: usize = 0;
    let mut i: usize = 0;
    while i < fields.len()
        invariant
            i <= fields@.len(),
            n == array_field_count(fields@.subrange(0, i as int), *doc),
            n <= i,
        decreases fields@.len() - i,
    {
        assert(fields@.subrange(0, i + 1).drop_last() =~= fields@.subrange(0, i as int));
        let crosses = match doc.lookup(fields[i].as_str()) {
            Some(f) => f.crosses_array,
            None => false,
        };
        if crosses {
            n = n + 1;
        }
        i = i + 1;
    }
    assert(fields@.subrange(0, i as int) =~= fields@);
    n
}

/// Whether some indexed path of the document passes through an array.
fn crosses_any(doc: &DocumentFields, m: &IndexMetadata) -> (r: bool)
    ensures
        r == has_array_path(*m, *doc),
{
    if m.fields.len() > 1 {
        let mut i: usize = 0;
        while i < m.fields.len()
            invariant
                m.fields@.len() > 1,
                i <= m.fields@.len(),
                forall|j: int| 0 <= j < i ==> !doc.crosses_array(#[trigger] m.fields@[j]@),
            decreases m.fields@.len() - i,
        {
            let path = m.fields[i].as_str();
            assert(path@ == m.fields@[i as int]@);
            let c = match doc.lookup(path) {
                Some(f) => f.crosses_array,
                None => false,
            };
            assert(c == doc.crosses_array(m.fields@[i as int]@));
            if c {
                assert(doc.crosses_array(m.fields@[i as int]@));
                return true;
            }
            i = i + 1;
        }
        false
    } else {
        match doc.lookup(m.field.as_str()) {
            Some(f) => f.crosses_array,
            None => false,
        }
    }
}

/// Whether some field of a compound index reaches no value in the document.
fn misses_a_field(doc: &DocumentFields, m: &IndexMetadata) -> (r: bool)
    ensures
        r == exists|i: int| 0 <= i < m.fields@.len() && doc.values_at(#[trigger] m.fields@[i]@).len() == 0,
{
    let mut i: usize = 0;
    while i < m.fields.len()
        invariant
            i <= m.fields@.len(),
            forall|j: int| 0 <= j < i ==> doc.values_at(#[trigger] m.fields@[j]@).len() != 0,
        decreases m.fields@.len() - i,
    {
        let empty = match doc.lookup(m.fields[i].as_str()) {
            Some(f) => {
                proof {
                    crate::query::value::lemma_values_view(f.values@);
                }
                f.values.len() == 0
            },
            None => true,
        };
        if empty {
            return true;
        }
        i = i + 1;
    }
    false
}


/// One more copy of `(k, id)` for each key of `ks` the index stores.
pub open spec fn doc_entry_extra(e: Entry, id: DocIdView, ks: Seq<KeyView>, m: IndexMetadata) -> nat {
    if e.1 == id && ks.contains(e.0) && stores_key(m, e.0) {
        1nat
    } else {
        0nat
    }
}

proof fn lemma_push_contains(pre: Seq<KeyView>, kv: KeyView)
    ensures
        forall|x: KeyView| #[trigger] pre.push(kv).contains(x) <==> pre.contains(x) || x == kv,
{
    crate::assoc::lemma_push_to_set(pre, kv);
    assert forall|x: KeyView| #[trigger] pre.push(kv).contains(x) <==> pre.contains(x) || x == kv by {
        assert(pre.push(kv).to_set().contains(x) == pre.to_set().insert(kv).contains(x));
    }
}

/// A key already seen, or one the index does not store, adds nothing.
proof fn lemma_doc_skip_step(o_es: Seq<Entry>, es: Seq<Entry>, id: DocIdView, pre: Seq<KeyView>, kv: KeyView, m: IndexMetadata)
    requires
        pre.contains(kv) || !stores_key(m, kv),
        forall|e: Entry| #[trigger] es.to_multiset().count(e) == o_es.to_multiset().count(e) + doc_entry_extra(e, id, pre, m),
    ensures
        forall|e: Entry| #[trigger] es.to_multiset().count(e) == o_es.to_multiset().count(e) + doc_entry_extra(e, id, pre.push(kv), m),
        (exists|k: KeyView| #[trigger] pre.push(kv).contains(k) && stores_key(m, k)) <==> (exists|k: KeyView| #[trigger] pre.contains(k) && stores_key(m, k)),
{
    lemma_push_contains(pre, kv);
    assert forall|e: Entry| #[trigger] es.to_multiset().count(e) == o_es.to_multiset().count(e) + doc_entry_extra(e, id, pre.push(kv), m) by {
        assert(doc_entry_extra(e, id, pre.push(kv), m) == doc_entry_extra(e, id, pre, m));
    }
    if exists|k: KeyView| #[trigger] pre.push(kv).contains(k) && stores_key(m, k) {
        let k = choose|k: KeyView| #[trigger] pre.push(kv).contains(k) && stores_key(m, k);
        assert(pre.contains(k));
    }
    if exists|k: KeyView| #[trigger] pre.contains(k) && stores_key(m, k) {
        let k = choose|k: KeyView| #[trigger] pre.contains(k) && stores_key(m, k);
        assert(pre.push(kv).contains(k));
    }
}

/// Storing a new key adds one copy of `(kv, id)`.
proof fn lemma_doc_insert_step(
    o_es: Seq<Entry>,
    es: Seq<Entry>,
    new_es: Seq<Entry>,
    p: int,
    id: DocIdView,
    pre: Seq<KeyView>,
    kv: KeyView,
    m: IndexMetadata,
)
    requires
        0 <= p <= es.len(),
        new_es == es.insert(p, (kv, id)),
        !pre.contains(kv),
        stores_key(m, kv),
        forall|e: Entry| #[trigger] es.to_multiset().count(e) == o_es.to_multiset().count(e) + doc_entry_extra(e, id, pre, m),
    ensures
        forall|e: Entry| #[trigger] new_es.to_multiset().count(e) == o_es.to_multiset().count(e) + doc_entry_extra(e, id, pre.push(kv), m),
        pre.push(kv).contains(kv),
{
    broadcast use vstd::multiset::group_multiset_axioms;

    lemma_push_contains(pre, kv);
    vstd::seq_lib::to_multiset_insert(es, p, (kv, id));
    assert forall|e: Entry| #[trigger] new_es.to_multiset().count(e) == o_es.to_multiset().count(e) + doc_entry_extra(e, id, pre.push(kv), m) by {
        assert(new_es.to_multiset().count(e) == es.to_multiset().count(e) + if e == (kv, id) { 1nat } else { 0nat });
    }
}

/// While a document's keys are added, a key not yet handled is held by the
/// tree exactly when it was held before.
proof fn lemma_doc_conflict(o_es: Seq<Entry>, es: Seq<Entry>, id: DocIdView, pre: Seq<KeyView>, kv: KeyView, m: IndexMetadata)
    requires
        !pre.contains(kv),
        forall|e: Entry| #[trigger] es.to_multiset().count(e) == o_es.to_multiset().count(e) + doc_entry_extra(e, id, pre, m),
    ensures
        key_absent(es, kv) == key_absent(o_es, kv),
{
    broadcast use vstd::seq_lib::group_to_multiset_ensures;

    if !key_absent(es, kv) {
        let q = choose|q: int| 0 <= q < es.len() && #[trigger] es[q].0 == kv;
        let e = es[q];
        assert(es.contains(e));
        assert(doc_entry_extra(e, id, pre, m) == 0);
        assert(es.to_multiset().count(e) > 0);
        assert(o_es.to_multiset().count(e) > 0);
        assert(o_es.contains(e));
        let r = choose|r: int| 0 <= r < o_es.len() && o_es[r] == e;
        assert(o_es[r].0 == kv);
    }
    if !key_absent(o_es, kv) {
        let q = choose|q: int| 0 <= q < o_es.len() && #[trigger] o_es[q].0 == kv;
        let e = o_es[q];
        assert(o_es.contains(e));
        assert(o_es.to_multiset().count(e) > 0);
        assert(es.to_multiset().count(e) > 0);
        assert(es.contains(e));
        let r = choose|r: int| 0 <= r < es.len() && es[r] == e;
        assert(es[r].0 == kv);
    }
}

/// Add a document's keys to one tree (the work `add_document_to_indexes`
/// does for each B+ tree index); whether some key was stored.
fn add_doc_to_tree(t: &mut BPlusTree, doc: &DocumentFields, doc_id: &DocumentId) -> (res: Result<bool, IronBaseError>)
    requires
        old(t).wf(),
        room_for_doc(*old(t), *doc),
    ensures
        final(t).wf(),
        final(t).meta().name == old(t).meta().name,
        final(t).meta().building == old(t).meta().building,
        res is Err ==> res->Err_0 is IndexError,
        res is Err <==> doc_conflict(*old(t), *doc),
        multi_array_error(old(t).meta(), *doc) ==> is_index_error(res, array_error_message(old(t).meta())),
        multi_array_error(old(t).meta(), *doc) ==> final(t).entries() == old(t).entries() && final(t).meta().num_keys
            == old(t).meta().num_keys,
        res is Ok ==> {
            &&& doc_added(*final(t), *old(t), *doc, doc_id@)
            &&& res->Ok_0 == (!sparse_skip(old(t).meta(), *doc) && stored_keys(old(t).meta(), *doc)
                != Set::<KeyView>::empty())
        },
{
    broadcast use {vstd::seq_lib::group_to_multiset_ensures, vstd::multiset::group_multiset_axioms};

    let ghost o = *t;
    let ghost m = o.meta();
    if !t.metadata_ref().multikey {
        if crosses_any(doc, t.metadata_ref()) {
            t.set_multikey(true);
        }
    }
    let compound = t.metadata_ref().is_compound();
    if compound && count_compound_array_fields(doc, &t.metadata_ref().fields) > 1 {
        let mut msg = concat2("Compound index '", t.metadata_ref().name.as_str());
        msg.append("' cannot index multiple array fields: ");
        let joined = join_with_commas(&t.metadata_ref().fields);
        msg.append(joined.as_str());
        return Err(IronBaseError::IndexError(msg));
    }
    if t.metadata_ref().sparse && compound && misses_a_field(doc, t.metadata_ref()) {
        return Ok(false);
    }
    let keys = t.extract_keys(doc);
    let ghost ks = key_views(keys@);
    let ghost t0 = *t;
    let unique = t.metadata_ref().unique;
    let sparse = t.metadata_ref().sparse;
    let mut seen: Vec<IndexKey> = Vec::new();
    let mut stored = false;
    let ghost mut c: nat = 0;
    let n = keys.len();
    let mut i: usize = 0;
    assert(key_views(seen@).to_set() =~= ks.subrange(0, 0).to_set());
    while i < n
        invariant
            o == *old(t),
            !multi_array_error(m, *doc),
            n == keys@.len(),
            ks == key_views(keys@),
            ks == doc_keys(m, *doc),
            i <= n,
            m == o.meta(),
            unique == m.unique,
            sparse == m.sparse,
            !sparse_skip(m, *doc),
            t.wf(),
            t0.entries() == o.entries(),
            t.meta() == (IndexMetadata { num_keys: t.meta().num_keys, tree_height: t.meta().tree_height, ..t0.meta() }),
            t0.meta() == (IndexMetadata { multikey: m.multikey || has_array_path(m, *doc), ..m }),
            c <= i,
            t.meta().num_keys == o.meta().num_keys + c,
            t.meta().tree_height <= o.meta().tree_height + c,
            t.counters_spec().writes_since_refresh == o.counters_spec().writes_since_refresh + c,
            t.counters_spec().total_writes == o.counters_spec().total_writes + c,
            room_for_doc(o, *doc),
            key_views(seen@).to_set() == ks.subrange(0, i as int).to_set(),
            stored == (c > 0),
            c > 0 <==> exists|k: KeyView| #[trigger] ks.subrange(0, i as int).contains(k) && stores_key(m, k),
            unique ==> forall|j: int| 0 <= j < i && stores_key(m, #[trigger] ks[j]) ==> key_absent(o.entries(), ks[j]),
            forall|e: Entry| #[trigger]
                t.entries().to_multiset().count(e) == o.entries().to_multiset().count(e) + doc_entry_extra(
                    e,
                    doc_id@,
                    ks.subrange(0, i as int),
                    m,
                ),
        decreases n - i,
    {
        let k = &keys[i];
        let ghost kv = k@;
        let ghost pre = ks.subrange(0, i as int);
        proof {
            assert(kv == ks[i as int]);
            assert(ks.subrange(0, i + 1) =~= pre.push(kv));
            crate::assoc::lemma_push_to_set(pre, kv);
        }
        if seen_key(&seen, k) {
            proof {
                assert(pre.to_set().contains(kv));
                assert(pre.contains(kv));
                let j0 = choose|j0: int| 0 <= j0 < pre.len() && pre[j0] == kv;
                assert(ks[j0] == kv);
                lemma_doc_skip_step(o.entries(), t.entries(), doc_id@, pre, kv, m);
                assert(pre.push(kv).to_set() =~= pre.to_set());
            }
            i = i + 1;
            continue;
        }
        let is_stored = !key_is_all_null(k) || (unique && !sparse);
        let ghost seen_before = seen@;
        seen.push(k.clone());
        proof {
            assert(key_views(seen@) =~= key_views(seen_before).push(kv));
            crate::assoc::lemma_push_to_set(key_views(seen_before), kv);
            assert(!pre.to_set().contains(kv));
        }
        if is_stored {
            let ghost tb = *t;
            let ghost es = t.entries();
            let r = t.insert(k.clone(), doc_id.copy_id());
            match r {
                Err(e) => {
                    proof {
                        lemma_doc_conflict(o.entries(), es, doc_id@, pre, kv, m);
                        assert(ks[i as int] == kv);
                        assert(stored_keys(m, *doc).contains(kv));
                        assert(t.meta().name == t0.meta().name);
                        assert(t.meta().building == t0.meta().building);
                    }
                    return Err(e);
                },
                Ok(()) => {
                    proof {
                        lemma_doc_conflict(o.entries(), es, doc_id@, pre, kv, m);
                        let p = choose|p: int| 0 <= p <= es.len() && t.entries() == es.insert(p, (kv, doc_id@));
                        lemma_doc_insert_step(o.entries(), es, t.entries(), p, doc_id@, pre, kv, m);
                        c = c + 1;
                    }
                    stored = true;
                },
            }
        } else {
            proof {
                lemma_doc_skip_step(o.entries(), t.entries(), doc_id@, pre, kv, m);
            }
        }
        i = i + 1;
    }
    proof {
        assert(ks.subrange(0, n as int) =~= ks);
        if stored {
            let k = choose|k: KeyView| #[trigger] ks.contains(k) && stores_key(m, k);
            assert(stored_keys(m, *doc).contains(k));
        } else {
            assert(stored_keys(m, *doc) =~= Set::<KeyView>::empty());
        }
        if unique {
            assert forall|k: KeyView| #[trigger] stored_keys(m, *doc).contains(k) implies key_absent(o.entries(), k) by {
                let j = choose|j: int| 0 <= j < ks.len() && ks[j] == k;
            }
        }
    }
    Ok(stored)
}

/// Index `n` is the one the caller asked to leave alone.
pub open spec fn excluded(exclude: Option<&str>, n: Seq<char>) -> bool {
    match exclude {
        Some(e) => e@ == n,
        None => false,
    }
}

/// The string a fuzzy index on field `f` takes from a document, if any.
pub open spec fn fuzzy_value(d: DocumentFields, f: Seq<char>) -> Option<Seq<char>> {
    match d.value_at(f) {
        Some(JsonView::Str(s)) => Some(s),
        _ => None,
    }
}

/// Adding a document to a fuzzy index: the string at its field, when there
/// is one, is added for the document; otherwise nothing changes.
pub open spec fn fuzzy_doc_added(f: FuzzyIndex, o: FuzzyIndex, d: DocumentFields, id: DocIdView) -> bool {
    match fuzzy_value(d, o.meta().field@) {
        Some(s) => {
            &&& f.entries_view() == o.entries_view().push((lowercase(s), s, id))
            &&& f.meta() == (FuzzyIndexMetadata { num_entries: f.meta().num_entries, ..o.meta() })
            &&& f.meta().num_entries == f.entries_view().len()
            &&& f.lazy() == o.lazy()
            &&& f.path() == o.path()
        },
        None => f == o,
    }
}

/// A B+ tree index is marked as changed by adding the document: it is not
/// skipped and stores some key for it.
pub open spec fn btree_marked(o: BPlusTree, d: DocumentFields) -> bool {
    !sparse_skip(o.meta(), d) && stored_keys(o.meta(), d) != Set::<KeyView>::empty()
}

/// Copies of `e` that removing document `id` with keys `ks` takes from the
/// entries `es`: one when `e` pairs a key the index stores for it with the
/// document and `es` holds `e`, none otherwise.
pub open spec fn doc_entry_removed(es: Seq<Entry>, e: Entry, id: DocIdView, ks: Seq<KeyView>, m: IndexMetadata) -> nat {
    if es.to_multiset().count(e) > 0 {
        doc_entry_extra(e, id, ks, m)
    } else {
        0nat
    }
}

/// Removing a document from a tree: each key the tree stores for the
/// document loses exactly one `(k, id)` entry when the tree holds one,
/// nothing else changes (nothing at all when the tree leaves the document
/// out).
pub open spec fn doc_removed(t: BPlusTree, o: BPlusTree, d: DocumentFields, id: DocIdView) -> bool {
    let m = o.meta();
    &&& t.wf()
    &&& t.meta() == (IndexMetadata { num_keys: t.meta().num_keys, ..m })
    &&& sparse_skip(m, d) ==> t.entries() == o.entries()
    &&& !sparse_skip(m, d) ==> forall|e: Entry| #[trigger]
        t.entries().to_multiset().count(e) + doc_entry_removed(o.entries(), e, id, doc_keys(m, d), m)
            == o.entries().to_multiset().count(e)
}

/// A tree can count the deletes of the document's keys without overflow.
pub open spec fn room_for_removal(o: BPlusTree, d: DocumentFields) -> bool {
    o.counters_spec().deletes_since_refresh + doc_keys(o.meta(), d).len() < u64::MAX
}

/// A lookup of `k` finds a document other than `exclude`.
pub open spec fn key_taken(t: BPlusTree, k: KeyView, exclude: Option<&DocumentId>) -> bool {
    match t.lookup(k) {
        Some(d) => match exclude {
            Some(x) => x@ != d,
            None => true,
        },
        None => false,
    }
}

/// A unique index refuses the document: arrays on two fields of a compound
/// index, or a key of the document that a lookup finds for another document.
pub open spec fn unique_violation(t: BPlusTree, d: DocumentFields, exclude: Option<&DocumentId>) -> bool {
    let m = t.meta();
    &&& m.unique
    &&& multi_array_error(m, d) || exists|k: KeyView| #[trigger] doc_keys(m, d).contains(k) && key_taken(t, k, exclude)
}

proof fn lemma_extra_same(pre: Seq<KeyView>, kv: KeyView, id: DocIdView, m: IndexMetadata)
    requires
        pre.contains(kv) || !stores_key(m, kv),
    ensures
        forall|e: Entry| #[trigger] doc_entry_extra(e, id, pre.push(kv), m) == doc_entry_extra(e, id, pre, m),
        (exists|k: KeyView| #[trigger] pre.push(kv).contains(k) && stores_key(m, k)) <==> (exists|k: KeyView| #[trigger] pre.contains(k) && stores_key(m, k)),
{
    lemma_push_contains(pre, kv);
    if exists|k: KeyView| #[trigger] pre.push(kv).contains(k) && stores_key(m, k) {
        let k = choose|k: KeyView| #[trigger] pre.push(kv).contains(k) && stores_key(m, k);
        assert(pre.contains(k));
    }
    if exists|k: KeyView| #[trigger] pre.contains(k) && stores_key(m, k) {
        let k = choose|k: KeyView| #[trigger] pre.contains(k) && stores_key(m, k);
        assert(pre.push(kv).contains(k));
    }
}

/// Deleting `(kv, id)` for a key not yet handled takes exactly the copy the
/// key accounts for.
proof fn lemma_doc_remove_step(
    o_es: Seq<Entry>,
    es: Seq<Entry>,
    new_es: Seq<Entry>,
    id: DocIdView,
    pre: Seq<KeyView>,
    kv: KeyView,
    m: IndexMetadata,
)
    requires
        es.contains((kv, id)) ==> exists|p: int| 0 <= p < es.len() && es[p] == (kv, id) && new_es == es.remove(p),
        !es.contains((kv, id)) ==> new_es == es,
        !pre.contains(kv),
        stores_key(m, kv),
        forall|e: Entry| #[trigger]
            es.to_multiset().count(e) + doc_entry_removed(o_es, e, id, pre, m) == o_es.to_multiset().count(e),
    ensures
        forall|e: Entry| #[trigger]
            new_es.to_multiset().count(e) + doc_entry_removed(o_es, e, id, pre.push(kv), m) == o_es.to_multiset().count(e),
        pre.push(kv).contains(kv),
{
    broadcast use vstd::multiset::group_multiset_axioms;
    broadcast use vstd::seq_lib::group_to_multiset_ensures;

    lemma_push_contains(pre, kv);
    let target = (kv, id);
    assert(doc_entry_extra(target, id, pre, m) == 0);
    assert(es.to_multiset().count(target) == o_es.to_multiset().count(target));
    if es.contains(target) {
        let p = choose|p: int| 0 <= p < es.len() && es[p] == target && new_es == es.remove(p);
        vstd::seq_lib::to_multiset_remove(es, p);
    }
    assert forall|e: Entry| #[trigger]
        new_es.to_multiset().count(e) + doc_entry_removed(o_es, e, id, pre.push(kv), m) == o_es.to_multiset().count(e) by {
        if e == target {
            assert(doc_entry_extra(e, id, pre.push(kv), m) == 1);
        } else {
            assert(new_es.to_multiset().count(e) == es.to_multiset().count(e));
            assert(doc_entry_extra(e, id, pre.push(kv), m) == doc_entry_extra(e, id, pre, m));
        }
    }
}

/// Remove a document's keys from one tree (the work
/// `remove_document_from_indexes` does for each B+ tree index); whether some
/// key was one the tree stores.
fn remove_doc_from_tree(t: &mut BPlusTree, doc: &DocumentFields, doc_id: &DocumentId) -> (res: bool)
    requires
        old(t).wf(),
        room_for_removal(*old(t), *doc),
    ensures
        doc_removed(*final(t), *old(t), *doc, doc_id@),
        res == btree_marked(*old(t), *doc),
{
    let ghost o = *t;
    let ghost m = o.meta();
    let compound = t.metadata_ref().is_compound();
    if t.metadata_ref().sparse && compound && misses_a_field(doc, t.metadata_ref()) {
        return false;
    }
    let keys = t.extract_keys(doc);
    let ghost ks = key_views(keys@);
    let unique = t.metadata_ref().unique;
    let sparse = t.metadata_ref().sparse;
    let mut seen: Vec<IndexKey> = Vec::new();
    let mut stored = false;
    let n = keys.len();
    let mut i: usize = 0;
    proof {
        assert(key_views(seen@).to_set() =~= ks.subrange(0, 0).to_set());
        assert forall|e: Entry| #[trigger] doc_entry_removed(o.entries(), e, doc_id@, ks.subrange(0, 0), m) == 0 by {
            assert(doc_entry_extra(e, doc_id@, ks.subrange(0, 0), m) == 0);
        }
    }
    while i < n
        invariant
            o == *old(t),
            m == o.meta(),
            n == keys@.len(),
            ks == key_views(keys@),
            ks == doc_keys(m, *doc),
            i <= n,
            unique == m.unique,
            sparse == m.sparse,
            !sparse_skip(m, *doc),
            t.wf(),
            t.meta() == (IndexMetadata { num_keys: t.meta().num_keys, ..m }),
            t.counters_spec().deletes_since_refresh <= o.counters_spec().deletes_since_refresh + i,
            room_for_removal(o, *doc),
            key_views(seen@).to_set() == ks.subrange(0, i as int).to_set(),
            stored <==> exists|k: KeyView| #[trigger] ks.subrange(0, i as int).contains(k) && stores_key(m, k),
            forall|e: Entry| #[trigger]
                t.entries().to_multiset().count(e) + doc_entry_removed(o.entries(), e, doc_id@, ks.subrange(0, i as int), m)
                    == o.entries().to_multiset().count(e),
        decreases n - i,
    {
        let k = &keys[i];
        let ghost kv = k@;
        let ghost pre = ks.subrange(0, i as int);
        proof {
            assert(kv == ks[i as int]);
            assert(ks.subrange(0, i + 1) =~= pre.push(kv));
            crate::assoc::lemma_push_to_set(pre, kv);
        }
        if seen_key(&seen, k) {
            proof {
                assert(pre.to_set().contains(kv));
                assert(pre.contains(kv));
                let j0 = choose|j0: int| 0 <= j0 < pre.len() && pre[j0] == kv;
                assert(ks[j0] == kv);
                lemma_extra_same(pre, kv, doc_id@, m);
                assert(pre.push(kv).to_set() =~= pre.to_set());
            }
            i = i + 1;
            continue;
        }
        let is_stored = !key_is_all_null(k) || (unique && !sparse);
        let ghost seen_before = seen@;
        seen.push(k.clone());
        proof {
            assert(key_views(seen@) =~= key_views(seen_before).push(kv));
            crate::assoc::lemma_push_to_set(key_views(seen_before), kv);
            assert(!pre.to_set().contains(kv));
        }
        if is_stored {
            let ghost es = t.entries();
            let ghost tb = *t;
            let _ = t.delete(k, doc_id);
            proof {
                lemma_doc_remove_step(o.entries(), es, t.entries(), doc_id@, pre, kv, m);
            }
            stored = true;
        } else {
            proof {
                lemma_extra_same(pre, kv, doc_id@, m);
            }
        }
        i = i + 1;
    }
    proof {
        assert(ks.subrange(0, n as int) =~= ks);
        if stored {
            let k = choose|k: KeyView| #[trigger] ks.contains(k) && stores_key(m, k);
            assert(stored_keys(m, *doc).contains(k));
        } else {
            assert(stored_keys(m, *doc) =~= Set::<KeyView>::empty());
        }
    }
    stored
}

/// The fields of an index as its messages name them: the comma-joined
/// fields of a compound index, else its field.
pub open spec fn fields_text(m: IndexMetadata) -> Seq<char> {
    if m.fields@.len() > 1 {
        join_fields(m.fields@)
    } else {
        m.field@
    }
}

/// Message of a unique index refusing key `k` of a document.
pub open spec fn unique_key_message(m: IndexMetadata, k: KeyView) -> Seq<char> {
    "Duplicate key: "@ + crate::index::key::key_debug(k) + " in field(s) '"@ + fields_text(m) + "' (unique index)"@
}

/// `j` is the first of the document's keys `ks` that a lookup finds for
/// another document.
pub open spec fn first_taken(t: BPlusTree, ks: Seq<KeyView>, j: int, exclude: Option<&DocumentId>) -> bool {
    &&& 0 <= j < ks.len()
    &&& key_taken(t, ks[j], exclude)
    &&& forall|i: int| 0 <= i < j ==> !key_taken(t, #[trigger] ks[i], exclude)
}

/// Message of a unique index refusing a key, naming the key and the fields.
fn unique_violation_message(key: &IndexKey, fields: &str) -> (s: String)
    ensures
        s@ == "Duplicate key: "@ + crate::index::key::key_debug(key@) + " in field(s) '"@ + fields@ + "' (unique index)"@,
{
    let t = crate::index::key::key_debug_text(key);
    let mut s = crate::text::concat3("Duplicate key: ", t.as_str(), " in field(s) '");
    s.append(fields);
    s.append("' (unique index)");
    s
}

/// Whether a unique tree refuses the document (the check
/// `check_unique_constraints` makes of each unique index).
fn check_unique_in_tree(t: &BPlusTree, doc: &DocumentFields, exclude_doc_id: Option<&DocumentId>) -> (res: Result<
    (),
    IronBaseError,
>)
    requires
        t.wf(),
        t.meta().unique,
    ensures
        res is Ok <==> !unique_violation(*t, *doc, exclude_doc_id),
        res is Err ==> res->Err_0 is IndexError,
        multi_array_error(t.meta(), *doc) ==> is_index_error(res, array_error_message(t.meta())),
        res is Err && !multi_array_error(t.meta(), *doc) ==> exists|j: int| #![trigger doc_keys(t.meta(), *doc)[j]]
            first_taken(*t, doc_keys(t.meta(), *doc), j, exclude_doc_id)
            && res->Err_0->IndexError_0@ == unique_key_message(t.meta(), doc_keys(t.meta(), *doc)[j]),
{
    let m = t.metadata_ref();
    let compound = m.is_compound();
    if compound && count_compound_array_fields(doc, &m.fields) > 1 {
        let mut msg = concat2("Compound index '", m.name.as_str());
        msg.append("' cannot index multiple array fields: ");
        let joined = join_with_commas(&m.fields);
        msg.append(joined.as_str());
        return Err(IronBaseError::IndexError(msg));
    }
    let keys = t.extract_keys(doc);
    let ghost ks = key_views(keys@);
    let n = keys.len();
    let mut i: usize = 0;
    while i < n
        invariant
            *m == t.meta(),
            m.unique,
            compound == (m.fields@.len() > 1),
            !multi_array_error(*m, *doc),
            n == keys@.len(),
            ks == key_views(keys@),
            ks == doc_keys(*m, *doc),
            i <= n,
            t.wf(),
            forall|j: int| 0 <= j < i ==> !key_taken(*t, #[trigger] ks[j], exclude_doc_id),
        decreases n - i,
    {
        match t.search(&keys[i]) {
            Some(existing) => {
                let excluded_doc = match exclude_doc_id {
                    Some(x) => x.same_as(&existing),
                    None => false,
                };
                if !excluded_doc {
                    assert(key_taken(*t, ks[i as int], exclude_doc_id));
                    assert(ks.contains(ks[i as int]));
                    let fields_str = if compound {
                        join_with_commas(&m.fields)
                    } else {
                        m.field.as_str().to_string()
                    };
                    let msg = unique_violation_message(&keys[i], fields_str.as_str());
                    proof {
                        assert(first_taken(*t, ks, i as int, exclude_doc_id));
                        assert(fields_str@ == fields_text(*m));
                        assert(ks[i as int] == keys@[i as int]@);
                        assert(msg@ == unique_key_message(*m, ks[i as int]));
                    }
                    return Err(IronBaseError::IndexError(msg));
                }
            },
            None => {},
        }
        i = i + 1;
    }
    proof {
        if exists|k: KeyView| #[trigger] ks.contains(k) && key_taken(*t, k, exclude_doc_id) {
            let k = choose|k: KeyView| #[trigger] ks.contains(k) && key_taken(*t, k, exclude_doc_id);
            let j = choose|j: int| 0 <= j < ks.len() && ks[j] == k;
            assert(!key_taken(*t, ks[j], exclude_doc_id));
        }
    }
    Ok(())
}

/// Removing a document right after adding it gives the tree back the
/// entries it held before the add: every entry is held exactly as often as
/// before.
pub proof fn lemma_add_then_remove(o: BPlusTree, t1: BPlusTree, t2: BPlusTree, d: DocumentFields, id: DocIdView)
    requires
        doc_added(t1, o, d, id),
        doc_removed(t2, t1, d, id),
    ensures
        t2.entries().to_multiset() == o.entries().to_multiset(),
        sparse_skip(o.meta(), d) ==> t2.entries() == o.entries(),
{
    let m = o.meta();
    let m1 = t1.meta();
    assert(doc_keys(m1, d) == doc_keys(m, d));
    assert(sparse_skip(m1, d) == sparse_skip(m, d));
    if !sparse_skip(m, d) {
        assert forall|e: Entry| #[trigger]
            t2.entries().to_multiset().count(e) == o.entries().to_multiset().count(e) by {
            assert(doc_entry_extra(e, id, doc_keys(m1, d), m1) == doc_entry_extra(e, id, doc_keys(m, d), m));
            assert(t1.entries().to_multiset().count(e) == o.entries().to_multiset().count(e) + doc_entry_extra(
                e,
                id,
                doc_keys(m, d),
                m,
            ));
        }
        assert(t2.entries().to_multiset() =~= o.entries().to_multiset());
    }
}

/// Removing a document from a fuzzy index right after adding it leaves the
/// entries of the other documents as they were.
pub proof fn lemma_fuzzy_add_then_remove(o: FuzzyIndex, f1: FuzzyIndex, f2: FuzzyIndex, d: DocumentFields, id: DocIdView)
    requires
        fuzzy_doc_added(f1, o, d, id),
        f2.entries_view() == f1.entries_view().filter(|e: crate::index::fuzzy::FuzzyEntry| e.2 != id),
    ensures
        f2.entries_view() == o.entries_view().filter(|e: crate::index::fuzzy::FuzzyEntry| e.2 != id),
{
    let keep = |e: crate::index::fuzzy::FuzzyEntry| e.2 != id;
    match fuzzy_value(d, o.meta().field@) {
        Some(s) => {
            o.entries_view().lemma_filter_push((lowercase(s), s, id), keep);
        },
        None => {},
    }
}

/// Adding a document to a collection's indexes and then removing it, with
/// the same exclusion, gives each B+ tree index back its entries, each held
/// exactly as often as before, and leaves each fuzzy index with its entries
/// of the other documents. (The two calls' contracts say each step; this
/// is what they say together.)
pub proof fn lemma_indexes_add_then_remove(
    m0: IndexManager,
    m1: IndexManager,
    m2: IndexManager,
    d: DocumentFields,
    id: DocIdView,
    exclude: Option<&str>,
)
    requires
        m1.btrees().dom() == m0.btrees().dom(),
        forall|n: Seq<char>| #[trigger]
            m0.btrees().dom().contains(n) ==> if excluded(exclude, n) {
                m1.btrees()[n] == m0.btrees()[n]
            } else {
                doc_added(m1.btrees()[n], m0.btrees()[n], d, id)
            },
        m1.fuzzies().dom() == m0.fuzzies().dom(),
        forall|n: Seq<char>| #[trigger]
            m0.fuzzies().dom().contains(n) ==> if excluded(exclude, n) {
                m1.fuzzies()[n] == m0.fuzzies()[n]
            } else {
                fuzzy_doc_added(m1.fuzzies()[n], m0.fuzzies()[n], d, id)
            },
        m2.btrees().dom() == m1.btrees().dom(),
        forall|n: Seq<char>| #[trigger]
            m1.btrees().dom().contains(n) ==> if excluded(exclude, n) {
                m2.btrees()[n] == m1.btrees()[n]
            } else {
                doc_removed(m2.btrees()[n], m1.btrees()[n], d, id)
            },
        m2.fuzzies().dom() == m1.fuzzies().dom(),
        forall|n: Seq<char>| #[trigger]
            m1.fuzzies().dom().contains(n) ==> if excluded(exclude, n) {
                m2.fuzzies()[n] == m1.fuzzies()[n]
            } else {
                m2.fuzzies()[n].entries_view() == m1.fuzzies()[n].entries_view().filter(
                    |e: crate::index::fuzzy::FuzzyEntry| e.2 != id,
                )
            },
    ensures
        m2.btrees().dom() == m0.btrees().dom(),
        forall|n: Seq<char>| #[trigger]
            m0.btrees().dom().contains(n) ==> m2.btrees()[n].entries().to_multiset() == m0.btrees()[n].entries().to_multiset(),
        m2.fuzzies().dom() == m0.fuzzies().dom(),
        forall|n: Seq<char>| #[trigger]
            m0.fuzzies().dom().contains(n) ==> if excluded(exclude, n) {
                m2.fuzzies()[n] == m0.fuzzies()[n]
            } else {
                m2.fuzzies()[n].entries_view() == m0.fuzzies()[n].entries_view().filter(
                    |e: crate::index::fuzzy::FuzzyEntry| e.2 != id,
                )
            },
{
    assert forall|n: Seq<char>| #[trigger] m0.btrees().dom().contains(n) implies m2.btrees()[n].entries().to_multiset()
        == m0.btrees()[n].entries().to_multiset() by {
        assert(m1.btrees().dom().contains(n));
        if !excluded(exclude, n) {
            lemma_add_then_remove(m0.btrees()[n], m1.btrees()[n], m2.btrees()[n], d, id);
        }
    }
    assert forall|n: Seq<char>| #[trigger] m0.fuzzies().dom().contains(n) implies if excluded(exclude, n) {
        m2.fuzzies()[n] == m0.fuzzies()[n]
    } else {
        m2.fuzzies()[n].entries_view() == m0.fuzzies()[n].entries_view().filter(
            |e: crate::index::fuzzy::FuzzyEntry| e.2 != id,
        )
    } by {
        assert(m1.fuzzies().dom().contains(n));
        if !excluded(exclude, n) {
            lemma_fuzzy_add_then_remove(m0.fuzzies()[n], m1.fuzzies()[n], m2.fuzzies()[n], d, id);
        }
    }
}

/// Planners are offered exactly the B+ tree indexes that are not being
/// built: a name is among the ready names iff it is an index name whose
/// index is not marked as being built.
pub proof fn lemma_ready_names(ns: Seq<Seq<char>>, m: Map<Seq<char>, BPlusTree>)
    ensures
        forall|n: Seq<char>| #[trigger] ready_names(ns, m).contains(n) <==> ns.contains(n) && !m[n].meta().building,
    decreases ns.len(),
{
    if ns.len() > 0 {
        lemma_ready_names(ns.drop_last(), m);
        let r = ready_names(ns.drop_last(), m);
        assert forall|n: Seq<char>| #[trigger] ready_names(ns, m).contains(n) <==> ns.contains(n) && !m[n].meta().building by {
            lemma_push_contains_names(ns.drop_last(), ns.last());
            assert(ns =~= ns.drop_last().push(ns.last()));
            if !m[ns.last()].meta().building {
                lemma_push_contains_names(r, ns.last());
            }
        }
    }
}

proof fn lemma_push_contains_names(pre: Seq<Seq<char>>, x: Seq<char>)
    ensures
        forall|y: Seq<char>| #[trigger] pre.push(x).contains(y) <==> pre.contains(y) || y == x,
{
    crate::assoc::lemma_push_to_set(pre, x);
    assert forall|y: Seq<char>| #[trigger] pre.push(x).contains(y) <==> pre.contains(y) || y == x by {
        assert(pre.push(x).to_set().contains(y) == pre.to_set().insert(x).contains(y));
    }
}

impl Named for IndexPrefixInfo {
    open spec fn name_chars(&self) -> Seq<char> {
        self.index_name@
    }

    fn name_str(&self) -> (r: &str) {
        self.index_name.as_str()
    }
}

fn copy_histogram(h: &Option<Histogram>) -> (r: Option<Histogram>)
    ensures
        match (r, *h) {
            (Some(a), Some(b)) => a.same_as(&b),
            (None, None) => true,
            _ => false,
        },
{
    match h {
        Some(x) => Some(x.copy()),
        None => None,
    }
}

fn copy_mcv(m: &Option<MostCommonValues>) -> (r: Option<MostCommonValues>)
    ensures
        match (r, *m) {
            (Some(a), Some(b)) => a.same_as(&b),
            (None, None) => true,
            _ => false,
        },
{
    match m {
        Some(x) => Some(x.copy()),
        None => None,
    }
}

/// What a query planner reads of a B+ tree index named `name`.
fn btree_info(name: &String, t: &BPlusTree) -> (info: IndexPrefixInfo)
    ensures
        describes_btree(info, name@, *t),
{
    let m = t.metadata_ref();
    let is_compound = m.is_compound();
    let prefix_field = if is_compound {
        m.fields[0].clone()
    } else {
        m.field.clone()
    };
    let num_fields = if is_compound {
        m.fields.len()
    } else {
        1
    };
    IndexPrefixInfo {
        index_name: name.clone(),
        prefix_field,
        is_compound,
        num_fields,
        sparse: m.sparse,
        distinct_count: m.stats.distinct_count,
        building: m.building,
        num_keys: m.num_keys,
        case_insensitive: m.case_insensitive,
        null_count: m.stats.null_count,
        multikey_ratio: m.stats.multikey_ratio,
        histogram: copy_histogram(&m.stats.histogram),
        mcv: copy_mcv(&m.stats.mcv),
    }
}

/// The indexes of one collection.
pub struct IndexManager {
    btree_indexes: NameTable<BPlusTree>,
    legacy_indexes: NameTable<Index>,
    fuzzy_indexes: NameTable<FuzzyIndex>,
    index_file_paths: NameTable<String>,
    dirty_btree_indexes: NameSet,
    dirty_fuzzy_indexes: NameSet,
}

impl IndexManager {
    pub closed spec fn wf(&self) -> bool {
        &&& self.btree_indexes.wf()
        &&& self.legacy_indexes.wf()
        &&& self.fuzzy_indexes.wf()
        &&& self.index_file_paths.wf()
        &&& self.dirty_btree_indexes.wf()
        &&& self.dirty_fuzzy_indexes.wf()
    }

    /// The B+ tree indexes by name.
    pub closed spec fn btrees(&self) -> Map<Seq<char>, BPlusTree> {
        self.btree_indexes.map()
    }

    /// Names of the B+ tree indexes, in the order they were added.
    pub closed spec fn btree_names(&self) -> Seq<Seq<char>> {
        self.btree_indexes.keys()
    }

    /// The map-based indexes by name.
    pub closed spec fn legacies(&self) -> Map<Seq<char>, Index> {
        self.legacy_indexes.map()
    }

    /// Names of the map-based indexes, in the order they were added.
    pub closed spec fn legacy_names(&self) -> Seq<Seq<char>> {
        self.legacy_indexes.keys()
    }

    /// The fuzzy indexes by name.
    pub closed spec fn fuzzies(&self) -> Map<Seq<char>, FuzzyIndex> {
        self.fuzzy_indexes.map()
    }

    /// Names of the fuzzy indexes, in the order they were added.
    pub closed spec fn fuzzy_names(&self) -> Seq<Seq<char>> {
        self.fuzzy_indexes.keys()
    }

    /// The file paths by index name.
    pub closed spec fn paths(&self) -> Map<Seq<char>, String> {
        self.index_file_paths.map()
    }

    /// B+ tree indexes changed since their last flush.
    pub closed spec fn dirty_btrees(&self) -> Set<Seq<char>> {
        self.dirty_btree_indexes.set()
    }

    /// Fuzzy indexes changed since their last flush.
    pub closed spec fn dirty_fuzzies(&self) -> Set<Seq<char>> {
        self.dirty_fuzzy_indexes.set()
    }

    /// Some index of any kind has this name.
    pub open spec fn has_name(&self, name: Seq<char>) -> bool {
        ||| self.btrees().dom().contains(name)
        ||| self.legacies().dom().contains(name)
        ||| self.fuzzies().dom().contains(name)
    }

    /// Every B+ tree index is well formed.
    pub open spec fn trees_wf(&self) -> bool {
        forall|n: Seq<char>| #[trigger] self.btrees().dom().contains(n) ==> self.btrees()[n].wf()
    }

    /// The indexes and the dirty marks are as in `other`; only the paths may differ.
    pub open spec fn same_indexes(&self, other: &Self) -> bool {
        &&& self.btrees() == other.btrees()
        &&& self.btree_names() == other.btree_names()
        &&& self.legacies() == other.legacies()
        &&& self.legacy_names() == other.legacy_names()
        &&& self.fuzzies() == other.fuzzies()
        &&& self.fuzzy_names() == other.fuzzy_names()
    }

    /// The names in each table are distinct and are its map's keys.
    pub proof fn lemma_tables(&self)
        requires
            self.wf(),
        ensures
            self.btrees().dom().finite(),
            self.legacies().dom().finite(),
            self.fuzzies().dom().finite(),
            forall|k: Seq<char>| #[trigger] self.btrees().dom().contains(k) <==> self.btree_names().contains(k),
            forall|k: Seq<char>| #[trigger] self.legacies().dom().contains(k) <==> self.legacy_names().contains(k),
            forall|k: Seq<char>| #[trigger] self.fuzzies().dom().contains(k) <==> self.fuzzy_names().contains(k),
    {
        self.btree_indexes.lemma_table();
        self.legacy_indexes.lemma_table();
        self.fuzzy_indexes.lemma_table();
    }

    /// A manager with no index.
    pub fn new() -> (m: Self)
        ensures
            m.wf(),
            m.btrees() == Map::<Seq<char>, BPlusTree>::empty(),
            m.legacies() == Map::<Seq<char>, Index>::empty(),
            m.fuzzies() == Map::<Seq<char>, FuzzyIndex>::empty(),
            m.paths() == Map::<Seq<char>, String>::empty(),
            m.btree_names() == Seq::<Seq<char>>::empty(),
            m.legacy_names() == Seq::<Seq<char>>::empty(),
            m.fuzzy_names() == Seq::<Seq<char>>::empty(),
            m.dirty_btrees() == Set::<Seq<char>>::empty(),
            m.dirty_fuzzies() == Set::<Seq<char>>::empty(),
    {
        IndexManager {
            btree_indexes: NameTable::new(),
            legacy_indexes: NameTable::new(),
            fuzzy_indexes: NameTable::new(),
            index_file_paths: NameTable::new(),
            dirty_btree_indexes: NameSet::new(),
            dirty_fuzzy_indexes: NameSet::new(),
        }
    }

    /// Whether some index changed since its last flush.
    pub fn has_dirty_indexes(&self) -> (r: bool)
        ensures
            r == (self.dirty_btrees() != Set::<Seq<char>>::empty() || self.dirty_fuzzies() != Set::<
                Seq<char>,
            >::empty()),
    {
        !self.dirty_btree_indexes.is_empty() || !self.dirty_fuzzy_indexes.is_empty()
    }

    /// Mark a B+ tree index as changed since its last flush.
    pub fn mark_btree_dirty(&mut self, name: &str)
        requires
            old(self).wf(),
        ensures
            final(self).wf(),
            final(self).dirty_btrees() == old(self).dirty_btrees().insert(name@),
            final(self).dirty_fuzzies() == old(self).dirty_fuzzies(),
            final(self).same_indexes(old(self)),
            final(self).paths() == old(self).paths(),
    {
        self.dirty_btree_indexes.insert(name);
    }

    /// Mark a fuzzy index as changed since its last flush.
    pub fn mark_fuzzy_dirty(&mut self, name: &str)
        requires
            old(self).wf(),
        ensures
            final(self).wf(),
            final(self).dirty_fuzzies() == old(self).dirty_fuzzies().insert(name@),
            final(self).dirty_btrees() == old(self).dirty_btrees(),
            final(self).same_indexes(old(self)),
            final(self).paths() == old(self).paths(),
    {
        self.dirty_fuzzy_indexes.insert(name);
    }

    /// Set the file path of an index.
    pub fn set_index_path(&mut self, index_name: &str, path: String)
        requires
            old(self).wf(),
        ensures
            final(self).wf(),
            final(self).paths() == old(self).paths().insert(index_name@, path),
            final(self).same_indexes(old(self)),
            final(self).dirty_btrees() == old(self).dirty_btrees(),
            final(self).dirty_fuzzies() == old(self).dirty_fuzzies(),
    {
        self.index_file_paths.insert(index_name.to_string(), path);
    }

    /// The file path of an index, if one is set.
    pub fn get_index_path(&self, index_name: &str) -> (res: Option<&String>)
        requires
            self.wf(),
        ensures
            match res {
                Some(p) => self.paths().dom().contains(index_name@) && *p == self.paths()[index_name@],
                None => !self.paths().dom().contains(index_name@),
            },
    {
        self.index_file_paths.get(index_name)
    }

    /// Whether an index of any kind has this name.
    fn index_exists(&self, name: &str) -> (r: bool)
        requires
            self.wf(),
        ensures
            r == self.has_name(name@),
    {
        self.btree_indexes.find(name).is_some() || self.legacy_indexes.find(name).is_some()
            || self.fuzzy_indexes.find(name).is_some()
    }

    /// Add a B+ tree built for `name`, marked as being built.
    fn add_building_tree(&mut self, name: String, tree: BPlusTree)
        requires
            old(self).wf(),
            !old(self).has_name(name@),
            tree.wf(),
        ensures
            final(self).wf(),
            final(self).btrees() == old(self).btrees().insert(name@, final(self).btrees()[name@]),
            final(self).btree_names() == old(self).btree_names().push(name@),
            final(self).btrees()[name@].wf(),
            final(self).btrees()[name@].entries() == tree.entries(),
            final(self).btrees()[name@].meta() == (crate::index::btree::IndexMetadata {
                building: true,
                ..tree.meta()
            }),
            final(self).legacies() == old(self).legacies(),
            final(self).legacy_names() == old(self).legacy_names(),
            final(self).fuzzies() == old(self).fuzzies(),
            final(self).fuzzy_names() == old(self).fuzzy_names(),
            final(self).paths() == old(self).paths(),
            final(self).dirty_btrees() == old(self).dirty_btrees(),
            final(self).dirty_fuzzies() == old(self).dirty_fuzzies(),
            old(self).trees_wf() ==> final(self).trees_wf(),
    {
        let mut tree = tree;
        tree.set_building(true);
        proof {
            self.lemma_tables();
        }
        self.btree_indexes.insert(name, tree);
    }

    /// Create a single-field B+ tree index, marked as being built (call
    /// [`Self::set_index_ready`] once it is filled). A name in use by any
    /// index is refused.
    pub fn create_btree_index(&mut self, name: String, field: String, unique: bool, sparse: bool) -> (res: Result<
        (),
        IronBaseError,
    >)
        requires
            old(self).wf(),
        ensures
            final(self).wf(),
            res is Ok <==> !old(self).has_name(name@),
            res is Err ==> is_index_error(res, exists_message(name@)) && *final(self) == *old(self),
            res is Ok ==> {
                let t = final(self).btrees()[name@];
                &&& final(self).btrees() == old(self).btrees().insert(name@, t)
                &&& final(self).btree_names() == old(self).btree_names().push(name@)
                &&& t.wf()
                &&& t.entries().len() == 0
                &&& t.meta().name == name
                &&& t.meta().field == field
                &&& t.meta().fields@ == seq![field]
                &&& t.meta().unique == unique
                &&& t.meta().sparse == sparse
                &&& !t.meta().case_insensitive
                &&& !t.meta().multikey
                &&& t.meta().building
                &&& final(self).legacies() == old(self).legacies()
                &&& final(self).fuzzies() == old(self).fuzzies()
                &&& final(self).paths() == old(self).paths()
                &&& final(self).dirty_btrees() == old(self).dirty_btrees()
                &&& final(self).dirty_fuzzies() == old(self).dirty_fuzzies()
                &&& old(self).trees_wf() ==> final(self).trees_wf()
            },
    {
        if self.index_exists(name.as_str()) {
            return Err(IronBaseError::IndexError(concat2("Index already exists: ", name.as_str())));
        }
        let tree = BPlusTree::new(name.clone(), field, unique, sparse);
        self.add_building_tree(name, tree);
        Ok(())
    }

    /// Create a case-insensitive single-field B+ tree index (string keys
    /// lowercased, sparse), marked as being built. A name in use is refused.
    pub fn create_btree_index_ci(&mut self, name: String, field: String, unique: bool) -> (res: Result<
        (),
        IronBaseError,
    >)
        requires
            old(self).wf(),
        ensures
            final(self).wf(),
            res is Ok <==> !old(self).has_name(name@),
            res is Err ==> is_index_error(res, exists_message(name@)) && *final(self) == *old(self),
            res is Ok ==> {
                let t = final(self).btrees()[name@];
                &&& final(self).btrees() == old(self).btrees().insert(name@, t)
                &&& final(self).btree_names() == old(self).btree_names().push(name@)
                &&& t.wf()
                &&& t.entries().len() == 0
                &&& t.meta().name == name
                &&& t.meta().field == field
                &&& t.meta().fields@ == seq![field]
                &&& t.meta().unique == unique
                &&& t.meta().sparse
                &&& t.meta().case_insensitive
                &&& !t.meta().multikey
                &&& t.meta().building
                &&& final(self).legacies() == old(self).legacies()
                &&& final(self).fuzzies() == old(self).fuzzies()
                &&& final(self).paths() == old(self).paths()
                &&& final(self).dirty_btrees() == old(self).dirty_btrees()
                &&& final(self).dirty_fuzzies() == old(self).dirty_fuzzies()
                &&& old(self).trees_wf() ==> final(self).trees_wf()
            },
    {
        if self.index_exists(name.as_str()) {
            return Err(IronBaseError::IndexError(concat2("Index already exists: ", name.as_str())));
        }
        let tree = BPlusTree::new_ci(name.clone(), field, unique);
        self.add_building_tree(name, tree);
        Ok(())
    }

    /// Create a compound B+ tree index over `fields` in order, marked as
    /// being built. A name in use is refused first, then an empty field list.
    pub fn create_compound_index(&mut self, name: String, fields: Vec<String>, unique: bool, sparse: bool) -> (res:
        Result<(), IronBaseError>)
        requires
            old(self).wf(),
        ensures
            final(self).wf(),
            res is Ok <==> !old(self).has_name(name@) && fields@.len() > 0,
            old(self).has_name(name@) ==> is_index_error(res, exists_message(name@)),
            !old(self).has_name(name@) && fields@.len() == 0 ==> is_index_error(
                res,
                "Compound index must have at least one field"@,
            ),
            res is Err ==> *final(self) == *old(self),
            res is Ok ==> {
                let t = final(self).btrees()[name@];
                &&& final(self).btrees() == old(self).btrees().insert(name@, t)
                &&& final(self).btree_names() == old(self).btree_names().push(name@)
                &&& t.wf()
                &&& t.entries().len() == 0
                &&& t.meta().name == name
                &&& t.meta().field == fields@[0]
                &&& t.meta().fields == fields
                &&& t.meta().unique == unique
                &&& t.meta().sparse == sparse
                &&& !t.meta().case_insensitive
                &&& t.meta().building
                &&& final(self).legacies() == old(self).legacies()
                &&& final(self).fuzzies() == old(self).fuzzies()
                &&& final(self).paths() == old(self).paths()
                &&& final(self).dirty_btrees() == old(self).dirty_btrees()
                &&& final(self).dirty_fuzzies() == old(self).dirty_fuzzies()
                &&& old(self).trees_wf() ==> final(self).trees_wf()
            },
    {
        if self.index_exists(name.as_str()) {
            return Err(IronBaseError::IndexError(concat2("Index already exists: ", name.as_str())));
        }
        if fields.len() == 0 {
            return Err(IronBaseError::IndexError("Compound index must have at least one field".to_string()));
        }
        let tree = BPlusTree::new_compound(name.clone(), fields, unique, sparse);
        self.add_building_tree(name, tree);
        Ok(())
    }

    /// Create a map-based index from its definition. A name in use is refused.
    pub fn create_index(&mut self, definition: IndexDefinition) -> (res: Result<(), IronBaseError>)
        requires
            old(self).wf(),
        ensures
            final(self).wf(),
            res is Ok <==> !old(self).has_name(definition.name@),
            res is Err ==> is_index_error(res, exists_message(definition.name@)) && *final(self) == *old(self),
            res is Ok ==> {
                let ix = final(self).legacies()[definition.name@];
                &&& final(self).legacies() == old(self).legacies().insert(definition.name@, ix)
                &&& final(self).legacy_names() == old(self).legacy_names().push(definition.name@)
                &&& ix.wf()
                &&& ix.def() == definition
                &&& ix.map() == Map::<Seq<char>, Seq<crate::document::DocIdView>>::empty()
                &&& final(self).btrees() == old(self).btrees()
                &&& final(self).btree_names() == old(self).btree_names()
                &&& final(self).fuzzies() == old(self).fuzzies()
                &&& final(self).paths() == old(self).paths()
                &&& final(self).dirty_btrees() == old(self).dirty_btrees()
                &&& final(self).dirty_fuzzies() == old(self).dirty_fuzzies()
            },
    {
        let name = definition.name.clone();
        if self.index_exists(name.as_str()) {
            return Err(IronBaseError::IndexError(concat2("Index already exists: ", name.as_str())));
        }
        proof {
            self.lemma_tables();
        }
        self.legacy_indexes.insert(name, Index::new(definition));
        Ok(())
    }

    /// Drop an index by name, with its file path and changed marks. The first
    /// kind holding the name loses it (B+ tree, then map-based, then fuzzy);
    /// an unknown name is an `IndexError`.
    pub fn drop_index(&mut self, name: &str) -> (res: Result<(), IronBaseError>)
        requires
            old(self).wf(),
        ensures
            final(self).wf(),
            res is Ok <==> old(self).has_name(name@),
            res is Err ==> is_index_error(res, not_found_message(name@)) && *final(self) == *old(self),
            res is Ok ==> {
                &&& old(self).btrees().dom().contains(name@) ==> {
                    &&& final(self).btrees() == old(self).btrees().remove(name@)
                    &&& final(self).legacies() == old(self).legacies()
                    &&& final(self).fuzzies() == old(self).fuzzies()
                }
                &&& !old(self).btrees().dom().contains(name@) && old(self).legacies().dom().contains(name@) ==> {
                    &&& final(self).btrees() == old(self).btrees()
                    &&& final(self).legacies() == old(self).legacies().remove(name@)
                    &&& final(self).fuzzies() == old(self).fuzzies()
                }
                &&& !old(self).btrees().dom().contains(name@) && !old(self).legacies().dom().contains(name@) ==> {
                    &&& final(self).btrees() == old(self).btrees()
                    &&& final(self).legacies() == old(self).legacies()
                    &&& final(self).fuzzies() == old(self).fuzzies().remove(name@)
                }
                &&& final(self).paths() == old(self).paths().remove(name@)
                &&& final(self).dirty_btrees() == old(self).dirty_btrees().remove(name@)
                &&& final(self).dirty_fuzzies() == old(self).dirty_fuzzies().remove(name@)
                &&& old(self).trees_wf() ==> final(self).trees_wf()
            },
    {
        let removed = self.btree_indexes.remove(name).is_some() || self.legacy_indexes.remove(name).is_some()
            || self.fuzzy_indexes.remove(name).is_some();
        if !removed {
            return Err(IronBaseError::IndexError(concat2("Index not found: ", name)));
        }
        self.index_file_paths.remove(name);
        self.dirty_btree_indexes.remove(name);
        self.dirty_fuzzy_indexes.remove(name);
        proof {
            if old(self).trees_wf() {
                assert forall|k: Seq<char>| #[trigger] self.btrees().dom().contains(k) implies self.btrees()[k].wf() by {
                    assert(old(self).btrees().dom().contains(k));
                }
            }
        }
        Ok(())
    }

    /// The B+ tree index of this name.
    pub fn get_btree_index(&self, name: &str) -> (res: Option<&BPlusTree>)
        requires
            self.wf(),
        ensures
            match res {
                Some(t) => self.btrees().dom().contains(name@) && *t == self.btrees()[name@],
                None => !self.btrees().dom().contains(name@),
            },
    {
        self.btree_indexes.get(name)
    }

    /// The B+ tree index of this name, to change; an index handed out is
    /// marked as changed since its last flush.
    pub fn get_btree_index_mut(&mut self, name: &str) -> (res: Option<&mut BPlusTree>)
        requires
            old(self).wf(),
        ensures
            final(self).wf(),
            final(self).btree_names() == old(self).btree_names(),
            final(self).legacies() == old(self).legacies(),
            final(self).legacy_names() == old(self).legacy_names(),
            final(self).fuzzies() == old(self).fuzzies(),
            final(self).fuzzy_names() == old(self).fuzzy_names(),
            final(self).paths() == old(self).paths(),
            final(self).dirty_fuzzies() == old(self).dirty_fuzzies(),
            match res {
                Some(t) => {
                    &&& old(self).btrees().dom().contains(name@)
                    &&& *t == old(self).btrees()[name@]
                    &&& final(self).btrees() == old(self).btrees().insert(name@, *final(t))
                    &&& final(self).dirty_btrees() == old(self).dirty_btrees().insert(name@)
                },
                None => {
                    &&& !old(self).btrees().dom().contains(name@)
                    &&& final(self).btrees() == old(self).btrees()
                    &&& final(self).dirty_btrees() == old(self).dirty_btrees()
                },
            },
    {
        if self.btree_indexes.find(name).is_some() {
            self.dirty_btree_indexes.insert(name);
        }
        self.btree_indexes.get_mut(name)
    }

    /// Add a B+ tree read back from its file under its own name, replacing
    /// any B+ tree index of that name.
    pub fn add_loaded_index(&mut self, tree: BPlusTree)
        requires
            old(self).wf(),
        ensures
            final(self).wf(),
            final(self).btrees() == old(self).btrees().insert(tree.meta().name@, tree),
            final(self).legacies() == old(self).legacies(),
            final(self).fuzzies() == old(self).fuzzies(),
            final(self).paths() == old(self).paths(),
            final(self).dirty_btrees() == old(self).dirty_btrees(),
            final(self).dirty_fuzzies() == old(self).dirty_fuzzies(),
            old(self).trees_wf() && tree.wf() ==> final(self).trees_wf(),
    {
        let name = tree.metadata_ref().name.clone();
        let ghost tv = tree;
        self.btree_indexes.insert(name, tree);
        proof {
            if old(self).trees_wf() && tv.wf() {
                assert forall|k: Seq<char>| #[trigger] self.btrees().dom().contains(k) implies self.btrees()[k].wf() by {
                    if k != tv.meta().name@ {
                        assert(old(self).btrees().dom().contains(k));
                    }
                }
            }
        }
    }

    /// The map-based index of this name.
    pub fn get_index(&self, name: &str) -> (res: Option<&Index>)
        requires
            self.wf(),
        ensures
            match res {
                Some(ix) => self.legacies().dom().contains(name@) && *ix == self.legacies()[name@],
                None => !self.legacies().dom().contains(name@),
            },
    {
        self.legacy_indexes.get(name)
    }

    /// The map-based index of this name, to change.
    pub fn get_index_mut(&mut self, name: &str) -> (res: Option<&mut Index>)
        requires
            old(self).wf(),
        ensures
            final(self).wf(),
            final(self).legacy_names() == old(self).legacy_names(),
            final(self).btrees() == old(self).btrees(),
            final(self).btree_names() == old(self).btree_names(),
            final(self).fuzzies() == old(self).fuzzies(),
            final(self).fuzzy_names() == old(self).fuzzy_names(),
            final(self).paths() == old(self).paths(),
            final(self).dirty_btrees() == old(self).dirty_btrees(),
            final(self).dirty_fuzzies() == old(self).dirty_fuzzies(),
            match res {
                Some(ix) => {
                    &&& old(self).legacies().dom().contains(name@)
                    &&& *ix == old(self).legacies()[name@]
                    &&& final(self).legacies() == old(self).legacies().insert(name@, *final(ix))
                },
                None => {
                    &&& !old(self).legacies().dom().contains(name@)
                    &&& final(self).legacies() == old(self).legacies()
                },
            },
    {
        self.legacy_indexes.get_mut(name)
    }

    /// Names of all indexes, sorted.
    pub fn list_indexes(&self) -> (res: Vec<String>)
        requires
            self.wf(),
        ensures
            names_of(res@).to_multiset() == (self.btree_names() + self.legacy_names()
                + self.fuzzy_names()).to_multiset(),
            chars_sorted(names_of(res@)),
    {
        let mut all = self.btree_indexes.names();
        let mut legacy = self.legacy_indexes.names();
        let mut fuzzy = self.fuzzy_indexes.names();
        let ghost a = all@;
        let ghost l = legacy@;
        let ghost f = fuzzy@;
        all.append(&mut legacy);
        all.append(&mut fuzzy);
        assert(names_of(all@) =~= self.btree_names() + self.legacy_names() + self.fuzzy_names()) by {
            assert(all@ == a + l + f);
        }
        sort_by_name(all)
    }

    /// What a query planner reads of each usable index, sorted by name: the
    /// B+ tree indexes not being built, then the map-based ones.
    pub fn list_indexes_with_compound_info(&self) -> (res: Vec<IndexPrefixInfo>)
        requires
            self.wf(),
        ensures
            names_of(res@).to_multiset() == (ready_names(self.btree_names(), self.btrees())
                + self.legacy_names()).to_multiset(),
            chars_sorted(names_of(res@)),
            forall|i: int|
                #![trigger res@[i]]
                0 <= i < res@.len() ==> {
                    let n = res@[i].index_name@;
                    ||| self.btrees().dom().contains(n) && !self.btrees()[n].meta().building
                        && describes_btree(res@[i], n, self.btrees()[n])
                    ||| self.legacies().dom().contains(n) && describes_legacy(res@[i], n, self.legacies()[n])
                },
    {
        proof {
            self.btree_indexes.lemma_table();
            self.legacy_indexes.lemma_table();
        }
        let ghost bn = self.btree_names();
        let mut out: Vec<IndexPrefixInfo> = Vec::new();
        let mut i: usize = 0;
        while i < self.btree_indexes.len()
            invariant
                self.wf(),
                bn == self.btree_names(),
                i <= bn.len(),
                names_of(out@) == ready_names(bn.subrange(0, i as int), self.btrees()),
                forall|j: int|
                    #![trigger out@[j]]
                    0 <= j < out@.len() ==> {
                        let n = out@[j].index_name@;
                        self.btrees().dom().contains(n) && !self.btrees()[n].meta().building && describes_btree(
                            out@[j],
                            n,
                            self.btrees()[n],
                        )
                    },
            decreases bn.len() - i,
        {
            proof {
                self.btree_indexes.lemma_table();
                assert(bn.subrange(0, i + 1).drop_last() =~= bn.subrange(0, i as int));
                assert(bn.subrange(0, i + 1).last() == bn[i as int]);
                assert(bn.contains(bn[i as int]));
            }
            let name = self.btree_indexes.name_at(i);
            let tree = self.btree_indexes.at(i);
            if !tree.is_building() {
                let info = btree_info(name, tree);
                let ghost o = out@;
                out.push(info);
                assert(names_of(out@) =~= names_of(o).push(info.index_name@));
            }
            i = i + 1;
        }
        assert(bn.subrange(0, i as int) =~= bn);
        let ghost ready = names_of(out@);
        let ln = self.legacy_indexes.len();
        let mut k: usize = 0;
        while k < ln
            invariant
                self.wf(),
                ln == self.legacy_names().len(),
                k <= ln,
                names_of(out@) == ready + self.legacy_names().subrange(0, k as int),
                forall|j: int|
                    #![trigger out@[j]]
                    0 <= j < out@.len() ==> {
                        let n = out@[j].index_name@;
                        ||| self.btrees().dom().contains(n) && !self.btrees()[n].meta().building
                            && describes_btree(out@[j], n, self.btrees()[n])
                        ||| self.legacies().dom().contains(n) && describes_legacy(out@[j], n, self.legacies()[n])
                    },
            decreases ln - k,
        {
            proof {
                self.legacy_indexes.lemma_table();
                assert(self.legacy_names().contains(self.legacy_names()[k as int]));
            }
            let name = self.legacy_indexes.name_at(k);
            let ix = self.legacy_indexes.at(k);
            let info = IndexPrefixInfo {
                index_name: name.clone(),
                prefix_field: ix.definition_ref().field.clone(),
                is_compound: false,
                num_fields: 1,
                sparse: false,
                distinct_count: 0,
                building: false,
                num_keys: 0,
                case_insensitive: false,
                null_count: 0,
                multikey_ratio: 0,
                histogram: None,
                mcv: None,
            };
            let ghost o = out@;
            out.push(info);
            assert(names_of(out@) =~= names_of(o).push(info.index_name@));
            assert(self.legacy_names().subrange(0, k + 1) =~= self.legacy_names().subrange(0, k as int).push(
                self.legacy_names()[k as int],
            ));
            k = k + 1;
        }
        assert(self.legacy_names().subrange(0, k as int) =~= self.legacy_names());
        let res = sort_by_name(out);
        proof {
            assert forall|i: int| 0 <= i < res@.len() implies {
                let n = #[trigger] res@[i].index_name@;
                ||| self.btrees().dom().contains(n) && !self.btrees()[n].meta().building && describes_btree(
                    res@[i],
                    n,
                    self.btrees()[n],
                )
                ||| self.legacies().dom().contains(n) && describes_legacy(res@[i], n, self.legacies()[n])
            } by {
                vstd::seq_lib::to_multiset_contains(res@, res@[i]);
                vstd::seq_lib::to_multiset_contains(out@, res@[i]);
                assert(res@.contains(res@[i]));
                let j = choose|j: int| 0 <= j < out@.len() && out@[j] == res@[i];
                assert(out@[j] == res@[i]);
            }
        }
        res
    }

    /// Name and first field of each usable index, sorted by name (see
    /// [`Self::list_indexes_with_compound_info`]).
    pub fn list_indexes_with_prefix_field(&self) -> (res: Vec<(String, String)>)
        requires
            self.wf(),
        ensures
            ({
                let ns = Seq::new(res@.len(), |i: int| res@[i].0@);
                &&& ns.to_multiset() == (ready_names(self.btree_names(), self.btrees())
                    + self.legacy_names()).to_multiset()
                &&& chars_sorted(ns)
            }),
            forall|i: int|
                #![trigger res@[i]]
                0 <= i < res@.len() ==> {
                    let n = res@[i].0@;
                    ||| self.btrees().dom().contains(n) && !self.btrees()[n].meta().building && res@[i].1@
                        == prefix_field_of(self.btrees()[n].meta())
                    ||| self.legacies().dom().contains(n) && res@[i].1@ == self.legacies()[n].def().field@
                },
    {
        let infos = self.list_indexes_with_compound_info();
        let mut out: Vec<(String, String)> = Vec::new();
        let mut i: usize = 0;
        while i < infos.len()
            invariant
                i <= infos@.len(),
                out@.len() == i,
                forall|j: int|
                    0 <= j < i ==> (#[trigger] out@[j]).0@ == infos@[j].index_name@ && out@[j].1@
                        == infos@[j].prefix_field@,
            decreases infos@.len() - i,
        {
            out.push((infos[i].index_name.clone(), infos[i].prefix_field.clone()));
            i = i + 1;
        }
        assert(Seq::new(out@.len(), |i: int| out@[i].0@) =~= names_of(infos@));
        assert forall|i: int| 0 <= i < out@.len() implies {
            let n = #[trigger] out@[i].0@;
            ||| self.btrees().dom().contains(n) && !self.btrees()[n].meta().building && out@[i].1@ == prefix_field_of(
                self.btrees()[n].meta(),
            )
            ||| self.legacies().dom().contains(n) && out@[i].1@ == self.legacies()[n].def().field@
        } by {
            assert(infos@[i].index_name@ == out@[i].0@);
        }
        out
    }

    /// Mark an index as being built (planners ignore it) or ready. B+ tree
    /// indexes are looked up first, then fuzzy ones; an unknown name is an
    /// `IndexError`.
    pub fn set_index_building(&mut self, name: &str, building: bool) -> (res: Result<(), IronBaseError>)
        requires
            old(self).wf(),
        ensures
            final(self).wf(),
            res is Ok <==> old(self).btrees().dom().contains(name@) || old(self).fuzzies().dom().contains(name@),
            res is Err ==> is_index_error(res, not_found_message(name@)) && *final(self) == *old(self),
            final(self).btree_names() == old(self).btree_names(),
            final(self).fuzzy_names() == old(self).fuzzy_names(),
            final(self).legacies() == old(self).legacies(),
            final(self).legacy_names() == old(self).legacy_names(),
            final(self).paths() == old(self).paths(),
            final(self).dirty_btrees() == old(self).dirty_btrees(),
            final(self).dirty_fuzzies() == old(self).dirty_fuzzies(),
            old(self).btrees().dom().contains(name@) ==> {
                let t = final(self).btrees()[name@];
                &&& final(self).btrees() == old(self).btrees().insert(name@, t)
                &&& t.meta() == (IndexMetadata { building, ..old(self).btrees()[name@].meta() })
                &&& t.entries() == old(self).btrees()[name@].entries()
                &&& t.wf() == old(self).btrees()[name@].wf()
                &&& t.counters_spec() == old(self).btrees()[name@].counters_spec()
                &&& final(self).fuzzies() == old(self).fuzzies()
                &&& old(self).trees_wf() ==> final(self).trees_wf()
            },
            !old(self).btrees().dom().contains(name@) && old(self).fuzzies().dom().contains(name@) ==> {
                let f = final(self).fuzzies()[name@];
                let o = old(self).fuzzies()[name@];
                &&& final(self).fuzzies() == old(self).fuzzies().insert(name@, f)
                &&& f.meta().building == building
                &&& f.meta().name == o.meta().name
                &&& f.meta().num_entries == o.meta().num_entries
                &&& f.entries_view() == o.entries_view()
                &&& f.lazy() == o.lazy()
                &&& f.path() == o.path()
                &&& final(self).btrees() == old(self).btrees()
            },
    {
        proof {
            self.btree_indexes.lemma_table();
        }
        match self.btree_indexes.get_mut(name) {
            Some(t) => {
                t.set_building(building);
                return Ok(());
            },
            None => {},
        }
        match self.fuzzy_indexes.get_mut(name) {
            Some(f) => {
                f.set_building(building);
                return Ok(());
            },
            None => {},
        }
        Err(IronBaseError::IndexError(concat2("Index not found: ", name)))
    }

    /// Mark an index as ready for planners (see [`Self::set_index_building`]).
    pub fn set_index_ready(&mut self, name: &str) -> (res: Result<(), IronBaseError>)
        requires
            old(self).wf(),
        ensures
            final(self).wf(),
            res is Ok <==> old(self).btrees().dom().contains(name@) || old(self).fuzzies().dom().contains(name@),
            res is Err ==> is_index_error(res, not_found_message(name@)) && *final(self) == *old(self),
            final(self).btree_names() == old(self).btree_names(),
            final(self).legacies() == old(self).legacies(),
            final(self).paths() == old(self).paths(),
            old(self).btrees().dom().contains(name@) ==> {
                let t = final(self).btrees()[name@];
                &&& final(self).btrees() == old(self).btrees().insert(name@, t)
                &&& t.meta() == (IndexMetadata { building: false, ..old(self).btrees()[name@].meta() })
                &&& t.entries() == old(self).btrees()[name@].entries()
                &&& t.wf() == old(self).btrees()[name@].wf()
                &&& final(self).fuzzies() == old(self).fuzzies()
                &&& old(self).trees_wf() ==> final(self).trees_wf()
            },
            !old(self).btrees().dom().contains(name@) && old(self).fuzzies().dom().contains(name@) ==> {
                &&& final(self).fuzzies() == old(self).fuzzies().insert(name@, final(self).fuzzies()[name@])
                &&& !final(self).fuzzies()[name@].meta().building
                &&& final(self).fuzzies()[name@].entries_view() == old(self).fuzzies()[name@].entries_view()
                &&& final(self).btrees() == old(self).btrees()
            },
    {
        self.set_index_building(name, false)
    }

    /// Create a fuzzy index, kept in memory only and marked as being built;
    /// `threshold` is the bits of a similarity in `[0.0, 1.0]`. A name in
    /// use by any index is refused.
    pub fn create_fuzzy_index(
        &mut self,
        name: String,
        field: String,
        algorithm: FuzzyAlgorithm,
        threshold: u64,
    ) -> (res: Result<(), IronBaseError>)
        requires
            old(self).wf(),
        ensures
            final(self).wf(),
            res is Ok <==> !old(self).has_name(name@),
            res is Err ==> is_index_error(res, exists_message(name@)) && *final(self) == *old(self),
            res is Ok ==> {
                let f = final(self).fuzzies()[name@];
                &&& final(self).fuzzies() == old(self).fuzzies().insert(name@, f)
                &&& final(self).fuzzy_names() == old(self).fuzzy_names().push(name@)
                &&& f.meta().name@ == name@
                &&& f.meta().field@ == field@
                &&& f.meta().algorithm == algorithm
                &&& f.meta().threshold == threshold
                &&& f.meta().num_entries == 0
                &&& f.meta().building
                &&& f.entries_view().len() == 0
                &&& !f.lazy()
                &&& f.path() is None
                &&& final(self).btrees() == old(self).btrees()
                &&& final(self).legacies() == old(self).legacies()
                &&& final(self).paths() == old(self).paths()
                &&& final(self).dirty_btrees() == old(self).dirty_btrees()
                &&& final(self).dirty_fuzzies() == old(self).dirty_fuzzies()
            },
    {
        self.create_fuzzy_index_with_storage(name, field, algorithm, threshold, None)
    }

    /// Create a fuzzy index marked as being built, stored at `storage_path`
    /// when one is given (which also becomes the index's file path). A name
    /// in use by any index is refused.
    pub fn create_fuzzy_index_with_storage(
        &mut self,
        name: String,
        field: String,
        algorithm: FuzzyAlgorithm,
        threshold: u64,
        storage_path: Option<String>,
    ) -> (res: Result<(), IronBaseError>)
        requires
            old(self).wf(),
        ensures
            final(self).wf(),
            res is Ok <==> !old(self).has_name(name@),
            res is Err ==> is_index_error(res, exists_message(name@)) && *final(self) == *old(self),
            res is Ok ==> {
                let f = final(self).fuzzies()[name@];
                &&& final(self).fuzzies() == old(self).fuzzies().insert(name@, f)
                &&& final(self).fuzzy_names() == old(self).fuzzy_names().push(name@)
                &&& f.meta().name@ == name@
                &&& f.meta().field@ == field@
                &&& f.meta().algorithm == algorithm
                &&& f.meta().threshold == threshold
                &&& f.meta().num_entries == 0
                &&& f.meta().building
                &&& f.entries_view().len() == 0
                &&& !f.lazy()
                &&& f.path() == (match storage_path {
                    Some(p) => Some(p@),
                    None => None::<Seq<char>>,
                })
                &&& final(self).paths() == (match storage_path {
                    Some(p) => old(self).paths().insert(name@, p),
                    None => old(self).paths(),
                })
                &&& final(self).btrees() == old(self).btrees()
                &&& final(self).legacies() == old(self).legacies()
                &&& final(self).dirty_btrees() == old(self).dirty_btrees()
                &&& final(self).dirty_fuzzies() == old(self).dirty_fuzzies()
            },
    {
        if self.index_exists(name.as_str()) {
            return Err(IronBaseError::IndexError(concat2("Index already exists: ", name.as_str())));
        }
        let mut index = match storage_path {
            Some(path) => {
                self.index_file_paths.insert(name.clone(), path.clone());
                FuzzyIndex::new_with_storage(name.as_str(), field.as_str(), algorithm, threshold, path)
            },
            None => FuzzyIndex::new(name.as_str(), field.as_str(), algorithm, threshold),
        };
        index.set_building(true);
        proof {
            self.lemma_tables();
        }
        self.fuzzy_indexes.insert(name, index);
        Ok(())
    }

    /// The fuzzy index of this name.
    pub fn get_fuzzy_index(&self, name: &str) -> (res: Option<&FuzzyIndex>)
        requires
            self.wf(),
        ensures
            match res {
                Some(f) => self.fuzzies().dom().contains(name@) && *f == self.fuzzies()[name@],
                None => !self.fuzzies().dom().contains(name@),
            },
    {
        self.fuzzy_indexes.get(name)
    }

    /// The fuzzy index of this name, to change; an index handed out is
    /// marked as changed since its last flush.
    pub fn get_fuzzy_index_mut(&mut self, name: &str) -> (res: Option<&mut FuzzyIndex>)
        requires
            old(self).wf(),
        ensures
            final(self).wf(),
            final(self).fuzzy_names() == old(self).fuzzy_names(),
            final(self).btrees() == old(self).btrees(),
            final(self).btree_names() == old(self).btree_names(),
            final(self).legacies() == old(self).legacies(),
            final(self).legacy_names() == old(self).legacy_names(),
            final(self).paths() == old(self).paths(),
            final(self).dirty_btrees() == old(self).dirty_btrees(),
            match res {
                Some(f) => {
                    &&& old(self).fuzzies().dom().contains(name@)
                    &&& *f == old(self).fuzzies()[name@]
                    &&& final(self).fuzzies() == old(self).fuzzies().insert(name@, *final(f))
                    &&& final(self).dirty_fuzzies() == old(self).dirty_fuzzies().insert(name@)
                },
                None => {
                    &&& !old(self).fuzzies().dom().contains(name@)
                    &&& final(self).fuzzies() == old(self).fuzzies()
                    &&& final(self).dirty_fuzzies() == old(self).dirty_fuzzies()
                },
            },
    {
        if self.fuzzy_indexes.find(name).is_some() {
            self.dirty_fuzzy_indexes.insert(name);
        }
        self.fuzzy_indexes.get_mut(name)
    }

    /// A fuzzy index on `field`, if there is one.
    pub fn get_fuzzy_index_for_field(&self, field: &str) -> (res: Option<&FuzzyIndex>)
        requires
            self.wf(),
        ensures
            match res {
                Some(f) => exists|n: Seq<char>|
                    #![trigger self.fuzzies()[n]]
                    self.fuzzies().dom().contains(n) && self.fuzzies()[n] == *f && f.meta().field@ == field@,
                None => forall|n: Seq<char>|
                    #![trigger self.fuzzies()[n]]
                    self.fuzzies().dom().contains(n) ==> self.fuzzies()[n].meta().field@ != field@,
            },
    {
        proof {
            self.fuzzy_indexes.lemma_table();
        }
        let n = self.fuzzy_indexes.len();
        let mut i: usize = 0;
        while i < n
            invariant
                self.wf(),
                n == self.fuzzy_names().len(),
                i <= n,
                forall|j: int|
                    0 <= j < i ==> (#[trigger] self.fuzzies()[self.fuzzy_names()[j]]).meta().field@ != field@,
            decreases n - i,
        {
            proof {
                self.fuzzy_indexes.lemma_table();
            }
            let f = self.fuzzy_indexes.at(i);
            if crate::text::str_eq(f.metadata_ref().field.as_str(), field) {
                proof {
                    assert(self.fuzzy_names().contains(self.fuzzy_names()[i as int]));
                    assert(self.fuzzies()[self.fuzzy_names()[i as int]] == *f);
                }
                return Some(f);
            }
            i = i + 1;
        }
        proof {
            self.fuzzy_indexes.lemma_table();
            assert forall|k: Seq<char>| #[trigger] self.fuzzies().dom().contains(k) implies self.fuzzies()[k].meta().field@
                != field@ by {
                let j = choose|j: int| 0 <= j < self.fuzzy_names().len() && self.fuzzy_names()[j] == k;
                assert(self.fuzzies()[self.fuzzy_names()[j]].meta().field@ != field@);
            }
        }
        None
    }

    /// All fuzzy indexes, in the order of [`Self::fuzzy_names`].
    pub fn list_fuzzy_indexes(&self) -> (res: Vec<&FuzzyIndex>)
        requires
            self.wf(),
        ensures
            res@.len() == self.fuzzy_names().len(),
            forall|i: int| 0 <= i < res@.len() ==> *res@[i] == self.fuzzies()[#[trigger] self.fuzzy_names()[i]],
    {
        proof {
            self.fuzzy_indexes.lemma_table();
        }
        let n = self.fuzzy_indexes.len();
        let mut out: Vec<&FuzzyIndex> = Vec::new();
        let mut i: usize = 0;
        while i < n
            invariant
                self.wf(),
                n == self.fuzzy_names().len(),
                i <= n,
                out@.len() == i,
                forall|j: int| 0 <= j < i ==> *out@[j] == self.fuzzies()[#[trigger] self.fuzzy_names()[j]],
            decreases n - i,
        {
            proof {
                self.fuzzy_indexes.lemma_table();
            }
            out.push(self.fuzzy_indexes.at(i));
            i = i + 1;
        }
        out
    }

    /// Add a fuzzy index read back from its file under its own name,
    /// replacing any fuzzy index of that name.
    pub fn add_loaded_fuzzy_index(&mut self, index: FuzzyIndex)
        requires
            old(self).wf(),
        ensures
            final(self).wf(),
            final(self).fuzzies() == old(self).fuzzies().insert(index.meta().name@, index),
            final(self).btrees() == old(self).btrees(),
            final(self).legacies() == old(self).legacies(),
            final(self).paths() == old(self).paths(),
            final(self).dirty_btrees() == old(self).dirty_btrees(),
            final(self).dirty_fuzzies() == old(self).dirty_fuzzies(),
    {
        let name = index.metadata_ref().name.clone();
        self.fuzzy_indexes.insert(name, index);
    }

    /// Whether some B+ tree index is unique.
    pub fn has_unique_index(&self) -> (r: bool)
        requires
            self.wf(),
        ensures
            r == exists|n: Seq<char>|
                #![trigger self.btrees()[n]]
                self.btrees().dom().contains(n) && self.btrees()[n].meta().unique,
    {
        proof {
            self.btree_indexes.lemma_table();
        }
        let n = self.btree_indexes.len();
        let mut i: usize = 0;
        while i < n
            invariant
                self.wf(),
                n == self.btree_names().len(),
                i <= n,
                forall|j: int| 0 <= j < i ==> !(#[trigger] self.btrees()[self.btree_names()[j]]).meta().unique,
            decreases n - i,
        {
            proof {
                self.btree_indexes.lemma_table();
            }
            if self.btree_indexes.at(i).metadata_ref().unique {
                proof {
                    assert(self.btree_names().contains(self.btree_names()[i as int]));
                    assert(self.btrees()[self.btree_names()[i as int]].meta().unique);
                }
                return true;
            }
            i = i + 1;
        }
        proof {
            self.btree_indexes.lemma_table();
            assert forall|k: Seq<char>| #[trigger] self.btrees().dom().contains(k) implies !self.btrees()[k].meta().unique by {
                let j = choose|j: int| 0 <= j < self.btree_names().len() && self.btree_names()[j] == k;
                assert(!self.btrees()[self.btree_names()[j]].meta().unique);
            }
        }
        false
    }

    /// Number of B+ tree and fuzzy indexes.
    pub fn total_index_count(&self) -> (n: usize)
        requires
            self.wf(),
            self.btree_names().len() + self.fuzzy_names().len() <= usize::MAX,
        ensures
            n == self.btree_names().len() + self.fuzzy_names().len(),
    {
        self.btree_indexes.len() + self.fuzzy_indexes.len()
    }

    /// Names of the B+ tree indexes changed since their last flush.
    pub fn dirty_btree_index_names(&self) -> (res: Vec<String>)
        requires
            self.wf(),
        ensures
            names_of(res@).to_set() == self.dirty_btrees(),
            names_of(res@).no_duplicates(),
    {
        let res = self.dirty_btree_indexes.names();
        proof {
            self.dirty_btree_indexes.lemma_elems();
            assert(names_of(res@) =~= self.dirty_btree_indexes.elems());
        }
        res
    }

    /// Names of the fuzzy indexes changed since their last flush.
    pub fn dirty_fuzzy_index_names(&self) -> (res: Vec<String>)
        requires
            self.wf(),
        ensures
            names_of(res@).to_set() == self.dirty_fuzzies(),
            names_of(res@).no_duplicates(),
    {
        let res = self.dirty_fuzzy_indexes.names();
        proof {
            self.dirty_fuzzy_indexes.lemma_elems();
            assert(names_of(res@) =~= self.dirty_fuzzy_indexes.elems());
        }
        res
    }

    /// Refresh the statistics of every B+ tree index.
    pub fn refresh_all_stats(&mut self)
        requires
            old(self).wf(),
            old(self).trees_wf(),
        ensures
            final(self).wf(),
            final(self).trees_wf(),
            final(self).btrees().dom() == old(self).btrees().dom(),
            forall|n: Seq<char>| #[trigger]
                old(self).btrees().dom().contains(n) ==> stats_refreshed(final(self).btrees()[n], old(self).btrees()[n]),
            final(self).btree_names() == old(self).btree_names(),
            final(self).legacies() == old(self).legacies(),
            final(self).fuzzies() == old(self).fuzzies(),
            final(self).paths() == old(self).paths(),
            final(self).dirty_btrees() == old(self).dirty_btrees(),
            final(self).dirty_fuzzies() == old(self).dirty_fuzzies(),
    {
        proof {
            self.btree_indexes.lemma_table();
        }
        let ghost o = self.btrees();
        let ghost names = self.btree_names();
        let n = self.btree_indexes.len();
        let mut i: usize = 0;
        while i < n
            invariant
                self.wf(),
                names == self.btree_names(),
                n == names.len(),
                i <= n,
                o.dom() == self.btrees().dom(),
                forall|k: Seq<char>| #[trigger] o.dom().contains(k) <==> names.contains(k),
                forall|j: int|
                    0 <= j < n ==> (j < i ==> stats_refreshed(self.btrees()[#[trigger] names[j]], o[names[j]])) && (
                    j >= i ==> self.btrees()[names[j]] == o[names[j]]),
                forall|k: Seq<char>| #[trigger] o.dom().contains(k) ==> o[k].wf(),
                self.legacies() == old(self).legacies(),
                self.fuzzies() == old(self).fuzzies(),
                self.paths() == old(self).paths(),
                self.dirty_btrees() == old(self).dirty_btrees(),
                self.dirty_fuzzies() == old(self).dirty_fuzzies(),
                self.legacy_names() == old(self).legacy_names(),
                self.fuzzy_names() == old(self).fuzzy_names(),
            decreases n - i,
        {
            proof {
                self.btree_indexes.lemma_table();
                assert(names.contains(names[i as int]));
                assert(o.dom().contains(names[i as int]));
                assert(self.btrees()[names[i as int]] == o[names[i as int]]);
                assert(o[names[i as int]].wf());
            }
            let t = self.btree_indexes.at_mut(i);
            t.refresh_stats();
            proof {
                self.btree_indexes.lemma_table();
                assert forall|j: int| 0 <= j < n && j != i implies names[j] != names[i as int] by {}
            }
            i = i + 1;
        }
        proof {
            self.btree_indexes.lemma_table();
            assert forall|k: Seq<char>| #[trigger] o.dom().contains(k) implies stats_refreshed(self.btrees()[k], o[k]) by {
                let j = choose|j: int| 0 <= j < names.len() && names[j] == k;
                assert(stats_refreshed(self.btrees()[names[j]], o[names[j]]));
            }
            assert forall|k: Seq<char>| #[trigger] self.btrees().dom().contains(k) implies self.btrees()[k].wf() by {
                assert(stats_refreshed(self.btrees()[k], o[k]));
            }
        }
    }

    /// Refresh the statistics of one B+ tree index; an unknown name is an `IndexError`.
    pub fn refresh_index_stats(&mut self, index_name: &str) -> (res: Result<(), IronBaseError>)
        requires
            old(self).wf(),
            old(self).trees_wf(),
        ensures
            final(self).wf(),
            final(self).trees_wf(),
            res is Ok <==> old(self).btrees().dom().contains(index_name@),
            res is Err ==> is_index_error(res, not_found_message(index_name@)) && *final(self) == *old(self),
            res is Ok ==> {
                &&& final(self).btrees() == old(self).btrees().insert(index_name@, final(self).btrees()[index_name@])
                &&& stats_refreshed(final(self).btrees()[index_name@], old(self).btrees()[index_name@])
            },
            final(self).btree_names() == old(self).btree_names(),
            final(self).legacies() == old(self).legacies(),
            final(self).fuzzies() == old(self).fuzzies(),
            final(self).paths() == old(self).paths(),
            final(self).dirty_btrees() == old(self).dirty_btrees(),
            final(self).dirty_fuzzies() == old(self).dirty_fuzzies(),
    {
        match self.btree_indexes.get_mut(index_name) {
            Some(t) => {
                assert(old(self).btrees()[index_name@].wf());
                t.refresh_stats();
                proof {
                    assert forall|k: Seq<char>| #[trigger] self.btrees().dom().contains(k) implies self.btrees()[k].wf() by {
                        if k != index_name@ {
                            assert(old(self).btrees().dom().contains(k));
                        }
                    }
                }
                Ok(())
            },
            None => Err(IronBaseError::IndexError(concat2("Index not found: ", index_name))),
        }
    }

    /// Refresh the statistics of the B+ tree indexes whose statistics are
    /// stale (see [`crate::index::btree::StatisticsCounters::stale`]); how
    /// many were refreshed.
    pub fn check_and_refresh_stale_stats(&mut self) -> (count: usize)
        requires
            old(self).wf(),
            old(self).trees_wf(),
            forall|n: Seq<char>| #[trigger]
                old(self).btrees().dom().contains(n) ==> old(self).btrees()[n].counters_spec().writes_since_refresh
                    + old(self).btrees()[n].counters_spec().deletes_since_refresh <= u64::MAX,
        ensures
            final(self).wf(),
            final(self).trees_wf(),
            count == stale_names(old(self).btree_names(), old(self).btrees()).len(),
            final(self).btrees().dom() == old(self).btrees().dom(),
            forall|n: Seq<char>| #[trigger]
                old(self).btrees().dom().contains(n) ==> stale_checked(final(self).btrees()[n], old(self).btrees()[n]),
            final(self).btree_names() == old(self).btree_names(),
            final(self).legacies() == old(self).legacies(),
            final(self).fuzzies() == old(self).fuzzies(),
            final(self).paths() == old(self).paths(),
            final(self).dirty_btrees() == old(self).dirty_btrees(),
            final(self).dirty_fuzzies() == old(self).dirty_fuzzies(),
    {
        proof {
            self.btree_indexes.lemma_table();
        }
        let ghost o = self.btrees();
        let ghost names = self.btree_names();
        let n = self.btree_indexes.len();
        let mut count: usize = 0;
        let mut i: usize = 0;
        while i < n
            invariant
                self.wf(),
                names == self.btree_names(),
                n == names.len(),
                i <= n,
                count == stale_names(names.subrange(0, i as int), o).len(),
                count <= i,
                o.dom() == self.btrees().dom(),
                forall|k: Seq<char>| #[trigger] o.dom().contains(k) <==> names.contains(k),
                forall|j: int|
                    0 <= j < n ==> (j < i ==> stale_checked(self.btrees()[#[trigger] names[j]], o[names[j]])) && (j
                        >= i ==> self.btrees()[names[j]] == o[names[j]]),
                forall|k: Seq<char>| #[trigger] o.dom().contains(k) ==> o[k].wf(),
                forall|k: Seq<char>| #[trigger]
                    o.dom().contains(k) ==> o[k].counters_spec().writes_since_refresh
                        + o[k].counters_spec().deletes_since_refresh <= u64::MAX,
                self.legacies() == old(self).legacies(),
                self.fuzzies() == old(self).fuzzies(),
                self.paths() == old(self).paths(),
                self.dirty_btrees() == old(self).dirty_btrees(),
                self.dirty_fuzzies() == old(self).dirty_fuzzies(),
                self.legacy_names() == old(self).legacy_names(),
                self.fuzzy_names() == old(self).fuzzy_names(),
            decreases n - i,
        {
            proof {
                self.btree_indexes.lemma_table();
                assert(names.contains(names[i as int]));
                assert(names.subrange(0, i + 1).drop_last() =~= names.subrange(0, i as int));
                assert(names.subrange(0, i + 1).last() == names[i as int]);
                assert(o.dom().contains(names[i as int]));
                assert(self.btrees()[names[i as int]] == o[names[i as int]]);
                assert(o[names[i as int]].wf());
            }
            let t = self.btree_indexes.at_mut(i);
            if t.needs_stats_refresh() {
                t.refresh_stats();
                count = count + 1;
            }
            proof {
                self.btree_indexes.lemma_table();
                assert forall|j: int| 0 <= j < n && j != i implies names[j] != names[i as int] by {}
            }
            i = i + 1;
        }
        proof {
            self.btree_indexes.lemma_table();
            assert(names.subrange(0, n as int) =~= names);
            assert forall|k: Seq<char>| #[trigger] o.dom().contains(k) implies stale_checked(self.btrees()[k], o[k]) by {
                let j = choose|j: int| 0 <= j < names.len() && names[j] == k;
                assert(stale_checked(self.btrees()[names[j]], o[names[j]]));
            }
            assert forall|k: Seq<char>| #[trigger] self.btrees().dom().contains(k) implies self.btrees()[k].wf() by {
                assert(stale_checked(self.btrees()[k], o[k]));
            }
        }
        count
    }

    /// Add a document to every index but `exclude_index`. Each B+ tree index
    /// stores, once each, the keys it derives from the document, leaving out
    /// all-null keys unless it is unique and not sparse; a sparse compound
    /// index leaves out a document missing one of its fields, and a compound
    /// index refuses one with arrays on two of its fields. A unique index
    /// refuses a key it holds. Each fuzzy index takes the string at its
    /// field. The indexes that changed are marked.
    pub fn add_document_to_indexes(&mut self, doc: &DocumentFields, doc_id: &DocumentId, exclude_index: Option<&str>) -> (res:
        Result<(), IronBaseError>)
        requires
            old(self).wf(),
            old(self).trees_wf(),
            forall|n: Seq<char>| #[trigger]
                old(self).btrees().dom().contains(n) ==> room_for_doc(old(self).btrees()[n], *doc),
            forall|n: Seq<char>| #[trigger]
                old(self).fuzzies().dom().contains(n) ==> old(self).fuzzies()[n].entries_view().len() < usize::MAX,
        ensures
            final(self).wf(),
            final(self).trees_wf(),
            (forall|n: Seq<char>| #[trigger]
                old(self).btrees().dom().contains(n) && !excluded(exclude_index, n) ==> !doc_conflict(
                    old(self).btrees()[n],
                    *doc,
                )) <==> res is Ok,
            res is Err ==> {
                &&& res->Err_0 is IndexError
                &&& exists|n: Seq<char>| #[trigger]
                    old(self).btrees().dom().contains(n) && !excluded(exclude_index, n) && doc_conflict(
                        old(self).btrees()[n],
                        *doc,
                    ) && (multi_array_error(old(self).btrees()[n].meta(), *doc) ==> {
                        &&& res->Err_0->IndexError_0@ == array_error_message(old(self).btrees()[n].meta())
                        &&& final(self).btrees()[n].entries() == old(self).btrees()[n].entries()
                        &&& final(self).btrees()[n].meta().num_keys == old(self).btrees()[n].meta().num_keys
                    })
            },
            final(self).btrees().dom() == old(self).btrees().dom(),
            final(self).btree_names() == old(self).btree_names(),
            final(self).fuzzy_names() == old(self).fuzzy_names(),
            final(self).legacies() == old(self).legacies(),
            final(self).legacy_names() == old(self).legacy_names(),
            final(self).paths() == old(self).paths(),
            res is Ok ==> {
                &&& final(self).btrees().dom() == old(self).btrees().dom()
                &&& forall|n: Seq<char>| #[trigger]
                    old(self).btrees().dom().contains(n) ==> if excluded(exclude_index, n) {
                        final(self).btrees()[n] == old(self).btrees()[n]
                    } else {
                        doc_added(final(self).btrees()[n], old(self).btrees()[n], *doc, doc_id@)
                    }
                &&& final(self).dirty_btrees() == old(self).dirty_btrees().union(
                    Set::new(
                        |n: Seq<char>|
                            old(self).btrees().dom().contains(n) && !excluded(exclude_index, n) && btree_marked(
                                old(self).btrees()[n],
                                *doc,
                            ),
                    ),
                )
                &&& final(self).fuzzies().dom() == old(self).fuzzies().dom()
                &&& forall|n: Seq<char>| #[trigger]
                    old(self).fuzzies().dom().contains(n) ==> if excluded(exclude_index, n) {
                        final(self).fuzzies()[n] == old(self).fuzzies()[n]
                    } else {
                        fuzzy_doc_added(final(self).fuzzies()[n], old(self).fuzzies()[n], *doc, doc_id@)
                    }
                &&& final(self).dirty_fuzzies() == old(self).dirty_fuzzies().union(
                    Set::new(
                        |n: Seq<char>|
                            old(self).fuzzies().dom().contains(n) && !excluded(exclude_index, n) && fuzzy_value(
                                *doc,
                                old(self).fuzzies()[n].meta().field@,
                            ) is Some,
                    ),
                )
            },
    {
        proof {
            self.btree_indexes.lemma_table();
            self.fuzzy_indexes.lemma_table();
        }
        let ghost o = self.btrees();
        let ghost names = self.btree_names();
        let ghost od = self.dirty_btrees();
        let n = self.btree_indexes.len();
        let mut i: usize = 0;
        while i < n
            invariant
                self.wf(),
                names == self.btree_names(),
                names == old(self).btree_names(),
                n == names.len(),
                i <= n,
                o == old(self).btrees(),
                od == old(self).dirty_btrees(),
                o.dom() == self.btrees().dom(),
                forall|k: Seq<char>| #[trigger] o.dom().contains(k) <==> names.contains(k),
                forall|k: Seq<char>| #[trigger] o.dom().contains(k) ==> o[k].wf() && room_for_doc(o[k], *doc),
                forall|j: int|
                    0 <= j < n ==> (j < i ==> if excluded(exclude_index, #[trigger] names[j]) {
                        self.btrees()[names[j]] == o[names[j]]
                    } else {
                        doc_added(self.btrees()[names[j]], o[names[j]], *doc, doc_id@)
                    }) && (j >= i ==> self.btrees()[names[j]] == o[names[j]]),
                forall|k: Seq<char>| #[trigger]
                    self.dirty_btrees().contains(k) <==> od.contains(k) || exists|j: int|
                        0 <= j < i && names[j] == k && !excluded(exclude_index, k) && btree_marked(o[k], *doc),
                forall|j: int| 0 <= j < i && !excluded(exclude_index, #[trigger] names[j]) ==> !doc_conflict(o[names[j]], *doc),
                self.fuzzies() == old(self).fuzzies(),
                self.fuzzy_names() == old(self).fuzzy_names(),
                self.dirty_fuzzies() == old(self).dirty_fuzzies(),
                self.legacies() == old(self).legacies(),
                self.legacy_names() == old(self).legacy_names(),
                self.paths() == old(self).paths(),
            decreases n - i,
        {
            proof {
                self.btree_indexes.lemma_table();
                assert(names.contains(names[i as int]));
                assert(o.dom().contains(names[i as int]));
                assert(self.btrees()[names[i as int]] == o[names[i as int]]);
            }
            let name = self.btree_indexes.name_at(i).clone();
            let skip = match exclude_index {
                Some(e) => crate::text::str_eq(name.as_str(), e),
                None => false,
            };
            if !skip {
                let ghost before_dirty = self.dirty_btrees();
                let t = self.btree_indexes.at_mut(i);
                let r = add_doc_to_tree(t, doc, doc_id);
                proof {
                    self.btree_indexes.lemma_table();
                }
                match r {
                    Err(e) => {
                        proof {
                            assert(o.dom().contains(names[i as int]) && !excluded(exclude_index, names[i as int]));
                            assert(self.btrees()[names[i as int]] == *t);
                            assert forall|k: Seq<char>| #[trigger] self.btrees().dom().contains(k) implies self.btrees()[k].wf() by {
                                let j = choose|j: int| 0 <= j < names.len() && names[j] == k;
                                if j != i {
                                    assert(names[j] != names[i as int]);
                                }
                            }
                        }
                        return Err(e);
                    },
                    Ok(stored) => {
                        if stored {
                            self.dirty_btree_indexes.insert(name.as_str());
                        }
                        proof {
                            assert forall|j: int| 0 <= j < n && j != i implies names[j] != names[i as int] by {}
                            assert forall|k: Seq<char>| #[trigger]
                                self.dirty_btrees().contains(k) <==> od.contains(k) || exists|j: int|
                                    0 <= j < i + 1 && names[j] == k && !excluded(exclude_index, k) && btree_marked(o[k], *doc) by {
                                if exists|j: int| 0 <= j < i && names[j] == k && !excluded(exclude_index, k) && btree_marked(o[k], *doc) {
                                    let j = choose|j: int| 0 <= j < i && names[j] == k && !excluded(exclude_index, k) && btree_marked(o[k], *doc);
                                    assert(0 <= j < i + 1);
                                }
                            }
                        }
                    },
                }
            } else {
                proof {
                    assert forall|k: Seq<char>| #[trigger]
                        self.dirty_btrees().contains(k) <==> od.contains(k) || exists|j: int|
                            0 <= j < i + 1 && names[j] == k && !excluded(exclude_index, k) && btree_marked(o[k], *doc) by {
                        if exists|j: int| 0 <= j < i + 1 && names[j] == k && !excluded(exclude_index, k) && btree_marked(o[k], *doc) {
                            let j = choose|j: int| 0 <= j < i + 1 && names[j] == k && !excluded(exclude_index, k) && btree_marked(o[k], *doc);
                            if j == i {
                                assert(excluded(exclude_index, names[i as int]));
                            }
                            assert(0 <= j < i);
                        }
                    }
                }
            }
            i = i + 1;
        }
        proof {
            self.btree_indexes.lemma_table();
            assert forall|k: Seq<char>| #[trigger] o.dom().contains(k) implies if excluded(exclude_index, k) {
                self.btrees()[k] == o[k]
            } else {
                doc_added(self.btrees()[k], o[k], *doc, doc_id@)
            } by {
                let j = choose|j: int| 0 <= j < names.len() && names[j] == k;
                assert(names[j] == k);
            }
            assert forall|k: Seq<char>| #[trigger] self.btrees().dom().contains(k) implies self.btrees()[k].wf() by {
                assert(o.dom().contains(k));
                if excluded(exclude_index, k) {
                    assert(self.btrees()[k] == o[k]);
                } else {
                    assert(doc_added(self.btrees()[k], o[k], *doc, doc_id@));
                }
            }
            assert(self.dirty_btrees() =~= od.union(
                Set::new(|k: Seq<char>| o.dom().contains(k) && !excluded(exclude_index, k) && btree_marked(o[k], *doc)),
            )) by {
                assert forall|k: Seq<char>| o.dom().contains(k) && !excluded(exclude_index, k) && btree_marked(o[k], *doc)
                    implies #[trigger] self.dirty_btrees().contains(k) by {
                    let j = choose|j: int| 0 <= j < names.len() && names[j] == k;
                    assert(names[j] == k);
                }
            }
        }
        self.add_document_to_fuzzy_indexes(doc, doc_id, exclude_index);
        Ok(())
    }

    /// The fuzzy part of [`Self::add_document_to_indexes`].
    fn add_document_to_fuzzy_indexes(&mut self, doc: &DocumentFields, doc_id: &DocumentId, exclude_index: Option<&str>)
        requires
            old(self).wf(),
            forall|n: Seq<char>| #[trigger]
                old(self).fuzzies().dom().contains(n) ==> old(self).fuzzies()[n].entries_view().len() < usize::MAX,
        ensures
            final(self).wf(),
            final(self).btrees() == old(self).btrees(),
            final(self).btree_names() == old(self).btree_names(),
            final(self).dirty_btrees() == old(self).dirty_btrees(),
            final(self).fuzzy_names() == old(self).fuzzy_names(),
            final(self).legacies() == old(self).legacies(),
            final(self).legacy_names() == old(self).legacy_names(),
            final(self).paths() == old(self).paths(),
            final(self).fuzzies().dom() == old(self).fuzzies().dom(),
            forall|n: Seq<char>| #[trigger]
                old(self).fuzzies().dom().contains(n) ==> if excluded(exclude_index, n) {
                    final(self).fuzzies()[n] == old(self).fuzzies()[n]
                } else {
                    fuzzy_doc_added(final(self).fuzzies()[n], old(self).fuzzies()[n], *doc, doc_id@)
                },
            final(self).dirty_fuzzies() == old(self).dirty_fuzzies().union(
                Set::new(
                    |n: Seq<char>|
                        old(self).fuzzies().dom().contains(n) && !excluded(exclude_index, n) && fuzzy_value(
                            *doc,
                            old(self).fuzzies()[n].meta().field@,
                        ) is Some,
                ),
            ),
    {
        proof {
            self.fuzzy_indexes.lemma_table();
        }
        let ghost o = self.fuzzies();
        let ghost names = self.fuzzy_names();
        let ghost od = self.dirty_fuzzies();
        let n = self.fuzzy_indexes.len();
        let mut i: usize = 0;
        while i < n
            invariant
                self.wf(),
                names == self.fuzzy_names(),
                names == old(self).fuzzy_names(),
                n == names.len(),
                i <= n,
                o == old(self).fuzzies(),
                od == old(self).dirty_fuzzies(),
                o.dom() == self.fuzzies().dom(),
                forall|k: Seq<char>| #[trigger] o.dom().contains(k) <==> names.contains(k),
                forall|k: Seq<char>| #[trigger] o.dom().contains(k) ==> o[k].entries_view().len() < usize::MAX,
                forall|j: int|
                    0 <= j < n ==> (j < i ==> if excluded(exclude_index, #[trigger] names[j]) {
                        self.fuzzies()[names[j]] == o[names[j]]
                    } else {
                        fuzzy_doc_added(self.fuzzies()[names[j]], o[names[j]], *doc, doc_id@)
                    }) && (j >= i ==> self.fuzzies()[names[j]] == o[names[j]]),
                forall|k: Seq<char>| #[trigger]
                    self.dirty_fuzzies().contains(k) <==> od.contains(k) || exists|j: int|
                        0 <= j < i && names[j] == k && !excluded(exclude_index, k) && fuzzy_value(*doc, o[k].meta().field@) is Some,
                self.btrees() == old(self).btrees(),
                self.btree_names() == old(self).btree_names(),
                self.dirty_btrees() == old(self).dirty_btrees(),
                self.legacies() == old(self).legacies(),
                self.legacy_names() == old(self).legacy_names(),
                self.paths() == old(self).paths(),
            decreases n - i,
        {
            proof {
                self.fuzzy_indexes.lemma_table();
                assert(names.contains(names[i as int]));
                assert(o.dom().contains(names[i as int]));
                assert(self.fuzzies()[names[i as int]] == o[names[i as int]]);
                assert forall|j: int| 0 <= j < n && j != i implies names[j] != names[i as int] by {}
            }
            let ghost d0 = self.dirty_fuzzies();
            let name = self.fuzzy_indexes.name_at(i).clone();
            let skip = match exclude_index {
                Some(e) => crate::text::str_eq(name.as_str(), e),
                None => false,
            };
            let ghost f0 = o[names[i as int]];
            let mut added = false;
            if !skip {
                let field = self.fuzzy_indexes.at(i).metadata_ref().field.clone();
                match doc.lookup(field.as_str()) {
                    Some(fv) => match &fv.value {
                        Some(JsonValue::String(s)) => {
                            let f = self.fuzzy_indexes.at_mut(i);
                            f.insert(s.as_str(), doc_id.copy_id());
                            added = true;
                        },
                        _ => {},
                    },
                    None => {},
                }
            }
            proof {
                self.fuzzy_indexes.lemma_table();
                assert(added == (!excluded(exclude_index, names[i as int]) && fuzzy_value(*doc, f0.meta().field@) is Some));
            }
            let ghost prev = self.dirty_fuzzies();
            if added {
                self.dirty_fuzzy_indexes.insert(name.as_str());
            }
            proof {
                let ki = names[i as int];
                assert(added ==> self.dirty_fuzzies() == prev.insert(ki));
                assert(!added ==> self.dirty_fuzzies() == prev);
                assert forall|k: Seq<char>| #[trigger]
                    self.dirty_fuzzies().contains(k) <==> od.contains(k) || exists|j: int|
                        0 <= j < i + 1 && names[j] == k && !excluded(exclude_index, k) && fuzzy_value(*doc, o[k].meta().field@) is Some by {
                    let old_side = exists|j: int|
                        0 <= j < i && names[j] == k && !excluded(exclude_index, k) && fuzzy_value(*doc, o[k].meta().field@) is Some;
                    let new_side = exists|j: int|
                        0 <= j < i + 1 && names[j] == k && !excluded(exclude_index, k) && fuzzy_value(*doc, o[k].meta().field@) is Some;
                    assert(d0.contains(k) <==> od.contains(k) || old_side);
                    assert(prev == d0);
                    if old_side {
                        let j = choose|j: int|
                            0 <= j < i && names[j] == k && !excluded(exclude_index, k) && fuzzy_value(*doc, o[k].meta().field@) is Some;
                        assert(0 <= j < i + 1);
                        assert(new_side);
                    }
                    if new_side {
                        let j = choose|j: int|
                            0 <= j < i + 1 && names[j] == k && !excluded(exclude_index, k) && fuzzy_value(*doc, o[k].meta().field@) is Some;
                        if j < i {
                            assert(old_side);
                        } else {
                            assert(k == ki);
                            assert(added);
                        }
                    }
                    if k == ki && added {
                        assert(names[i as int] == k);
                        assert(new_side);
                    }
                    if k != ki {
                        assert(self.dirty_fuzzies().contains(k) == prev.contains(k));
                    }
                }
            }
            i = i + 1;
        }
        proof {
            self.fuzzy_indexes.lemma_table();
            assert forall|k: Seq<char>| #[trigger] o.dom().contains(k) implies if excluded(exclude_index, k) {
                self.fuzzies()[k] == o[k]
            } else {
                fuzzy_doc_added(self.fuzzies()[k], o[k], *doc, doc_id@)
            } by {
                let j = choose|j: int| 0 <= j < names.len() && names[j] == k;
                assert(names[j] == k);
            }
            assert(self.dirty_fuzzies() =~= od.union(
                Set::new(|k: Seq<char>| o.dom().contains(k) && !excluded(exclude_index, k) && fuzzy_value(*doc, o[k].meta().field@) is Some),
            )) by {
                assert forall|k: Seq<char>| o.dom().contains(k) && !excluded(exclude_index, k) && fuzzy_value(*doc, o[k].meta().field@) is Some
                    implies #[trigger] self.dirty_fuzzies().contains(k) by {
                    let j = choose|j: int| 0 <= j < names.len() && names[j] == k;
                    assert(names[j] == k);
                }
            }
        }
    }

    /// Remove a document from every index but `exclude_index`: each B+ tree
    /// index deletes `(key, doc_id)` for each key it stores for the document
    /// (a sparse compound index that left the document out is skipped), each
    /// fuzzy index drops the document's entries. The indexes touched are marked.
    pub fn remove_document_from_indexes(&mut self, doc: &DocumentFields, doc_id: &DocumentId, exclude_index: Option<
        &str,
    >) -> (res: Result<(), IronBaseError>)
        requires
            old(self).wf(),
            old(self).trees_wf(),
            forall|n: Seq<char>| #[trigger]
                old(self).btrees().dom().contains(n) ==> room_for_removal(old(self).btrees()[n], *doc),
        ensures
            res is Ok,
            final(self).wf(),
            final(self).trees_wf(),
            final(self).btree_names() == old(self).btree_names(),
            final(self).fuzzy_names() == old(self).fuzzy_names(),
            final(self).legacies() == old(self).legacies(),
            final(self).legacy_names() == old(self).legacy_names(),
            final(self).paths() == old(self).paths(),
            final(self).btrees().dom() == old(self).btrees().dom(),
            forall|n: Seq<char>| #[trigger]
                old(self).btrees().dom().contains(n) ==> if excluded(exclude_index, n) {
                    final(self).btrees()[n] == old(self).btrees()[n]
                } else {
                    doc_removed(final(self).btrees()[n], old(self).btrees()[n], *doc, doc_id@)
                },
            final(self).dirty_btrees() == old(self).dirty_btrees().union(
                Set::new(
                    |n: Seq<char>|
                        old(self).btrees().dom().contains(n) && !excluded(exclude_index, n) && btree_marked(
                            old(self).btrees()[n],
                            *doc,
                        ),
                ),
            ),
            final(self).fuzzies().dom() == old(self).fuzzies().dom(),
            forall|n: Seq<char>| #[trigger]
                old(self).fuzzies().dom().contains(n) ==> if excluded(exclude_index, n) {
                    final(self).fuzzies()[n] == old(self).fuzzies()[n]
                } else {
                    let f = final(self).fuzzies()[n];
                    let o = old(self).fuzzies()[n];
                    &&& f.entries_view() == o.entries_view().filter(|e: crate::index::fuzzy::FuzzyEntry| e.2 != doc_id@)
                    &&& f.meta() == (FuzzyIndexMetadata { num_entries: f.meta().num_entries, ..o.meta() })
                    &&& f.lazy() == o.lazy()
                    &&& f.path() == o.path()
                },
            final(self).dirty_fuzzies() == old(self).dirty_fuzzies().union(
                Set::new(|n: Seq<char>| old(self).fuzzies().dom().contains(n) && !excluded(exclude_index, n)),
            ),
    {
        proof {
            self.btree_indexes.lemma_table();
            self.fuzzy_indexes.lemma_table();
        }
        let ghost o = self.btrees();
        let ghost names = self.btree_names();
        let ghost od = self.dirty_btrees();
        let n = self.btree_indexes.len();
        let mut i: usize = 0;
        while i < n
            invariant
                self.wf(),
                names == self.btree_names(),
                names == old(self).btree_names(),
                n == names.len(),
                i <= n,
                o == old(self).btrees(),
                od == old(self).dirty_btrees(),
                o.dom() == self.btrees().dom(),
                forall|k: Seq<char>| #[trigger] o.dom().contains(k) <==> names.contains(k),
                forall|k: Seq<char>| #[trigger] o.dom().contains(k) ==> o[k].wf() && room_for_removal(o[k], *doc),
                forall|j: int|
                    0 <= j < n ==> (j < i ==> if excluded(exclude_index, #[trigger] names[j]) {
                        self.btrees()[names[j]] == o[names[j]]
                    } else {
                        doc_removed(self.btrees()[names[j]], o[names[j]], *doc, doc_id@)
                    }) && (j >= i ==> self.btrees()[names[j]] == o[names[j]]),
                forall|k: Seq<char>| #[trigger]
                    self.dirty_btrees().contains(k) <==> od.contains(k) || exists|j: int|
                        0 <= j < i && names[j] == k && !excluded(exclude_index, k) && btree_marked(o[k], *doc),
                self.fuzzies() == old(self).fuzzies(),
                self.fuzzy_names() == old(self).fuzzy_names(),
                self.dirty_fuzzies() == old(self).dirty_fuzzies(),
                self.legacies() == old(self).legacies(),
                self.legacy_names() == old(self).legacy_names(),
                self.paths() == old(self).paths(),
            decreases n - i,
        {
            proof {
                self.btree_indexes.lemma_table();
                assert(names.contains(names[i as int]));
                assert(o.dom().contains(names[i as int]));
                assert(self.btrees()[names[i as int]] == o[names[i as int]]);
                assert forall|j: int| 0 <= j < n && j != i implies names[j] != names[i as int] by {}
            }
            let ghost d0 = self.dirty_btrees();
            let name = self.btree_indexes.name_at(i).clone();
            let skip = match exclude_index {
                Some(e) => crate::text::str_eq(name.as_str(), e),
                None => false,
            };
            let mut marked = false;
            if !skip {
                let t = self.btree_indexes.at_mut(i);
                marked = remove_doc_from_tree(t, doc, doc_id);
            }
            proof {
                self.btree_indexes.lemma_table();
            }
            let ghost prev = self.dirty_btrees();
            if marked {
                self.dirty_btree_indexes.insert(name.as_str());
            }
            proof {
                let ki = names[i as int];
                assert(marked == (!excluded(exclude_index, ki) && btree_marked(o[ki], *doc)));
                assert forall|k: Seq<char>| #[trigger]
                    self.dirty_btrees().contains(k) <==> od.contains(k) || exists|j: int|
                        0 <= j < i + 1 && names[j] == k && !excluded(exclude_index, k) && btree_marked(o[k], *doc) by {
                    let old_side = exists|j: int|
                        0 <= j < i && names[j] == k && !excluded(exclude_index, k) && btree_marked(o[k], *doc);
                    let new_side = exists|j: int|
                        0 <= j < i + 1 && names[j] == k && !excluded(exclude_index, k) && btree_marked(o[k], *doc);
                    assert(d0.contains(k) <==> od.contains(k) || old_side);
                    assert(prev == d0);
                    if old_side {
                        let j = choose|j: int|
                            0 <= j < i && names[j] == k && !excluded(exclude_index, k) && btree_marked(o[k], *doc);
                        assert(0 <= j < i + 1);
                    }
                    if new_side {
                        let j = choose|j: int|
                            0 <= j < i + 1 && names[j] == k && !excluded(exclude_index, k) && btree_marked(o[k], *doc);
                        if j < i {
                            assert(old_side);
                        } else {
                            assert(k == ki);
                        }
                    }
                    if k == ki && marked {
                        assert(names[i as int] == k);
                        assert(new_side);
                    }
                }
            }
            i = i + 1;
        }
        proof {
            self.btree_indexes.lemma_table();
            assert forall|k: Seq<char>| #[trigger] o.dom().contains(k) implies if excluded(exclude_index, k) {
                self.btrees()[k] == o[k]
            } else {
                doc_removed(self.btrees()[k], o[k], *doc, doc_id@)
            } by {
                let j = choose|j: int| 0 <= j < names.len() && names[j] == k;
                assert(names[j] == k);
            }
            assert forall|k: Seq<char>| #[trigger] self.btrees().dom().contains(k) implies self.btrees()[k].wf() by {
                assert(o.dom().contains(k));
                if excluded(exclude_index, k) {
                    assert(self.btrees()[k] == o[k]);
                } else {
                    assert(doc_removed(self.btrees()[k], o[k], *doc, doc_id@));
                }
            }
            assert(self.dirty_btrees() =~= od.union(
                Set::new(|k: Seq<char>| o.dom().contains(k) && !excluded(exclude_index, k) && btree_marked(o[k], *doc)),
            )) by {
                assert forall|k: Seq<char>| o.dom().contains(k) && !excluded(exclude_index, k) && btree_marked(o[k], *doc)
                    implies #[trigger] self.dirty_btrees().contains(k) by {
                    let j = choose|j: int| 0 <= j < names.len() && names[j] == k;
                    assert(names[j] == k);
                }
            }
        }
        self.remove_document_from_fuzzy_indexes(doc_id, exclude_index);
        Ok(())
    }

    /// The fuzzy part of [`Self::remove_document_from_indexes`].
    fn remove_document_from_fuzzy_indexes(&mut self, doc_id: &DocumentId, exclude_index: Option<&str>)
        requires
            old(self).wf(),
        ensures
            final(self).wf(),
            final(self).btrees() == old(self).btrees(),
            final(self).btree_names() == old(self).btree_names(),
            final(self).dirty_btrees() == old(self).dirty_btrees(),
            final(self).fuzzy_names() == old(self).fuzzy_names(),
            final(self).legacies() == old(self).legacies(),
            final(self).legacy_names() == old(self).legacy_names(),
            final(self).paths() == old(self).paths(),
            final(self).fuzzies().dom() == old(self).fuzzies().dom(),
            forall|n: Seq<char>| #[trigger]
                old(self).fuzzies().dom().contains(n) ==> if excluded(exclude_index, n) {
                    final(self).fuzzies()[n] == old(self).fuzzies()[n]
                } else {
                    let f = final(self).fuzzies()[n];
                    let o = old(self).fuzzies()[n];
                    &&& f.entries_view() == o.entries_view().filter(|e: crate::index::fuzzy::FuzzyEntry| e.2 != doc_id@)
                    &&& f.meta() == (FuzzyIndexMetadata { num_entries: f.meta().num_entries, ..o.meta() })
                    &&& f.lazy() == o.lazy()
                    &&& f.path() == o.path()
                },
            final(self).dirty_fuzzies() == old(self).dirty_fuzzies().union(
                Set::new(|n: Seq<char>| old(self).fuzzies().dom().contains(n) && !excluded(exclude_index, n)),
            ),
    {
        proof {
            self.fuzzy_indexes.lemma_table();
        }
        let ghost o = self.fuzzies();
        let ghost names = self.fuzzy_names();
        let ghost od = self.dirty_fuzzies();
        let n = self.fuzzy_indexes.len();
        let mut i: usize = 0;
        while i < n
            invariant
                self.wf(),
                names == self.fuzzy_names(),
                names == old(self).fuzzy_names(),
                n == names.len(),
                i <= n,
                o == old(self).fuzzies(),
                od == old(self).dirty_fuzzies(),
                o.dom() == self.fuzzies().dom(),
                forall|k: Seq<char>| #[trigger] o.dom().contains(k) <==> names.contains(k),
                forall|j: int|
                    0 <= j < n ==> (j < i ==> if excluded(exclude_index, #[trigger] names[j]) {
                        self.fuzzies()[names[j]] == o[names[j]]
                    } else {
                        let f = self.fuzzies()[names[j]];
                        let of = o[names[j]];
                        &&& f.entries_view() == of.entries_view().filter(|e: crate::index::fuzzy::FuzzyEntry| e.2 != doc_id@)
                        &&& f.meta() == (FuzzyIndexMetadata { num_entries: f.meta().num_entries, ..of.meta() })
                        &&& f.lazy() == of.lazy()
                        &&& f.path() == of.path()
                    }) && (j >= i ==> self.fuzzies()[names[j]] == o[names[j]]),
                forall|k: Seq<char>| #[trigger]
                    self.dirty_fuzzies().contains(k) <==> od.contains(k) || exists|j: int|
                        0 <= j < i && names[j] == k && !excluded(exclude_index, k),
                self.btrees() == old(self).btrees(),
                self.btree_names() == old(self).btree_names(),
                self.dirty_btrees() == old(self).dirty_btrees(),
                self.legacies() == old(self).legacies(),
                self.legacy_names() == old(self).legacy_names(),
                self.paths() == old(self).paths(),
            decreases n - i,
        {
            proof {
                self.fuzzy_indexes.lemma_table();
                assert(names.contains(names[i as int]));
                assert(o.dom().contains(names[i as int]));
                assert(self.fuzzies()[names[i as int]] == o[names[i as int]]);
                assert forall|j: int| 0 <= j < n && j != i implies names[j] != names[i as int] by {}
            }
            let ghost d0 = self.dirty_fuzzies();
            let name = self.fuzzy_indexes.name_at(i).clone();
            let skip = match exclude_index {
                Some(e) => crate::text::str_eq(name.as_str(), e),
                None => false,
            };
            if !skip {
                let f = self.fuzzy_indexes.at_mut(i);
                f.remove(doc_id);
            }
            proof {
                self.fuzzy_indexes.lemma_table();
            }
            let ghost prev = self.dirty_fuzzies();
            if !skip {
                self.dirty_fuzzy_indexes.insert(name.as_str());
            }
            proof {
                let ki = names[i as int];
                assert forall|k: Seq<char>| #[trigger]
                    self.dirty_fuzzies().contains(k) <==> od.contains(k) || exists|j: int|
                        0 <= j < i + 1 && names[j] == k && !excluded(exclude_index, k) by {
                    let old_side = exists|j: int| 0 <= j < i && names[j] == k && !excluded(exclude_index, k);
                    let new_side = exists|j: int| 0 <= j < i + 1 && names[j] == k && !excluded(exclude_index, k);
                    assert(d0.contains(k) <==> od.contains(k) || old_side);
                    assert(prev == d0);
                    if old_side {
                        let j = choose|j: int| 0 <= j < i && names[j] == k && !excluded(exclude_index, k);
                        assert(0 <= j < i + 1);
                    }
                    if new_side {
                        let j = choose|j: int| 0 <= j < i + 1 && names[j] == k && !excluded(exclude_index, k);
                        if j < i {
                            assert(old_side);
                        } else {
                            assert(k == ki);
                        }
                    }
                    if k == ki && !skip {
                        assert(names[i as int] == k);
                        assert(new_side);
                    }
                }
            }
            i = i + 1;
        }
        proof {
            self.fuzzy_indexes.lemma_table();
            assert forall|k: Seq<char>| #[trigger] o.dom().contains(k) implies if excluded(exclude_index, k) {
                self.fuzzies()[k] == o[k]
            } else {
                let f = self.fuzzies()[k];
                let of = o[k];
                &&& f.entries_view() == of.entries_view().filter(|e: crate::index::fuzzy::FuzzyEntry| e.2 != doc_id@)
                &&& f.meta() == (FuzzyIndexMetadata { num_entries: f.meta().num_entries, ..of.meta() })
                &&& f.lazy() == of.lazy()
                &&& f.path() == of.path()
            } by {
                let j = choose|j: int| 0 <= j < names.len() && names[j] == k;
                assert(names[j] == k);
            }
            assert(self.dirty_fuzzies() =~= od.union(
                Set::new(|k: Seq<char>| o.dom().contains(k) && !excluded(exclude_index, k)),
            )) by {
                assert forall|k: Seq<char>| o.dom().contains(k) && !excluded(exclude_index, k)
                    implies #[trigger] self.dirty_fuzzies().contains(k) by {
                    let j = choose|j: int| 0 <= j < names.len() && names[j] == k;
                    assert(names[j] == k);
                }
            }
        }
    }

    /// Check a document against every unique B+ tree index but
    /// `exclude_index`: a compound index refuses arrays on two of its fields,
    /// and a key of the document that the index finds for another document
    /// than `exclude_doc_id` is a duplicate. Either is an `IndexError`.
    pub fn check_unique_constraints(
        &self,
        doc: &DocumentFields,
        exclude_doc_id: Option<&DocumentId>,
        exclude_index: Option<&str>,
    ) -> (res: Result<(), IronBaseError>)
        requires
            self.wf(),
            self.trees_wf(),
        ensures
            res is Ok <==> forall|n: Seq<char>| #[trigger]
                self.btrees().dom().contains(n) && !excluded(exclude_index, n) ==> !unique_violation(
                    self.btrees()[n],
                    *doc,
                    exclude_doc_id,
                ),
            res is Err ==> res->Err_0 is IndexError,
            res is Err ==> exists|n: Seq<char>| #[trigger]
                self.btrees().dom().contains(n) && !excluded(exclude_index, n) && unique_violation(
                    self.btrees()[n],
                    *doc,
                    exclude_doc_id,
                ) && if multi_array_error(self.btrees()[n].meta(), *doc) {
                    res->Err_0->IndexError_0@ == array_error_message(self.btrees()[n].meta())
                } else {
                    exists|j: int| #![trigger doc_keys(self.btrees()[n].meta(), *doc)[j]]
                        first_taken(self.btrees()[n], doc_keys(self.btrees()[n].meta(), *doc), j, exclude_doc_id)
                        && res->Err_0->IndexError_0@ == unique_key_message(
                        self.btrees()[n].meta(),
                        doc_keys(self.btrees()[n].meta(), *doc)[j],
                    )
                },
    {
        proof {
            self.btree_indexes.lemma_table();
        }
        let ghost names = self.btree_names();
        let n = self.btree_indexes.len();
        let mut i: usize = 0;
        while i < n
            invariant
                self.wf(),
                self.trees_wf(),
                names == self.btree_names(),
                n == names.len(),
                i <= n,
                forall|k: Seq<char>| #[trigger] self.btrees().dom().contains(k) <==> names.contains(k),
                forall|j: int|
                    0 <= j < i ==> !excluded(exclude_index, #[trigger] names[j]) ==> !unique_violation(
                        self.btrees()[names[j]],
                        *doc,
                        exclude_doc_id,
                    ),
            decreases n - i,
        {
            proof {
                self.btree_indexes.lemma_table();
                assert(names.contains(names[i as int]));
            }
            let name = self.btree_indexes.name_at(i);
            let skip = match exclude_index {
                Some(e) => crate::text::str_eq(name.as_str(), e),
                None => false,
            };
            let t = self.btree_indexes.at(i);
            proof {
                self.btree_indexes.lemma_table();
                assert(*t == self.btrees()[names[i as int]]);
                assert(self.btrees().dom().contains(names[i as int]));
                assert(skip == excluded(exclude_index, names[i as int]));
            }
            if !skip && t.metadata_ref().unique {
                let r = check_unique_in_tree(t, doc, exclude_doc_id);
                if r.is_err() {
                    assert(unique_violation(self.btrees()[names[i as int]], *doc, exclude_doc_id));
                    assert(self.btrees().dom().contains(names[i as int]));
                    return r;
                }
            }
            i = i + 1;
        }
        proof {
            self.btree_indexes.lemma_table();
            assert forall|k: Seq<char>| #[trigger] self.btrees().dom().contains(k) && !excluded(exclude_index, k) implies !unique_violation(
                self.btrees()[k],
                *doc,
                exclude_doc_id,
            ) by {
                let j = choose|j: int| 0 <= j < names.len() && names[j] == k;
                assert(names[j] == k);
            }
        }
        Ok(())
    }

    /// Whether every part of a key is `Null`.
    pub fn is_key_all_null(key: &IndexKey) -> (r: bool)
        ensures
            r == all_null(key@),
    {
        key_is_all_null(key)
    }
}

impl Default for IndexManager {
    fn default() -> (m: Self)
        ensures
            m.wf(),
            m.btrees() == Map::<Seq<char>, BPlusTree>::empty(),
            m.legacies() == Map::<Seq<char>, Index>::empty(),
            m.fuzzies() == Map::<Seq<char>, FuzzyIndex>::empty(),
            m.paths() == Map::<Seq<char>, String>::empty(),
            m.dirty_btrees() == Set::<Seq<char>>::empty(),
            m.dirty_fuzzies() == Set::<Seq<char>>::empty(),
    {
        Self::new()
    }
}

} // verus!

verus! {

/// Entries a fuzzy index on field `f` holds after being built from the
/// documents `docs`: the string each has at the field, in document order.
pub open spec fn fuzzy_entries_of(docs: Seq<(DocumentFields, DocumentId)>, f: Seq<char>) -> Seq<crate::index::fuzzy::FuzzyEntry>
    decreases docs.len(),
{
    if docs.len() == 0 {
        Seq::empty()
    } else {
        let rest = fuzzy_entries_of(docs.drop_last(), f);
        match fuzzy_value(docs.last().0, f) {
            Some(s) => rest.push((lowercase(s), s, docs.last().1@)),
            None => rest,
        }
    }
}

impl FuzzyIndex {
    /// Rebuild from documents: forget every entry, then add the string each
    /// document has at the indexed field.
    pub fn rebuild(&mut self, documents: &Vec<(DocumentFields, DocumentId)>)
        requires
            documents@.len() < usize::MAX,
        ensures
            final(self).entries_view() == fuzzy_entries_of(documents@, old(self).meta().field@),
            final(self).meta() == (FuzzyIndexMetadata { num_entries: final(self).meta().num_entries, ..old(self).meta() }),
            final(self).meta().num_entries == final(self).entries_view().len(),
            final(self).lazy() == old(self).lazy(),
            final(self).path() == old(self).path(),
    {
        self.clear();
        let ghost m0 = old(self).meta();
        let mut i: usize = 0;
        while i < documents.len()
            invariant
                i <= documents@.len(),
                documents@.len() < usize::MAX,
                self.entries_view().len() <= i,
                self.entries_view() == fuzzy_entries_of(documents@.take(i as int), m0.field@),
                self.meta() == (FuzzyIndexMetadata { num_entries: self.meta().num_entries, ..m0 }),
                self.meta().num_entries == self.entries_view().len(),
                m0 == old(self).meta(),
                self.lazy() == old(self).lazy(),
                self.path() == old(self).path(),
            decreases documents@.len() - i,
        {
            proof {
                assert(documents@.take(i + 1).drop_last() =~= documents@.take(i as int));
                assert(documents@.take(i + 1).last() == documents@[i as int]);
            }
            let d = &documents[i].0;
            match d.lookup(self.metadata_ref().field.as_str()) {
                Some(fv) => match &fv.value {
                    Some(JsonValue::String(s)) => {
                        self.insert(s.as_str(), documents[i].1.copy_id());
                    },
                    _ => {},
                },
                None => {},
            }
            i = i + 1;
        }
        proof {
            assert(documents@.take(i as int) =~= documents@);
        }
    }
}

} // verus!
