use ironbase_core::document::DocumentId;
use ironbase_core::error::IronBaseError;
use ironbase_core::index::extract::{DocumentFields, FieldValues};
use ironbase_core::query::value::JsonValue;
use ironbase_core::index::fuzzy::{decode_fuzzy_header, encode_fuzzy_header, FuzzyAlgorithm, FuzzyHeader, FuzzyIndex};
use ironbase_core::index::legacy::{Index, IndexDefinition, IndexType};
use ironbase_core::index::traits::lazy_threshold_from;
use ironbase_core::index::vector_manager::{IndexWriter, VectorIndexManager, VectorIndexOps};

#[test]
fn test_fuzzy_algorithm_from_str() {
    assert_eq!(FuzzyAlgorithm::from_str("jaro_winkler"), Some(FuzzyAlgorithm::JaroWinkler));
    assert_eq!(FuzzyAlgorithm::from_str("levenshtein"), Some(FuzzyAlgorithm::Levenshtein));
    assert_eq!(FuzzyAlgorithm::from_str("damerau_levenshtein"), Some(FuzzyAlgorithm::DamerauLevenshtein));
    assert_eq!(FuzzyAlgorithm::from_str("unknown"), None);
}

#[test]
fn fuzzy_algorithm_names_ignore_case() {
    assert_eq!(FuzzyAlgorithm::from_str("JaroWinkler"), Some(FuzzyAlgorithm::JaroWinkler));
    assert_eq!(FuzzyAlgorithm::from_str("DamerauLevenshtein"), Some(FuzzyAlgorithm::DamerauLevenshtein));
    assert_eq!(FuzzyAlgorithm::from_str("jaro-winkler"), None);
    assert_eq!(FuzzyAlgorithm::default(), FuzzyAlgorithm::JaroWinkler);
}

#[test]
fn lazy_threshold_scales_with_memory_within_bounds() {
    let mib: u64 = 1024 * 1024;
    assert_eq!(lazy_threshold_from(None), 100 * mib);
    assert_eq!(lazy_threshold_from(Some(1024 * mib)), 50 * mib);
    assert_eq!(lazy_threshold_from(Some(8 * 1024 * mib)), 204 * mib);
    assert_eq!(lazy_threshold_from(Some(64 * 1024 * mib)), 500 * mib);
}

fn definition(unique: bool) -> IndexDefinition {
    IndexDefinition {
        name: "by_email".to_string(),
        field: "email".to_string(),
        index_type: if unique { IndexType::Unique } else { IndexType::Regular },
        unique,
    }
}

#[test]
fn legacy_index_find_after_insert_and_remove() {
    let mut ix = Index::new(definition(false));
    ix.insert("a@x".to_string(), DocumentId::Int(1)).unwrap();
    ix.insert("a@x".to_string(), DocumentId::Int(2)).unwrap();
    ix.insert("b@x".to_string(), DocumentId::Int(3)).unwrap();
    assert_eq!(ix.size(), 2);
    assert_eq!(ix.find("a@x"), Some(&vec![DocumentId::Int(1), DocumentId::Int(2)]));
    ix.remove("a@x", &DocumentId::Int(1));
    assert_eq!(ix.find("a@x"), Some(&vec![DocumentId::Int(2)]));
    ix.remove("a@x", &DocumentId::Int(2));
    assert_eq!(ix.find("a@x"), None);
    assert_eq!(ix.size(), 1);
    ix.remove("zzz", &DocumentId::Int(9));
    assert_eq!(ix.size(), 1);
}

#[test]
fn legacy_unique_index_refuses_a_held_key() {
    let mut ix = Index::new(definition(true));
    ix.insert("a@x".to_string(), DocumentId::Int(1)).unwrap();
    match ix.insert("a@x".to_string(), DocumentId::Int(2)) {
        Err(IronBaseError::IndexError(m)) => assert_eq!(m, "Duplicate key: a@x (unique index)"),
        other => panic!("unexpected {:?}", other.is_ok()),
    }
    assert_eq!(ix.find("a@x"), Some(&vec![DocumentId::Int(1)]));
}

#[derive(Debug, PartialEq)]
struct FakeIndex {
    removed: Vec<String>,
    orphans: usize,
    rebuilt: usize,
    flushed_tx: u64,
    clean: bool,
}

impl FakeIndex {
    fn new(orphans: usize) -> Self {
        FakeIndex { removed: Vec::new(), orphans, rebuilt: 0, flushed_tx: 0, clean: false }
    }
}

impl VectorIndexOps for FakeIndex {
    fn remove(&mut self, id: &str) {
        self.removed.push(id.to_string());
    }

    fn rebuild_if_needed(&mut self) -> Result<bool, IronBaseError> {
        if self.orphans > 3 {
            self.orphans = 0;
            self.rebuilt += 1;
            Ok(true)
        } else {
            Ok(false)
        }
    }

    fn orphan_count(&self) -> usize {
        self.orphans
    }

    fn rebuild(&mut self) -> Result<(), IronBaseError> {
        self.orphans = 0;
        self.rebuilt += 1;
        Ok(())
    }

    fn set_flushed_tx_id(&mut self, tx_id: u64) {
        self.flushed_tx = tx_id;
    }

    fn mark_clean(&mut self) {
        self.clean = true;
    }
}

struct RecordingWriter {
    paths: Vec<String>,
}

impl IndexWriter<FakeIndex> for RecordingWriter {
    fn persist(&mut self, _index: &FakeIndex, cache_path: &str) -> Result<u64, IronBaseError> {
        self.paths.push(cache_path.to_string());
        Ok(42)
    }
}

#[test]
fn vector_manager_create_get_drop() {
    let mut m: VectorIndexManager<FakeIndex> = VectorIndexManager::new();
    assert!(!m.has_dirty());
    m.create_vector_index("users_vec_emb".to_string(), "emb".to_string(), Ok(FakeIndex::new(0)), Some("/db/users.hnsw".to_string()))
        .unwrap();
    assert!(m.contains("users_vec_emb"));
    assert_eq!(m.get_index_path("users_vec_emb"), Some(&"/db/users.hnsw".to_string()));
    match m.create_vector_index("users_vec_emb".to_string(), "emb".to_string(), Ok(FakeIndex::new(0)), None) {
        Err(IronBaseError::IndexError(msg)) => assert_eq!(msg, "Index already exists: users_vec_emb"),
        _ => panic!("duplicate name accepted"),
    }
    match m.create_vector_index("other".to_string(), "emb".to_string(), Err("dimension must be positive".to_string()), None) {
        Err(IronBaseError::IndexError(msg)) => assert_eq!(msg, "dimension must be positive"),
        _ => panic!("invalid config accepted"),
    }
    assert!(!m.contains("other"));
    assert!(m.get_vector_index_for_field("users", "emb").is_some());
    assert!(m.get_vector_index_for_field("users", "other").is_none());
    assert!(m.get_vector_index_mut("users_vec_emb").is_some());
    assert_eq!(m.dirty_vector_index_names(), vec!["users_vec_emb".to_string()]);
    m.drop_vector_index("users_vec_emb").unwrap();
    assert!(!m.contains("users_vec_emb"));
    assert!(!m.has_dirty());
    assert_eq!(m.get_index_path("users_vec_emb"), None);
    match m.drop_vector_index("users_vec_emb") {
        Err(IronBaseError::IndexError(msg)) => assert_eq!(msg, "Vector index not found: users_vec_emb"),
        _ => panic!("dropped twice"),
    }
}

#[test]
fn vector_manager_document_removal_and_rebuilds() {
    let mut m: VectorIndexManager<FakeIndex> = VectorIndexManager::new();
    m.add_loaded_vector_index("a".to_string(), FakeIndex::new(5));
    m.add_loaded_vector_index("b".to_string(), FakeIndex::new(1));
    m.add_loaded_vector_index("c".to_string(), FakeIndex::new(0));
    assert_eq!(m.vector_index_names(), vec!["a".to_string(), "b".to_string(), "c".to_string()]);
    m.remove_document_from_vector_indexes(&DocumentId::Int(-42), Some("b")).unwrap();
    assert_eq!(m.get_vector_index("a").unwrap().removed, vec!["-42".to_string()]);
    assert!(m.get_vector_index("b").unwrap().removed.is_empty());
    let mut dirty = m.dirty_vector_index_names();
    dirty.sort();
    assert_eq!(dirty, vec!["a".to_string(), "c".to_string()]);
    assert_eq!(m.rebuild_vector_indexes_if_needed().unwrap(), 1);
    assert_eq!(m.rebuild_all_vector_indexes().unwrap(), 1);
    assert_eq!(m.list_vector_indexes().len(), 3);
}

#[test]
fn vector_manager_flushes_changed_indexes() {
    let mut m: VectorIndexManager<FakeIndex> = VectorIndexManager::new();
    m.add_loaded_vector_index("a".to_string(), FakeIndex::new(0));
    m.add_loaded_vector_index("b".to_string(), FakeIndex::new(0));
    m.mark_vector_dirty("a");
    m.mark_vector_dirty("ghost");
    let mut w = RecordingWriter { paths: Vec::new() };
    assert_eq!(m.flush_one_vector_index("b", "/data/db.ironbase", 7, &mut w).unwrap(), false);
    assert_eq!(m.flush_vector_indexes("/data/db.ironbase", 9, &mut w).unwrap(), 1);
    assert_eq!(w.paths, vec!["/data/a.hnsw".to_string()]);
    let a = m.get_vector_index("a").unwrap();
    assert_eq!(a.flushed_tx, 9);
    assert!(a.clean);
    assert_eq!(m.dirty_vector_index_names(), vec!["ghost".to_string()]);
    assert_eq!(VectorIndexManager::<FakeIndex>::build_vector_cache_path("/data/db.ironbase", "x"), "/data/x.hnsw");
    assert_eq!(VectorIndexManager::<FakeIndex>::build_vector_cache_path("db", "x"), "x.hnsw");
}

#[test]
fn fuzzy_index_keeps_values_lowercased() {
    let mut idx = FuzzyIndex::new("name_fuzzy", "name", FuzzyAlgorithm::JaroWinkler, 0.8f64.to_bits());
    assert_eq!(idx.size(), 0);
    idx.insert("John Smith", DocumentId::Int(1));
    idx.insert("Jane DOE", DocumentId::Int(2));
    idx.insert("john smith", DocumentId::Int(3));
    assert_eq!(idx.entry_count(), 3);
    assert_eq!(idx.entries()[1], ("jane doe".to_string(), "Jane DOE".to_string(), DocumentId::Int(2)));
    idx.remove_value("JOHN SMITH", &DocumentId::Int(3));
    assert_eq!(idx.size(), 2);
    idx.insert("Other", DocumentId::Int(1));
    idx.remove(&DocumentId::Int(1));
    assert_eq!(idx.size(), 1);
    assert_eq!(idx.entries()[0].2, DocumentId::Int(2));
    idx.clear();
    assert_eq!(idx.size(), 0);
    assert!(!idx.needs_entries_load());
}

#[test]
fn fuzzy_index_building_flag_and_path() {
    let mut idx = FuzzyIndex::new("n", "f", FuzzyAlgorithm::Levenshtein, 0.5f64.to_bits());
    assert!(!idx.is_building());
    idx.set_building(true);
    assert!(idx.is_building());
    assert!(idx.storage_path().is_none());
    idx.set_storage_path("/tmp/n.fzidx".to_string());
    assert_eq!(idx.storage_path(), Some(&"/tmp/n.fzidx".to_string()));
    let lazy = FuzzyIndex::from_file_parts(
        FuzzyIndex::new("n", "f", FuzzyAlgorithm::Levenshtein, 0).metadata,
        Vec::new(),
        "/tmp/n.fzidx".to_string(),
        true,
        64,
        1000,
    );
    assert!(lazy.needs_entries_load());
    assert_eq!(lazy.entries_section(), (64, 1000));
}

#[test]
fn fuzzy_header_round_trip() {
    let h = encode_fuzzy_header(3, 120);
    assert_eq!(h.len(), 64);
    assert_eq!(&h[0..8], b"IRONFZX\0");
    let d = decode_fuzzy_header(&h).unwrap();
    assert_eq!(d, FuzzyHeader { version: 1, entry_count: 3, entries_offset: 64, metadata_offset: 184 });
    assert_eq!(d.entries_size(), 120);
    assert!(!d.entries_stay_on_disk());
    let mut bad = h.clone();
    bad[0] = b'X';
    assert_eq!(decode_fuzzy_header(&bad).unwrap_err().to_string(), "Invalid fuzzy index file: bad magic bytes");
    let mut newer = h.clone();
    newer[8] = 2;
    assert_eq!(decode_fuzzy_header(&newer).unwrap_err().to_string(), "Unsupported fuzzy index version: 2 (max: 1)");
}

fn named(name: Option<&str>) -> DocumentFields {
    match name {
        Some(n) => DocumentFields {
            fields: vec![FieldValues {
                path: "name".to_string(),
                values: vec![JsonValue::String(n.to_string())],
                crosses_array: false,
                value: Some(JsonValue::String(n.to_string())),
            }],
        },
        None => DocumentFields { fields: vec![] },
    }
}

#[test]
fn fuzzy_rebuild_replaces_the_entries() {
    let mut idx = FuzzyIndex::new("name_fuzzy", "name", FuzzyAlgorithm::JaroWinkler, 0.8f64.to_bits());
    idx.insert("Old", DocumentId::Int(9));
    let docs = vec![
        (named(Some("Alice")), DocumentId::Int(1)),
        (named(None), DocumentId::Int(2)),
        (named(Some("BOB")), DocumentId::Int(3)),
    ];
    idx.rebuild(&docs);
    assert_eq!(idx.size(), 2);
    assert_eq!(
        idx.entries(),
        &vec![
            ("alice".to_string(), "Alice".to_string(), DocumentId::Int(1)),
            ("bob".to_string(), "BOB".to_string(), DocumentId::Int(3)),
        ]
    );
}

#[test]
fn vector_rebuilds_are_recorded_by_flag() {
    let mut m: VectorIndexManager<FakeIndex> = VectorIndexManager::new();
    m.add_loaded_vector_index("a".to_string(), FakeIndex::new(0));
    m.add_loaded_vector_index("b".to_string(), FakeIndex::new(0));
    m.add_loaded_vector_index("c".to_string(), FakeIndex::new(0));
    assert_eq!(m.record_vector_rebuilds(&vec![true, false, true]), 2);
    let mut dirty = m.dirty_vector_index_names();
    dirty.sort();
    assert_eq!(dirty, vec!["a".to_string(), "c".to_string()]);
    assert_eq!(m.record_vector_rebuilds(&vec![false]), 0);
    assert_eq!(m.dirty_vector_index_names().len(), 2);
}

#[test]
fn vector_flush_path_and_outcome() {
    let mut m: VectorIndexManager<FakeIndex> = VectorIndexManager::new();
    m.add_loaded_vector_index("a".to_string(), FakeIndex::new(0));
    m.add_loaded_vector_index("b".to_string(), FakeIndex::new(0));
    m.mark_vector_dirty("a");
    m.mark_vector_dirty("ghost");
    assert_eq!(m.vector_flush_path("a", "/data/db.ironbase"), Some("/data/a.hnsw".to_string()));
    assert_eq!(m.vector_flush_path("b", "/data/db.ironbase"), None);
    assert_eq!(m.vector_flush_path("ghost", "/data/db.ironbase"), None);
    // a failed write is reported and the mark stays
    match m.finish_vector_flush("a", Err(IronBaseError::IndexError("disk full".to_string()))) {
        Err(IronBaseError::IndexError(msg)) => assert_eq!(msg, "disk full"),
        _ => panic!("the write error is passed on"),
    }
    let mut dirty = m.dirty_vector_index_names();
    dirty.sort();
    assert_eq!(dirty, vec!["a".to_string(), "ghost".to_string()]);
    // a write clears the mark
    assert_eq!(m.finish_vector_flush("a", Ok(10)).unwrap(), true);
    assert_eq!(m.dirty_vector_index_names(), vec!["ghost".to_string()]);
    // and flushing one index writes it beside the database with the watermark
    m.mark_vector_dirty("b");
    let mut w = RecordingWriter { paths: Vec::new() };
    assert_eq!(m.flush_one_vector_index("b", "/data/db.ironbase", 5, &mut w).unwrap(), true);
    assert_eq!(w.paths, vec!["/data/b.hnsw".to_string()]);
    assert_eq!(m.get_vector_index("b").unwrap().flushed_tx, 5);
}

#[test]
fn legacy_index_never_keeps_an_empty_list() {
    let mut ix = Index::new(definition(false));
    assert_eq!(ix.size(), 0);
    ix.insert("k".to_string(), DocumentId::Int(1)).unwrap();
    ix.remove("k", &DocumentId::Int(2));
    assert_eq!(ix.find("k"), Some(&vec![DocumentId::Int(1)]));
    ix.remove("k", &DocumentId::Int(1));
    assert_eq!(ix.find("k"), None);
    assert_eq!(ix.size(), 0);
}
