use ironbase_core::document::DocumentId;
use ironbase_core::error::IronBaseError;
use ironbase_core::index::btree::BPlusTree;
use ironbase_core::index::extract::{compound_key_at, key_at, key_of_json, DocumentFields, FieldValues};
use ironbase_core::index::fuzzy::FuzzyAlgorithm;
use ironbase_core::index::key::{IndexKey, OrderedFloat};
use ironbase_core::index::legacy::{IndexDefinition, IndexType};
use ironbase_core::index::manager::IndexManager;
use ironbase_core::query::value::{JsonNumber, JsonValue};
use std::collections::HashSet;

fn s(v: &str) -> JsonValue {
    JsonValue::String(v.to_string())
}

fn num(i: u64) -> JsonValue {
    JsonValue::Number(JsonNumber::PosInt(i))
}

fn copy(v: &JsonValue) -> JsonValue {
    match v {
        JsonValue::Null => JsonValue::Null,
        JsonValue::Bool(b) => JsonValue::Bool(*b),
        JsonValue::Number(JsonNumber::PosInt(u)) => JsonValue::Number(JsonNumber::PosInt(*u)),
        JsonValue::Number(JsonNumber::NegInt(i)) => JsonValue::Number(JsonNumber::NegInt(*i)),
        JsonValue::Number(JsonNumber::Float(b, t)) => JsonValue::Number(JsonNumber::Float(*b, t.clone())),
        JsonValue::String(x) => JsonValue::String(x.clone()),
        JsonValue::Array(items) => JsonValue::Array(items.iter().map(copy).collect()),
        JsonValue::Object(members) => JsonValue::Object(members.iter().map(|(k, v)| (k.clone(), copy(v))).collect()),
    }
}

/// A document path holding one value.
fn scalar(path: &str, v: JsonValue) -> FieldValues {
    let value = Some(copy(&v));
    FieldValues { path: path.to_string(), values: vec![v], crosses_array: false, value }
}

/// A document path holding an array: it reaches each element, and leads to the array.
fn array(path: &str, vs: Vec<JsonValue>) -> FieldValues {
    let value = Some(JsonValue::Array(vs.iter().map(copy).collect()));
    FieldValues { path: path.to_string(), values: vs, crosses_array: true, value }
}

fn doc(fields: Vec<FieldValues>) -> DocumentFields {
    DocumentFields { fields }
}

fn threshold(t: f64) -> u64 {
    t.to_bits()
}

#[test]
fn test_multikey_extract_keys_array_field() {
    let tree = BPlusTree::new("tags_idx".to_string(), "tags".to_string(), false, false);
    let d = doc(vec![array("tags", vec![s("urgent"), s("important")])]);

    let keys: HashSet<IndexKey> = tree.extract_keys(&d).into_iter().collect();
    let expected: HashSet<IndexKey> =
        [IndexKey::String("urgent".to_string()), IndexKey::String("important".to_string())].into_iter().collect();

    assert_eq!(keys, expected);
}

#[test]
fn test_compound_multikey_single_array_field() {
    let tree = BPlusTree::new_compound(
        "country_tags_idx".to_string(),
        vec!["country".to_string(), "tags".to_string()],
        false,
        false,
    );
    let d = doc(vec![scalar("country", s("US")), array("tags", vec![s("a"), s("b")])]);

    let keys: HashSet<IndexKey> = tree.extract_keys(&d).into_iter().collect();
    let expected: HashSet<IndexKey> = [
        IndexKey::Compound(vec![IndexKey::String("US".to_string()), IndexKey::String("a".to_string())]),
        IndexKey::Compound(vec![IndexKey::String("US".to_string()), IndexKey::String("b".to_string())]),
    ]
    .into_iter()
    .collect();

    assert_eq!(keys, expected);
}

#[test]
fn test_compound_multikey_multiple_arrays_rejected() {
    let mut manager = IndexManager::new();
    manager
        .create_compound_index(
            "country_tags_idx".to_string(),
            vec!["country".to_string(), "tags".to_string()],
            false,
            false,
        )
        .unwrap();

    let d = doc(vec![array("country", vec![s("US"), s("CA")]), array("tags", vec![s("a"), s("b")])]);
    let result = manager.add_document_to_indexes(&d, &DocumentId::Int(1), None);

    assert!(result.is_err());
}

#[test]
fn test_compound_index_extract_key() {
    let tree = BPlusTree::new_compound(
        "users_location".to_string(),
        vec!["country".to_string(), "city".to_string()],
        false,
        false,
    );

    let d = doc(vec![
        scalar("_id", num(1)),
        scalar("name", s("Alice")),
        scalar("country", s("US")),
        scalar("city", s("NYC")),
    ]);

    let key = tree.extract_key(&d);
    let expected = IndexKey::Compound(vec![IndexKey::String("US".to_string()), IndexKey::String("NYC".to_string())]);
    assert_eq!(key, expected);
}

#[test]
fn test_index_manager_compound() {
    let mut manager = IndexManager::new();

    manager
        .create_compound_index(
            "users_country_city".to_string(),
            vec!["country".to_string(), "city".to_string()],
            false,
            false,
        )
        .unwrap();

    let index = manager.get_btree_index("users_country_city").unwrap();
    assert!(index.metadata.is_compound());
    assert_eq!(index.metadata.fields.len(), 2);

    let result = manager.create_compound_index(
        "users_country_city".to_string(),
        vec!["country".to_string(), "city".to_string()],
        false,
        false,
    );
    assert!(result.is_err());
}

#[test]
fn debug_compound_index_search() {
    let mut manager = IndexManager::new();

    manager
        .create_compound_index("loc_idx".to_string(), vec!["country".to_string(), "city".to_string()], true, false)
        .unwrap();

    let doc1 = doc(vec![scalar("country", s("USA")), scalar("city", s("NYC"))]);
    manager.add_document_to_indexes(&doc1, &DocumentId::Int(1), None).unwrap();

    let doc2 = doc(vec![scalar("country", s("USA")), scalar("city", s("LA"))]);
    manager.add_document_to_indexes(&doc2, &DocumentId::Int(2), None).unwrap();

    let doc_new = doc(vec![scalar("country", s("USA")), scalar("city", s("NYC"))]);
    let result = manager.check_unique_constraints(&doc_new, Some(&DocumentId::Int(2)), None);

    assert!(result.is_err(), "Should find duplicate compound key!");
}

#[test]
fn test_index_manager_fuzzy() {
    let mut manager = IndexManager::new();

    manager
        .create_fuzzy_index("name_fuzzy".to_string(), "name".to_string(), FuzzyAlgorithm::JaroWinkler, threshold(0.8))
        .unwrap();

    let index = manager.get_fuzzy_index("name_fuzzy").unwrap();
    assert_eq!(index.metadata.field, "name");

    let result = manager.create_fuzzy_index(
        "name_fuzzy".to_string(),
        "name".to_string(),
        FuzzyAlgorithm::JaroWinkler,
        threshold(0.8),
    );
    assert!(result.is_err());

    let indexes = manager.list_indexes();
    assert!(indexes.contains(&"name_fuzzy".to_string()));

    manager.drop_index("name_fuzzy").unwrap();
    assert!(manager.get_fuzzy_index("name_fuzzy").is_none());
}

#[test]
fn test_index_manager_fuzzy_with_documents() {
    let mut manager = IndexManager::new();

    manager
        .create_fuzzy_index("name_fuzzy".to_string(), "name".to_string(), FuzzyAlgorithm::JaroWinkler, threshold(0.8))
        .unwrap();

    let doc1 = doc(vec![scalar("name", s("John Smith")), scalar("age", num(30))]);
    let doc2 = doc(vec![scalar("name", s("Jane Doe")), scalar("age", num(25))]);

    manager.add_document_to_indexes(&doc1, &DocumentId::Int(1), None).unwrap();
    manager.add_document_to_indexes(&doc2, &DocumentId::Int(2), None).unwrap();

    let index = manager.get_fuzzy_index("name_fuzzy").unwrap();
    assert_eq!(index.size(), 2);
    assert!(index.entries().iter().any(|e| e.0 == "john smith" && e.1 == "John Smith"));

    manager.remove_document_from_indexes(&doc1, &DocumentId::Int(1), None).unwrap();

    let index = manager.get_fuzzy_index("name_fuzzy").unwrap();
    assert_eq!(index.size(), 1);
}

#[test]
fn test_index_prefix_info_compound() {
    let mut manager = IndexManager::new();

    manager.create_btree_index("users_age".to_string(), "age".to_string(), false, false).unwrap();
    manager.set_index_ready("users_age").unwrap();

    manager
        .create_compound_index(
            "users_country_city".to_string(),
            vec!["country".to_string(), "city".to_string()],
            false,
            false,
        )
        .unwrap();
    manager.set_index_ready("users_country_city").unwrap();

    let infos = manager.list_indexes_with_compound_info();

    let age_info = infos.iter().find(|i| i.index_name == "users_age").unwrap();
    assert_eq!(age_info.prefix_field, "age");
    assert!(!age_info.is_compound);
    assert_eq!(age_info.num_fields, 1);

    let compound_info = infos.iter().find(|i| i.index_name == "users_country_city").unwrap();
    assert_eq!(compound_info.prefix_field, "country");
    assert!(compound_info.is_compound);
    assert_eq!(compound_info.num_fields, 2);
}

#[test]
fn test_cross_kind_name_collision() {
    let mut mgr = IndexManager::new();
    mgr.create_fuzzy_index("shared_name".to_string(), "name".to_string(), FuzzyAlgorithm::JaroWinkler, threshold(0.8))
        .unwrap();

    let err = mgr.create_btree_index("shared_name".to_string(), "age".to_string(), false, false).unwrap_err();
    assert_eq!(err.to_string(), "Index already exists: shared_name");
    let err = mgr.create_btree_index_ci("shared_name".to_string(), "email".to_string(), false).unwrap_err();
    assert!(err.to_string().contains("Index already exists"));
    let err = mgr
        .create_compound_index("shared_name".to_string(), vec!["a".to_string(), "b".to_string()], false, false)
        .unwrap_err();
    assert!(err.to_string().contains("Index already exists"));
    let err = mgr
        .create_index(IndexDefinition {
            name: "shared_name".to_string(),
            field: "x".to_string(),
            index_type: IndexType::Regular,
            unique: false,
        })
        .unwrap_err();
    assert!(err.to_string().contains("Index already exists"));
}

#[test]
fn test_btree_blocks_fuzzy_and_legacy() {
    let mut mgr = IndexManager::new();
    mgr.create_btree_index("idx1".to_string(), "field".to_string(), false, false).unwrap();

    let err = mgr
        .create_fuzzy_index("idx1".to_string(), "name".to_string(), FuzzyAlgorithm::JaroWinkler, threshold(0.8))
        .unwrap_err();
    assert!(err.to_string().contains("Index already exists"));
    let err = mgr
        .create_index(IndexDefinition {
            name: "idx1".to_string(),
            field: "x".to_string(),
            index_type: IndexType::Regular,
            unique: false,
        })
        .unwrap_err();
    assert!(err.to_string().contains("Index already exists"));
}

#[test]
fn test_compound_index_needs_fields() {
    let mut mgr = IndexManager::new();
    let err = mgr.create_compound_index("c".to_string(), vec![], false, false).unwrap_err();
    assert_eq!(err.to_string(), "Compound index must have at least one field");
    assert!(mgr.get_btree_index("c").is_none());
}

#[test]
fn test_created_index_is_building_until_ready() {
    let mut mgr = IndexManager::new();
    mgr.create_btree_index("age".to_string(), "age".to_string(), false, false).unwrap();
    assert!(mgr.get_btree_index("age").unwrap().is_building());
    assert!(mgr.list_indexes_with_compound_info().is_empty());
    mgr.set_index_ready("age").unwrap();
    assert!(!mgr.get_btree_index("age").unwrap().is_building());
    assert_eq!(mgr.list_indexes_with_compound_info().len(), 1);
    let err = mgr.set_index_ready("nope").unwrap_err();
    assert_eq!(err.to_string(), "Index not found: nope");
}

#[test]
fn test_list_indexes_sorted_over_kinds() {
    let mut mgr = IndexManager::new();
    mgr.create_btree_index("zeta".to_string(), "z".to_string(), false, false).unwrap();
    mgr.create_fuzzy_index("alpha".to_string(), "a".to_string(), FuzzyAlgorithm::Levenshtein, threshold(0.5)).unwrap();
    mgr.create_index(IndexDefinition {
        name: "mid".to_string(),
        field: "m".to_string(),
        index_type: IndexType::Regular,
        unique: false,
    })
    .unwrap();
    assert_eq!(mgr.list_indexes(), vec!["alpha".to_string(), "mid".to_string(), "zeta".to_string()]);
    assert_eq!(mgr.total_index_count(), 2);
}

#[test]
fn test_prefix_fields_of_ready_indexes() {
    let mut mgr = IndexManager::new();
    mgr.create_compound_index("loc".to_string(), vec!["country".to_string(), "city".to_string()], false, true)
        .unwrap();
    mgr.set_index_ready("loc").unwrap();
    mgr.create_index(IndexDefinition {
        name: "by_x".to_string(),
        field: "x".to_string(),
        index_type: IndexType::Regular,
        unique: false,
    })
    .unwrap();
    mgr.create_btree_index("hidden".to_string(), "h".to_string(), false, false).unwrap();
    assert_eq!(
        mgr.list_indexes_with_prefix_field(),
        vec![("by_x".to_string(), "x".to_string()), ("loc".to_string(), "country".to_string())]
    );
    let infos = mgr.list_indexes_with_compound_info();
    assert!(infos[1].sparse);
}

#[test]
fn test_add_then_remove_document() {
    let mut mgr = IndexManager::new();
    mgr.create_btree_index("by_tag".to_string(), "tag".to_string(), false, false).unwrap();
    let d = doc(vec![array("tag", vec![s("x"), s("y"), s("x")])]);
    mgr.add_document_to_indexes(&d, &DocumentId::Int(7), None).unwrap();
    {
        let t = mgr.get_btree_index("by_tag").unwrap();
        assert_eq!(t.size(), 2);
        assert!(t.metadata.multikey);
        assert_eq!(t.search(&IndexKey::String("x".to_string())), Some(DocumentId::Int(7)));
        assert_eq!(t.search(&IndexKey::String("y".to_string())), Some(DocumentId::Int(7)));
    }
    assert_eq!(mgr.dirty_btree_index_names(), vec!["by_tag".to_string()]);
    mgr.remove_document_from_indexes(&d, &DocumentId::Int(7), None).unwrap();
    let t = mgr.get_btree_index("by_tag").unwrap();
    assert_eq!(t.size(), 0);
    assert_eq!(t.search(&IndexKey::String("x".to_string())), None);
}

#[test]
fn test_null_keys_only_in_unique_non_sparse() {
    let mut mgr = IndexManager::new();
    mgr.create_btree_index("plain".to_string(), "email".to_string(), false, false).unwrap();
    mgr.create_btree_index("uniq".to_string(), "email".to_string(), true, false).unwrap();
    mgr.create_btree_index("uniq_sparse".to_string(), "email".to_string(), true, true).unwrap();
    let missing = doc(vec![scalar("name", s("n"))]);
    mgr.add_document_to_indexes(&missing, &DocumentId::Int(1), None).unwrap();
    assert_eq!(mgr.get_btree_index("plain").unwrap().size(), 0);
    assert_eq!(mgr.get_btree_index("uniq").unwrap().size(), 1);
    assert_eq!(mgr.get_btree_index("uniq_sparse").unwrap().size(), 0);
    assert_eq!(mgr.dirty_btree_index_names(), vec!["uniq".to_string()]);
    // A second document without the field is a duplicate null on the unique index.
    let err = mgr.add_document_to_indexes(&missing, &DocumentId::Int(2), None).unwrap_err();
    assert!(err.to_string().starts_with("Duplicate key: Null"));
}

#[test]
fn test_unique_violation_and_exclusions() {
    let mut mgr = IndexManager::new();
    mgr.create_btree_index("email".to_string(), "email".to_string(), true, false).unwrap();
    let d1 = doc(vec![scalar("email", s("a@x"))]);
    mgr.add_document_to_indexes(&d1, &DocumentId::Int(1), None).unwrap();
    assert!(mgr.check_unique_constraints(&d1, None, None).is_err());
    assert!(mgr.check_unique_constraints(&d1, Some(&DocumentId::Int(1)), None).is_ok());
    assert!(mgr.check_unique_constraints(&d1, None, Some("email")).is_ok());
    let err = mgr.add_document_to_indexes(&d1, &DocumentId::Int(2), None).unwrap_err();
    assert_eq!(err.to_string(), "Duplicate key: String(\"a@x\") (unique index)");
    // Skipping the unique index lets the document through.
    mgr.add_document_to_indexes(&d1, &DocumentId::Int(2), Some("email")).unwrap();
    assert_eq!(mgr.get_btree_index("email").unwrap().size(), 1);
    assert!(mgr.has_unique_index());
}

#[test]
fn test_compound_array_error_message() {
    let mut mgr = IndexManager::new();
    mgr.create_compound_index("ab".to_string(), vec!["a".to_string(), "b".to_string()], true, false).unwrap();
    let d = doc(vec![array("a", vec![num(1)]), array("b", vec![num(2)])]);
    let err = mgr.add_document_to_indexes(&d, &DocumentId::Int(1), None).unwrap_err();
    assert_eq!(err.to_string(), "Compound index 'ab' cannot index multiple array fields: a, b");
    let err = mgr.check_unique_constraints(&d, None, None).unwrap_err();
    assert_eq!(err.to_string(), "Compound index 'ab' cannot index multiple array fields: a, b");
}

#[test]
fn test_sparse_compound_skips_incomplete_document() {
    let mut mgr = IndexManager::new();
    mgr.create_compound_index("ab".to_string(), vec!["a".to_string(), "b".to_string()], false, true).unwrap();
    let partial = doc(vec![scalar("a", num(1))]);
    mgr.add_document_to_indexes(&partial, &DocumentId::Int(1), None).unwrap();
    assert_eq!(mgr.get_btree_index("ab").unwrap().size(), 0);
    assert!(!mgr.has_dirty_indexes());
    let full = doc(vec![scalar("a", num(1)), scalar("b", s("q"))]);
    mgr.add_document_to_indexes(&full, &DocumentId::Int(2), None).unwrap();
    let t = mgr.get_btree_index("ab").unwrap();
    assert_eq!(
        t.search(&IndexKey::Compound(vec![IndexKey::Int(1), IndexKey::String("q".to_string())])),
        Some(DocumentId::Int(2))
    );
    assert!(mgr.has_dirty_indexes());
}

#[test]
fn test_case_insensitive_index_lowercases() {
    let mut mgr = IndexManager::new();
    mgr.create_btree_index_ci("email_ci".to_string(), "email".to_string(), true).unwrap();
    let d = doc(vec![scalar("email", s("Bob@Example.COM"))]);
    mgr.add_document_to_indexes(&d, &DocumentId::Int(3), None).unwrap();
    let t = mgr.get_btree_index("email_ci").unwrap();
    assert_eq!(t.search(&IndexKey::String("bob@example.com".to_string())), Some(DocumentId::Int(3)));
}

#[test]
fn test_drop_index_clears_path_and_marks() {
    let mut mgr = IndexManager::new();
    mgr.create_fuzzy_index_with_storage(
        "f".to_string(),
        "name".to_string(),
        FuzzyAlgorithm::JaroWinkler,
        threshold(0.7),
        Some("/tmp/f.fzidx".to_string()),
    )
    .unwrap();
    assert_eq!(mgr.get_index_path("f"), Some(&"/tmp/f.fzidx".to_string()));
    mgr.get_fuzzy_index_mut("f").unwrap();
    assert_eq!(mgr.dirty_fuzzy_index_names(), vec!["f".to_string()]);
    mgr.drop_index("f").unwrap();
    assert!(mgr.get_index_path("f").is_none());
    assert!(!mgr.has_dirty_indexes());
    let err = mgr.drop_index("f").unwrap_err();
    assert_eq!(err.to_string(), "Index not found: f");
}

#[test]
fn test_fuzzy_index_for_field_and_list() {
    let mut mgr = IndexManager::new();
    mgr.create_fuzzy_index("n1".to_string(), "name".to_string(), FuzzyAlgorithm::JaroWinkler, threshold(0.8)).unwrap();
    mgr.create_fuzzy_index("t1".to_string(), "title".to_string(), FuzzyAlgorithm::Levenshtein, threshold(0.6)).unwrap();
    assert_eq!(mgr.get_fuzzy_index_for_field("title").unwrap().metadata.name, "t1");
    assert!(mgr.get_fuzzy_index_for_field("body").is_none());
    assert_eq!(mgr.list_fuzzy_indexes().len(), 2);
}

#[test]
fn test_stats_refresh_through_manager() {
    let mut mgr = IndexManager::new();
    mgr.create_btree_index("k".to_string(), "k".to_string(), false, false).unwrap();
    for i in 0..5u64 {
        let d = doc(vec![scalar("k", num(i % 3))]);
        mgr.add_document_to_indexes(&d, &DocumentId::Int(i as i64), None).unwrap();
    }
    assert_eq!(mgr.check_and_refresh_stale_stats(), 1);
    assert_eq!(mgr.get_btree_index("k").unwrap().metadata.stats.distinct_count, 3);
    assert_eq!(mgr.check_and_refresh_stale_stats(), 0);
    assert!(mgr.refresh_index_stats("nope").is_err());
    mgr.refresh_all_stats();
    assert_eq!(mgr.get_btree_index("k").unwrap().counters().writes_since_refresh, 0);
}

#[test]
fn test_key_of_json_numbers() {
    assert_eq!(key_of_json(&num(5), false), IndexKey::Int(5));
    let big = key_of_json(&num(u64::MAX), false);
    let f = u64::MAX as f64;
    assert_eq!(big, IndexKey::Float(OrderedFloat(f.to_bits() | (1u64 << 63))));
    let just_above = key_of_json(&num((1u64 << 63) + 1025), false);
    let g = ((1u64 << 63) + 1025) as f64;
    assert_eq!(just_above, IndexKey::Float(OrderedFloat(g.to_bits() | (1u64 << 63))));
    let neg = key_of_json(&JsonValue::Number(JsonNumber::Float((-2.5f64).to_bits(), "-2.5".to_string())), false);
    assert_eq!(neg, IndexKey::Float(OrderedFloat(!(-2.5f64).to_bits())));
    assert_eq!(key_of_json(&s("AbC"), true), IndexKey::String("abc".to_string()));
    assert_eq!(key_of_json(&JsonValue::Array(vec![]), false), IndexKey::Null);
}

#[test]
fn test_is_key_all_null() {
    assert!(IndexManager::is_key_all_null(&IndexKey::Null));
    assert!(IndexManager::is_key_all_null(&IndexKey::Compound(vec![IndexKey::Null, IndexKey::Null])));
    assert!(!IndexManager::is_key_all_null(&IndexKey::Compound(vec![IndexKey::Null, IndexKey::Int(1)])));
    assert!(!IndexManager::is_key_all_null(&IndexKey::Int(0)));
}

#[test]
fn test_keys_at_paths_for_bulk_builds() {
    let d = doc(vec![scalar("country", s("US")), array("tags", vec![s("a")])]);
    assert_eq!(key_at(&d, "country"), Some(IndexKey::String("US".to_string())));
    assert_eq!(key_at(&d, "tags"), Some(IndexKey::Null));
    assert_eq!(key_at(&d, "missing"), None);
    let fields = vec!["country".to_string(), "city".to_string()];
    assert_eq!(
        compound_key_at(&d, &fields),
        IndexKey::Compound(vec![IndexKey::String("US".to_string()), IndexKey::Null])
    );
}

#[test]
fn unique_check_names_the_key_and_fields() {
    let mut mgr = IndexManager::new();
    mgr.create_btree_index("email".to_string(), "email".to_string(), true, false).unwrap();
    mgr.create_compound_index("ab".to_string(), vec!["a".to_string(), "b".to_string()], true, false).unwrap();
    let d1 = doc(vec![scalar("email", s("a@x")), scalar("a", num(1)), scalar("b", s("q"))]);
    mgr.add_document_to_indexes(&d1, &DocumentId::Int(1), None).unwrap();
    let d2 = doc(vec![scalar("email", s("b@x")), scalar("a", num(1)), scalar("b", s("q"))]);
    let err = mgr.check_unique_constraints(&d2, None, None).unwrap_err();
    assert_eq!(err.to_string(), "Duplicate key: Compound([Int(1), String(\"q\")]) in field(s) 'a, b' (unique index)");
    let d3 = doc(vec![scalar("email", s("a@x")), scalar("a", num(2)), scalar("b", s("q"))]);
    let err = mgr.check_unique_constraints(&d3, None, None).unwrap_err();
    assert_eq!(err.to_string(), "Duplicate key: String(\"a@x\") in field(s) 'email' (unique index)");
}

#[test]
fn refused_compound_document_leaves_the_tree_empty() {
    let mut mgr = IndexManager::new();
    mgr.create_compound_index("country_tags_idx".to_string(), vec!["country".to_string(), "tags".to_string()], false, false)
        .unwrap();
    let d = doc(vec![array("country", vec![s("US"), s("CA")]), array("tags", vec![s("a"), s("b")])]);
    let err = mgr.add_document_to_indexes(&d, &DocumentId::Int(1), None).unwrap_err();
    assert!(err.to_string().contains("cannot index multiple array fields"));
    assert_eq!(mgr.get_btree_index("country_tags_idx").unwrap().size(), 0);
}

#[test]
fn removing_a_document_keeps_the_others() {
    let mut mgr = IndexManager::new();
    mgr.create_btree_index("by_tag".to_string(), "tag".to_string(), false, false).unwrap();
    let other = doc(vec![scalar("tag", s("x"))]);
    mgr.add_document_to_indexes(&other, &DocumentId::Int(1), None).unwrap();
    let d = doc(vec![array("tag", vec![s("x"), s("y")])]);
    mgr.add_document_to_indexes(&d, &DocumentId::Int(2), None).unwrap();
    assert_eq!(mgr.get_btree_index("by_tag").unwrap().size(), 3);
    mgr.remove_document_from_indexes(&d, &DocumentId::Int(2), None).unwrap();
    let t = mgr.get_btree_index("by_tag").unwrap();
    assert_eq!(t.size(), 1);
    assert_eq!(t.search(&IndexKey::String("x".to_string())), Some(DocumentId::Int(1)));
    assert_eq!(t.search(&IndexKey::String("y".to_string())), None);
}

#[test]
fn add_document_refuses_multiple_arrays_and_keeps_the_index() {
    let mut m = IndexManager::new();
    m.create_compound_index("country_tags_idx".to_string(), vec!["country".to_string(), "tags".to_string()], false, false)
        .unwrap();
    let d = doc(vec![array("country", vec![s("US"), s("CA")]), array("tags", vec![s("a"), s("b")])]);
    match m.add_document_to_indexes(&d, &DocumentId::Int(1), None) {
        Err(IronBaseError::IndexError(msg)) => assert!(msg.contains("cannot index multiple array fields")),
        _ => panic!("a document with two arrays is refused"),
    }
    assert_eq!(m.get_btree_index("country_tags_idx").unwrap().size(), 0);
}

#[test]
fn add_document_refuses_a_unique_duplicate() {
    let mut m = IndexManager::new();
    m.create_btree_index("email".to_string(), "email".to_string(), true, false).unwrap();
    let d = doc(vec![scalar("email", s("a@x"))]);
    m.add_document_to_indexes(&d, &DocumentId::Int(1), None).unwrap();
    assert!(m.add_document_to_indexes(&d, &DocumentId::Int(2), None).is_err());
    assert_eq!(m.get_btree_index("email").unwrap().size(), 1);
    assert!(m.get_btree_index("email").unwrap().contains_key(&IndexKey::String("a@x".to_string())));
    assert!(!m.get_btree_index("email").unwrap().contains_key(&IndexKey::String("b@x".to_string())));
    // excluded from the check, the unique index takes no part
    let other = doc(vec![scalar("email", s("b@x"))]);
    m.add_document_to_indexes(&other, &DocumentId::Int(3), Some("email")).unwrap();
    assert_eq!(m.get_btree_index("email").unwrap().size(), 1);
}

#[test]
fn add_then_remove_gives_the_indexes_back() {
    let mut m = IndexManager::new();
    m.create_btree_index("age".to_string(), "age".to_string(), false, false).unwrap();
    m.create_btree_index("tags".to_string(), "tags".to_string(), false, false).unwrap();
    let first = doc(vec![scalar("age", num(30)), array("tags", vec![s("x")])]);
    m.add_document_to_indexes(&first, &DocumentId::Int(1), None).unwrap();
    let d = doc(vec![scalar("age", num(41)), array("tags", vec![s("x"), s("y")])]);
    m.add_document_to_indexes(&d, &DocumentId::Int(2), None).unwrap();
    assert_eq!(m.get_btree_index("tags").unwrap().size(), 3);
    m.remove_document_from_indexes(&d, &DocumentId::Int(2), None).unwrap();
    assert_eq!(m.get_btree_index("age").unwrap().size(), 1);
    assert_eq!(m.get_btree_index("tags").unwrap().size(), 1);
    assert!(m.get_btree_index("age").unwrap().contains_key(&IndexKey::Int(30)));
    assert!(!m.get_btree_index("age").unwrap().contains_key(&IndexKey::Int(41)));
}

#[test]
fn unique_check_names_the_taken_key() {
    let mut m = IndexManager::new();
    m.create_btree_index("email".to_string(), "email".to_string(), true, false).unwrap();
    m.add_document_to_indexes(&doc(vec![scalar("email", s("a@x"))]), &DocumentId::Int(1), None).unwrap();
    let err = m.check_unique_constraints(&doc(vec![scalar("email", s("a@x"))]), None, None).unwrap_err();
    assert_eq!(err.to_string(), "Duplicate key: String(\"a@x\") in field(s) 'email' (unique index)");
    assert!(m.check_unique_constraints(&doc(vec![scalar("email", s("b@x"))]), None, None).is_ok());
}
