use ironbase_core::document::DocumentId;
use ironbase_core::index::btree::{BPlusTree, Histogram, IndexStats, MostCommonValues, RangeQueryMode, ScanOrder};
use ironbase_core::index::key::{IndexKey, OrderedFloat};
use ironbase_core::index::traits::IndexTrait;
use ironbase_core::limits::MAX_KEYS_PER_NODE;
use std::collections::{HashMap, HashSet};

/// Order rank of a float key: NaN above every number, both zeros on one rank.
fn rank(f: f64) -> u64 {
    if f.is_nan() {
        return u64::MAX;
    }
    let f = if f == 0.0 { 0.0 } else { f };
    let b = f.to_bits();
    if b >> 63 == 1 {
        !b
    } else {
        b | (1u64 << 63)
    }
}

fn scan_all() -> RangeQueryMode {
    RangeQueryMode::Scan { skip: 0, limit: None, order: ScanOrder::Asc }
}

fn s(v: &str) -> IndexKey {
    IndexKey::String(v.to_string())
}

fn compound(a: &str, b: &str) -> IndexKey {
    IndexKey::Compound(vec![s(a), s(b)])
}

#[test]
fn test_index_key_ordering() {
    assert!(IndexKey::Null < IndexKey::Bool(false));
    assert!(IndexKey::Bool(false) < IndexKey::Bool(true));
    assert!(IndexKey::Bool(true) < IndexKey::Int(0));
    assert!(IndexKey::Int(5) < IndexKey::Int(10));
    assert!(IndexKey::Int(10) < IndexKey::Float(OrderedFloat(rank(10.5))));
    assert!(IndexKey::Float(OrderedFloat(rank(10.5))) < IndexKey::String("a".to_string()));
    assert!(IndexKey::String("a".to_string()) < IndexKey::String("b".to_string()));
}

#[test]
fn test_btree_insert_search() {
    let mut tree = BPlusTree::new("test_idx".to_string(), "age".to_string(), false, false);
    tree.insert(IndexKey::Int(25), DocumentId::Int(1)).unwrap();
    tree.insert(IndexKey::Int(30), DocumentId::Int(2)).unwrap();
    tree.insert(IndexKey::Int(20), DocumentId::Int(3)).unwrap();
    assert_eq!(tree.search(&IndexKey::Int(25)), Some(DocumentId::Int(1)));
    assert_eq!(tree.search(&IndexKey::Int(30)), Some(DocumentId::Int(2)));
    assert_eq!(tree.search(&IndexKey::Int(20)), Some(DocumentId::Int(3)));
    assert_eq!(tree.search(&IndexKey::Int(99)), None);
}

#[test]
fn test_btree_unique_constraint() {
    let mut tree = BPlusTree::new("email_idx".to_string(), "email".to_string(), true, false);
    tree.insert(IndexKey::String("test@example.com".to_string()), DocumentId::Int(1)).unwrap();
    let result = tree.insert(IndexKey::String("test@example.com".to_string()), DocumentId::Int(2));
    assert!(result.is_err());
}

#[test]
fn test_btree_range_query() {
    let mut tree = BPlusTree::new("age_idx".to_string(), "age".to_string(), false, false);
    for i in 0..100 {
        tree.insert(IndexKey::Int(i), DocumentId::Int(i)).unwrap();
    }
    let results = tree.range_query(&IndexKey::Int(10), &IndexKey::Int(20), true, false, scan_all()).unwrap_docs();
    assert_eq!(results.len(), 10);
}

#[test]
fn test_compound_index_key_ordering() {
    let key1 = compound("US", "NYC");
    let key2 = compound("US", "LA");
    let key3 = compound("CA", "Toronto");
    assert!(key3 < key1);
    assert!(key3 < key2);
    assert!(key2 < key1);
}

#[test]
fn test_compound_index_create() {
    let tree = BPlusTree::new_compound(
        "users_location".to_string(),
        vec!["country".to_string(), "city".to_string()],
        false,
        false,
    );
    assert_eq!(tree.metadata.name, "users_location");
    assert_eq!(tree.metadata.field, "country");
    assert_eq!(tree.metadata.fields, vec!["country".to_string(), "city".to_string()]);
    assert!(tree.metadata.is_compound());
}

#[test]
fn test_compound_index_insert_search() {
    let mut tree = BPlusTree::new_compound(
        "users_location".to_string(),
        vec!["country".to_string(), "city".to_string()],
        false,
        false,
    );
    let key1 = compound("US", "NYC");
    let key2 = compound("US", "LA");
    let key3 = compound("CA", "Toronto");
    tree.insert(key1.clone(), DocumentId::Int(1)).unwrap();
    tree.insert(key2.clone(), DocumentId::Int(2)).unwrap();
    tree.insert(key3.clone(), DocumentId::Int(3)).unwrap();
    assert_eq!(tree.search(&key1), Some(DocumentId::Int(1)));
    assert_eq!(tree.search(&key2), Some(DocumentId::Int(2)));
    assert_eq!(tree.search(&key3), Some(DocumentId::Int(3)));
    assert_eq!(tree.search(&compound("UK", "London")), None);
}

#[test]
fn test_compound_index_range_query() {
    let mut tree = BPlusTree::new_compound(
        "users_location".to_string(),
        vec!["country".to_string(), "city".to_string()],
        false,
        false,
    );
    let keys = vec![
        (vec!["CA", "Montreal"], 1),
        (vec!["CA", "Toronto"], 2),
        (vec!["CA", "Vancouver"], 3),
        (vec!["US", "Chicago"], 4),
        (vec!["US", "LA"], 5),
        (vec!["US", "NYC"], 6),
    ];
    for (fields, id) in &keys {
        tree.insert(compound(fields[0], fields[1]), DocumentId::Int(*id)).unwrap();
    }
    let start = compound("US", "");
    let end = compound("US", "\u{10ffff}");
    let results = tree.range_query(&start, &end, true, true, scan_all()).unwrap_docs();
    assert_eq!(results.len(), 3);
}

#[test]
fn test_compound_index_unique() {
    let mut tree = BPlusTree::new_compound(
        "users_location".to_string(),
        vec!["country".to_string(), "city".to_string()],
        true,
        false,
    );
    let key = compound("US", "NYC");
    tree.insert(key.clone(), DocumentId::Int(1)).unwrap();
    let result = tree.insert(key, DocumentId::Int(2));
    assert!(result.is_err());
}

#[test]
fn test_apply_batch_updates_no_duplicates() {
    let mut tree = BPlusTree::new("test_idx".to_string(), "name".to_string(), false, false);
    tree.insert(s("alice"), DocumentId::String("doc1".to_string())).unwrap();
    tree.insert(s("bob"), DocumentId::String("doc2".to_string())).unwrap();
    tree.insert(s("carol"), DocumentId::String("doc3".to_string())).unwrap();
    assert_eq!(tree.metadata.num_keys, 3);
    let updates = vec![
        (s("alice"), DocumentId::String("doc1".to_string()), s("alice"), DocumentId::String("doc1".to_string())),
        (s("bob"), DocumentId::String("doc2".to_string()), s("bob"), DocumentId::String("doc2".to_string())),
        (s("carol"), DocumentId::String("doc3".to_string()), s("carol"), DocumentId::String("doc3".to_string())),
    ];
    tree.apply_batch_updates(updates).unwrap();
    assert_eq!(tree.metadata.num_keys, 3, "BUG #3 regression: apply_batch_updates created duplicates!");
    let alice_key = s("alice");
    let alice_results = tree.range_query(&alice_key, &alice_key, true, true, scan_all()).unwrap_docs();
    assert_eq!(alice_results.len(), 1, "BUG #3 regression: 'alice' has duplicates!");
    let bob_key = s("bob");
    let bob_results = tree.range_query(&bob_key, &bob_key, true, true, scan_all()).unwrap_docs();
    assert_eq!(bob_results.len(), 1, "BUG #3 regression: 'bob' has duplicates!");
}

#[test]
fn test_clear_resets_tree() {
    let mut tree = BPlusTree::new("test_idx".to_string(), "value".to_string(), false, false);
    for i in 0..10 {
        tree.insert(IndexKey::Int(i), DocumentId::Int(i)).unwrap();
    }
    assert_eq!(tree.metadata.num_keys, 10);
    assert!(tree.metadata.tree_height >= 1);
    tree.clear();
    assert_eq!(tree.metadata.num_keys, 0, "num_keys should be 0 after clear");
    assert_eq!(tree.metadata.tree_height, 1, "tree_height should be 1 after clear");
    let all_entries = tree.get_all_entries();
    assert!(all_entries.is_empty(), "Tree should have no entries after clear");
    tree.insert(IndexKey::Int(100), DocumentId::Int(100)).unwrap();
    assert_eq!(tree.metadata.num_keys, 1);
}

#[test]
fn test_refresh_stats_single_field() {
    let mut tree = BPlusTree::new("idx".into(), "field".into(), false, false);
    tree.insert(IndexKey::String("a".into()), DocumentId::Int(1)).unwrap();
    tree.insert(IndexKey::String("b".into()), DocumentId::Int(2)).unwrap();
    tree.insert(IndexKey::String("a".into()), DocumentId::Int(3)).unwrap();
    tree.refresh_stats();
    assert_eq!(tree.metadata.stats.distinct_count, 2);
    assert_eq!(tree.metadata.stats.null_count, 0);
    assert!(tree.metadata.stats.last_analyzed > 0);
    assert!((f32::from_bits(tree.metadata.stats.sample_rate) - 1.0).abs() < f32::EPSILON);
}

#[test]
fn test_refresh_stats_with_nulls() {
    let mut tree = BPlusTree::new("idx".into(), "field".into(), true, false);
    tree.insert(IndexKey::String("a".into()), DocumentId::Int(1)).unwrap();
    tree.insert(IndexKey::Null, DocumentId::Int(2)).unwrap();
    tree.refresh_stats();
    assert_eq!(tree.metadata.stats.distinct_count, 2);
    assert_eq!(tree.metadata.stats.null_count, 1);
}

#[test]
fn test_refresh_stats_empty_index() {
    let mut tree = BPlusTree::new("idx".into(), "field".into(), false, false);
    tree.refresh_stats();
    assert_eq!(tree.metadata.stats.distinct_count, 0);
    assert_eq!(tree.metadata.stats.null_count, 0);
}

#[test]
fn test_refresh_stats_many_duplicates() {
    let mut tree = BPlusTree::new("idx".into(), "status".into(), false, false);
    for i in 0..100 {
        let status = match i % 3 {
            0 => "active",
            1 => "pending",
            _ => "closed",
        };
        tree.insert(IndexKey::String(status.into()), DocumentId::Int(i)).unwrap();
    }
    tree.refresh_stats();
    assert_eq!(tree.metadata.stats.distinct_count, 3);
    assert_eq!(tree.metadata.stats.null_count, 0);
}

fn stats(distinct_count: u64, null_count: u64, multikey_ratio: f32, sample_rate: f32) -> IndexStats {
    let mut st = IndexStats::default();
    st.distinct_count = distinct_count;
    st.null_count = null_count;
    st.multikey_ratio = multikey_ratio.to_bits();
    st.sample_rate = sample_rate.to_bits();
    st.last_analyzed = 0;
    st
}

#[test]
fn test_stats_validate_and_fix() {
    let mut st = stats(50, 10, 0.5, 1.0);
    assert!(!st.validate_and_fix(100));
    assert_eq!(st.distinct_count, 50);
    assert_eq!(st.null_count, 10);

    let mut st = stats(200, 10, 0.5, 1.0);
    assert!(st.validate_and_fix(100));
    assert_eq!(st.distinct_count, 100);

    let mut st = stats(50, 150, 0.5, 1.0);
    assert!(st.validate_and_fix(100));
    assert_eq!(st.null_count, 100);

    let mut st = stats(50, 10, 1.5, 1.0);
    assert!(st.validate_and_fix(100));
    assert_eq!(f32::from_bits(st.multikey_ratio), 0.0);

    let mut st = stats(50, 10, f32::NAN, f32::NAN);
    assert!(st.validate_and_fix(100));
    assert_eq!(f32::from_bits(st.multikey_ratio), 0.0);
    assert_eq!(f32::from_bits(st.sample_rate), 0.0);
}

#[test]
fn test_btree_insert_triggers_split() {
    let mut tree = BPlusTree::new("test_idx".to_string(), "field".to_string(), false, false);
    assert_eq!(tree.metadata.tree_height, 1);
    for i in 0..=MAX_KEYS_PER_NODE {
        tree.insert(IndexKey::Int(i as i64), DocumentId::Int(i as i64)).unwrap();
    }
    assert_eq!(tree.metadata.tree_height, 2, "Tree height should increase to 2 after split");
    for i in 0..=MAX_KEYS_PER_NODE {
        assert_eq!(
            tree.search(&IndexKey::Int(i as i64)),
            Some(DocumentId::Int(i as i64)),
            "Element {} should be found after split",
            i
        );
    }
}

#[test]
fn test_btree_bulk_load_large_dataset() {
    let mut tree = BPlusTree::new("large_idx".to_string(), "id".to_string(), false, false);
    let entries: Vec<_> = (0..10000).map(|i| (IndexKey::Int(i), DocumentId::Int(i))).collect();
    tree.build_from_sorted(entries, false).unwrap();
    assert_eq!(tree.metadata.num_keys, 10000);
    assert!(tree.metadata.tree_height > 1, "Large dataset should create multi-level tree");
    assert_eq!(tree.search(&IndexKey::Int(0)), Some(DocumentId::Int(0)), "First element should be found");
    assert_eq!(tree.search(&IndexKey::Int(5000)), Some(DocumentId::Int(5000)), "Middle element should be found");
    assert_eq!(tree.search(&IndexKey::Int(9999)), Some(DocumentId::Int(9999)), "Last element should be found");
    let results = tree.range_query(&IndexKey::Int(100), &IndexKey::Int(200), true, false, scan_all()).unwrap_docs();
    assert_eq!(results.len(), 100, "Range query should return 100 elements");
}

#[test]
fn test_btree_multiple_splits() {
    let mut tree = BPlusTree::new("multi_split_idx".to_string(), "x".to_string(), false, false);
    for i in 0..20000 {
        tree.insert(IndexKey::Int(i), DocumentId::Int(i)).unwrap();
    }
    assert!(
        tree.metadata.tree_height >= 3,
        "20000 elements should create tree with height >= 3, got {}",
        tree.metadata.tree_height
    );
    for i in (0..20000).step_by(100) {
        assert_eq!(
            tree.search(&IndexKey::Int(i)),
            Some(DocumentId::Int(i)),
            "Element {} should be found in multi-level tree",
            i
        );
    }
}

#[test]
fn test_maxkey_ordering() {
    assert!(IndexKey::MaxKey > IndexKey::Null);
    assert!(IndexKey::MaxKey > IndexKey::Bool(true));
    assert!(IndexKey::MaxKey > IndexKey::Int(i64::MAX));
    assert!(IndexKey::MaxKey > IndexKey::Float(OrderedFloat(rank(f64::MAX))));
    assert!(IndexKey::MaxKey > IndexKey::String("zzzzz".to_string()));
    assert!(IndexKey::MaxKey > IndexKey::Compound(vec![IndexKey::String("z".to_string())]));
    assert_eq!(IndexKey::MaxKey, IndexKey::MaxKey);
}

#[test]
fn test_build_prefix_range() {
    let tree = BPlusTree::new_compound(
        "users_country_city".to_string(),
        vec!["country".to_string(), "city".to_string()],
        false,
        false,
    );
    let (start, end) = tree.build_prefix_range(IndexKey::String("US".to_string()));
    if let IndexKey::Compound(ref parts) = start {
        assert_eq!(parts.len(), 2);
        assert_eq!(parts[0], IndexKey::String("US".to_string()));
        assert_eq!(parts[1], IndexKey::Null);
    } else {
        panic!("Expected Compound key for start");
    }
    if let IndexKey::Compound(ref parts) = end {
        assert_eq!(parts.len(), 2);
        assert_eq!(parts[0], IndexKey::String("US".to_string()));
        assert_eq!(parts[1], IndexKey::MaxKey);
    } else {
        panic!("Expected Compound key for end");
    }
}

#[test]
fn test_compound_prefix_query_range_query() {
    let mut tree = BPlusTree::new_compound(
        "users_country_city".to_string(),
        vec!["country".to_string(), "city".to_string()],
        false,
        false,
    );
    let data = vec![("HU", "Budapest", 1), ("HU", "Debrecen", 2), ("US", "LA", 3), ("US", "NYC", 4), ("US", "SF", 5)];
    for (country, city, id) in &data {
        tree.insert(compound(country, city), DocumentId::Int(*id)).unwrap();
    }
    let (start, end) = tree.build_prefix_range(IndexKey::String("US".to_string()));
    let results = tree.range_query(&start, &end, true, true, scan_all()).unwrap_docs();
    assert_eq!(results.len(), 3, "Should find 3 US cities");
    assert!(results.contains(&DocumentId::Int(3)));
    assert!(results.contains(&DocumentId::Int(4)));
    assert!(results.contains(&DocumentId::Int(5)));
    let (start, end) = tree.build_prefix_range(IndexKey::String("HU".to_string()));
    let results = tree.range_query(&start, &end, true, true, scan_all()).unwrap_docs();
    assert_eq!(results.len(), 2, "Should find 2 HU cities");
    assert!(results.contains(&DocumentId::Int(1)));
    assert!(results.contains(&DocumentId::Int(2)));
    let (start, end) = tree.build_prefix_range(IndexKey::String("DE".to_string()));
    let results = tree.range_query(&start, &end, true, true, scan_all()).unwrap_docs();
    assert_eq!(results.len(), 0, "Should find no DE cities");
}

#[test]
fn test_non_unique_index_delete_with_duplicates() {
    let mut tree = BPlusTree::new("email_idx".to_string(), "email".to_string(), false, false);
    let email_key = IndexKey::String("alice@test.com".to_string());
    for id in [100, 200, 300, 400, 500] {
        tree.insert(email_key.clone(), DocumentId::Int(id)).unwrap();
    }
    assert_eq!(tree.metadata.num_keys, 5);
    tree.delete(&email_key, &DocumentId::Int(300)).unwrap();
    assert_eq!(tree.metadata.num_keys, 4);
    tree.delete(&email_key, &DocumentId::Int(100)).unwrap();
    assert_eq!(tree.metadata.num_keys, 3);
    tree.delete(&email_key, &DocumentId::Int(500)).unwrap();
    assert_eq!(tree.metadata.num_keys, 2);
    let remaining = tree.range_query(&email_key, &email_key, true, true, scan_all()).unwrap_docs();
    assert_eq!(remaining.len(), 2);
    assert!(remaining.contains(&DocumentId::Int(200)));
    assert!(remaining.contains(&DocumentId::Int(400)));
}

#[test]
fn test_non_unique_range_query_no_duplicates() {
    let mut tree = BPlusTree::new("status_idx".to_string(), "status".to_string(), false, false);
    let active_key = IndexKey::String("active".to_string());
    let inactive_key = IndexKey::String("inactive".to_string());
    tree.insert(active_key.clone(), DocumentId::Int(1)).unwrap();
    tree.insert(active_key.clone(), DocumentId::Int(2)).unwrap();
    tree.insert(active_key.clone(), DocumentId::Int(3)).unwrap();
    tree.insert(inactive_key.clone(), DocumentId::Int(10)).unwrap();
    tree.insert(inactive_key.clone(), DocumentId::Int(20)).unwrap();
    let active_results = tree.range_query(&active_key, &active_key, true, true, scan_all()).unwrap_docs();
    assert_eq!(active_results.len(), 3);
    let mut seen = HashSet::new();
    for doc_id in &active_results {
        assert!(seen.insert(doc_id.clone()), "Duplicate doc_id found: {:?}", doc_id);
    }
}

// ---------------------------------------------------------------------------
// Further checks of the tree's contracts on concrete values
// ---------------------------------------------------------------------------

fn tree_0_to(n: i64) -> BPlusTree {
    let mut tree = BPlusTree::new("t".to_string(), "f".to_string(), false, false);
    for i in 0..n {
        tree.insert(IndexKey::Int(i), DocumentId::Int(i)).unwrap();
    }
    tree
}

#[test]
fn range_count_matches_scan_length() {
    let tree = tree_0_to(500);
    let c = tree.range_query(&IndexKey::Int(10), &IndexKey::Int(300), false, true, RangeQueryMode::Count).unwrap_count();
    assert_eq!(c, 290);
    let docs = tree.range_query(&IndexKey::Int(10), &IndexKey::Int(300), false, true, scan_all()).unwrap_docs();
    assert_eq!(docs.len(), 290);
    assert_eq!(docs[0], DocumentId::Int(11));
    assert_eq!(docs[289], DocumentId::Int(300));
}

#[test]
fn ascending_scan_skips_then_limits() {
    let tree = tree_0_to(400);
    let mode = RangeQueryMode::Scan { skip: 5, limit: Some(3), order: ScanOrder::Asc };
    let docs = tree.range_query(&IndexKey::Int(100), &IndexKey::Int(200), true, true, mode).unwrap_docs();
    assert_eq!(docs, vec![DocumentId::Int(105), DocumentId::Int(106), DocumentId::Int(107)]);
    let mode = RangeQueryMode::Scan { skip: 0, limit: Some(0), order: ScanOrder::Asc };
    let docs = tree.range_query(&IndexKey::Int(100), &IndexKey::Int(200), true, true, mode).unwrap_docs();
    assert!(docs.is_empty());
}

#[test]
fn descending_scan_starts_from_the_top_and_stops_at_the_limit() {
    let tree = tree_0_to(400);
    let mode = RangeQueryMode::Scan { skip: 2, limit: Some(3), order: ScanOrder::Desc };
    let docs = tree.range_query(&IndexKey::Int(100), &IndexKey::Int(200), true, false, mode).unwrap_docs();
    assert_eq!(docs, vec![DocumentId::Int(197), DocumentId::Int(196), DocumentId::Int(195)]);
    let mode = RangeQueryMode::Scan { skip: 0, limit: Some(0), order: ScanOrder::Desc };
    let docs = tree.range_query(&IndexKey::Int(100), &IndexKey::Int(200), true, true, mode).unwrap_docs();
    assert!(docs.is_empty());
}

#[test]
fn delete_finds_an_entry_among_many_equal_keys() {
    let mut tree = BPlusTree::new("tag_idx".to_string(), "tag".to_string(), false, false);
    let key = IndexKey::String("same".to_string());
    for id in 0..600 {
        tree.insert(key.clone(), DocumentId::Int(id)).unwrap();
    }
    for id in [0, 137, 299, 450, 599] {
        tree.delete(&key, &DocumentId::Int(id)).unwrap();
    }
    assert_eq!(tree.metadata.num_keys, 595);
    let left = tree.range_query(&key, &key, true, true, scan_all()).unwrap_docs();
    assert_eq!(left.len(), 595);
    for id in [0, 137, 299, 450, 599] {
        assert!(!left.contains(&DocumentId::Int(id)));
    }
    // Deleting what is not there changes nothing.
    tree.delete(&key, &DocumentId::Int(137)).unwrap();
    assert_eq!(tree.metadata.num_keys, 595);
}

#[test]
fn batch_update_replaces_the_named_entries() {
    let mut tree = BPlusTree::new("name_idx".to_string(), "name".to_string(), false, false);
    tree.insert(s("alice"), DocumentId::Int(1)).unwrap();
    tree.insert(s("bob"), DocumentId::Int(2)).unwrap();
    let updates = vec![
        (s("alice"), DocumentId::Int(1), s("alicia"), DocumentId::Int(1)),
        (s("bob"), DocumentId::Int(2), s("bob"), DocumentId::Int(2)),
    ];
    tree.apply_batch_updates(updates).unwrap();
    assert_eq!(tree.metadata.num_keys, 2);
    assert!(tree.range_query(&s("alice"), &s("alice"), true, true, scan_all()).unwrap_docs().is_empty());
    assert_eq!(tree.range_query(&s("alicia"), &s("alicia"), true, true, scan_all()).unwrap_docs(), vec![DocumentId::Int(1)]);
}

#[test]
fn unique_batch_update_refuses_a_taken_key() {
    let mut tree = BPlusTree::new("name_idx".to_string(), "name".to_string(), true, false);
    tree.insert(s("alice"), DocumentId::Int(1)).unwrap();
    tree.insert(s("bob"), DocumentId::Int(2)).unwrap();
    let updates = vec![(s("alice"), DocumentId::Int(1), s("bob"), DocumentId::Int(1))];
    let err = tree.apply_batch_updates(updates).unwrap_err();
    assert_eq!(err.to_string(), "Duplicate key: String(\"bob\") (unique index)");
}

#[test]
fn duplicate_key_messages_name_the_key() {
    let mut tree = BPlusTree::new("k".to_string(), "k".to_string(), true, false);
    tree.insert(IndexKey::Int(-7), DocumentId::Int(1)).unwrap();
    let err = tree.insert(IndexKey::Int(-7), DocumentId::Int(2)).unwrap_err();
    assert_eq!(err.to_string(), "Duplicate key: Int(-7) (unique index)");
    let compound = IndexKey::Compound(vec![IndexKey::Bool(true), IndexKey::Null, IndexKey::String("x".to_string())]);
    tree.insert(compound.clone(), DocumentId::Int(3)).unwrap();
    let err = tree.insert(compound, DocumentId::Int(4)).unwrap_err();
    assert_eq!(err.to_string(), "Duplicate key: Compound([Bool(true), Null, String(\"x\")]) (unique index)");
}

#[test]
fn validated_count_of_an_empty_range_is_zero() {
    let tree = tree_0_to(50);
    let mut catalog: HashMap<DocumentId, u64> = HashMap::new();
    for i in 0..50 {
        catalog.insert(DocumentId::Int(i), 0);
    }
    assert_eq!(tree.count_range_validated(&IndexKey::Int(60), &IndexKey::Int(60), false, false, &catalog), 0);
    assert_eq!(tree.count_range_validated(&IndexKey::Int(30), &IndexKey::Int(10), true, true, &catalog), 0);
    assert_eq!(tree.count_range_validated(&IndexKey::Int(5), &IndexKey::Int(5), true, true, &catalog), 1);
}

#[test]
fn pair_scans_return_keys_with_ids() {
    let tree = tree_0_to(300);
    let asc = tree.range_query_pairs(&IndexKey::Int(5), &IndexKey::Int(8), true, true, 0, None, ScanOrder::Asc);
    assert_eq!(asc.len(), 4);
    assert_eq!(asc[0], (IndexKey::Int(5), DocumentId::Int(5)));
    let desc = tree.range_query_pairs(&IndexKey::Int(5), &IndexKey::Int(8), true, true, 1, Some(2), ScanOrder::Desc);
    assert_eq!(desc, vec![(IndexKey::Int(7), DocumentId::Int(7)), (IndexKey::Int(6), DocumentId::Int(6))]);
}

#[test]
fn validated_count_leaves_out_unlisted_documents() {
    let tree = tree_0_to(50);
    let mut catalog: HashMap<DocumentId, u64> = HashMap::new();
    for i in (0..50).step_by(2) {
        catalog.insert(DocumentId::Int(i), 0);
    }
    let c = tree.count_range_validated(&IndexKey::Int(0), &IndexKey::Int(9), true, true, &catalog);
    assert_eq!(c, 5);
}

#[test]
fn delete_of_absent_entry_changes_nothing() {
    let mut tree = tree_0_to(10);
    tree.delete(&IndexKey::Int(3), &DocumentId::Int(4)).unwrap();
    assert_eq!(tree.metadata.num_keys, 10);
    assert_eq!(tree.counters().deletes_since_refresh, 0);
    tree.delete(&IndexKey::Int(3), &DocumentId::Int(3)).unwrap();
    assert_eq!(tree.metadata.num_keys, 9);
    assert_eq!(tree.search(&IndexKey::Int(3)), None);
}

#[test]
fn entries_come_out_in_key_order_after_splits() {
    let mut tree = BPlusTree::new("t".to_string(), "f".to_string(), false, false);
    for i in 0..1000i64 {
        let k = (i * 7919) % 1000;
        tree.insert(IndexKey::Int(k), DocumentId::Int(i)).unwrap();
    }
    let all = tree.get_all_entries();
    assert_eq!(all.len(), 1000);
    for w in all.windows(2) {
        assert!(w[0].0 <= w[1].0);
    }
}

#[test]
fn unique_build_refuses_adjacent_duplicates() {
    let mut tree = BPlusTree::new("t".to_string(), "f".to_string(), true, false);
    let entries = vec![(IndexKey::Int(1), DocumentId::Int(1)), (IndexKey::Int(1), DocumentId::Int(2))];
    assert!(tree.build_from_sorted(entries, true).is_err());
    assert_eq!(tree.metadata.num_keys, 0);
    let entries = vec![(IndexKey::Null, DocumentId::Int(1)), (IndexKey::Int(1), DocumentId::Int(2)), (IndexKey::Int(2), DocumentId::Int(3))];
    tree.build_from_sorted(entries, true).unwrap();
    assert_eq!(tree.metadata.stats.distinct_count, 3);
    assert_eq!(tree.metadata.stats.null_count, 1);
}

#[test]
fn statistics_counters_track_changes() {
    let mut tree = tree_0_to(20);
    assert_eq!(tree.counters().writes_since_refresh, 20);
    assert!(tree.needs_stats_refresh());
    tree.refresh_stats();
    assert_eq!(tree.counters().writes_since_refresh, 0);
    assert_eq!(tree.counters().num_keys_at_last_refresh, 20);
    assert!(!tree.needs_stats_refresh());
    tree.insert(IndexKey::Int(100), DocumentId::Int(100)).unwrap();
    tree.insert(IndexKey::Int(101), DocumentId::Int(101)).unwrap();
    assert!(!tree.needs_stats_refresh());
    tree.insert(IndexKey::Int(102), DocumentId::Int(102)).unwrap();
    assert!(tree.needs_stats_refresh());
}

#[test]
fn most_common_values_of_a_skewed_index() {
    let mut tree = BPlusTree::new("t".to_string(), "status".to_string(), false, false);
    for i in 0..1200 {
        let k = if i % 10 == 0 { "rare" } else if i % 3 == 0 { "mid" } else { "common" };
        tree.insert(s(k), DocumentId::Int(i)).unwrap();
    }
    tree.refresh_stats();
    let mcv = tree.metadata.stats.mcv.as_ref().unwrap();
    assert_eq!(mcv.total_keys, 1200);
    assert_eq!(mcv.values.len(), 3);
    assert_eq!(mcv.values[0].0, s("common"));
    assert!(mcv.values[0].1 >= mcv.values[1].1 && mcv.values[1].1 >= mcv.values[2].1);
    assert_eq!(mcv.mcv_frequency_sum, 1200);
}

#[test]
fn estimate_rows_uses_distinct_count() {
    let mut st = IndexStats::default();
    assert_eq!(st.estimate_rows(50), 50);
    st.distinct_count = 10;
    assert_eq!(st.estimate_rows(95), 9);
    assert_eq!(st.estimate_rows(5), 1);
}

#[test]
fn every_inserted_key_is_found_after_splits() {
    let mut tree = BPlusTree::new("idx".to_string(), "n".to_string(), false, false);
    let n = (MAX_KEYS_PER_NODE as i64) * 5;
    // Keys inserted out of order, so splits happen at all positions.
    for i in 0..n {
        let k = (i * 7919) % n;
        tree.insert(IndexKey::Int(k), DocumentId::Int(k + 1000)).unwrap();
        assert_eq!(tree.search(&IndexKey::Int(k)), Some(DocumentId::Int(k + 1000)));
    }
    for k in 0..n {
        assert_eq!(tree.search(&IndexKey::Int(k)), Some(DocumentId::Int(k + 1000)));
    }
}

#[test]
fn duplicate_keys_stay_findable() {
    let mut tree = BPlusTree::new("idx".to_string(), "tag".to_string(), false, false);
    for i in 0..(MAX_KEYS_PER_NODE as i64 * 3) {
        tree.insert(s("same"), DocumentId::Int(i)).unwrap();
        assert!(tree.search(&s("same")).is_some());
    }
    assert_eq!(tree.size(), MAX_KEYS_PER_NODE as u64 * 3);
}

#[test]
fn unchanged_batch_keeps_entries() {
    let mut tree = tree_0_to(300);
    let updates: Vec<_> = (0..300)
        .step_by(7)
        .map(|i| (IndexKey::Int(i), DocumentId::Int(i), IndexKey::Int(i), DocumentId::Int(i)))
        .collect();
    tree.apply_batch_updates(updates).unwrap();
    assert_eq!(tree.size(), 300);
    let all = tree.get_all_entries();
    assert_eq!(all.len(), 300);
    for (i, (k, d)) in all.iter().enumerate() {
        assert_eq!(*k, IndexKey::Int(i as i64));
        assert_eq!(*d, DocumentId::Int(i as i64));
    }
}

#[test]
fn batch_moves_an_entry_to_its_new_key() {
    let mut tree = tree_0_to(10);
    tree.apply_batch_updates(vec![(IndexKey::Int(3), DocumentId::Int(3), IndexKey::Int(42), DocumentId::Int(3))])
        .unwrap();
    assert_eq!(tree.size(), 10);
    assert_eq!(tree.search(&IndexKey::Int(3)), None);
    assert_eq!(tree.search(&IndexKey::Int(42)), Some(DocumentId::Int(3)));
}

#[test]
fn histogram_buckets_cover_at_least_one() {
    let h = Histogram {
        boundaries: vec![IndexKey::Int(10), IndexKey::Int(20), IndexKey::Int(30)],
        min_value: Some(IndexKey::Int(0)),
        max_value: Some(IndexKey::Int(40)),
        bucket_count: 4,
    };
    assert_eq!(h.find_bucket(&IndexKey::Int(5)), 0);
    assert_eq!(h.find_bucket(&IndexKey::Int(20)), 1);
    assert_eq!(h.find_bucket(&IndexKey::Int(25)), 2);
    assert_eq!(h.covered_buckets(Some(&IndexKey::Int(5)), Some(&IndexKey::Int(25))), 2);
    assert_eq!(h.covered_buckets(None, None), 4);
    assert_eq!(h.covered_buckets(Some(&IndexKey::Int(25)), Some(&IndexKey::Int(5))), 1);
}

#[test]
fn most_common_value_frequency_lookup() {
    let m = MostCommonValues {
        values: vec![(IndexKey::String("active".to_string()), 90), (IndexKey::String("idle".to_string()), 7)],
        total_keys: 100,
        mcv_frequency_sum: 97,
    };
    assert_eq!(m.frequency_of(&IndexKey::String("idle".to_string())), Some(7));
    assert_eq!(m.frequency_of(&IndexKey::String("gone".to_string())), None);
}

#[test]
fn tree_as_an_index() {
    let mut tree = BPlusTree::new_compound(
        "loc".to_string(),
        vec!["country".to_string(), "city".to_string()],
        false,
        false,
    );
    tree.insert(compound("HU", "Budapest"), DocumentId::Int(1)).unwrap();
    assert_eq!(IndexTrait::name(&tree), "loc");
    assert_eq!(tree.fields(), vec!["country", "city"]);
    assert_eq!(tree.entry_count(), 1);
    assert!(tree.memory_usage_bytes() >= 100);
    assert!(!tree.is_disk_backed());
    assert!(tree.flush().is_ok());
}
