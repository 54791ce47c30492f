use ironbase_core::document::DocumentId;
use ironbase_core::index::btree::{default_bucket_count, BPlusTree};
use ironbase_core::index::key::{next_scalar, prefix_scan_upper_bound, IndexKey, OrderedFloat};
use ironbase_core::index::plan_ranges::{NumericBuckets, PlanRanges, QueryPlan, SubRange};
use std::collections::HashMap;

fn tree() -> BPlusTree {
    BPlusTree::new("idx".to_string(), "f".to_string(), false, false)
}

fn point(k: IndexKey) -> SubRange {
    SubRange { start: k.clone(), end: k, inclusive_start: true, inclusive_end: true }
}

fn catalog_of(ids: &[DocumentId]) -> HashMap<DocumentId, u64> {
    ids.iter().enumerate().map(|(i, d)| (d.clone(), i as u64)).collect()
}

#[test]
fn count_exact_sums_point_ranges() {
    let mut t = tree();
    for i in 1..=4 {
        t.insert(IndexKey::Int(i), DocumentId::Int(i)).unwrap();
    }
    let cat = catalog_of(&(1..=4).map(DocumentId::Int).collect::<Vec<_>>());
    let r = PlanRanges::multi(
        "idx".to_string(),
        vec![point(IndexKey::Int(1)), point(IndexKey::Int(3))],
        true,
    );
    assert_eq!(t.count_exact(&r, &cat), 2);
    assert_eq!(t.scan_ranges(&r).unwrap().len(), 2);
    // A document the catalog does not list is not counted.
    let partial = catalog_of(&[DocumentId::Int(1)]);
    assert_eq!(t.count_exact(&r, &partial), 1);
}

#[test]
fn scan_ranges_dedups_and_sorts_across_ranges() {
    let mut t = tree();
    t.insert(IndexKey::Int(3), DocumentId::Int(9)).unwrap();
    t.insert(IndexKey::Int(5), DocumentId::Int(1)).unwrap();
    t.insert(IndexKey::String("x".to_string()), DocumentId::Int(9)).unwrap();
    let r = PlanRanges::multi(
        "idx".to_string(),
        vec![
            SubRange { start: IndexKey::Int(2), end: IndexKey::Int(6), inclusive_start: true, inclusive_end: true },
            point(IndexKey::String("x".to_string())),
        ],
        false,
    );
    assert!(!r.single_contiguous());
    assert_eq!(t.scan_ranges(&r).unwrap(), vec![DocumentId::Int(1), DocumentId::Int(9)]);
}

#[test]
fn single_range_keeps_scan_order() {
    let mut t = tree();
    t.insert(IndexKey::Int(1), DocumentId::Int(30)).unwrap();
    t.insert(IndexKey::Int(2), DocumentId::Int(10)).unwrap();
    t.insert(IndexKey::Int(3), DocumentId::Int(20)).unwrap();
    let r = PlanRanges::single("idx".to_string(), IndexKey::Int(1), IndexKey::Int(3), true, false, true);
    assert!(r.single_contiguous());
    assert_eq!(t.scan_ranges(&r).unwrap(), vec![DocumentId::Int(30), DocumentId::Int(10)]);
}

#[test]
fn no_ranges_scan_nothing() {
    let t = tree();
    let r = PlanRanges::multi("idx".to_string(), Vec::new(), true);
    assert!(t.scan_ranges(&r).unwrap().is_empty());
    assert_eq!(t.count_exact(&r, &HashMap::new()), 0);
}

#[test]
fn next_scalar_skips_surrogates() {
    assert_eq!(next_scalar('a'), Some('b'));
    assert_eq!(next_scalar('\u{D7FF}'), Some('\u{E000}'));
    assert_eq!(next_scalar(char::MAX), None);
}

#[test]
fn prefix_upper_bound_increments_last_char() {
    assert_eq!(prefix_scan_upper_bound("abc"), IndexKey::String("abd".to_string()));
    assert_eq!(prefix_scan_upper_bound("a\u{10FFFF}"), IndexKey::String("b".to_string()));
    assert_eq!(prefix_scan_upper_bound("\u{10FFFF}\u{10FFFF}"), IndexKey::MaxKey);
    assert_eq!(prefix_scan_upper_bound(""), IndexKey::MaxKey);
    // Every string with the prefix sorts below the bound.
    let bound = prefix_scan_upper_bound("ab");
    assert!(IndexKey::String("ab\u{10FFFF}\u{10FFFF}z".to_string()) < bound);
    assert!(IndexKey::String("ab".to_string()) < bound);
}

#[test]
fn prefix_scan_finds_exactly_the_prefixed_strings() {
    let mut t = tree();
    for (i, v) in ["ab", "abz", "ab\u{10FFFF}x", "ac", "aa", "b"].iter().enumerate() {
        t.insert(IndexKey::String(v.to_string()), DocumentId::Int(i as i64)).unwrap();
    }
    let r = PlanRanges::single(
        "idx".to_string(),
        IndexKey::String("ab".to_string()),
        prefix_scan_upper_bound("ab"),
        true,
        false,
        true,
    );
    let mut found = t.scan_ranges(&r).unwrap();
    found.sort();
    assert_eq!(found, vec![DocumentId::Int(0), DocumentId::Int(1), DocumentId::Int(2)]);
}

#[test]
fn histogram_buckets_default() {
    assert_eq!(default_bucket_count(), 64);
}

// ---- the ranges of a plan ----

/// A float key, by the order rank of its bits.
fn fkey(f: f64) -> IndexKey {
    let b = f.to_bits();
    IndexKey::Float(OrderedFloat(if b >> 63 == 1 { !b } else { b | (1u64 << 63) }))
}

fn range_scan(start: Option<IndexKey>, end: Option<IndexKey>, is: bool, ie: bool) -> QueryPlan {
    QueryPlan::IndexRangeScan {
        index_name: "idx".to_string(),
        field: "f".to_string(),
        start,
        end,
        inclusive_start: is,
        inclusive_end: ie,
    }
}

fn sub(start: IndexKey, end: IndexKey, inclusive_start: bool, inclusive_end: bool) -> SubRange {
    SubRange { start, end, inclusive_start, inclusive_end }
}

/// The split of a numeric range onto its buckets, as the application
/// computes it in floating point.
fn buckets(int_range: Option<(i64, i64)>, lo: f64, hi: f64, is: bool, ie: bool) -> Option<NumericBuckets> {
    Some(NumericBuckets {
        int_range: int_range.map(|(a, b)| sub(IndexKey::Int(a), IndexKey::Int(b), true, true)),
        float_range: sub(fkey(lo), fkey(hi), is, ie),
    })
}

#[test]
fn index_scan_single_point_exact_contiguous() {
    let plan = QueryPlan::IndexScan {
        index_name: "idx".to_string(),
        field: "f".to_string(),
        key: IndexKey::Int(7),
        is_compound: false,
    };
    let r = PlanRanges::from_plan(&plan, &tree(), None);
    assert_eq!(r.index_name, "idx");
    assert_eq!(r.sub_ranges.len(), 1);
    assert!(r.exact);
    assert!(r.single_contiguous());
    let sr = &r.sub_ranges[0];
    assert_eq!(sr.start, IndexKey::Int(7));
    assert_eq!(sr.end, IndexKey::Int(7));
    assert!(sr.inclusive_start && sr.inclusive_end);
}

#[test]
fn compound_index_scan_uses_prefix_range() {
    let mut compound = BPlusTree::new_compound("c".to_string(), vec!["a".into(), "b".into()], false, false);
    compound.insert(IndexKey::Compound(vec![IndexKey::Int(1), IndexKey::Int(2)]), DocumentId::Int(1)).unwrap();
    let plan = QueryPlan::IndexScan {
        index_name: "c".to_string(),
        field: "a".to_string(),
        key: IndexKey::Int(1),
        is_compound: true,
    };
    let r = PlanRanges::from_plan(&plan, &compound, None);
    assert_eq!(r.sub_ranges.len(), 1);
    assert!(r.single_contiguous() && r.exact);
    let sr = &r.sub_ranges[0];
    assert!(matches!(sr.start, IndexKey::Compound(_)));
    assert!(matches!(sr.end, IndexKey::Compound(_)));
    assert_eq!(sr.start, IndexKey::Compound(vec![IndexKey::Int(1), IndexKey::Null]));
    assert_eq!(sr.end, IndexKey::Compound(vec![IndexKey::Int(1), IndexKey::MaxKey]));
}

#[test]
fn numeric_range_splits_into_two_buckets() {
    let plan = range_scan(Some(IndexKey::Int(18)), Some(IndexKey::Int(65)), true, false);
    let r = PlanRanges::from_plan(&plan, &tree(), buckets(Some((18, 64)), 18.0, 65.0, true, false));
    assert_eq!(r.sub_ranges.len(), 2, "numeric range = Int + Float buckets");
    assert!(!r.single_contiguous(), "two buckets are not streamable");
    assert!(r.exact);
    assert!(matches!(r.sub_ranges[0].start, IndexKey::Int(_)));
    assert!(matches!(r.sub_ranges[1].start, IndexKey::Float(_)));
}

#[test]
fn float_only_numeric_range_buckets() {
    let with_ints = range_scan(Some(fkey(1.5)), Some(fkey(9.5)), true, true);
    let r = PlanRanges::from_plan(&with_ints, &tree(), buckets(Some((2, 9)), 1.5, 9.5, true, true));
    assert_eq!(r.sub_ranges.len(), 2, "Int bucket (2..=9) + Float bucket");
    assert!(matches!(r.sub_ranges[0].start, IndexKey::Int(_)));
    assert!(matches!(r.sub_ranges[1].start, IndexKey::Float(_)));
    assert!(!r.single_contiguous());
    assert!(r.exact);

    let no_ints = range_scan(Some(fkey(1.2)), Some(fkey(1.8)), true, true);
    let r = PlanRanges::from_plan(&no_ints, &tree(), buckets(None, 1.2, 1.8, true, true));
    assert_eq!(r.sub_ranges.len(), 1, "no integer in (1.2, 1.8) → Float bucket only");
    assert!(r.single_contiguous());
    assert!(matches!(r.sub_ranges[0].start, IndexKey::Float(_)));
    assert!(r.exact);
}

#[test]
fn string_range_is_single_contiguous() {
    let plan = range_scan(Some(IndexKey::String("a".into())), Some(IndexKey::String("z".into())), true, true);
    let r = PlanRanges::from_plan(&plan, &tree(), None);
    assert_eq!(r.sub_ranges.len(), 1);
    assert!(r.single_contiguous() && r.exact);
}

#[test]
fn unbounded_string_upper_defaults_to_maxkey() {
    let plan = range_scan(Some(IndexKey::String("abc".into())), None, true, true);
    let r = PlanRanges::from_plan(&plan, &tree(), None);
    assert_eq!(r.sub_ranges.len(), 1);
    assert!(r.single_contiguous());
    assert_eq!(r.sub_ranges[0].start, IndexKey::String("abc".into()));
    assert_eq!(r.sub_ranges[0].end, IndexKey::MaxKey);
    assert!(r.exact, "open-upper string range is type-tight → exact");
}

#[test]
fn unbounded_string_lower_is_type_tight_and_exact() {
    let plan = range_scan(None, Some(IndexKey::String("z".into())), true, false);
    let r = PlanRanges::from_plan(&plan, &tree(), None);
    assert_eq!(r.sub_ranges.len(), 1);
    assert!(r.single_contiguous());
    let sr = &r.sub_ranges[0];
    assert_eq!(sr.start, IndexKey::String(String::new()), "lower = String(\"\"), not Null");
    assert!(sr.inclusive_start, "filled lower bound is inclusive");
    assert_eq!(sr.end, IndexKey::String("z".into()));
    assert!(!sr.inclusive_end, "$lt → exclusive upper preserved");
    assert!(r.exact, "type-tight string range is exact");
}

#[test]
fn unbounded_bool_bounds_are_type_tight() {
    let gte = range_scan(Some(IndexKey::Bool(true)), None, true, true);
    let r = PlanRanges::from_plan(&gte, &tree(), None);
    assert_eq!(r.sub_ranges[0].start, IndexKey::Bool(true));
    assert_eq!(r.sub_ranges[0].end, IndexKey::Bool(true));
    assert!(r.exact, "bool open-upper is type-tight → exact");

    let lt = range_scan(None, Some(IndexKey::Bool(true)), true, false);
    let r = PlanRanges::from_plan(&lt, &tree(), None);
    assert_eq!(r.sub_ranges[0].start, IndexKey::Bool(false));
    assert!(r.sub_ranges[0].inclusive_start);
    assert_eq!(r.sub_ranges[0].end, IndexKey::Bool(true));
    assert!(!r.sub_ranges[0].inclusive_end);
    assert!(r.exact, "bool open-lower is type-tight → exact");
}

#[test]
fn plan_ranges_mixed_kinds_take_widest_range() {
    // bounds of two kinds (not numbers both): the widest interval, post-filtered
    let plan = range_scan(Some(IndexKey::Null), Some(IndexKey::String("m".into())), false, true);
    let r = PlanRanges::from_plan(&plan, &tree(), None);
    assert_eq!(r.sub_ranges[0].start, IndexKey::Null);
    assert!(!r.sub_ranges[0].inclusive_start);
    assert_eq!(r.sub_ranges[0].end, IndexKey::String("m".into()));
    assert!(!r.exact);
    let open = range_scan(None, None, true, true);
    let r = PlanRanges::from_plan(&open, &tree(), None);
    assert_eq!(r.sub_ranges[0].start, IndexKey::Null);
    assert_eq!(r.sub_ranges[0].end, IndexKey::MaxKey);
    assert!(!r.exact);
}

#[test]
fn regex_exact_cs_is_exact() {
    let plan = QueryPlan::RegexPrefixScan {
        index_name: "idx".to_string(),
        field: "f".to_string(),
        prefix: "Al".to_string(),
        exact: true,
        case_insensitive: false,
    };
    let r = PlanRanges::from_plan(&plan, &tree(), None);
    assert_eq!(r.sub_ranges.len(), 1);
    assert!(r.single_contiguous());
    assert!(r.exact, "exact && !ci ⇒ exact");
    let sr = &r.sub_ranges[0];
    assert_eq!(sr.start, IndexKey::String("Al".into()));
    assert!(sr.inclusive_start && !sr.inclusive_end, "half-open [prefix, upper)");
    assert_eq!(sr.end, IndexKey::String("Am".into()));
}

#[test]
fn regex_nonexact_or_ci_is_not_exact() {
    for (exact, ci) in [(false, false), (true, true), (false, true)] {
        let plan = QueryPlan::RegexPrefixScan {
            index_name: "idx".to_string(),
            field: "f".to_string(),
            prefix: "al".to_string(),
            exact,
            case_insensitive: ci,
        };
        let r = PlanRanges::from_plan(&plan, &tree(), None);
        assert!(!r.exact, "non-exact OR ci ⇒ post-filter (exact=false)");
        assert!(r.single_contiguous(), "regex is still a single range");
    }
}

#[test]
fn sparse_scan_covers_whole_keyspace() {
    let plan = QueryPlan::SparseIndexScan { index_name: "idx".to_string(), field: "f".to_string() };
    let r = PlanRanges::from_plan(&plan, &tree(), None);
    assert_eq!(r.sub_ranges.len(), 1);
    assert!(r.single_contiguous() && r.exact);
    assert_eq!(r.sub_ranges[0].start, IndexKey::Null);
    assert_eq!(r.sub_ranges[0].end, IndexKey::MaxKey);
}

#[test]
fn multi_value_scan_is_multi_range_not_contiguous() {
    let plan = QueryPlan::MultiValueScan {
        index_name: "idx".to_string(),
        field: "f".to_string(),
        keys: vec![IndexKey::Int(1), IndexKey::Int(2), IndexKey::Int(3)],
    };
    let r = PlanRanges::from_plan(&plan, &tree(), None);
    assert_eq!(r.sub_ranges.len(), 3);
    assert!(!r.single_contiguous(), "$in union is not streamable");
    assert!(r.exact);
    for sr in &r.sub_ranges {
        assert_eq!(sr.start, sr.end, "each $in key is a point lookup");
    }
}

#[test]
fn single_key_in_is_contiguous() {
    let plan = QueryPlan::MultiValueScan {
        index_name: "idx".to_string(),
        field: "f".to_string(),
        keys: vec![IndexKey::Int(42)],
    };
    let r = PlanRanges::from_plan(&plan, &tree(), None);
    assert_eq!(r.sub_ranges.len(), 1);
    assert!(r.single_contiguous());
}

#[test]
fn multi_regex_is_multi_range() {
    let plan = QueryPlan::MultiRegexPrefixScan {
        index_name: "idx".to_string(),
        field: "f".to_string(),
        prefixes: vec!["A".into(), "B".into()],
    };
    let r = PlanRanges::from_plan(&plan, &tree(), None);
    assert_eq!(r.sub_ranges.len(), 2);
    assert!(!r.single_contiguous());
    for sr in &r.sub_ranges {
        assert!(sr.inclusive_start && !sr.inclusive_end);
    }
}

#[test]
fn scan_and_count_single_range() {
    let mut t = tree();
    for i in 1..=5 {
        t.insert(IndexKey::Int(i), DocumentId::Int(i as i64)).unwrap();
    }
    let cat = catalog_of(&(1..=5).map(DocumentId::Int).collect::<Vec<_>>());
    let plan = range_scan(Some(IndexKey::Int(2)), Some(IndexKey::Int(4)), true, true);
    let r = PlanRanges::from_plan(&plan, &t, buckets(Some((2, 4)), 2.0, 4.0, true, true));
    let docs = t.scan_ranges(&r).unwrap();
    assert_eq!(docs.len(), 3, "ids 2,3,4");
    assert_eq!(t.count_exact(&r, &cat), 3);
}

#[test]
fn scan_ranges_dedups_multikey_across_buckets() {
    let mut t = tree();
    t.insert(IndexKey::Int(3), DocumentId::Int(1)).unwrap();
    t.insert(fkey(3.5), DocumentId::Int(1)).unwrap();
    let plan = range_scan(Some(IndexKey::Int(2)), Some(IndexKey::Int(4)), true, true);
    let r = PlanRanges::from_plan(&plan, &t, buckets(Some((2, 4)), 2.0, 4.0, true, true));
    assert_eq!(r.sub_ranges.len(), 2);
    let docs = t.scan_ranges(&r).unwrap();
    assert_eq!(docs, vec![DocumentId::Int(1)], "deduped across buckets");
}

#[test]
fn count_exact_sums_in_keys() {
    let mut t = tree();
    for i in 1..=4 {
        t.insert(IndexKey::Int(i), DocumentId::Int(i as i64)).unwrap();
    }
    let cat = catalog_of(&(1..=4).map(DocumentId::Int).collect::<Vec<_>>());
    let plan = QueryPlan::MultiValueScan {
        index_name: "idx".to_string(),
        field: "f".to_string(),
        keys: vec![IndexKey::Int(1), IndexKey::Int(3)],
    };
    let r = PlanRanges::from_plan(&plan, &t, None);
    assert_eq!(t.count_exact(&r, &cat), 2);
    assert_eq!(t.scan_ranges(&r).unwrap().len(), 2);
}
