use ironbase_core::error::IronBaseError;
use ironbase_core::index::extract::{DocumentFields, FieldValues};
use ironbase_core::query::filter::{compare_values, matches_filter, matches_filter_value, matches_filter_with, FloatOperators};
use ironbase_core::query::text_search::{FuzzyAlgorithm, FuzzyOperator};
use ironbase_core::query::operators::{
    AndOperator, ElemMatchOperator, GtOperator, GteOperator, LtOperator, LteOperator, NorOperator, NotOperator,
    OperatorMatcher, OrOperator,
};
use ironbase_core::query::value::{JsonNumber, JsonValue};

fn conv(v: &serde_json::Value) -> JsonValue {
    match v {
        serde_json::Value::Null => JsonValue::Null,
        serde_json::Value::Bool(b) => JsonValue::Bool(*b),
        serde_json::Value::Number(n) => {
            if let Some(u) = n.as_u64() {
                JsonValue::Number(JsonNumber::PosInt(u))
            } else if let Some(i) = n.as_i64() {
                JsonValue::Number(JsonNumber::NegInt(i))
            } else {
                let f = n.as_f64().unwrap();
                let f = if f == 0.0 { 0.0 } else { f };
                JsonValue::Number(JsonNumber::Float(f.to_bits(), n.to_string()))
            }
        }
        serde_json::Value::String(s) => JsonValue::String(s.clone()),
        serde_json::Value::Array(a) => JsonValue::Array(a.iter().map(conv).collect()),
        serde_json::Value::Object(m) => {
            let mut members: Vec<(String, JsonValue)> = m.iter().map(|(k, v)| (k.clone(), conv(v))).collect();
            members.sort_by(|a, b| a.0.cmp(&b.0));
            JsonValue::Object(members)
        }
    }
}

/// The library's value of a JSON text.
fn j(text: &str) -> JsonValue {
    let v: serde_json::Value = serde_json::from_str(text).unwrap();
    conv(&v)
}

/// Every dotted path of a document with what it reaches: the values found
/// along it (through arrays of objects), and the value it leads to.
fn collect(prefix: &str, v: &serde_json::Value, out: &mut Vec<(String, Vec<serde_json::Value>, bool)>) {
    if let serde_json::Value::Object(m) = v {
        for (k, child) in m {
            let path = if prefix.is_empty() { k.clone() } else { format!("{}.{}", prefix, k) };
            out.push((path.clone(), vec![child.clone()], false));
            collect(&path, child, out);
        }
    }
}

fn lookup(v: &serde_json::Value, path: &str) -> Option<serde_json::Value> {
    let mut cur = v;
    for seg in path.split('.') {
        cur = cur.get(seg)?;
    }
    Some(cur.clone())
}

/// What a matcher reads of a document given as `(field, JSON text)` pairs.
fn doc(pairs: &[(&str, &str)]) -> DocumentFields {
    let mut m = serde_json::Map::new();
    for (k, t) in pairs {
        m.insert(k.to_string(), serde_json::from_str(t).unwrap());
    }
    let root = serde_json::Value::Object(m);
    let mut paths = Vec::new();
    collect("", &root, &mut paths);
    let fields = paths
        .into_iter()
        .map(|(p, vals, crosses)| FieldValues {
            path: p.clone(),
            values: vals.iter().map(conv).collect(),
            crosses_array: crosses,
            value: lookup(&root, &p).map(|x| conv(&x)),
        })
        .collect();
    DocumentFields { fields }
}

fn err_text(r: Result<bool, IronBaseError>) -> String {
    r.unwrap_err().to_string()
}

#[test]
fn operators_test_matches_filter_empty() {
    let d = doc(&[("name", r#""Alice""#)]);
    assert!(matches_filter(&d, &j("{}")).unwrap());
}

#[test]
fn mod_test_matches_filter_empty() {
    let d = doc(&[("name", r#""Alice""#)]);
    assert!(matches_filter(&d, &j("{}")).unwrap());
}

#[test]
fn operators_test_matches_filter_unknown_operator() {
    let d = doc(&[("age", "25")]);
    let result = matches_filter(&d, &j(r#"{"age": {"$unknown": 25}}"#));
    assert!(result.is_err());
    assert!(err_text(result).contains("Unknown operator"));
}

#[test]
fn mod_test_matches_filter_unknown_operator() {
    let d = doc(&[("age", "25")]);
    let result = matches_filter(&d, &j(r#"{"age": {"$unknown": 25}}"#));
    assert!(result.is_err());
    assert!(err_text(result).contains("Unknown operator"));
}

#[test]
fn operators_test_matches_filter_top_level_unknown_operator() {
    let d = doc(&[("age", "25")]);
    let result = matches_filter(&d, &j(r#"{"$unknown": [{"age": 25}]}"#));
    assert!(result.is_err());
    assert!(err_text(result).contains("Unknown operator"));
}

#[test]
fn mod_test_matches_filter_top_level_unknown_operator() {
    let d = doc(&[("age", "25")]);
    let result = matches_filter(&d, &j(r#"{"$unknown": [{"age": 25}]}"#));
    assert!(result.is_err());
    assert!(err_text(result).contains("Unknown operator"));
}

#[test]
fn operators_test_matches_filter_not_object_error() {
    let d = doc(&[("name", r#""Alice""#)]);
    let result = matches_filter(&d, &j(r#""not an object""#));
    assert!(result.is_err());
    assert!(err_text(result).contains("Filter must be an object"));
}

#[test]
fn mod_test_matches_filter_not_object_error() {
    let d = doc(&[("name", r#""Alice""#)]);
    let result = matches_filter(&d, &j(r#""not an object""#));
    assert!(result.is_err());
    assert!(err_text(result).contains("Filter must be an object"));
}

#[test]
fn operators_test_matches_filter_direct_mismatch() {
    let d = doc(&[("name", r#""Alice""#)]);
    assert!(!matches_filter(&d, &j(r#"{"name": "Bob"}"#)).unwrap());
}

#[test]
fn mod_test_matches_filter_direct_mismatch() {
    let d = doc(&[("name", r#""Alice""#)]);
    assert!(!matches_filter(&d, &j(r#"{"name": "Bob"}"#)).unwrap());
}

#[test]
fn operators_test_matches_filter_value_unknown_operator() {
    let result = matches_filter_value(Some(&j("25")), &j(r#"{"$unknown": 25}"#), None);
    assert!(result.is_err());
    assert!(err_text(result).contains("Unknown operator"));
}

#[test]
fn mod_test_matches_filter_value_unknown_operator() {
    let result = matches_filter_value(Some(&j("25")), &j(r#"{"$unknown": 25}"#), None);
    assert!(result.is_err());
    assert!(err_text(result).contains("Unknown operator"));
}

#[test]
fn operators_test_matches_filter_value_direct() {
    assert!(matches_filter_value(Some(&j("25")), &j("25"), None).unwrap());
    assert!(!matches_filter_value(Some(&j("25")), &j("30"), None).unwrap());
    assert!(!matches_filter_value(None, &j("25"), None).unwrap());
}

#[test]
fn mod_test_matches_filter_value_direct() {
    assert!(matches_filter_value(Some(&j("25")), &j("25"), None).unwrap());
    assert!(!matches_filter_value(Some(&j("25")), &j("30"), None).unwrap());
    assert!(!matches_filter_value(None, &j("25"), None).unwrap());
}

#[test]
fn operators_test_matches_filter_simple() {
    let d = doc(&[("name", r#""Alice""#)]);
    assert!(matches_filter(&d, &j(r#"{"name": "Alice"}"#)).unwrap());
}

#[test]
fn mod_test_matches_filter_simple() {
    let d = doc(&[("name", r#""Alice""#)]);
    assert!(matches_filter(&d, &j(r#"{"name": "Alice"}"#)).unwrap());
}

#[test]
fn operators_test_matches_filter_with_operators() {
    let d = doc(&[("age", "25")]);
    assert!(matches_filter(&d, &j(r#"{"age": {"$gte": 18, "$lt": 30}}"#)).unwrap());
}

#[test]
fn mod_test_matches_filter_with_operators() {
    let d = doc(&[("age", "25")]);
    assert!(matches_filter(&d, &j(r#"{"age": {"$gte": 18, "$lt": 30}}"#)).unwrap());
}

#[test]
fn operators_test_matches_filter_logical_and() {
    let d = doc(&[("age", "25"), ("city", r#""NYC""#)]);
    assert!(matches_filter(&d, &j(r#"{"$and": [{"age": {"$gte": 18}}, {"city": "NYC"}]}"#)).unwrap());
}

#[test]
fn mod_test_matches_filter_logical_and() {
    let d = doc(&[("age", "25"), ("city", r#""NYC""#)]);
    assert!(matches_filter(&d, &j(r#"{"$and": [{"age": {"$gte": 18}}, {"city": "NYC"}]}"#)).unwrap());
}

#[test]
fn operators_test_matches_filter_nested_dot_notation() {
    let d = doc(&[
        ("address", r#"{"city": "Budapest", "zip": 1111}"#),
        ("stats", r#"{"login_count": 42}"#),
    ]);
    let filter = j(r#"{"address.city": "Budapest", "stats.login_count": {"$gte": 40}}"#);
    assert!(matches_filter(&d, &filter).unwrap());
}

#[test]
fn mod_test_matches_filter_nested_dot_notation() {
    let d = doc(&[
        ("address", r#"{"city": "Budapest", "zip": 1111}"#),
        ("stats", r#"{"login_count": 42}"#),
    ]);
    let filter = j(r#"{"address.city": "Budapest", "stats.login_count": {"$gte": 40}}"#);
    assert!(matches_filter(&d, &filter).unwrap());
}

#[test]
fn operators_test_gte_operator() {
    let op = GteOperator;
    assert!(op.matches(Some(&j("10")), &j("5")).unwrap());
    assert!(op.matches(Some(&j("5")), &j("5")).unwrap()); // Equal
    assert!(!op.matches(Some(&j("3")), &j("5")).unwrap());
    assert!(!op.matches(None, &j("5")).unwrap()); // Missing field
}

#[test]
fn mod_test_gte_operator() {
    let op = GteOperator;
    assert!(op.matches(Some(&j("10")), &j("5")).unwrap());
    assert!(op.matches(Some(&j("5")), &j("5")).unwrap()); // Equal
    assert!(!op.matches(Some(&j("3")), &j("5")).unwrap());
    assert!(!op.matches(None, &j("5")).unwrap()); // Missing field
}

#[test]
fn operators_test_lt_operator() {
    let op = LtOperator;
    assert!(op.matches(Some(&j("3")), &j("5")).unwrap());
    assert!(!op.matches(Some(&j("5")), &j("5")).unwrap()); // Equal
    assert!(!op.matches(Some(&j("10")), &j("5")).unwrap());
    assert!(!op.matches(None, &j("5")).unwrap()); // Missing field
}

#[test]
fn mod_test_lt_operator() {
    let op = LtOperator;
    assert!(op.matches(Some(&j("3")), &j("5")).unwrap());
    assert!(!op.matches(Some(&j("5")), &j("5")).unwrap()); // Equal
    assert!(!op.matches(Some(&j("10")), &j("5")).unwrap());
    assert!(!op.matches(None, &j("5")).unwrap()); // Missing field
}

#[test]
fn operators_test_lte_operator() {
    let op = LteOperator;
    assert!(op.matches(Some(&j("3")), &j("5")).unwrap());
    assert!(op.matches(Some(&j("5")), &j("5")).unwrap()); // Equal
    assert!(!op.matches(Some(&j("10")), &j("5")).unwrap());
    assert!(!op.matches(None, &j("5")).unwrap()); // Missing field
}

#[test]
fn mod_test_lte_operator() {
    let op = LteOperator;
    assert!(op.matches(Some(&j("3")), &j("5")).unwrap());
    assert!(op.matches(Some(&j("5")), &j("5")).unwrap()); // Equal
    assert!(!op.matches(Some(&j("10")), &j("5")).unwrap());
    assert!(!op.matches(None, &j("5")).unwrap()); // Missing field
}

#[test]
fn operators_test_gt_missing_field() {
    let op = GtOperator;
    assert!(!op.matches(None, &j("5")).unwrap());
}

#[test]
fn mod_test_gt_missing_field() {
    let op = GtOperator;
    assert!(!op.matches(None, &j("5")).unwrap());
}

#[test]
fn operators_test_comparison_strings() {
    let op = GtOperator;
    assert!(op.matches(Some(&j(r#""b""#)), &j(r#""a""#)).unwrap());
    assert!(!op.matches(Some(&j(r#""a""#)), &j(r#""b""#)).unwrap());
}

#[test]
fn mod_test_comparison_strings() {
    let op = GtOperator;
    assert!(op.matches(Some(&j(r#""b""#)), &j(r#""a""#)).unwrap());
    assert!(!op.matches(Some(&j(r#""a""#)), &j(r#""b""#)).unwrap());
}

#[test]
fn operators_test_comparison_booleans() {
    let op = GtOperator;
    assert!(op.matches(Some(&j("true")), &j("false")).unwrap());
    assert!(!op.matches(Some(&j("false")), &j("true")).unwrap());
}

#[test]
fn mod_test_comparison_booleans() {
    let op = GtOperator;
    assert!(op.matches(Some(&j("true")), &j("false")).unwrap());
    assert!(!op.matches(Some(&j("false")), &j("true")).unwrap());
}

#[test]
fn operators_test_comparison_incompatible_types() {
    let op = GtOperator;
    // String vs number - incompatible
    assert!(!op.matches(Some(&j(r#""10""#)), &j("5")).unwrap());
}

#[test]
fn mod_test_comparison_incompatible_types() {
    let op = GtOperator;
    // String vs number - incompatible
    assert!(!op.matches(Some(&j(r#""10""#)), &j("5")).unwrap());
}

#[test]
fn operators_test_gt_operator() {
    let op = GtOperator;
    assert!(op.matches(Some(&j("10")), &j("5")).unwrap());
    assert!(!op.matches(Some(&j("5")), &j("10")).unwrap());
    assert!(!op.matches(Some(&j("5")), &j("5")).unwrap());
}

#[test]
fn mod_test_gt_operator() {
    let op = GtOperator;
    assert!(op.matches(Some(&j("10")), &j("5")).unwrap());
    assert!(!op.matches(Some(&j("5")), &j("10")).unwrap());
    assert!(!op.matches(Some(&j("5")), &j("5")).unwrap());
}

#[test]
fn operators_test_nor_operator() {
    let d = doc(&[("age", "25")]);
    // age is not < 18 AND age is not > 65, so $nor should return true
    let filter = j(r#"[{"age": {"$lt": 18}}, {"age": {"$gt": 65}}]"#);
    assert!(NorOperator.matches(None, &filter, Some(&d)).unwrap());
}

#[test]
fn mod_test_nor_operator() {
    let d = doc(&[("age", "25")]);
    // age is not < 18 AND age is not > 65, so $nor should return true
    let filter = j(r#"[{"age": {"$lt": 18}}, {"age": {"$gt": 65}}]"#);
    assert!(NorOperator.matches(None, &filter, Some(&d)).unwrap());
}

#[test]
fn operators_test_nor_operator_fails() {
    let d = doc(&[("age", "15")]);
    let filter = j(r#"[{"age": {"$lt": 18}}, {"age": {"$gt": 65}}]"#);
    assert!(!NorOperator.matches(None, &filter, Some(&d)).unwrap());
}

#[test]
fn mod_test_nor_operator_fails() {
    let d = doc(&[("age", "15")]);
    let filter = j(r#"[{"age": {"$lt": 18}}, {"age": {"$gt": 65}}]"#);
    assert!(!NorOperator.matches(None, &filter, Some(&d)).unwrap());
}

#[test]
fn operators_test_nor_not_array_error() {
    let d = doc(&[("age", "25")]);
    let result = NorOperator.matches(None, &j(r#"{"age": 25}"#), Some(&d));
    assert!(result.is_err());
    assert!(err_text(result).contains("requires an array"));
}

#[test]
fn mod_test_nor_not_array_error() {
    let d = doc(&[("age", "25")]);
    let result = NorOperator.matches(None, &j(r#"{"age": 25}"#), Some(&d));
    assert!(result.is_err());
    assert!(err_text(result).contains("requires an array"));
}

#[test]
fn operators_test_nor_no_document_error() {
    let result = NorOperator.matches(None, &j(r#"[{"age": 25}]"#), None);
    assert!(result.is_err());
    assert!(err_text(result).contains("requires document context"));
}

#[test]
fn mod_test_nor_no_document_error() {
    let result = NorOperator.matches(None, &j(r#"[{"age": 25}]"#), None);
    assert!(result.is_err());
    assert!(err_text(result).contains("requires document context"));
}

#[test]
fn operators_test_and_not_array_error() {
    let d = doc(&[("age", "25")]);
    let result = AndOperator.matches(None, &j(r#"{"age": 25}"#), Some(&d));
    assert!(result.is_err());
    assert!(err_text(result).contains("requires an array"));
}

#[test]
fn mod_test_and_not_array_error() {
    let d = doc(&[("age", "25")]);
    let result = AndOperator.matches(None, &j(r#"{"age": 25}"#), Some(&d));
    assert!(result.is_err());
    assert!(err_text(result).contains("requires an array"));
}

#[test]
fn operators_test_and_no_document_error() {
    let result = AndOperator.matches(None, &j(r#"[{"age": 25}]"#), None);
    assert!(result.is_err());
    assert!(err_text(result).contains("requires document context"));
}

#[test]
fn mod_test_and_no_document_error() {
    let result = AndOperator.matches(None, &j(r#"[{"age": 25}]"#), None);
    assert!(result.is_err());
    assert!(err_text(result).contains("requires document context"));
}

#[test]
fn operators_test_or_not_array_error() {
    let d = doc(&[("age", "25")]);
    let result = OrOperator.matches(None, &j(r#"{"age": 25}"#), Some(&d));
    assert!(result.is_err());
    assert!(err_text(result).contains("requires an array"));
}

#[test]
fn mod_test_or_not_array_error() {
    let d = doc(&[("age", "25")]);
    let result = OrOperator.matches(None, &j(r#"{"age": 25}"#), Some(&d));
    assert!(result.is_err());
    assert!(err_text(result).contains("requires an array"));
}

#[test]
fn operators_test_or_no_document_error() {
    let result = OrOperator.matches(None, &j(r#"[{"age": 25}]"#), None);
    assert!(result.is_err());
    assert!(err_text(result).contains("requires document context"));
}

#[test]
fn mod_test_or_no_document_error() {
    let result = OrOperator.matches(None, &j(r#"[{"age": 25}]"#), None);
    assert!(result.is_err());
    assert!(err_text(result).contains("requires document context"));
}

#[test]
fn operators_test_or_no_match() {
    let d = doc(&[("age", "30")]);
    let filter = j(r#"[{"age": {"$lt": 18}}, {"age": {"$gt": 65}}]"#);
    assert!(!OrOperator.matches(None, &filter, Some(&d)).unwrap());
}

#[test]
fn mod_test_or_no_match() {
    let d = doc(&[("age", "30")]);
    let filter = j(r#"[{"age": {"$lt": 18}}, {"age": {"$gt": 65}}]"#);
    assert!(!OrOperator.matches(None, &filter, Some(&d)).unwrap());
}

#[test]
fn operators_test_and_fails() {
    let d = doc(&[("age", "25"), ("city", r#""LA""#)]);
    let filter = j(r#"[{"age": {"$gt": 18}}, {"city": "NYC"}]"#); // city doesn't match
    assert!(!AndOperator.matches(None, &filter, Some(&d)).unwrap());
}

#[test]
fn mod_test_and_fails() {
    let d = doc(&[("age", "25"), ("city", r#""LA""#)]);
    let filter = j(r#"[{"age": {"$gt": 18}}, {"city": "NYC"}]"#); // city doesn't match
    assert!(!AndOperator.matches(None, &filter, Some(&d)).unwrap());
}

#[test]
fn operators_test_not_operator() {
    let d = doc(&[("age", "25")]);
    // $not: { $gt: 30 } should return true for age=25
    assert!(NotOperator.matches(Some(&j("25")), &j(r#"{"$gt": 30}"#), Some(&d)).unwrap());
}

#[test]
fn mod_test_not_operator() {
    let d = doc(&[("age", "25")]);
    // $not: { $gt: 30 } should return true for age=25
    assert!(NotOperator.matches(Some(&j("25")), &j(r#"{"$gt": 30}"#), Some(&d)).unwrap());
}

#[test]
fn operators_test_not_no_document_error() {
    let result = NotOperator.matches(Some(&j("25")), &j(r#"{"$gt": 30}"#), None);
    assert!(result.is_err());
    assert!(err_text(result).contains("requires document context"));
}

#[test]
fn mod_test_not_no_document_error() {
    let result = NotOperator.matches(Some(&j("25")), &j(r#"{"$gt": 30}"#), None);
    assert!(result.is_err());
    assert!(err_text(result).contains("requires document context"));
}

#[test]
fn operators_test_and_operator() {
    let d = doc(&[("age", "25"), ("city", r#""NYC""#)]);
    let filter = j(r#"[{"age": {"$gt": 18}}, {"city": "NYC"}]"#);
    assert!(AndOperator.matches(None, &filter, Some(&d)).unwrap());
}

#[test]
fn mod_test_and_operator() {
    let d = doc(&[("age", "25"), ("city", r#""NYC""#)]);
    let filter = j(r#"[{"age": {"$gt": 18}}, {"city": "NYC"}]"#);
    assert!(AndOperator.matches(None, &filter, Some(&d)).unwrap());
}

#[test]
fn operators_test_or_operator() {
    let d = doc(&[("age", "15")]);
    let filter = j(r#"[{"age": {"$lt": 18}}, {"age": {"$gt": 65}}]"#);
    assert!(OrOperator.matches(None, &filter, Some(&d)).unwrap());
}

#[test]
fn mod_test_or_operator() {
    let d = doc(&[("age", "15")]);
    let filter = j(r#"[{"age": {"$lt": 18}}, {"age": {"$gt": 65}}]"#);
    assert!(OrOperator.matches(None, &filter, Some(&d)).unwrap());
}

#[test]
fn operators_test_elemmatch_operator() {
    let op = ElemMatchOperator;
    let doc_value = j(r#"[{"name": "Alice", "age": 25}, {"name": "Bob", "age": 30}]"#);
    let filter_value = j(r#"{"name": "Alice", "age": {"$gte": 20}}"#);
    assert!(op.matches(Some(&doc_value), &filter_value).unwrap());
}

#[test]
fn mod_test_elemmatch_operator() {
    let op = ElemMatchOperator;
    let doc_value = j(r#"[{"name": "Alice", "age": 25}, {"name": "Bob", "age": 30}]"#);
    let filter_value = j(r#"{"name": "Alice", "age": {"$gte": 20}}"#);
    assert!(op.matches(Some(&doc_value), &filter_value).unwrap());
}

#[test]
fn operators_test_elemmatch_no_match() {
    let op = ElemMatchOperator;
    let doc_value = j(r#"[{"name": "Alice", "age": 15}, {"name": "Bob", "age": 18}]"#);
    let filter_value = j(r#"{"name": "Alice", "age": {"$gte": 20}}"#);
    assert!(!op.matches(Some(&doc_value), &filter_value).unwrap());
}

#[test]
fn mod_test_elemmatch_no_match() {
    let op = ElemMatchOperator;
    let doc_value = j(r#"[{"name": "Alice", "age": 15}, {"name": "Bob", "age": 18}]"#);
    let filter_value = j(r#"{"name": "Alice", "age": {"$gte": 20}}"#);
    assert!(!op.matches(Some(&doc_value), &filter_value).unwrap());
}

#[test]
fn operators_test_elemmatch_missing_field() {
    let op = ElemMatchOperator;
    assert!(!op.matches(None, &j(r#"{"name": "Alice"}"#)).unwrap());
}

#[test]
fn mod_test_elemmatch_missing_field() {
    let op = ElemMatchOperator;
    assert!(!op.matches(None, &j(r#"{"name": "Alice"}"#)).unwrap());
}

#[test]
fn operators_test_elemmatch_not_array() {
    let op = ElemMatchOperator;
    assert!(!op.matches(Some(&j(r#""not an array""#)), &j(r#"{"name": "Alice"}"#)).unwrap());
}

#[test]
fn mod_test_elemmatch_not_array() {
    let op = ElemMatchOperator;
    assert!(!op.matches(Some(&j(r#""not an array""#)), &j(r#"{"name": "Alice"}"#)).unwrap());
}

#[test]
fn operators_test_elemmatch_non_object_elements() {
    let op = ElemMatchOperator;
    let doc_value = j("[1, 2, 3]"); // Array of non-objects
    assert!(!op.matches(Some(&doc_value), &j(r#"{"name": "Alice"}"#)).unwrap());
}

#[test]
fn mod_test_elemmatch_non_object_elements() {
    let op = ElemMatchOperator;
    let doc_value = j("[1, 2, 3]"); // Array of non-objects
    assert!(!op.matches(Some(&doc_value), &j(r#"{"name": "Alice"}"#)).unwrap());
}

#[test]
fn operators_test_size_operator_in_query() {
    let d = doc(&[("tags", r#"["a", "b", "c"]"#)]);
    assert!(matches_filter(&d, &j(r#"{"tags": {"$size": 3}}"#)).unwrap());
    assert!(!matches_filter(&d, &j(r#"{"tags": {"$size": 2}}"#)).unwrap());
}

#[test]
fn mod_test_size_operator_in_query() {
    let d = doc(&[("tags", r#"["a", "b", "c"]"#)]);
    assert!(matches_filter(&d, &j(r#"{"tags": {"$size": 3}}"#)).unwrap());
    assert!(!matches_filter(&d, &j(r#"{"tags": {"$size": 2}}"#)).unwrap());
}

#[test]
fn operators_test_regex_with_options_case_insensitive() {
    let doc_upper = doc(&[("name", r#""ALICE""#)]);
    let doc_lower = doc(&[("name", r#""alice""#)]);
    let doc_mixed = doc(&[("name", r#""Alice""#)]);
    let doc_other = doc(&[("name", r#""Bob""#)]);
    let filter_ci = j(r#"{"name": {"$regex": "alice", "$options": "i"}}"#);
    assert!(matches_filter(&doc_upper, &filter_ci).unwrap());
    assert!(matches_filter(&doc_lower, &filter_ci).unwrap());
    assert!(matches_filter(&doc_mixed, &filter_ci).unwrap());
    assert!(!matches_filter(&doc_other, &filter_ci).unwrap());
}

#[test]
fn mod_test_regex_with_options_case_insensitive() {
    let doc_upper = doc(&[("name", r#""ALICE""#)]);
    let doc_lower = doc(&[("name", r#""alice""#)]);
    let doc_mixed = doc(&[("name", r#""Alice""#)]);
    let doc_other = doc(&[("name", r#""Bob""#)]);
    let filter_ci = j(r#"{"name": {"$regex": "alice", "$options": "i"}}"#);
    assert!(matches_filter(&doc_upper, &filter_ci).unwrap());
    assert!(matches_filter(&doc_lower, &filter_ci).unwrap());
    assert!(matches_filter(&doc_mixed, &filter_ci).unwrap());
    assert!(!matches_filter(&doc_other, &filter_ci).unwrap());
}

#[test]
fn operators_test_regex_with_options_case_sensitive() {
    let doc_lower = doc(&[("name", r#""alice""#)]);
    let doc_upper = doc(&[("name", r#""ALICE""#)]);
    let filter_cs = j(r#"{"name": {"$regex": "alice", "$options": ""}}"#);
    assert!(matches_filter(&doc_lower, &filter_cs).unwrap());
    assert!(!matches_filter(&doc_upper, &filter_cs).unwrap());
}

#[test]
fn mod_test_regex_with_options_case_sensitive() {
    let doc_lower = doc(&[("name", r#""alice""#)]);
    let doc_upper = doc(&[("name", r#""ALICE""#)]);
    let filter_cs = j(r#"{"name": {"$regex": "alice", "$options": ""}}"#);
    assert!(matches_filter(&doc_lower, &filter_cs).unwrap());
    assert!(!matches_filter(&doc_upper, &filter_cs).unwrap());
}

#[test]
fn operators_test_regex_without_options() {
    let doc_lower = doc(&[("name", r#""alice""#)]);
    let doc_upper = doc(&[("name", r#""ALICE""#)]);
    let filter = j(r#"{"name": {"$regex": "alice"}}"#);
    assert!(matches_filter(&doc_lower, &filter).unwrap());
    assert!(!matches_filter(&doc_upper, &filter).unwrap());
}

#[test]
fn mod_test_regex_without_options() {
    let doc_lower = doc(&[("name", r#""alice""#)]);
    let doc_upper = doc(&[("name", r#""ALICE""#)]);
    let filter = j(r#"{"name": {"$regex": "alice"}}"#);
    assert!(matches_filter(&doc_lower, &filter).unwrap());
    assert!(!matches_filter(&doc_upper, &filter).unwrap());
}

#[test]
fn operators_test_regex_with_options_on_array() {
    let d = doc(&[("tags", r#"["Rust", "PYTHON", "javascript"]"#)]);
    assert!(matches_filter(&d, &j(r#"{"tags": {"$regex": "rust", "$options": "i"}}"#)).unwrap());
    assert!(matches_filter(&d, &j(r#"{"tags": {"$regex": "python", "$options": "i"}}"#)).unwrap());
    assert!(matches_filter(&d, &j(r#"{"tags": {"$regex": "java", "$options": "i"}}"#)).unwrap());
    assert!(!matches_filter(&d, &j(r#"{"tags": {"$regex": "go", "$options": "i"}}"#)).unwrap());
}

#[test]
fn mod_test_regex_with_options_on_array() {
    let d = doc(&[("tags", r#"["Rust", "PYTHON", "javascript"]"#)]);
    assert!(matches_filter(&d, &j(r#"{"tags": {"$regex": "rust", "$options": "i"}}"#)).unwrap());
    assert!(matches_filter(&d, &j(r#"{"tags": {"$regex": "python", "$options": "i"}}"#)).unwrap());
    assert!(matches_filter(&d, &j(r#"{"tags": {"$regex": "java", "$options": "i"}}"#)).unwrap());
    assert!(!matches_filter(&d, &j(r#"{"tags": {"$regex": "go", "$options": "i"}}"#)).unwrap());
}

#[test]
fn test_elemmatch_scalar_array_with_operators() {
    let doc_value = j("[75, 82, 90]");
    assert!(ElemMatchOperator.matches(Some(&doc_value), &j(r#"{"$gt": 80, "$lt": 85}"#)).unwrap());
}

#[test]
fn test_elemmatch_scalar_array_no_match() {
    let doc_value = j("[75, 90, 95]");
    assert!(!ElemMatchOperator.matches(Some(&doc_value), &j(r#"{"$gt": 80, "$lt": 85}"#)).unwrap());
}

#[test]
fn test_elemmatch_scalar_array_single_condition() {
    let doc_value = j("[3, 5, 7]");
    assert!(ElemMatchOperator.matches(Some(&doc_value), &j(r#"{"$gte": 5}"#)).unwrap());
}

#[test]
fn test_elemmatch_scalar_string_array() {
    let doc_value = j(r#"["apple", "banana", "cherry"]"#);
    assert!(ElemMatchOperator.matches(Some(&doc_value), &j(r#"{"$regex": "^b"}"#)).unwrap());
}

#[test]
fn test_elemmatch_scalar_array_in_operator() {
    let doc_value = j("[1, 3, 4]");
    assert!(ElemMatchOperator.matches(Some(&doc_value), &j(r#"{"$in": [2, 4, 6]}"#)).unwrap());
}

#[test]
fn test_elemmatch_invalid_filter_value() {
    let result = ElemMatchOperator.matches(Some(&j("[1, 2, 3]")), &j("5"));
    assert!(result.is_err());
    assert!(err_text(result).contains("$elemMatch requires an object"));
}

#[test]
fn test_elemmatch_unknown_operator() {
    let result = ElemMatchOperator.matches(Some(&j(r#"[{"score": 85}]"#)), &j(r#"{"score": {"$gtt": 80}}"#));
    assert!(result.is_err());
    assert!(err_text(result).contains("Unknown operator"));
}

#[test]
fn test_elemmatch_options_without_regex() {
    let result = ElemMatchOperator.matches(Some(&j(r#"[{"tag": "rust"}]"#)), &j(r#"{"tag": {"$options": "i"}}"#));
    assert!(result.is_err());
    assert!(err_text(result).contains("$options requires $regex"));
}

#[test]
fn test_elemmatch_regex_with_options() {
    let doc_value = j(r#"[{"tag": "RUST"}]"#);
    assert!(ElemMatchOperator.matches(Some(&doc_value), &j(r#"{"tag": {"$regex": "rust", "$options": "i"}}"#)).unwrap());
}

#[test]
fn test_regex_with_invalid_options_error() {
    let d = doc(&[("name", r#""Alice""#)]);
    let err = matches_filter(&d, &j(r#"{"name": {"$regex": "alice", "$options": "iz"}}"#)).unwrap_err();
    assert!(err.to_string().contains("Invalid regex option"));
}

#[test]
fn test_not_with_regex_options_case_insensitive() {
    let d = doc(&[("name", r#""ALICE""#)]);
    let filter = j(r#"{"name": {"$not": {"$regex": "alice", "$options": "i"}}}"#);
    assert!(!matches_filter(&d, &filter).unwrap());
}

#[test]
fn test_not_with_regex_options_no_match() {
    let d = doc(&[("name", r#""BOB""#)]);
    let filter = j(r#"{"name": {"$not": {"$regex": "alice", "$options": "i"}}}"#);
    assert!(matches_filter(&d, &filter).unwrap());
}

#[test]
fn test_not_with_regex_no_options() {
    let d = doc(&[("name", r#""alice""#)]);
    assert!(matches_filter(&d, &j(r#"{"name": {"$not": {"$regex": "bob"}}}"#)).unwrap());
}

#[test]
fn test_not_options_without_regex_error() {
    let d = doc(&[("name", r#""alice""#)]);
    let result = matches_filter(&d, &j(r#"{"name": {"$not": {"$options": "i"}}}"#));
    assert!(result.is_err());
    assert!(err_text(result).contains("$options requires $regex"));
}

#[test]
fn filter_wildcard_needs_a_field_name() {
    let d = doc(&[("name", r#""Alice""#)]);
    let err = matches_filter(&d, &j(r#"{"$**": "Alice"}"#)).unwrap_err().to_string();
    assert_eq!(err, "$** must be followed by a field name (e.g., $**.fieldName)");
}

#[test]
fn filter_wildcard_refuses_a_dotted_path() {
    let d = doc(&[("name", r#""Alice""#)]);
    let err = matches_filter(&d, &j(r#"{"$**.a.b": 1}"#)).unwrap_err().to_string();
    assert_eq!(err, "$** wildcard does not support nested paths. Use $**.a instead of $**.a.b");
}

#[test]
fn filter_wildcard_reads_the_listed_values() {
    let d = DocumentFields {
        fields: vec![FieldValues {
            path: "$**.city".to_string(),
            values: vec![j(r#""Paris""#), j(r#""Rome""#)],
            crosses_array: false,
            value: None,
        }],
    };
    assert!(matches_filter(&d, &j(r#"{"$**.city": "Rome"}"#)).unwrap());
    assert!(!matches_filter(&d, &j(r#"{"$**.city": "Oslo"}"#)).unwrap());
    assert!(!matches_filter(&d, &j(r#"{"$**.town": "Rome"}"#)).unwrap());
}

#[test]
fn filter_any_of_the_reached_values_satisfies_an_operator() {
    let d = DocumentFields {
        fields: vec![FieldValues {
            path: "items.price".to_string(),
            values: vec![j("5"), j("40")],
            crosses_array: true,
            value: None,
        }],
    };
    assert!(matches_filter(&d, &j(r#"{"items.price": {"$gt": 30}}"#)).unwrap());
    assert!(!matches_filter(&d, &j(r#"{"items.price": {"$gt": 50}}"#)).unwrap());
}

#[test]
fn filter_top_level_or_and_nor() {
    let d = doc(&[("age", "40"), ("city", r#""Rome""#)]);
    assert!(matches_filter(&d, &j(r#"{"$or": [{"age": {"$lt": 18}}, {"city": "Rome"}]}"#)).unwrap());
    assert!(!matches_filter(&d, &j(r#"{"$nor": [{"age": {"$lt": 18}}, {"city": "Rome"}]}"#)).unwrap());
    let err = matches_filter(&d, &j(r#"{"$or": {"city": "Rome"}}"#)).unwrap_err().to_string();
    assert_eq!(err, "$or operator requires an array");
}

#[test]
fn filter_first_failing_condition_decides() {
    let d = doc(&[("age", "40")]);
    // Members are read in key order: the failing "a" comes before the malformed "age".
    assert!(!matches_filter(&d, &j(r#"{"a": 1, "age": {"$nin": 3}}"#)).unwrap());
    let err = matches_filter(&d, &j(r#"{"age": {"$nin": 3}, "b": 1}"#)).unwrap_err().to_string();
    assert_eq!(err, "$nin operator requires an array");
}

#[test]
fn filter_value_rejects_plain_fields() {
    let err = matches_filter_value(Some(&j("1")), &j(r#"{"a": 1}"#), None).unwrap_err().to_string();
    assert_eq!(err, "Unexpected field in filter value");
}

#[test]
fn filter_orders_floats_and_signed_integers() {
    assert!(GtOperator.matches(Some(&j("2.5")), &j("1.5")).unwrap());
    assert!(!GtOperator.matches(Some(&j("1.5")), &j("2.5")).unwrap());
    assert!(GtOperator.matches(Some(&j("-0.5")), &j("-1.5")).unwrap());
    assert!(LtOperator.matches(Some(&j("-3")), &j("2")).unwrap());
    assert!(GteOperator.matches(Some(&j("[1, 9]")), &j("5")).unwrap());
}

/// An evaluator that answers `$fuzzy` by whether the argument is `true`,
/// and computes `{"$const": ..}` as 1 (every other operand as nothing).
struct ArgumentIsTrue;

impl FloatOperators for ArgumentIsTrue {
    fn fuzzy(&self, doc_value: Option<&JsonValue>, filter_value: &JsonValue) -> Result<bool, IronBaseError> {
        Ok(doc_value.is_some() && matches!(filter_value, JsonValue::Bool(true)))
    }

    fn compute(&self, operand: &JsonValue, _document: &DocumentFields) -> Result<Option<JsonValue>, IronBaseError> {
        Ok(match operand {
            JsonValue::Object(ms) if ms[0].0 == "$const" => Some(j("1")),
            _ => None,
        })
    }
}

#[test]
fn filter_hands_computed_operands_and_fuzzy_to_the_evaluator() {
    let d = doc(&[("a", "1"), ("name", r#""Jon""#)]);
    assert!(matches_filter_with(&d, &j(r#"{"$expr": {"$eq": ["$a", {"$const": 0}]}, "a": 1}"#), &ArgumentIsTrue).unwrap());
    assert!(!matches_filter_with(&d, &j(r#"{"$expr": {"$eq": ["$a", {"$other": 0}]}}"#), &ArgumentIsTrue).unwrap());
    assert!(matches_filter_with(&d, &j(r#"{"name": {"$fuzzy": true}}"#), &ArgumentIsTrue).unwrap());
    assert!(!matches_filter_with(&d, &j(r#"{"missing": {"$fuzzy": true}}"#), &ArgumentIsTrue).unwrap());
    // a condition before `$expr` that fails decides without the evaluator
    assert!(!matches_filter_with(&d, &j(r#"{"a": 2, "$expr": {"$eq": [{"$const": 0}, 1]}}"#), &ArgumentIsTrue).unwrap());
    // without an evaluator, comparisons of fields and literals still hold or fail
    assert!(matches_filter(&d, &j(r#"{"$expr": {"$eq": ["$a", 1]}}"#)).unwrap());
    // but computed operands and `$fuzzy` are refused
    let err = matches_filter(&d, &j(r#"{"$expr": {"$eq": [{"$add": ["$a", 1]}, 2]}}"#)).unwrap_err().to_string();
    assert_eq!(err, "Operator is evaluated by the application: $expr");
    let err = matches_filter(&d, &j(r#"{"name": {"$fuzzy": "Jon"}}"#)).unwrap_err().to_string();
    assert_eq!(err, "Operator is evaluated by the application: $fuzzy");
}

#[test]
fn expr_errors_name_the_malformed_part() {
    let d = doc(&[("a", "1")]);
    let e = |f: &str| matches_filter(&d, &j(f)).unwrap_err().to_string();
    assert_eq!(e(r#"{"$expr": 5}"#), "$expr expression must be an object");
    assert_eq!(e(r#"{"$expr": {}}"#), "$expr expression must have exactly one operator");
    assert_eq!(e(r#"{"$expr": {"$gt": "$a"}}"#), "Comparison in $expr requires an array");
    assert_eq!(e(r#"{"$expr": {"$gt": ["$a"]}}"#), "Comparison in $expr requires exactly 2 arguments");
    assert_eq!(e(r#"{"$expr": {"$and": 1}}"#), "$and in $expr requires an array");
    assert_eq!(e(r#"{"$expr": {"$not": [true, false]}}"#), "$not in $expr requires exactly one element");
    assert_eq!(e(r#"{"$expr": {"$in": [1, 2]}}"#), "Unsupported operator in $expr: $in");
    assert!(matches_filter(&d, &j(r#"{"$expr": {"$not": [{"$eq": ["$a", 2]}]}}"#)).unwrap());
    assert!(!matches_filter(&d, &j(r#"{"$expr": {"$eq": ["$a", "1"]}}"#)).unwrap());
}

#[test]
fn filter_orders_integers_against_floats_by_value() {
    assert!(GtOperator.matches(Some(&j("10")), &j("9.5")).unwrap());
    assert!(!GtOperator.matches(Some(&j("9")), &j("9.5")).unwrap());
    assert!(GteOperator.matches(Some(&j("2")), &j("2.0")).unwrap());
    assert!(!GtOperator.matches(Some(&j("2")), &j("2.0")).unwrap());
    assert!(LtOperator.matches(Some(&j("-3")), &j("-2.5")).unwrap());
    assert!(GtOperator.matches(Some(&j("0.1")), &j("0")).unwrap());
    assert!(LteOperator.matches(Some(&j("-0.75")), &j("0")).unwrap());
    assert!(GtOperator.matches(Some(&j("1e300")), &j("18446744073709551615")).unwrap());
    assert!(LtOperator.matches(Some(&j("3")), &j("1e-300")).unwrap() == false);
    let d = doc(&[("price", "10")]);
    assert!(matches_filter(&d, &j(r#"{"price": {"$gt": 9.5, "$lte": 10.0}}"#)).unwrap());
}

#[test]
fn operators_test_regex_anchor_start() {
    let d = doc(&[("name", r#""Alice Smith""#)]);
    let filter = j(r#"{"name": {"$regex": "^Alice"}}"#);
    assert!(matches_filter(&d, &filter).unwrap());

    let filter_fail = j(r#"{"name": {"$regex": "^Smith"}}"#);
    assert!(!matches_filter(&d, &filter_fail).unwrap());
}

#[test]
fn operators_test_regex_anchor_end() {
    let d = doc(&[("name", r#""Alice Smith""#)]);
    let filter = j(r#"{"name": {"$regex": "Smith$"}}"#);
    assert!(matches_filter(&d, &filter).unwrap());

    let filter_fail = j(r#"{"name": {"$regex": "Alice$"}}"#);
    assert!(!matches_filter(&d, &filter_fail).unwrap());
}

#[test]
fn operators_test_regex_anchor_full() {
    let d = doc(&[("name", r#""Alice""#)]);
    let filter = j(r#"{"name": {"$regex": "^Alice$"}}"#);
    assert!(matches_filter(&d, &filter).unwrap());

    let doc_partial = doc(&[("name", r#""Alice Smith""#)]);
    assert!(!matches_filter(&doc_partial, &filter).unwrap());
}

#[test]
fn operators_test_regex_character_class() {
    let d = doc(&[("email", r#""test@example.com""#)]);
    let filter = j(r#"{"email": {"$regex": "[a-z]+@[a-z]+\\.[a-z]+"}}"#);
    assert!(matches_filter(&d, &filter).unwrap());

    let doc_invalid = doc(&[("email", r#""123@456.789""#)]);
    assert!(!matches_filter(&doc_invalid, &filter).unwrap());
}

#[test]
fn operators_test_regex_digit_class() {
    let d = doc(&[("code", r#""ABC123""#)]);
    let filter = j(r#"{"code": {"$regex": "[A-Z]+\\d+"}}"#);
    assert!(matches_filter(&d, &filter).unwrap());
}

#[test]
fn operators_test_regex_quantifiers() {
    let d = doc(&[("phone", r#""123-456-7890""#)]);
    let filter = j(r#"{"phone": {"$regex": "^\\d{3}-\\d{3}-\\d{4}$"}}"#);
    assert!(matches_filter(&d, &filter).unwrap());

    let doc_invalid = doc(&[("phone", r#""12-34-5678""#)]);
    assert!(!matches_filter(&doc_invalid, &filter).unwrap());
}

#[test]
fn operators_test_regex_alternation() {
    let d = doc(&[("lang", r#""rust""#)]);
    let filter = j(r#"{"lang": {"$regex": "^(python|javascript|rust)$"}}"#);
    assert!(matches_filter(&d, &filter).unwrap());

    let doc_go = doc(&[("lang", r#""go""#)]);
    assert!(!matches_filter(&doc_go, &filter).unwrap());
}

#[test]
fn operators_test_regex_optional_quantifier() {
    let doc1 = doc(&[("color", r#""color""#)]);
    let doc2 = doc(&[("color", r#""colour""#)]);
    let filter = j(r#"{"color": {"$regex": "colou?r"}}"#);
    assert!(matches_filter(&doc1, &filter).unwrap());
    assert!(matches_filter(&doc2, &filter).unwrap());
}

#[test]
fn operators_test_regex_plus_quantifier() {
    let d = doc(&[("text", r#""aaaabc""#)]);
    let filter = j(r#"{"text": {"$regex": "a+bc"}}"#);
    assert!(matches_filter(&d, &filter).unwrap());

    let doc_no_a = doc(&[("text", r#""bc""#)]);
    assert!(!matches_filter(&doc_no_a, &filter).unwrap());
}

#[test]
fn operators_test_regex_star_quantifier() {
    let doc1 = doc(&[("text", r#""bc""#)]);
    let doc2 = doc(&[("text", r#""aaabc""#)]);
    let filter = j(r#"{"text": {"$regex": "a*bc"}}"#);
    assert!(matches_filter(&doc1, &filter).unwrap());
    assert!(matches_filter(&doc2, &filter).unwrap());
}

#[test]
fn operators_test_regex_multiline_option() {
    let d = doc(&[("text", r#""line1\nline2\nline3""#)]);
    let filter = j(r#"{"text": {"$regex": "^line2$", "$options": "m"}}"#);
    assert!(matches_filter(&d, &filter).unwrap());
}

#[test]
fn operators_test_regex_dotall_option() {
    let d = doc(&[("text", r#""hello\nworld""#)]);
    let filter = j(r#"{"text": {"$regex": "hello.world", "$options": "s"}}"#);
    assert!(matches_filter(&d, &filter).unwrap());

    // Without 's' option, '.' doesn't match newline
    let filter_no_s = j(r#"{"text": {"$regex": "hello.world"}}"#);
    assert!(!matches_filter(&d, &filter_no_s).unwrap());
}

#[test]
fn operators_test_regex_invalid_pattern_error() {
    let d = doc(&[("name", r#""Alice""#)]);
    let filter = j(r#"{"name": {"$regex": "[unclosed"}}"#);
    let result = matches_filter(&d, &filter);
    assert!(result.is_err());
    assert!(result.unwrap_err().to_string().contains("Invalid regex"));
}

#[test]
fn operators_test_regex_word_boundary() {
    let d = doc(&[("text", r#""test testing tested""#)]);
    let filter = j(r#"{"text": {"$regex": "\\btest\\b"}}"#);
    assert!(matches_filter(&d, &filter).unwrap());

    // Should not match "testing" when looking for whole word "test"
    let doc2 = doc(&[("text", r#""testing""#)]);
    assert!(!matches_filter(&doc2, &filter).unwrap());
}

#[test]
fn operators_test_regex_whitespace_class() {
    let d = doc(&[("text", r#""hello world""#)]);
    let filter = j(r#"{"text": {"$regex": "hello\\s+world"}}"#);
    assert!(matches_filter(&d, &filter).unwrap());

    let doc_tabs = doc(&[("text", r#""hello\t\tworld""#)]);
    assert!(matches_filter(&doc_tabs, &filter).unwrap());
}

#[test]
fn operators_test_regex_combined_options() {
    let d = doc(&[("text", r#""HELLO\nworld""#)]);
    // Case insensitive + multiline
    let filter = j(r#"{"text": {"$regex": "^hello$", "$options": "im"}}"#);
    assert!(matches_filter(&d, &filter).unwrap());
}

#[test]
fn operators_test_regex_on_array_with_anchors() {
    let d = doc(&[("tags", r#"["rust", "python", "javascript"]"#)]);
    let filter = j(r#"{"tags": {"$regex": "^rust$"}}"#);
    assert!(matches_filter(&d, &filter).unwrap());

    let filter_not_found = j(r#"{"tags": {"$regex": "^go$"}}"#);
    assert!(!matches_filter(&d, &filter_not_found).unwrap());
}

#[test]
fn operators_test_regex_cache_reuse() {
    // The same pattern used on several documents.
    let doc1 = doc(&[("name", r#""Alice""#)]);
    let doc2 = doc(&[("name", r#""Bob""#)]);
    let doc3 = doc(&[("name", r#""Charlie""#)]);

    let filter = j(r#"{"name": {"$regex": "^[A-C]"}}"#);

    assert!(matches_filter(&doc1, &filter).unwrap()); // Alice starts with A
    assert!(matches_filter(&doc2, &filter).unwrap()); // Bob starts with B
    assert!(matches_filter(&doc3, &filter).unwrap()); // Charlie starts with C
}

#[test]
fn mod_test_regex_anchor_start() {
    let d = doc(&[("name", r#""Alice Smith""#)]);
    let filter = j(r#"{"name": {"$regex": "^Alice"}}"#);
    assert!(matches_filter(&d, &filter).unwrap());

    let filter_fail = j(r#"{"name": {"$regex": "^Smith"}}"#);
    assert!(!matches_filter(&d, &filter_fail).unwrap());
}

#[test]
fn mod_test_regex_anchor_end() {
    let d = doc(&[("name", r#""Alice Smith""#)]);
    let filter = j(r#"{"name": {"$regex": "Smith$"}}"#);
    assert!(matches_filter(&d, &filter).unwrap());

    let filter_fail = j(r#"{"name": {"$regex": "Alice$"}}"#);
    assert!(!matches_filter(&d, &filter_fail).unwrap());
}

#[test]
fn mod_test_regex_anchor_full() {
    let d = doc(&[("name", r#""Alice""#)]);
    let filter = j(r#"{"name": {"$regex": "^Alice$"}}"#);
    assert!(matches_filter(&d, &filter).unwrap());

    let doc_partial = doc(&[("name", r#""Alice Smith""#)]);
    assert!(!matches_filter(&doc_partial, &filter).unwrap());
}

#[test]
fn mod_test_regex_character_class() {
    let d = doc(&[("email", r#""test@example.com""#)]);
    let filter = j(r#"{"email": {"$regex": "[a-z]+@[a-z]+\\.[a-z]+"}}"#);
    assert!(matches_filter(&d, &filter).unwrap());

    let doc_invalid = doc(&[("email", r#""123@456.789""#)]);
    assert!(!matches_filter(&doc_invalid, &filter).unwrap());
}

#[test]
fn mod_test_regex_digit_class() {
    let d = doc(&[("code", r#""ABC123""#)]);
    let filter = j(r#"{"code": {"$regex": "[A-Z]+\\d+"}}"#);
    assert!(matches_filter(&d, &filter).unwrap());
}

#[test]
fn mod_test_regex_quantifiers() {
    let d = doc(&[("phone", r#""123-456-7890""#)]);
    let filter = j(r#"{"phone": {"$regex": "^\\d{3}-\\d{3}-\\d{4}$"}}"#);
    assert!(matches_filter(&d, &filter).unwrap());

    let doc_invalid = doc(&[("phone", r#""12-34-5678""#)]);
    assert!(!matches_filter(&doc_invalid, &filter).unwrap());
}

#[test]
fn mod_test_regex_alternation() {
    let d = doc(&[("lang", r#""rust""#)]);
    let filter = j(r#"{"lang": {"$regex": "^(python|javascript|rust)$"}}"#);
    assert!(matches_filter(&d, &filter).unwrap());

    let doc_go = doc(&[("lang", r#""go""#)]);
    assert!(!matches_filter(&doc_go, &filter).unwrap());
}

#[test]
fn mod_test_regex_optional_quantifier() {
    let doc1 = doc(&[("color", r#""color""#)]);
    let doc2 = doc(&[("color", r#""colour""#)]);
    let filter = j(r#"{"color": {"$regex": "colou?r"}}"#);
    assert!(matches_filter(&doc1, &filter).unwrap());
    assert!(matches_filter(&doc2, &filter).unwrap());
}

#[test]
fn mod_test_regex_plus_quantifier() {
    let d = doc(&[("text", r#""aaaabc""#)]);
    let filter = j(r#"{"text": {"$regex": "a+bc"}}"#);
    assert!(matches_filter(&d, &filter).unwrap());

    let doc_no_a = doc(&[("text", r#""bc""#)]);
    assert!(!matches_filter(&doc_no_a, &filter).unwrap());
}

#[test]
fn mod_test_regex_star_quantifier() {
    let doc1 = doc(&[("text", r#""bc""#)]);
    let doc2 = doc(&[("text", r#""aaabc""#)]);
    let filter = j(r#"{"text": {"$regex": "a*bc"}}"#);
    assert!(matches_filter(&doc1, &filter).unwrap());
    assert!(matches_filter(&doc2, &filter).unwrap());
}

#[test]
fn mod_test_regex_multiline_option() {
    let d = doc(&[("text", r#""line1\nline2\nline3""#)]);
    let filter = j(r#"{"text": {"$regex": "^line2$", "$options": "m"}}"#);
    assert!(matches_filter(&d, &filter).unwrap());
}

#[test]
fn mod_test_regex_dotall_option() {
    let d = doc(&[("text", r#""hello\nworld""#)]);
    let filter = j(r#"{"text": {"$regex": "hello.world", "$options": "s"}}"#);
    assert!(matches_filter(&d, &filter).unwrap());

    // Without 's' option, '.' doesn't match newline
    let filter_no_s = j(r#"{"text": {"$regex": "hello.world"}}"#);
    assert!(!matches_filter(&d, &filter_no_s).unwrap());
}

#[test]
fn mod_test_regex_invalid_pattern_error() {
    let d = doc(&[("name", r#""Alice""#)]);
    let filter = j(r#"{"name": {"$regex": "[unclosed"}}"#);
    let result = matches_filter(&d, &filter);
    assert!(result.is_err());
    assert!(result.unwrap_err().to_string().contains("Invalid regex"));
}

#[test]
fn mod_test_regex_word_boundary() {
    let d = doc(&[("text", r#""test testing tested""#)]);
    let filter = j(r#"{"text": {"$regex": "\\btest\\b"}}"#);
    assert!(matches_filter(&d, &filter).unwrap());

    // Should not match "testing" when looking for whole word "test"
    let doc2 = doc(&[("text", r#""testing""#)]);
    assert!(!matches_filter(&doc2, &filter).unwrap());
}

#[test]
fn mod_test_regex_whitespace_class() {
    let d = doc(&[("text", r#""hello world""#)]);
    let filter = j(r#"{"text": {"$regex": "hello\\s+world"}}"#);
    assert!(matches_filter(&d, &filter).unwrap());

    let doc_tabs = doc(&[("text", r#""hello\t\tworld""#)]);
    assert!(matches_filter(&doc_tabs, &filter).unwrap());
}

#[test]
fn mod_test_regex_combined_options() {
    let d = doc(&[("text", r#""HELLO\nworld""#)]);
    // Case insensitive + multiline
    let filter = j(r#"{"text": {"$regex": "^hello$", "$options": "im"}}"#);
    assert!(matches_filter(&d, &filter).unwrap());
}

#[test]
fn mod_test_regex_on_array_with_anchors() {
    let d = doc(&[("tags", r#"["rust", "python", "javascript"]"#)]);
    let filter = j(r#"{"tags": {"$regex": "^rust$"}}"#);
    assert!(matches_filter(&d, &filter).unwrap());

    let filter_not_found = j(r#"{"tags": {"$regex": "^go$"}}"#);
    assert!(!matches_filter(&d, &filter_not_found).unwrap());
}

#[test]
fn mod_test_regex_cache_reuse() {
    // The same pattern used on several documents.
    let doc1 = doc(&[("name", r#""Alice""#)]);
    let doc2 = doc(&[("name", r#""Bob""#)]);
    let doc3 = doc(&[("name", r#""Charlie""#)]);

    let filter = j(r#"{"name": {"$regex": "^[A-C]"}}"#);

    assert!(matches_filter(&doc1, &filter).unwrap()); // Alice starts with A
    assert!(matches_filter(&doc2, &filter).unwrap()); // Bob starts with B
    assert!(matches_filter(&doc3, &filter).unwrap()); // Charlie starts with C
}

#[test]
fn compare_values_orders_by_value() {
    assert_eq!(compare_values(&j("1"), &j("2")), Some(-1));
    assert_eq!(compare_values(&j("2.5"), &j("2")), Some(1));
    assert_eq!(compare_values(&j("3"), &j("3.0")), Some(0));
    assert_eq!(compare_values(&j(r#""b""#), &j(r#""a""#)), Some(1));
    assert_eq!(compare_values(&j(r#""a""#), &j("1")), None);
}

#[test]
fn filter_is_the_conjunction_of_its_conditions() {
    let d = doc(&[("age", "30"), ("name", r#""Ann""#)]);
    let holds = |f: &str| matches_filter(&d, &j(f)).unwrap();
    assert!(holds(r#"{"age": {"$gt": 18}, "name": "Ann"}"#));
    assert!(holds(r#"{"age": {"$gt": 18}}"#) && holds(r#"{"name": "Ann"}"#));
    assert!(!holds(r#"{"name": "Ann", "age": {"$lt": 20}}"#));
    assert!(holds(r#"{"name": "Ann"}"#) && !holds(r#"{"age": {"$lt": 20}}"#));
    assert!(!holds(r#"{"name": "Bob", "age": {"$gt": 18}}"#));
}

#[test]
fn fuzzy_query_reads_term_and_algorithm() {
    let (t, a) = FuzzyOperator::query(&j(r#""john""#)).unwrap();
    assert_eq!((t.as_str(), a), ("john", FuzzyAlgorithm::JaroWinkler));
    let (t, a) = FuzzyOperator::query(&j(r#"{"value": "jon", "algorithm": "Levenshtein", "threshold": 0.5}"#)).unwrap();
    assert_eq!((t.as_str(), a), ("jon", FuzzyAlgorithm::Levenshtein));
    assert_eq!(
        FuzzyOperator::query(&j(r#"{"value": 3}"#)).unwrap_err().to_string(),
        "$fuzzy object form requires 'value' field with string"
    );
    assert_eq!(
        FuzzyOperator::query(&j(r#"{"value": "x", "algorithm": "soundex"}"#)).unwrap_err().to_string(),
        "Unknown fuzzy algorithm: 'soundex'. Supported: jaro_winkler, levenshtein, damerau_levenshtein"
    );
    assert_eq!(
        FuzzyOperator::query(&j("7")).unwrap_err().to_string(),
        "$fuzzy operator requires a string or object with 'value' field"
    );
}

#[test]
fn fuzzy_candidates_are_the_strings_of_the_value() {
    assert_eq!(FuzzyOperator::candidates(Some(&j(r#""ann""#))), vec!["ann".to_string()]);
    assert_eq!(
        FuzzyOperator::candidates(Some(&j(r#"["a", 1, "b", null]"#))),
        vec!["a".to_string(), "b".to_string()]
    );
    assert!(FuzzyOperator::candidates(Some(&j("5"))).is_empty());
    assert!(FuzzyOperator::candidates(None).is_empty());
}

// ---- $expr ----

#[test]
fn operators_test_expr_compare_two_fields() {
    let doc_above = doc(&[("quantity", "100"), ("reorderLevel", "50")]);
    let doc_below = doc(&[("quantity", "30"), ("reorderLevel", "50")]);
    let doc_equal = doc(&[("quantity", "50"), ("reorderLevel", "50")]);
    let filter = j(r#"{"$expr": {"$gt": ["$quantity", "$reorderLevel"]}}"#);
    assert!(matches_filter(&doc_above, &filter).unwrap());
    assert!(!matches_filter(&doc_below, &filter).unwrap());
    assert!(!matches_filter(&doc_equal, &filter).unwrap());
}

#[test]
fn operators_test_expr_compare_field_with_literal() {
    let doc_adult = doc(&[("age", "25")]);
    let doc_teen = doc(&[("age", "16")]);
    let doc_exact = doc(&[("age", "18")]);
    let filter = j(r#"{"$expr": {"$gte": ["$age", 18]}}"#);
    assert!(matches_filter(&doc_adult, &filter).unwrap());
    assert!(!matches_filter(&doc_teen, &filter).unwrap());
    assert!(matches_filter(&doc_exact, &filter).unwrap());
}

#[test]
fn operators_test_expr_eq_and_ne() {
    let d = doc(&[("a", "10"), ("b", "10"), ("c", "20")]);
    let filter_eq = j(r#"{"$expr": {"$eq": ["$a", "$b"]}}"#);
    let filter_ne = j(r#"{"$expr": {"$ne": ["$a", "$c"]}}"#);
    let filter_eq_fail = j(r#"{"$expr": {"$eq": ["$a", "$c"]}}"#);
    assert!(matches_filter(&d, &filter_eq).unwrap());
    assert!(matches_filter(&d, &filter_ne).unwrap());
    assert!(!matches_filter(&d, &filter_eq_fail).unwrap());
}

#[test]
fn operators_test_expr_with_strings() {
    let d = doc(&[("firstName", r#""Alice""#), ("lastName", r#""Smith""#)]);
    let filter_lt = j(r#"{"$expr": {"$lt": ["$firstName", "$lastName"]}}"#);
    let filter_gt = j(r#"{"$expr": {"$gt": ["$firstName", "$lastName"]}}"#);
    assert!(matches_filter(&d, &filter_lt).unwrap());
    assert!(!matches_filter(&d, &filter_gt).unwrap());
}

#[test]
fn operators_test_expr_missing_field() {
    let d = doc(&[("quantity", "100")]);
    let filter = j(r#"{"$expr": {"$gt": ["$quantity", "$reorderLevel"]}}"#);
    assert!(!matches_filter(&d, &filter).unwrap());
}

#[test]
fn operators_test_expr_nested_logical_operators() {
    let doc_in_range = doc(&[("a", "7")]);
    let doc_too_low = doc(&[("a", "3")]);
    let doc_too_high = doc(&[("a", "15")]);
    let filter = j(r#"{"$expr": {"$and": [{"$gt": ["$a", 5]}, {"$lt": ["$a", 10]}]}}"#);
    assert!(matches_filter(&doc_in_range, &filter).unwrap());
    assert!(!matches_filter(&doc_too_low, &filter).unwrap());
    assert!(!matches_filter(&doc_too_high, &filter).unwrap());
}

#[test]
fn operators_test_expr_or_operator() {
    let doc_low = doc(&[("score", "20")]);
    let doc_high = doc(&[("score", "90")]);
    let doc_mid = doc(&[("score", "50")]);
    let filter = j(r#"{"$expr": {"$or": [{"$lt": ["$score", 30]}, {"$gt": ["$score", 80]}]}}"#);
    assert!(matches_filter(&doc_low, &filter).unwrap());
    assert!(matches_filter(&doc_high, &filter).unwrap());
    assert!(!matches_filter(&doc_mid, &filter).unwrap());
}

#[test]
fn mod_test_expr_compare_two_fields() {
    let doc_above = doc(&[("quantity", "100"), ("reorderLevel", "50")]);
    let doc_below = doc(&[("quantity", "30"), ("reorderLevel", "50")]);
    let doc_equal = doc(&[("quantity", "50"), ("reorderLevel", "50")]);
    let filter = j(r#"{"$expr": {"$gt": ["$quantity", "$reorderLevel"]}}"#);
    assert!(matches_filter(&doc_above, &filter).unwrap());
    assert!(!matches_filter(&doc_below, &filter).unwrap());
    assert!(!matches_filter(&doc_equal, &filter).unwrap());
}

#[test]
fn mod_test_expr_compare_field_with_literal() {
    let doc_adult = doc(&[("age", "25")]);
    let doc_teen = doc(&[("age", "16")]);
    let doc_exact = doc(&[("age", "18")]);
    let filter = j(r#"{"$expr": {"$gte": ["$age", 18]}}"#);
    assert!(matches_filter(&doc_adult, &filter).unwrap());
    assert!(!matches_filter(&doc_teen, &filter).unwrap());
    assert!(matches_filter(&doc_exact, &filter).unwrap());
}

#[test]
fn mod_test_expr_eq_and_ne() {
    let d = doc(&[("a", "10"), ("b", "10"), ("c", "20")]);
    let filter_eq = j(r#"{"$expr": {"$eq": ["$a", "$b"]}}"#);
    let filter_ne = j(r#"{"$expr": {"$ne": ["$a", "$c"]}}"#);
    let filter_eq_fail = j(r#"{"$expr": {"$eq": ["$a", "$c"]}}"#);
    assert!(matches_filter(&d, &filter_eq).unwrap());
    assert!(matches_filter(&d, &filter_ne).unwrap());
    assert!(!matches_filter(&d, &filter_eq_fail).unwrap());
}

#[test]
fn mod_test_expr_with_strings() {
    let d = doc(&[("firstName", r#""Alice""#), ("lastName", r#""Smith""#)]);
    let filter_lt = j(r#"{"$expr": {"$lt": ["$firstName", "$lastName"]}}"#);
    let filter_gt = j(r#"{"$expr": {"$gt": ["$firstName", "$lastName"]}}"#);
    assert!(matches_filter(&d, &filter_lt).unwrap());
    assert!(!matches_filter(&d, &filter_gt).unwrap());
}

#[test]
fn mod_test_expr_missing_field() {
    let d = doc(&[("quantity", "100")]);
    let filter = j(r#"{"$expr": {"$gt": ["$quantity", "$reorderLevel"]}}"#);
    assert!(!matches_filter(&d, &filter).unwrap());
}

#[test]
fn mod_test_expr_nested_logical_operators() {
    let doc_in_range = doc(&[("a", "7")]);
    let doc_too_low = doc(&[("a", "3")]);
    let doc_too_high = doc(&[("a", "15")]);
    let filter = j(r#"{"$expr": {"$and": [{"$gt": ["$a", 5]}, {"$lt": ["$a", 10]}]}}"#);
    assert!(matches_filter(&doc_in_range, &filter).unwrap());
    assert!(!matches_filter(&doc_too_low, &filter).unwrap());
    assert!(!matches_filter(&doc_too_high, &filter).unwrap());
}

#[test]
fn mod_test_expr_or_operator() {
    let doc_low = doc(&[("score", "20")]);
    let doc_high = doc(&[("score", "90")]);
    let doc_mid = doc(&[("score", "50")]);
    let filter = j(r#"{"$expr": {"$or": [{"$lt": ["$score", 30]}, {"$gt": ["$score", 80]}]}}"#);
    assert!(matches_filter(&doc_low, &filter).unwrap());
    assert!(matches_filter(&doc_high, &filter).unwrap());
    assert!(!matches_filter(&doc_mid, &filter).unwrap());
}
