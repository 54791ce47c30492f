use ironbase_core::error::IronBaseError;
use ironbase_core::query::operators::{
    AllOperator, EqOperator, ExistsOperator, InOperator, NeOperator, NinOperator, OperatorKind,
    OperatorMatcher, OperatorRegistry, SizeOperator, TypeOperator,
};
use ironbase_core::query::text_search::{
    build_regex_pattern, regex_match_with_options, FuzzyAlgorithm, RegexOperator,
};
use ironbase_core::query::value::{json_eq, JsonNumber, JsonValue};

/// Builds the library's value from JSON text.
fn j(text: &str) -> JsonValue {
    let v: serde_json::Value = serde_json::from_str(text).unwrap();
    conv(&v)
}

fn conv(v: &serde_json::Value) -> JsonValue {
    match v {
        serde_json::Value::Null => JsonValue::Null,
        serde_json::Value::Bool(b) => JsonValue::Bool(*b),
        serde_json::Value::Number(n) => {
            if let Some(u) = n.as_u64() {
                JsonValue::Number(JsonNumber::PosInt(u))
            } else if let Some(i) = n.as_i64() {
                JsonValue::Number(JsonNumber::NegInt(i))
            } else {
                let f = n.as_f64().unwrap();
                let f = if f == 0.0 { 0.0 } else { f };
                JsonValue::Number(JsonNumber::Float(f.to_bits(), n.to_string()))
            }
        }
        serde_json::Value::String(s) => JsonValue::String(s.clone()),
        serde_json::Value::Array(a) => JsonValue::Array(a.iter().map(conv).collect()),
        serde_json::Value::Object(m) => {
            let mut members: Vec<(String, JsonValue)> =
                m.iter().map(|(k, v)| (k.clone(), conv(v))).collect();
            members.sort_by(|a, b| a.0.cmp(&b.0));
            JsonValue::Object(members)
        }
    }
}

fn err_text(r: Result<bool, IronBaseError>) -> String {
    r.unwrap_err().to_string()
}

#[test]
fn operators_test_nin_operator() {
    let op = NinOperator;
    let array = j(r#"["NYC", "LA", "SF"]"#);
    assert!(op.matches(Some(&j(r#""Chicago""#)), &array).unwrap());
    assert!(!op.matches(Some(&j(r#""NYC""#)), &array).unwrap());
    assert!(op.matches(None, &array).unwrap()); // Missing field returns true
}

#[test]
fn mod_test_nin_operator() {
    let op = NinOperator;
    let array = j(r#"["NYC", "LA", "SF"]"#);
    assert!(op.matches(Some(&j(r#""Chicago""#)), &array).unwrap());
    assert!(!op.matches(Some(&j(r#""NYC""#)), &array).unwrap());
    assert!(op.matches(None, &array).unwrap()); // Missing field returns true
}

#[test]
fn operators_test_in_missing_field() {
    let op = InOperator;
    let array = j(r#"["NYC", "LA"]"#);
    assert!(!op.matches(None, &array).unwrap());
}

#[test]
fn mod_test_in_missing_field() {
    let op = InOperator;
    let array = j(r#"["NYC", "LA"]"#);
    assert!(!op.matches(None, &array).unwrap());
}

#[test]
fn operators_test_in_not_array_error() {
    let op = InOperator;
    let result = op.matches(Some(&j(r#""NYC""#)), &j(r#""not an array""#));
    assert!(result.is_err());
    assert!(err_text(result).contains("requires an array"));
}

#[test]
fn mod_test_in_not_array_error() {
    let op = InOperator;
    let result = op.matches(Some(&j(r#""NYC""#)), &j(r#""not an array""#));
    assert!(result.is_err());
    assert!(err_text(result).contains("requires an array"));
}

#[test]
fn operators_test_nin_not_array_error() {
    let op = NinOperator;
    let result = op.matches(Some(&j(r#""NYC""#)), &j(r#""not an array""#));
    assert!(result.is_err());
    assert!(err_text(result).contains("requires an array"));
}

#[test]
fn mod_test_nin_not_array_error() {
    let op = NinOperator;
    let result = op.matches(Some(&j(r#""NYC""#)), &j(r#""not an array""#));
    assert!(result.is_err());
    assert!(err_text(result).contains("requires an array"));
}

#[test]
fn operators_test_all_missing_field() {
    let op = AllOperator;
    assert!(!op.matches(None, &j(r#"["a"]"#)).unwrap());
}

#[test]
fn mod_test_all_missing_field() {
    let op = AllOperator;
    assert!(!op.matches(None, &j(r#"["a"]"#)).unwrap());
}

#[test]
fn operators_test_all_not_array_doc() {
    let op = AllOperator;
    // Doc value is not an array
    assert!(!op.matches(Some(&j(r#""not an array""#)), &j(r#"["a"]"#)).unwrap());
}

#[test]
fn mod_test_all_not_array_doc() {
    let op = AllOperator;
    // Doc value is not an array
    assert!(!op.matches(Some(&j(r#""not an array""#)), &j(r#"["a"]"#)).unwrap());
}

#[test]
fn operators_test_all_not_array_filter_error() {
    let op = AllOperator;
    let result = op.matches(Some(&j(r#"["a", "b"]"#)), &j(r#""not an array""#));
    assert!(result.is_err());
    assert!(err_text(result).contains("requires an array"));
}

#[test]
fn mod_test_all_not_array_filter_error() {
    let op = AllOperator;
    let result = op.matches(Some(&j(r#"["a", "b"]"#)), &j(r#""not an array""#));
    assert!(result.is_err());
    assert!(err_text(result).contains("requires an array"));
}

#[test]
fn operators_test_exists_not_boolean_error() {
    let op = ExistsOperator;
    let result = op.matches(Some(&j(r#""value""#)), &j(r#""not a boolean""#));
    assert!(result.is_err());
    assert!(err_text(result).contains("requires a boolean"));
}

#[test]
fn mod_test_exists_not_boolean_error() {
    let op = ExistsOperator;
    let result = op.matches(Some(&j(r#""value""#)), &j(r#""not a boolean""#));
    assert!(result.is_err());
    assert!(err_text(result).contains("requires a boolean"));
}

#[test]
fn operators_test_regex_missing_field() {
    let op = RegexOperator;
    assert!(!op.matches(None, &j(r#""pattern""#)).unwrap());
}

#[test]
fn mod_test_regex_missing_field() {
    let op = RegexOperator;
    assert!(!op.matches(None, &j(r#""pattern""#)).unwrap());
}

#[test]
fn operators_test_regex_not_string_doc() {
    let op = RegexOperator;
    // Doc value is not a string
    assert!(!op.matches(Some(&j("123")), &j(r#""pattern""#)).unwrap());
}

#[test]
fn mod_test_regex_not_string_doc() {
    let op = RegexOperator;
    // Doc value is not a string
    assert!(!op.matches(Some(&j("123")), &j(r#""pattern""#)).unwrap());
}

#[test]
fn operators_test_regex_not_string_filter_error() {
    let op = RegexOperator;
    let result = op.matches(Some(&j(r#""hello""#)), &j("123"));
    assert!(result.is_err());
    assert!(err_text(result).contains("requires a string pattern"));
}

#[test]
fn mod_test_regex_not_string_filter_error() {
    let op = RegexOperator;
    let result = op.matches(Some(&j(r#""hello""#)), &j("123"));
    assert!(result.is_err());
    assert!(err_text(result).contains("requires a string pattern"));
}

#[test]
fn operators_test_type_bson_numbers() {
    let op = TypeOperator;
    // BSON type 1 = double
    assert!(op.matches(Some(&j("1.5")), &j("1")).unwrap());
    // BSON type 2 = string
    assert!(op.matches(Some(&j(r#""hello""#)), &j("2")).unwrap());
    // BSON type 3 = object
    assert!(op.matches(Some(&j(r#"{"a": 1}"#)), &j("3")).unwrap());
    // BSON type 4 = array
    assert!(op.matches(Some(&j("[1, 2]")), &j("4")).unwrap());
    // BSON type 8 = bool
    assert!(op.matches(Some(&j("true")), &j("8")).unwrap());
    // BSON type 10 = null
    assert!(op.matches(Some(&j("null")), &j("10")).unwrap());
    // BSON type 16 = int
    assert!(op.matches(Some(&j("42")), &j("16")).unwrap());
    // BSON type 18 = long
    assert!(op.matches(Some(&j("9223372036854775807")), &j("18")).unwrap());
}

#[test]
fn mod_test_type_bson_numbers() {
    let op = TypeOperator;
    // BSON type 1 = double
    assert!(op.matches(Some(&j("1.5")), &j("1")).unwrap());
    // BSON type 2 = string
    assert!(op.matches(Some(&j(r#""hello""#)), &j("2")).unwrap());
    // BSON type 3 = object
    assert!(op.matches(Some(&j(r#"{"a": 1}"#)), &j("3")).unwrap());
    // BSON type 4 = array
    assert!(op.matches(Some(&j("[1, 2]")), &j("4")).unwrap());
    // BSON type 8 = bool
    assert!(op.matches(Some(&j("true")), &j("8")).unwrap());
    // BSON type 10 = null
    assert!(op.matches(Some(&j("null")), &j("10")).unwrap());
    // BSON type 16 = int
    assert!(op.matches(Some(&j("42")), &j("16")).unwrap());
    // BSON type 18 = long
    assert!(op.matches(Some(&j("9223372036854775807")), &j("18")).unwrap());
}

#[test]
fn operators_test_type_unknown_bson_number() {
    let op = TypeOperator;
    let result = op.matches(Some(&j(r#""hello""#)), &j("999"));
    assert!(result.is_err());
    assert!(err_text(result).contains("Unknown BSON type number"));
}

#[test]
fn mod_test_type_unknown_bson_number() {
    let op = TypeOperator;
    let result = op.matches(Some(&j(r#""hello""#)), &j("999"));
    assert!(result.is_err());
    assert!(err_text(result).contains("Unknown BSON type number"));
}

#[test]
fn operators_test_type_unknown_type_name() {
    let op = TypeOperator;
    let result = op.matches(Some(&j(r#""hello""#)), &j(r#""unknown_type""#));
    assert!(result.is_err());
    assert!(err_text(result).contains("Unknown type name"));
}

#[test]
fn mod_test_type_unknown_type_name() {
    let op = TypeOperator;
    let result = op.matches(Some(&j(r#""hello""#)), &j(r#""unknown_type""#));
    assert!(result.is_err());
    assert!(err_text(result).contains("Unknown type name"));
}

#[test]
fn operators_test_type_invalid_filter_error() {
    let op = TypeOperator;
    let result = op.matches(Some(&j(r#""hello""#)), &j("[1, 2]"));
    assert!(result.is_err());
    assert!(err_text(result).contains("requires a string or number"));
}

#[test]
fn mod_test_type_invalid_filter_error() {
    let op = TypeOperator;
    let result = op.matches(Some(&j(r#""hello""#)), &j("[1, 2]"));
    assert!(result.is_err());
    assert!(err_text(result).contains("requires a string or number"));
}

#[test]
fn operators_test_type_missing_field() {
    let op = TypeOperator;
    assert!(!op.matches(None, &j(r#""string""#)).unwrap());
}

#[test]
fn mod_test_type_missing_field() {
    let op = TypeOperator;
    assert!(!op.matches(None, &j(r#""string""#)).unwrap());
}

#[test]
fn operators_test_type_boolean_alias() {
    let op = TypeOperator;
    assert!(op.matches(Some(&j("true")), &j(r#""boolean""#)).unwrap());
    assert!(op.matches(Some(&j("false")), &j(r#""bool""#)).unwrap());
}

#[test]
fn mod_test_type_boolean_alias() {
    let op = TypeOperator;
    assert!(op.matches(Some(&j("true")), &j(r#""boolean""#)).unwrap());
    assert!(op.matches(Some(&j("false")), &j(r#""bool""#)).unwrap());
}

#[test]
fn operators_test_type_int_long() {
    let op = TypeOperator;
    assert!(op.matches(Some(&j("42")), &j(r#""int""#)).unwrap());
    assert!(op.matches(Some(&j("42")), &j(r#""long""#)).unwrap());
}

#[test]
fn mod_test_type_int_long() {
    let op = TypeOperator;
    assert!(op.matches(Some(&j("42")), &j(r#""int""#)).unwrap());
    assert!(op.matches(Some(&j("42")), &j(r#""long""#)).unwrap());
}

#[test]
fn operators_test_eq_operator() {
    let op = EqOperator;
    assert!(op.matches(Some(&j(r#""Alice""#)), &j(r#""Alice""#)).unwrap());
    assert!(!op.matches(Some(&j(r#""Bob""#)), &j(r#""Alice""#)).unwrap());
    assert!(!op.matches(None, &j(r#""Alice""#)).unwrap());
}

#[test]
fn mod_test_eq_operator() {
    let op = EqOperator;
    assert!(op.matches(Some(&j(r#""Alice""#)), &j(r#""Alice""#)).unwrap());
    assert!(!op.matches(Some(&j(r#""Bob""#)), &j(r#""Alice""#)).unwrap());
    assert!(!op.matches(None, &j(r#""Alice""#)).unwrap());
}

#[test]
fn operators_test_ne_operator() {
    let op = NeOperator;
    assert!(op.matches(Some(&j(r#""Bob""#)), &j(r#""Alice""#)).unwrap());
    assert!(!op.matches(Some(&j(r#""Alice""#)), &j(r#""Alice""#)).unwrap());
    assert!(op.matches(None, &j(r#""Alice""#)).unwrap()); // Missing field != value
}

#[test]
fn mod_test_ne_operator() {
    let op = NeOperator;
    assert!(op.matches(Some(&j(r#""Bob""#)), &j(r#""Alice""#)).unwrap());
    assert!(!op.matches(Some(&j(r#""Alice""#)), &j(r#""Alice""#)).unwrap());
    assert!(op.matches(None, &j(r#""Alice""#)).unwrap()); // Missing field != value
}

#[test]
fn operators_test_in_operator() {
    let op = InOperator;
    let array = j(r#"["NYC", "LA", "SF"]"#);
    assert!(op.matches(Some(&j(r#""NYC""#)), &array).unwrap());
    assert!(!op.matches(Some(&j(r#""Chicago""#)), &array).unwrap());
}

#[test]
fn mod_test_in_operator() {
    let op = InOperator;
    let array = j(r#"["NYC", "LA", "SF"]"#);
    assert!(op.matches(Some(&j(r#""NYC""#)), &array).unwrap());
    assert!(!op.matches(Some(&j(r#""Chicago""#)), &array).unwrap());
}

#[test]
fn operators_test_exists_operator() {
    let op = ExistsOperator;
    assert!(op.matches(Some(&j(r#""value""#)), &j("true")).unwrap());
    assert!(!op.matches(None, &j("true")).unwrap());
    assert!(op.matches(None, &j("false")).unwrap());
}

#[test]
fn mod_test_exists_operator() {
    let op = ExistsOperator;
    assert!(op.matches(Some(&j(r#""value""#)), &j("true")).unwrap());
    assert!(!op.matches(None, &j("true")).unwrap());
    assert!(op.matches(None, &j("false")).unwrap());
}

#[test]
fn operators_test_all_operator() {
    let op = AllOperator;
    let doc_value = j(r#"["apple", "banana", "cherry"]"#);
    let filter_value = j(r#"["apple", "banana"]"#);
    assert!(op.matches(Some(&doc_value), &filter_value).unwrap());

    let filter_value_fail = j(r#"["apple", "grape"]"#);
    assert!(!op.matches(Some(&doc_value), &filter_value_fail).unwrap());
}

#[test]
fn mod_test_all_operator() {
    let op = AllOperator;
    let doc_value = j(r#"["apple", "banana", "cherry"]"#);
    let filter_value = j(r#"["apple", "banana"]"#);
    assert!(op.matches(Some(&doc_value), &filter_value).unwrap());

    let filter_value_fail = j(r#"["apple", "grape"]"#);
    assert!(!op.matches(Some(&doc_value), &filter_value_fail).unwrap());
}

#[test]
fn operators_test_type_operator() {
    let op = TypeOperator;
    assert!(op.matches(Some(&j(r#""hello""#)), &j(r#""string""#)).unwrap());
    assert!(op.matches(Some(&j("42")), &j(r#""number""#)).unwrap());
    assert!(op.matches(Some(&j("[]")), &j(r#""array""#)).unwrap());
    assert!(!op.matches(Some(&j(r#""hello""#)), &j(r#""number""#)).unwrap());
}

#[test]
fn mod_test_type_operator() {
    let op = TypeOperator;
    assert!(op.matches(Some(&j(r#""hello""#)), &j(r#""string""#)).unwrap());
    assert!(op.matches(Some(&j("42")), &j(r#""number""#)).unwrap());
    assert!(op.matches(Some(&j("[]")), &j(r#""array""#)).unwrap());
    assert!(!op.matches(Some(&j(r#""hello""#)), &j(r#""number""#)).unwrap());
}

#[test]
fn operators_test_regex_operator() {
    let op = RegexOperator;
    assert!(op.matches(Some(&j(r#""hello world""#)), &j(r#""world""#)).unwrap());
    assert!(!op.matches(Some(&j(r#""hello world""#)), &j(r#""xyz""#)).unwrap());
}

#[test]
fn mod_test_regex_operator() {
    let op = RegexOperator;
    assert!(op.matches(Some(&j(r#""hello world""#)), &j(r#""world""#)).unwrap());
    assert!(!op.matches(Some(&j(r#""hello world""#)), &j(r#""xyz""#)).unwrap());
}

#[test]
fn operators_test_size_operator() {
    let op = SizeOperator;

    // Array with 3 elements
    let arr3 = j(r#"["a", "b", "c"]"#);
    assert!(op.matches(Some(&arr3), &j("3")).unwrap());
    assert!(!op.matches(Some(&arr3), &j("2")).unwrap());
    assert!(!op.matches(Some(&arr3), &j("4")).unwrap());

    // Empty array
    let empty = j("[]");
    assert!(op.matches(Some(&empty), &j("0")).unwrap());
    assert!(!op.matches(Some(&empty), &j("1")).unwrap());

    // Non-array value should not match
    let str_val = j(r#""hello""#);
    assert!(!op.matches(Some(&str_val), &j("5")).unwrap());

    // Missing field should not match
    assert!(!op.matches(None, &j("0")).unwrap());
}

#[test]
fn mod_test_size_operator() {
    let op = SizeOperator;

    // Array with 3 elements
    let arr3 = j(r#"["a", "b", "c"]"#);
    assert!(op.matches(Some(&arr3), &j("3")).unwrap());
    assert!(!op.matches(Some(&arr3), &j("2")).unwrap());
    assert!(!op.matches(Some(&arr3), &j("4")).unwrap());

    // Empty array
    let empty = j("[]");
    assert!(op.matches(Some(&empty), &j("0")).unwrap());
    assert!(!op.matches(Some(&empty), &j("1")).unwrap());

    // Non-array value should not match
    let str_val = j(r#""hello""#);
    assert!(!op.matches(Some(&str_val), &j("5")).unwrap());

    // Missing field should not match
    assert!(!op.matches(None, &j("0")).unwrap());
}

#[test]
fn test_type_double_vs_int_distinction() {
    let op = TypeOperator;

    let int_val = j("42");
    let float_val = j("42.5");
    let float_whole = serde_json::Number::from_f64(42.0).unwrap();
    let float_whole_val = conv(&serde_json::Value::Number(float_whole));

    // $type: "double" should match floats, NOT integers
    assert!(!op.matches(Some(&int_val), &j(r#""double""#)).unwrap(), "Integer 42 should NOT match $type: 'double'");
    assert!(op.matches(Some(&float_val), &j(r#""double""#)).unwrap(), "Float 42.5 should match $type: 'double'");
    assert!(op.matches(Some(&float_whole_val), &j(r#""double""#)).unwrap(), "Float 42.0 should match $type: 'double'");

    // $type: "int" should match integers, NOT floats
    assert!(op.matches(Some(&int_val), &j(r#""int""#)).unwrap(), "Integer 42 should match $type: 'int'");
    assert!(!op.matches(Some(&float_val), &j(r#""int""#)).unwrap(), "Float 42.5 should NOT match $type: 'int'");
    assert!(!op.matches(Some(&float_whole_val), &j(r#""int""#)).unwrap(), "Float 42.0 should NOT match $type: 'int'");

    // $type: "number" should match ALL numbers
    assert!(op.matches(Some(&int_val), &j(r#""number""#)).unwrap(), "Integer 42 should match $type: 'number'");
    assert!(op.matches(Some(&float_val), &j(r#""number""#)).unwrap(), "Float 42.5 should match $type: 'number'");
}

#[test]
fn test_type_bson_double_vs_int32_distinction() {
    let op = TypeOperator;

    let int_val = j("42");
    let float_val = j("42.5");

    // BSON type 1 = double: should NOT match integers
    assert!(!op.matches(Some(&int_val), &j("1")).unwrap(), "Integer 42 should NOT match BSON type 1 (double)");
    assert!(op.matches(Some(&float_val), &j("1")).unwrap(), "Float 42.5 should match BSON type 1 (double)");

    // BSON type 16 = int32: should NOT match floats
    assert!(op.matches(Some(&int_val), &j("16")).unwrap(), "Integer 42 should match BSON type 16 (int32)");
    assert!(!op.matches(Some(&float_val), &j("16")).unwrap(), "Float 42.5 should NOT match BSON type 16 (int32)");
}

#[test]
fn test_type_int32_range() {
    let op = TypeOperator;

    // Within i32 range
    assert!(op.matches(Some(&j("2147483647")), &j(r#""int""#)).unwrap());
    assert!(op.matches(Some(&j("-2147483648")), &j(r#""int""#)).unwrap());

    // Outside i32 range - should NOT match "int" but should match "long"
    let large_int = j("2147483648");
    assert!(!op.matches(Some(&large_int), &j(r#""int""#)).unwrap(), "2147483648 exceeds i32 max, should NOT match 'int'");
    assert!(op.matches(Some(&large_int), &j(r#""long""#)).unwrap(), "2147483648 should match 'long'");
}

#[test]
fn operators_test_operator_registry() {
    let registry = OperatorRegistry::without_fuzzy();
    assert!(registry.contains_key("$eq"));
    assert!(registry.contains_key("$gt"));
    assert!(registry.contains_key("$and"));
    assert!(registry.contains_key("$exists"));
    assert!(registry.contains_key("$all"));
    assert!(registry.contains_key("$elemMatch"));
    assert!(registry.contains_key("$type"));
    assert!(registry.contains_key("$regex"));
    assert!(registry.contains_key("$expr"));
    assert_eq!(registry.len(), 19); // Total operators implemented (18 + $expr)
}

#[test]
fn mod_test_operator_registry() {
    let registry = OperatorRegistry::new();
    assert!(registry.contains_key("$eq"));
    assert!(registry.contains_key("$gt"));
    assert!(registry.contains_key("$and"));
    assert!(registry.contains_key("$exists"));
    assert!(registry.contains_key("$all"));
    assert!(registry.contains_key("$elemMatch"));
    assert!(registry.contains_key("$type"));
    assert!(registry.contains_key("$regex"));
    assert!(registry.contains_key("$fuzzy"));
    assert!(registry.contains_key("$expr"));
    assert_eq!(registry.len(), 20); // Total operators implemented (19 + $fuzzy)
}

#[test]
fn registry_lookup_by_name() {
    let full = OperatorRegistry::new();
    let older = OperatorRegistry::without_fuzzy();
    assert_eq!(full.get("$fuzzy"), Some(OperatorKind::Fuzzy));
    assert_eq!(older.get("$fuzzy"), None);
    assert_eq!(older.get("$nin"), Some(OperatorKind::Nin));
    assert_eq!(full.get("$lookup"), None);
    assert!(!full.contains_key("eq"));
}

#[test]
fn eq_matches_array_element() {
    let op = EqOperator;
    assert!(op.matches(Some(&j(r#"["a", "b"]"#)), &j(r#""b""#)).unwrap());
    assert!(op.matches(Some(&j("[1, 2]")), &j("[1, 2]")).unwrap());
    assert!(!op.matches(Some(&j("[1, 2]")), &j("3")).unwrap());
    // Integer and float forms of a number are different values.
    assert!(!op.matches(Some(&j("1")), &j("1.0")).unwrap());
    assert_eq!(op.name(), "$eq");
}

#[test]
fn ne_fails_on_array_holding_value() {
    let op = NeOperator;
    assert!(!op.matches(Some(&j(r#"["a", "b"]"#)), &j(r#""a""#)).unwrap());
    assert!(op.matches(Some(&j(r#"["a", "b"]"#)), &j(r#""c""#)).unwrap());
}

#[test]
fn in_and_nin_on_array_values() {
    let allowed = j(r#"["x", "y"]"#);
    assert!(InOperator.matches(Some(&j(r#"["a", "y"]"#)), &allowed).unwrap());
    assert!(!InOperator.matches(Some(&j(r#"["a", "b"]"#)), &allowed).unwrap());
    assert!(!NinOperator.matches(Some(&j(r#"["a", "y"]"#)), &allowed).unwrap());
    assert!(NinOperator.matches(Some(&j(r#"["a", "b"]"#)), &allowed).unwrap());
    let e = err_text(InOperator.matches(Some(&j("1")), &j("5")));
    assert_eq!(e, "$in operator requires an array");
    // A missing field is no match, whatever the argument.
    assert!(!InOperator.matches(None, &j("5")).unwrap());
}

#[test]
fn all_with_empty_requirement() {
    assert!(AllOperator.matches(Some(&j("[]")), &j("[]")).unwrap());
    assert!(!AllOperator.matches(Some(&j("[]")), &j("[1]")).unwrap());
}

#[test]
fn exists_checks_argument_first() {
    assert_eq!(err_text(ExistsOperator.matches(None, &j("1"))), "$exists operator requires a boolean");
    assert!(!ExistsOperator.matches(Some(&j("null")), &j("false")).unwrap());
}

#[test]
fn size_with_negative_and_non_integer() {
    assert!(!SizeOperator.matches(Some(&j("[]")), &j("-1")).unwrap());
    assert_eq!(err_text(SizeOperator.matches(Some(&j("[1]")), &j("1.5"))), "$size operator requires an integer");
    // A value that is not an array never matches, whatever the argument.
    assert!(!SizeOperator.matches(Some(&j("7")), &j(r#""x""#)).unwrap());
}

#[test]
fn type_error_messages_carry_the_argument() {
    assert_eq!(err_text(TypeOperator.matches(Some(&j("1")), &j("999"))), "Unknown BSON type number: 999");
    assert_eq!(err_text(TypeOperator.matches(Some(&j("1")), &j("-3"))), "Unknown BSON type number: -3");
    assert_eq!(err_text(TypeOperator.matches(Some(&j("1")), &j("2.5"))), "Unknown BSON type number: 2.5");
    assert_eq!(err_text(TypeOperator.matches(Some(&j("1")), &j(r#""decimal""#))), "Unknown type name: decimal");
    // A missing field does not match even an unknown type name.
    assert!(!TypeOperator.matches(None, &j(r#""decimal""#)).unwrap());
}

#[test]
fn regex_pattern_with_options() {
    assert_eq!(build_regex_pattern("abc", "").unwrap(), "abc");
    assert_eq!(build_regex_pattern("abc", "im").unwrap(), "(?im)abc");
    assert_eq!(
        build_regex_pattern("abc", "iz").unwrap_err().to_string(),
        "Invalid regex option 'z'"
    );
}

#[test]
fn regex_with_options_matches() {
    assert!(regex_match_with_options("ALICE", "alice", "i").unwrap());
    assert!(!regex_match_with_options("ALICE", "alice", "").unwrap());
    assert!(regex_match_with_options("line1\nline2", "^line2$", "m").unwrap());
    assert!(regex_match_with_options("hello\nworld", "hello.world", "s").unwrap());
    assert!(!regex_match_with_options("hello\nworld", "hello.world", "").unwrap());
    let e = regex_match_with_options("x", "[unclosed", "").unwrap_err().to_string();
    assert!(e.starts_with("Invalid regex pattern '[unclosed': "));
    let e = regex_match_with_options("x", "x", "q").unwrap_err().to_string();
    assert_eq!(e, "Invalid regex option 'q'");
}

#[test]
fn regex_on_array_items() {
    let op = RegexOperator;
    let tags = j(r#"[1, "rust", "python"]"#);
    assert!(op.matches(Some(&tags), &j(r#""^py""#)).unwrap());
    assert!(!op.matches(Some(&tags), &j(r#""^go$""#)).unwrap());
    assert!(op.matches(Some(&tags), &j(r#""[bad""#)).is_err());
    assert!(op.matches(Some(&tags), &j("1")).is_err());
}

#[test]
fn fuzzy_algorithm_names() {
    assert_eq!(FuzzyAlgorithm::from_str("Jaro-Winkler").unwrap(), FuzzyAlgorithm::JaroWinkler);
    assert_eq!(FuzzyAlgorithm::from_str("LEVENSHTEIN").unwrap(), FuzzyAlgorithm::Levenshtein);
    assert_eq!(FuzzyAlgorithm::from_str("dameraulevenshtein").unwrap(), FuzzyAlgorithm::DamerauLevenshtein);
    assert_eq!(
        FuzzyAlgorithm::from_str("soundex").unwrap_err().to_string(),
        "Unknown fuzzy algorithm: 'soundex'. Supported: jaro_winkler, levenshtein, damerau_levenshtein"
    );
}

#[test]
fn json_equality_ignores_member_order() {
    assert!(json_eq(&j(r#"{"a": 1, "b": [true, null]}"#), &j(r#"{"b": [true, null], "a": 1}"#)));
    assert!(!json_eq(&j(r#"{"a": 1}"#), &j(r#"{"a": 2}"#)));
    assert!(!json_eq(&j("-1"), &j("1")));
}




#[test]
fn test_in_operator_large_array_performance() {
    let op = InOperator;
    let filter = JsonValue::Array((0..1000).map(|i| JsonValue::String(format!("id_{}", i))).collect());
    assert!(op.matches(Some(&j(r#""id_500""#)), &filter).unwrap());
    assert!(!op.matches(Some(&j(r#""id_9999""#)), &filter).unwrap());
    assert!(op.matches(Some(&j(r#"["id_999", "other_value"]"#)), &filter).unwrap());
    assert!(!op.matches(Some(&j(r#"["not_in_list", "also_not"]"#)), &filter).unwrap());
}

#[test]
fn test_nin_operator_large_array_performance() {
    let op = NinOperator;
    let filter = JsonValue::Array((0..1000).map(|i| JsonValue::String(format!("id_{}", i))).collect());
    assert!(op.matches(Some(&j(r#""id_9999""#)), &filter).unwrap());
    assert!(!op.matches(Some(&j(r#""id_500""#)), &filter).unwrap());
}

#[test]
fn test_all_operator_large_array_performance() {
    let op = AllOperator;
    let doc = JsonValue::Array((0..1000).map(|i| JsonValue::String(format!("val_{}", i))).collect());
    assert!(op.matches(Some(&doc), &j(r#"["val_0", "val_500", "val_999"]"#)).unwrap());
    assert!(!op.matches(Some(&doc), &j(r#"["val_0", "val_9999"]"#)).unwrap());
}

#[test]
fn test_in_operator_with_numeric_ids() {
    let op = InOperator;
    let filter = JsonValue::Array((0..100u64).map(|i| JsonValue::Number(JsonNumber::PosInt(i))).collect());
    assert!(op.matches(Some(&j("50")), &filter).unwrap());
    assert!(op.matches(Some(&j("0")), &filter).unwrap());
    assert!(op.matches(Some(&j("99")), &filter).unwrap());
    assert!(!op.matches(Some(&j("100")), &filter).unwrap());
    assert!(!op.matches(Some(&j("-1")), &filter).unwrap());
}

#[test]
fn test_in_operator_with_mixed_types() {
    let op = InOperator;
    let filter = j(r#"[1, "two", 3.0, true, null, {"nested": "object"}, [1, 2, 3]]"#);
    assert!(op.matches(Some(&j("1")), &filter).unwrap());
    assert!(op.matches(Some(&j(r#""two""#)), &filter).unwrap());
    assert!(op.matches(Some(&j("true")), &filter).unwrap());
    assert!(op.matches(Some(&j("null")), &filter).unwrap());
    assert!(op.matches(Some(&j(r#"{"nested": "object"}"#)), &filter).unwrap());
    assert!(op.matches(Some(&j("[1, 2, 3]")), &filter).unwrap());
    assert!(!op.matches(Some(&j(r#""three""#)), &filter).unwrap());
    assert!(!op.matches(Some(&j("false")), &filter).unwrap());
}
