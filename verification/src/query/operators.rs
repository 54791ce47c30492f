//! Query operators (`$eq`, `$in`, `$type`, ...): each decides whether a
//! document's field value meets the operator's argument.
use vstd::prelude::*;
use crate::error::IronBaseError;
use crate::query::value::{
    JsonNumber, JsonValue, JsonView, NumView, json_contains, json_eq, lemma_values_view, values_view,
};
use crate::text::{concat2, decimal, i64_text, str_eq};

verus! {

/// Common interface of query operators.
pub trait OperatorMatcher {
    /// The operator's name, such as `"$eq"`.
    fn name(&self) -> &'static str;

    /// Whether the document's value (absent when the field is missing)
    /// meets the filter's value; an error when the filter value is malformed.
    fn matches(&self, doc_value: Option<&JsonValue>, filter_value: &JsonValue) -> Result<bool, IronBaseError>;
}

pub open spec fn opt_view(v: Option<&JsonValue>) -> Option<JsonView> {
    match v {
        Some(x) => Some(x@),
        None => None,
    }
}

/// `v` is `f`, or an array that holds `f`.
pub open spec fn equal_or_holds(v: JsonView, f: JsonView) -> bool {
    v == f || (v is Arr && v->Arr_0.contains(f))
}

/// `v` is among `allowed`, or is an array one of whose items is.
pub open spec fn in_or_overlaps(v: JsonView, allowed: Seq<JsonView>) -> bool {
    allowed.contains(v) || (v is Arr && overlaps(v->Arr_0, allowed))
}

/// Some item of `items` is among `allowed`.
pub open spec fn overlaps(items: Seq<JsonView>, allowed: Seq<JsonView>) -> bool {
    exists|i: int| 0 <= i < items.len() && allowed.contains(#[trigger] items[i])
}

/// Every item of `required` is among `items`.
pub open spec fn all_among(required: Seq<JsonView>, items: Seq<JsonView>) -> bool {
    forall|i: int| 0 <= i < required.len() ==> items.contains(#[trigger] required[i])
}

pub open spec fn invalid_query(res: Result<bool, IronBaseError>, msg: Seq<char>) -> bool {
    res is Err && res->Err_0 is InvalidQuery && res->Err_0->InvalidQuery_0@ == msg
}

/// Whether some item of `items` is among `allowed`.
fn any_item_in(items: &Vec<JsonValue>, allowed: &Vec<JsonValue>) -> (r: bool)
    ensures
        r == overlaps(values_view(items@), values_view(allowed@)),
{
    proof {
        lemma_values_view(items@);
    }
    let mut i: usize = 0;
    while i < items.len()
        invariant
            i <= items@.len(),
            values_view(items@).len() == items@.len(),
            forall|j: int| 0 <= j < items@.len() ==> #[trigger] values_view(items@)[j] == items@[j].view_json(),
            forall|j: int| 0 <= j < i ==> !values_view(allowed@).contains(#[trigger] values_view(items@)[j]),
        decreases items@.len() - i,
    {
        if json_contains(allowed, &items[i]) {
            assert(values_view(allowed@).contains(values_view(items@)[i as int]));
            return true;
        }
        i = i + 1;
    }
    false
}

/// Whether every item of `required` is among `items`.
fn all_items_in(required: &Vec<JsonValue>, items: &Vec<JsonValue>) -> (r: bool)
    ensures
        r == all_among(values_view(required@), values_view(items@)),
{
    proof {
        lemma_values_view(required@);
    }
    let mut i: usize = 0;
    while i < required.len()
        invariant
            i <= required@.len(),
            values_view(required@).len() == required@.len(),
            forall|j: int| 0 <= j < required@.len() ==> #[trigger] values_view(required@)[j] == required@[j].view_json(),
            forall|j: int| 0 <= j < i ==> values_view(items@).contains(#[trigger] values_view(required@)[j]),
        decreases required@.len() - i,
    {
        if !json_contains(items, &required[i]) {
            assert(!values_view(items@).contains(values_view(required@)[i as int]));
            return false;
        }
        i = i + 1;
    }
    true
}

/// Whether `v` is `f` or an array holding `f`.
fn equal_or_holds_exec(v: &JsonValue, f: &JsonValue) -> (r: bool)
    ensures
        r == equal_or_holds(v@, f@),
{
    if json_eq(v, f) {
        return true;
    }
    match v {
        JsonValue::Array(items) => json_contains(items, f),
        _ => false,
    }
}

/// `$eq`: the value equals the argument, or is an array holding it.
pub struct EqOperator;

impl OperatorMatcher for EqOperator {
    fn name(&self) -> (s: &'static str)
        ensures
            s@ == "$eq"@,
    {
        "$eq"
    }

    fn matches(&self, doc_value: Option<&JsonValue>, filter_value: &JsonValue) -> (res: Result<bool, IronBaseError>)
        ensures
            res == Ok::<bool, IronBaseError>(
                match opt_view(doc_value) {
                    None => false,
                    Some(v) => equal_or_holds(v, filter_value@),
                },
            ),
    {
        match doc_value {
            None => Ok(false),
            Some(v) => Ok(equal_or_holds_exec(v, filter_value)),
        }
    }
}

/// `$ne`: the value neither equals the argument nor is an array holding it
/// (a missing field qualifies).
pub struct NeOperator;

impl OperatorMatcher for NeOperator {
    fn name(&self) -> (s: &'static str)
        ensures
            s@ == "$ne"@,
    {
        "$ne"
    }

    fn matches(&self, doc_value: Option<&JsonValue>, filter_value: &JsonValue) -> (res: Result<bool, IronBaseError>)
        ensures
            res == Ok::<bool, IronBaseError>(
                match opt_view(doc_value) {
                    None => true,
                    Some(v) => !equal_or_holds(v, filter_value@),
                },
            ),
    {
        match doc_value {
            None => Ok(true),
            Some(v) => Ok(!equal_or_holds_exec(v, filter_value)),
        }
    }
}

/// `$in`: the value is one of the argument array's items, or an array
/// sharing an item with it.
pub struct InOperator;

impl OperatorMatcher for InOperator {
    fn name(&self) -> (s: &'static str)
        ensures
            s@ == "$in"@,
    {
        "$in"
    }

    fn matches(&self, doc_value: Option<&JsonValue>, filter_value: &JsonValue) -> (res: Result<bool, IronBaseError>)
        ensures
            match opt_view(doc_value) {
                None => res == Ok::<bool, IronBaseError>(false),
                Some(v) => match filter_value@ {
                    JsonView::Arr(allowed) => res == Ok::<bool, IronBaseError>(in_or_overlaps(v, allowed)),
                    _ => invalid_query(res, "$in operator requires an array"@),
                },
            },
    {
        match doc_value {
            None => Ok(false),
            Some(v) => match filter_value {
                JsonValue::Array(allowed) => {
                    if json_contains(allowed, v) {
                        return Ok(true);
                    }
                    match v {
                        JsonValue::Array(items) => Ok(any_item_in(items, allowed)),
                        _ => Ok(false),
                    }
                },
                _ => Err(IronBaseError::InvalidQuery("$in operator requires an array".to_string())),
            },
        }
    }
}

/// `$nin`: the negation of `$in`, a missing field qualifying; the argument
/// must be an array in any case.
pub struct NinOperator;

impl OperatorMatcher for NinOperator {
    fn name(&self) -> (s: &'static str)
        ensures
            s@ == "$nin"@,
    {
        "$nin"
    }

    fn matches(&self, doc_value: Option<&JsonValue>, filter_value: &JsonValue) -> (res: Result<bool, IronBaseError>)
        ensures
            match filter_value@ {
                JsonView::Arr(allowed) => res == Ok::<bool, IronBaseError>(
                    match opt_view(doc_value) {
                        None => true,
                        Some(v) => !in_or_overlaps(v, allowed),
                    },
                ),
                _ => invalid_query(res, "$nin operator requires an array"@),
            },
    {
        match filter_value {
            JsonValue::Array(allowed) => match doc_value {
                None => Ok(true),
                Some(v) => {
                    if json_contains(allowed, v) {
                        return Ok(false);
                    }
                    match v {
                        JsonValue::Array(items) => Ok(!any_item_in(items, allowed)),
                        _ => Ok(true),
                    }
                },
            },
            _ => Err(IronBaseError::InvalidQuery("$nin operator requires an array".to_string())),
        }
    }
}

/// `$all`: the value is an array holding every item of the argument array.
pub struct AllOperator;

impl OperatorMatcher for AllOperator {
    fn name(&self) -> (s: &'static str)
        ensures
            s@ == "$all"@,
    {
        "$all"
    }

    fn matches(&self, doc_value: Option<&JsonValue>, filter_value: &JsonValue) -> (res: Result<bool, IronBaseError>)
        ensures
            match opt_view(doc_value) {
                Some(JsonView::Arr(items)) => match filter_value@ {
                    JsonView::Arr(required) => res == Ok::<bool, IronBaseError>(all_among(required, items)),
                    _ => invalid_query(res, "$all operator requires an array"@),
                },
                _ => res == Ok::<bool, IronBaseError>(false),
            },
    {
        match doc_value {
            Some(JsonValue::Array(items)) => match filter_value {
                JsonValue::Array(required) => Ok(all_items_in(required, items)),
                _ => Err(IronBaseError::InvalidQuery("$all operator requires an array".to_string())),
            },
            _ => Ok(false),
        }
    }
}

/// `$exists`: presence of the field is what the boolean argument asks.
pub struct ExistsOperator;

impl OperatorMatcher for ExistsOperator {
    fn name(&self) -> (s: &'static str)
        ensures
            s@ == "$exists"@,
    {
        "$exists"
    }

    fn matches(&self, doc_value: Option<&JsonValue>, filter_value: &JsonValue) -> (res: Result<bool, IronBaseError>)
        ensures
            match filter_value@ {
                JsonView::Bool(b) => res == Ok::<bool, IronBaseError>(doc_value.is_some() == b),
                _ => invalid_query(res, "$exists operator requires a boolean"@),
            },
    {
        match filter_value {
            JsonValue::Bool(should_exist) => Ok(doc_value.is_some() == *should_exist),
            _ => Err(IronBaseError::InvalidQuery("$exists operator requires a boolean".to_string())),
        }
    }
}

/// `$size`: the value is an array with as many items as the integer argument.
pub struct SizeOperator;

impl OperatorMatcher for SizeOperator {
    fn name(&self) -> (s: &'static str)
        ensures
            s@ == "$size"@,
    {
        "$size"
    }

    fn matches(&self, doc_value: Option<&JsonValue>, filter_value: &JsonValue) -> (res: Result<bool, IronBaseError>)
        ensures
            match opt_view(doc_value) {
                Some(JsonView::Arr(items)) => match filter_value@ {
                    JsonView::Number(NumView::PosInt(n)) => res == Ok::<bool, IronBaseError>(items.len() == n),
                    JsonView::Number(NumView::NegInt(n)) => res == Ok::<bool, IronBaseError>(items.len() == n),
                    _ => invalid_query(res, "$size operator requires an integer"@),
                },
                _ => res == Ok::<bool, IronBaseError>(false),
            },
    {
        match doc_value {
            Some(JsonValue::Array(items)) => {
                proof {
                    lemma_values_view(items@);
                }
                match filter_value {
                    JsonValue::Number(JsonNumber::PosInt(n)) => Ok(items.len() as u64 == *n),
                    JsonValue::Number(JsonNumber::NegInt(n)) => Ok(*n >= 0 && items.len() as u64 == *n as u64),
                    _ => Err(IronBaseError::InvalidQuery("$size operator requires an integer".to_string())),
                }
            },
            _ => Ok(false),
        }
    }
}


/// Name of the type a BSON type number stands for.
pub open spec fn bson_type_name(code: int) -> Option<Seq<char>> {
    if code == 1 {
        Some("double"@)
    } else if code == 2 {
        Some("string"@)
    } else if code == 3 {
        Some("object"@)
    } else if code == 4 {
        Some("array"@)
    } else if code == 8 {
        Some("bool"@)
    } else if code == 10 {
        Some("null"@)
    } else if code == 16 {
        Some("int"@)
    } else if code == 18 {
        Some("long"@)
    } else {
        None
    }
}

/// The number as a signed 64-bit integer, when it is one.
pub open spec fn as_i64(n: NumView) -> Option<int> {
    match n {
        NumView::PosInt(u) => if u <= i64::MAX {
            Some(u as int)
        } else {
            None
        },
        NumView::NegInt(i) => Some(i as int),
        NumView::Float(_) => None,
    }
}

/// Text a number prints as.
pub open spec fn number_text(n: JsonNumber) -> Seq<char> {
    match n {
        JsonNumber::PosInt(u) => decimal(u as int),
        JsonNumber::NegInt(i) => decimal(i as int),
        JsonNumber::Float(_, t) => t@,
    }
}

/// Whether `v` has the named type; `None` for an unknown name.
pub open spec fn has_type(name: Seq<char>, v: JsonView) -> Option<bool> {
    if name == "double"@ {
        Some(v matches JsonView::Number(NumView::Float(_)))
    } else if name == "number"@ {
        Some(v is Number)
    } else if name == "string"@ {
        Some(v is Str)
    } else if name == "object"@ {
        Some(v is Obj)
    } else if name == "array"@ {
        Some(v is Arr)
    } else if name == "bool"@ || name == "boolean"@ {
        Some(v is Bool)
    } else if name == "null"@ {
        Some(v is Null)
    } else if name == "int"@ {
        Some(
            match v {
                JsonView::Number(NumView::PosInt(u)) => u <= i32::MAX,
                JsonView::Number(NumView::NegInt(i)) => i32::MIN <= i <= i32::MAX,
                _ => false,
            },
        )
    } else if name == "long"@ {
        Some(
            match v {
                JsonView::Number(NumView::PosInt(u)) => u <= i64::MAX,
                JsonView::Number(NumView::NegInt(_)) => true,
                _ => false,
            },
        )
    } else {
        None
    }
}

/// Whether `v` has the named type; `None` for an unknown name.
fn has_type_exec(name: &str, v: &JsonValue) -> (r: Option<bool>)
    ensures
        r == has_type(name@, v@),
{
    if str_eq(name, "double") {
        Some(
            match v {
                JsonValue::Number(JsonNumber::Float(_, _)) => true,
                _ => false,
            },
        )
    } else if str_eq(name, "number") {
        Some(
            match v {
                JsonValue::Number(_) => true,
                _ => false,
            },
        )
    } else if str_eq(name, "string") {
        Some(
            match v {
                JsonValue::String(_) => true,
                _ => false,
            },
        )
    } else if str_eq(name, "object") {
        Some(
            match v {
                JsonValue::Object(_) => true,
                _ => false,
            },
        )
    } else if str_eq(name, "array") {
        Some(
            match v {
                JsonValue::Array(_) => true,
                _ => false,
            },
        )
    } else if str_eq(name, "bool") || str_eq(name, "boolean") {
        Some(
            match v {
                JsonValue::Bool(_) => true,
                _ => false,
            },
        )
    } else if str_eq(name, "null") {
        Some(
            match v {
                JsonValue::Null => true,
                _ => false,
            },
        )
    } else if str_eq(name, "int") {
        Some(
            match v {
                JsonValue::Number(JsonNumber::PosInt(u)) => *u <= 2147483647,
                JsonValue::Number(JsonNumber::NegInt(i)) => -2147483648 <= *i && *i <= 2147483647,
                _ => false,
            },
        )
    } else if str_eq(name, "long") {
        Some(
            match v {
                JsonValue::Number(JsonNumber::PosInt(u)) => *u <= 9223372036854775807,
                JsonValue::Number(JsonNumber::NegInt(_)) => true,
                _ => false,
            },
        )
    } else {
        None
    }
}

/// Text of a number, as it prints.
fn number_text_exec(n: &JsonNumber) -> (s: String)
    ensures
        s@ == number_text(*n),
{
    match n {
        JsonNumber::PosInt(u) => crate::text::u64_text(*u),
        JsonNumber::NegInt(i) => i64_text(*i),
        JsonNumber::Float(_, t) => t.clone(),
    }
}

/// `$type`: the value has the type the argument names, by name or BSON number.
pub struct TypeOperator;

impl OperatorMatcher for TypeOperator {
    fn name(&self) -> (s: &'static str)
        ensures
            s@ == "$type"@,
    {
        "$type"
    }

    fn matches(&self, doc_value: Option<&JsonValue>, filter_value: &JsonValue) -> (res: Result<bool, IronBaseError>)
        ensures
            match doc_value {
                None => res == Ok::<bool, IronBaseError>(false),
                Some(v) => match filter_value {
                    JsonValue::String(s) => match has_type(s@, v@) {
                        Some(b) => res == Ok::<bool, IronBaseError>(b),
                        None => invalid_query(res, "Unknown type name: "@ + s@),
                    },
                    JsonValue::Number(n) => match as_i64(n@) {
                        Some(code) => match bson_type_name(code) {
                            Some(name) => res == Ok::<bool, IronBaseError>(has_type(name, v@)->0),
                            None => invalid_query(res, "Unknown BSON type number: "@ + number_text(*n)),
                        },
                        None => invalid_query(res, "Unknown BSON type number: "@ + number_text(*n)),
                    },
                    _ => invalid_query(res, "$type operator requires a string or number"@),
                },
            },
    {
        match doc_value {
            None => Ok(false),
            Some(v) => {
                let name: &str = match filter_value {
                    JsonValue::String(s) => s.as_str(),
                    JsonValue::Number(n) => {
                        let code: i64 = match n {
                            JsonNumber::PosInt(u) => if *u <= 9223372036854775807 {
                                *u as i64
                            } else {
                                0
                            },
                            JsonNumber::NegInt(i) => *i,
                            JsonNumber::Float(_, _) => 0,
                        };
                        if code == 1 {
                            "double"
                        } else if code == 2 {
                            "string"
                        } else if code == 3 {
                            "object"
                        } else if code == 4 {
                            "array"
                        } else if code == 8 {
                            "bool"
                        } else if code == 10 {
                            "null"
                        } else if code == 16 {
                            "int"
                        } else if code == 18 {
                            "long"
                        } else {
                            let t = number_text_exec(n);
                            return Err(IronBaseError::InvalidQuery(concat2("Unknown BSON type number: ", t.as_str())));
                        }
                    },
                    _ => {
                        return Err(IronBaseError::InvalidQuery("$type operator requires a string or number".to_string()));
                    },
                };
                match has_type_exec(name, v) {
                    Some(b) => Ok(b),
                    None => Err(IronBaseError::InvalidQuery(concat2("Unknown type name: ", name))),
                }
            },
        }
    }
}


/// `$gt`: the value orders above the argument (see `compare_outcome` in the filter module).
pub struct GtOperator;


/// `$gte`: the value orders at or above the argument (see `compare_outcome` in the filter module).
pub struct GteOperator;


/// `$lt`: the value orders below the argument (see `compare_outcome` in the filter module).
pub struct LtOperator;


/// `$lte`: the value orders at or below the argument (see `compare_outcome` in the filter module).
pub struct LteOperator;


/// `$elemMatch`: some array item meets every condition (see `elem_match` in the filter module).
pub struct ElemMatchOperator;


/// `$and`: every sub-filter matches the document (see `logical_from` in the filter module).
pub struct AndOperator;


/// `$or`: some sub-filter matches the document (see `logical_from` in the filter module).
pub struct OrOperator;


/// `$nor`: no sub-filter matches the document (see `logical_from` in the filter module).
pub struct NorOperator;


/// `$not`: the operator expression does not match (see `value_filter` in the filter module).
pub struct NotOperator;


/// `$expr`: an aggregation expression over the document holds (see
/// `evaluate_expr`). Its computed operands are in floating point: the filter
/// module has them computed by the `FloatOperators` evaluator it is given.
pub struct ExprOperator;

impl ExprOperator {
    pub fn name(&self) -> (s: &'static str)
        ensures
            s@ == "$expr"@,
    {
        "$expr"
    }
}

/// The operators a registry can name.
#[derive(Debug, Clone, Copy, PartialEq, Eq, Structural)]
pub enum OperatorKind {
    Eq,
    Ne,
    Gt,
    Gte,
    Lt,
    Lte,
    In,
    Nin,
    All,
    ElemMatch,
    Size,
    Exists,
    Type,
    Regex,
    Fuzzy,
    And,
    Or,
    Nor,
    Not,
    Expr,
}

/// The operator a name stands for.
pub open spec fn operator_named(n: Seq<char>) -> Option<OperatorKind> {
    if n == "$eq"@ {
        Some(OperatorKind::Eq)
    } else if n == "$ne"@ {
        Some(OperatorKind::Ne)
    } else if n == "$gt"@ {
        Some(OperatorKind::Gt)
    } else if n == "$gte"@ {
        Some(OperatorKind::Gte)
    } else if n == "$lt"@ {
        Some(OperatorKind::Lt)
    } else if n == "$lte"@ {
        Some(OperatorKind::Lte)
    } else if n == "$in"@ {
        Some(OperatorKind::In)
    } else if n == "$nin"@ {
        Some(OperatorKind::Nin)
    } else if n == "$all"@ {
        Some(OperatorKind::All)
    } else if n == "$elemMatch"@ {
        Some(OperatorKind::ElemMatch)
    } else if n == "$size"@ {
        Some(OperatorKind::Size)
    } else if n == "$exists"@ {
        Some(OperatorKind::Exists)
    } else if n == "$type"@ {
        Some(OperatorKind::Type)
    } else if n == "$regex"@ {
        Some(OperatorKind::Regex)
    } else if n == "$fuzzy"@ {
        Some(OperatorKind::Fuzzy)
    } else if n == "$and"@ {
        Some(OperatorKind::And)
    } else if n == "$or"@ {
        Some(OperatorKind::Or)
    } else if n == "$nor"@ {
        Some(OperatorKind::Nor)
    } else if n == "$not"@ {
        Some(OperatorKind::Not)
    } else if n == "$expr"@ {
        Some(OperatorKind::Expr)
    } else {
        None
    }
}

/// The registry of query operators by name: all twenty, or the nineteen
/// before `$fuzzy` was added.
pub struct OperatorRegistry {
    with_fuzzy: bool,
}

impl OperatorRegistry {
    pub closed spec fn has_fuzzy(&self) -> bool {
        self.with_fuzzy
    }

    /// What the registry finds under a name.
    pub open spec fn lookup(&self, n: Seq<char>) -> Option<OperatorKind> {
        match operator_named(n) {
            Some(OperatorKind::Fuzzy) => if self.has_fuzzy() {
                Some(OperatorKind::Fuzzy)
            } else {
                None
            },
            other => other,
        }
    }

    /// The registry of all operators.
    pub fn new() -> (r: Self)
        ensures
            r.has_fuzzy(),
    {
        OperatorRegistry { with_fuzzy: true }
    }

    /// The registry without `$fuzzy`.
    pub fn without_fuzzy() -> (r: Self)
        ensures
            !r.has_fuzzy(),
    {
        OperatorRegistry { with_fuzzy: false }
    }

    /// The operator registered under a name.
    pub fn get(&self, name: &str) -> (r: Option<OperatorKind>)
        ensures
            r == self.lookup(name@),
    {
        let k = if str_eq(name, "$eq") {
            Some(OperatorKind::Eq)
        } else if str_eq(name, "$ne") {
            Some(OperatorKind::Ne)
        } else if str_eq(name, "$gt") {
            Some(OperatorKind::Gt)
        } else if str_eq(name, "$gte") {
            Some(OperatorKind::Gte)
        } else if str_eq(name, "$lt") {
            Some(OperatorKind::Lt)
        } else if str_eq(name, "$lte") {
            Some(OperatorKind::Lte)
        } else if str_eq(name, "$in") {
            Some(OperatorKind::In)
        } else if str_eq(name, "$nin") {
            Some(OperatorKind::Nin)
        } else if str_eq(name, "$all") {
            Some(OperatorKind::All)
        } else if str_eq(name, "$elemMatch") {
            Some(OperatorKind::ElemMatch)
        } else if str_eq(name, "$size") {
            Some(OperatorKind::Size)
        } else if str_eq(name, "$exists") {
            Some(OperatorKind::Exists)
        } else if str_eq(name, "$type") {
            Some(OperatorKind::Type)
        } else if str_eq(name, "$regex") {
            Some(OperatorKind::Regex)
        } else if str_eq(name, "$fuzzy") {
            if self.with_fuzzy {
                Some(OperatorKind::Fuzzy)
            } else {
                None
            }
        } else if str_eq(name, "$and") {
            Some(OperatorKind::And)
        } else if str_eq(name, "$or") {
            Some(OperatorKind::Or)
        } else if str_eq(name, "$nor") {
            Some(OperatorKind::Nor)
        } else if str_eq(name, "$not") {
            Some(OperatorKind::Not)
        } else if str_eq(name, "$expr") {
            Some(OperatorKind::Expr)
        } else {
            None
        };
        k
    }

    /// Whether an operator is registered under a name.
    pub fn contains_key(&self, name: &str) -> (r: bool)
        ensures
            r == self.lookup(name@) is Some,
    {
        self.get(name).is_some()
    }

    /// Number of registered operators.
    pub fn len(&self) -> (n: usize)
        ensures
            n == if self.has_fuzzy() {
                20usize
            } else {
                19usize
            },
    {
        if self.with_fuzzy {
            20
        } else {
            19
        }
    }
}

} // verus!
