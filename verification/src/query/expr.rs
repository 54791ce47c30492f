//! `$expr`: aggregation expressions that compare values of one document.
use vstd::prelude::*;
use crate::error::IronBaseError;
use crate::index::extract::DocumentFields;
use crate::query::filter::{
    arr_items, compare_values, field_value, is_operator_name, is_operator_name_exec, obj_members, opt_value_view, value_order,
    FloatOperators,
};
use crate::query::text_search::outcome_is;
use crate::query::value::{JsonValue, JsonView, NumView};
use crate::text::{concat2, str_eq};

verus! {

/// Whether comparison operator `op` accepts two values in three-way order
/// `o`; `None` for a name that is no comparison.
pub open spec fn order_accepted(op: Seq<char>, o: int) -> Option<bool> {
    if op == "$eq"@ {
        Some(o == 0)
    } else if op == "$ne"@ {
        Some(o != 0)
    } else if op == "$gt"@ {
        Some(o > 0)
    } else if op == "$gte"@ {
        Some(o >= 0)
    } else if op == "$lt"@ {
        Some(o < 0)
    } else if op == "$lte"@ {
        Some(o <= 0)
    } else {
        None
    }
}

proof fn lemma_comparison_names_distinct()
    ensures
        "$ne"@ != "$eq"@,
        "$gt"@ != "$eq"@ && "$gt"@ != "$ne"@,
        "$gte"@ != "$eq"@ && "$gte"@ != "$ne"@ && "$gte"@ != "$gt"@,
        "$lt"@ != "$eq"@ && "$lt"@ != "$ne"@ && "$lt"@ != "$gt"@ && "$lt"@ != "$gte"@,
        "$lte"@ != "$eq"@ && "$lte"@ != "$ne"@ && "$lte"@ != "$gt"@ && "$lte"@ != "$gte"@ && "$lte"@ != "$lt"@,
{
    reveal_strlit("$eq");
    reveal_strlit("$ne");
    reveal_strlit("$gt");
    reveal_strlit("$gte");
    reveal_strlit("$lt");
    reveal_strlit("$lte");
    assert("$ne"@[1] != "$eq"@[1]);
    assert("$gt"@[1] != "$eq"@[1] && "$gt"@[1] != "$ne"@[1]);
    assert("$gte"@.len() != "$eq"@.len() && "$gte"@.len() != "$ne"@.len() && "$gte"@.len() != "$gt"@.len());
    assert("$lt"@[1] != "$eq"@[1] && "$lt"@[1] != "$ne"@[1] && "$lt"@[1] != "$gt"@[1] && "$lt"@.len() != "$gte"@.len());
    assert("$lte"@.len() != "$eq"@.len() && "$lte"@.len() != "$ne"@.len() && "$lte"@.len() != "$gt"@.len());
    assert("$lte"@[1] != "$gte"@[1] && "$lte"@.len() != "$lt"@.len());
}

/// The comparisons of `$expr` over every three-way order: each name is a
/// comparison, `$ne` is not `$eq`, `$gte` is `$gt` or `$eq`, `$lte` is
/// `$lt` or `$eq`, `$gt` is `$lt` with the operands swapped, and `$eq`
/// holds of level operands only.
pub proof fn lemma_expr_comparisons_related(o: int)
    ensures
        ({
            let acc = |n: Seq<char>| order_accepted(n, o) == Some(true);
            let acc_swapped = |n: Seq<char>| order_accepted(n, -o) == Some(true);
            &&& order_accepted("$eq"@, o) is Some && order_accepted("$ne"@, o) is Some
            &&& order_accepted("$gt"@, o) is Some && order_accepted("$gte"@, o) is Some
            &&& order_accepted("$lt"@, o) is Some && order_accepted("$lte"@, o) is Some
            &&& acc("$eq"@) == (o == 0)
            &&& acc("$ne"@) == !acc("$eq"@)
            &&& acc("$gte"@) == (acc("$gt"@) || acc("$eq"@))
            &&& acc("$lte"@) == (acc("$lt"@) || acc("$eq"@))
            &&& acc("$gt"@) == acc_swapped("$lt"@)
            &&& (o == -1 ==> acc("$lt"@))
        }),
{
    lemma_comparison_names_distinct();
}

/// `$expr` compares integral numbers by their values: each comparison of
/// two of them holds exactly as it holds of the integers.
pub proof fn lemma_expr_integers_compare_by_value(a: NumView, b: NumView)
    requires
        !(a is Float),
        !(b is Float),
    ensures
        ({
            let x = if a is PosInt { a->PosInt_0 as int } else { a->NegInt_0 as int };
            let y = if b is PosInt { b->PosInt_0 as int } else { b->NegInt_0 as int };
            let o = value_order(JsonView::Number(a), JsonView::Number(b))->0;
            &&& value_order(JsonView::Number(a), JsonView::Number(b)) is Some
            &&& order_accepted("$eq"@, o) == Some(x == y)
            &&& order_accepted("$ne"@, o) == Some(x != y)
            &&& order_accepted("$gt"@, o) == Some(x > y)
            &&& order_accepted("$gte"@, o) == Some(x >= y)
            &&& order_accepted("$lt"@, o) == Some(x < y)
            &&& order_accepted("$lte"@, o) == Some(x <= y)
        }),
{
    crate::query::filter::lemma_integers_compare_by_value(a, b);
    lemma_comparison_names_distinct();
}

pub open spec fn is_comparison(op: Seq<char>) -> bool {
    order_accepted(op, 0) is Some
}

/// An operand that must be computed (`$substr`, arithmetic): an object of
/// one member named by an operator.
pub open spec fn is_computed(v: JsonValue) -> bool {
    v is Object && obj_members(v).len() == 1 && is_operator_name(obj_members(v)[0].0@)
}

/// What an operand that is not computed stands for: `"$path"` the value
/// at that path of the document (none when it has none), anything else
/// itself.
pub open spec fn plain_operand(v: JsonValue, d: DocumentFields) -> Option<JsonView> {
    match v {
        JsonValue::String(s) => if is_operator_name(s@) {
            opt_value_view(field_value(d, s@.skip(1)))
        } else {
            Some(v@)
        },
        _ => Some(v@),
    }
}

/// A comparison `{op: [left, right]}` of two operands that are not
/// computed: false when one is missing or the two are not ordered.
pub open spec fn comparison_outcome(op: Seq<char>, args: JsonValue, d: DocumentFields) -> Result<bool, Seq<char>> {
    match args {
        JsonValue::Array(items) => if items@.len() != 2 {
            Err("Comparison in $expr requires exactly 2 arguments"@)
        } else {
            match (plain_operand(items@[0], d), plain_operand(items@[1], d)) {
                (Some(l), Some(r)) => Ok(
                    match value_order(l, r) {
                        Some(o) => order_accepted(op, o) == Some(true),
                        None => false,
                    },
                ),
                _ => Ok(false),
            }
        },
        _ => Err("Comparison in $expr requires an array"@),
    }
}

/// Whether `$expr` expression `e` holds of document `d`, or the error a
/// malformed expression gives: one comparison (`$eq`, `$ne`, `$gt`,
/// `$gte`, `$lt`, `$lte`), or `$and`, `$or`, `$not` of expressions, the
/// first error or deciding member ending the evaluation. Meaningful where
/// no operand is computed ([`expr_plain`]).
pub open spec fn expr_outcome(e: JsonValue, d: DocumentFields) -> Result<bool, Seq<char>>
    decreases e, 1int, 0int,
{
    match e {
        JsonValue::Object(ms) => if ms@.len() != 1 {
            Err("$expr expression must have exactly one operator"@)
        } else {
            proof {
                assert(decreases_to!(e => ms));
                assert(decreases_to!(ms => ms@));
                assert(decreases_to!(ms@ => ms@[0]));
                assert(decreases_to!(ms@[0] => ms@[0].1));
            }
            let op = ms@[0].0@;
            let args = ms@[0].1;
            if is_comparison(op) {
                comparison_outcome(op, args, d)
            } else if op == "$and"@ || op == "$or"@ {
                match args {
                    JsonValue::Array(_) => junction_from(d, op == "$or"@, args, 0),
                    _ => Err(op + " in $expr requires an array"@),
                }
            } else if op == "$not"@ {
                match args {
                    JsonValue::Array(items) => if items@.len() != 1 {
                        Err("$not in $expr requires exactly one element"@)
                    } else {
                        proof {
                            assert(decreases_to!(args => items));
                            assert(decreases_to!(items => items@));
                            assert(decreases_to!(items@ => items@[0]));
                        }
                        match expr_outcome(items@[0], d) {
                            Ok(b) => Ok(!b),
                            Err(m) => Err(m),
                        }
                    },
                    _ => Err("$not in $expr requires an array"@),
                }
            } else {
                Err("Unsupported operator in $expr: "@ + op)
            }
        },
        _ => Err("$expr expression must be an object"@),
    }
}

/// `$and` (`any` false) or `$or` (`any` true) of the expressions of array
/// `args` from the `i`-th on.
pub open spec fn junction_from(d: DocumentFields, any: bool, args: JsonValue, i: int) -> Result<bool, Seq<char>>
    decreases args, 0int, arr_items(args).len() - i,
{
    match args {
        JsonValue::Array(items) => if 0 <= i < items@.len() {
            proof {
                assert(decreases_to!(args => items));
                assert(decreases_to!(items => items@));
                assert(decreases_to!(items@ => items@[i]));
            }
            match expr_outcome(items@[i], d) {
                Err(m) => Err(m),
                Ok(b) => if b == any {
                    Ok(any)
                } else {
                    junction_from(d, any, args, i + 1)
                },
            }
        } else {
            Ok(!any)
        },
        _ => Ok(!any),
    }
}

/// No comparison in `e` has a computed operand.
pub open spec fn expr_plain(e: JsonValue) -> bool
    decreases e, 1int, 0int,
{
    match e {
        JsonValue::Object(ms) => if ms@.len() != 1 {
            true
        } else {
            proof {
                assert(decreases_to!(e => ms));
                assert(decreases_to!(ms => ms@));
                assert(decreases_to!(ms@ => ms@[0]));
                assert(decreases_to!(ms@[0] => ms@[0].1));
            }
            let op = ms@[0].0@;
            let args = ms@[0].1;
            if is_comparison(op) {
                match args {
                    JsonValue::Array(items) => items@.len() != 2 || (!is_computed(items@[0]) && !is_computed(items@[1])),
                    _ => true,
                }
            } else if op == "$and"@ || op == "$or"@ || op == "$not"@ {
                plain_from(args, 0)
            } else {
                true
            }
        },
        _ => true,
    }
}

/// The expressions of array `args` from the `i`-th on are plain.
pub open spec fn plain_from(args: JsonValue, i: int) -> bool
    decreases args, 0int, arr_items(args).len() - i,
{
    match args {
        JsonValue::Array(items) => if 0 <= i < items@.len() {
            proof {
                assert(decreases_to!(args => items));
                assert(decreases_to!(items => items@));
                assert(decreases_to!(items@ => items@[i]));
            }
            expr_plain(items@[i]) && plain_from(args, i + 1)
        } else {
            true
        },
        _ => true,
    }
}

fn accepted_exec(op: &str, o: i8) -> (r: Option<bool>)
    ensures
        r == order_accepted(op@, o as int),
{
    if str_eq(op, "$eq") {
        Some(o == 0)
    } else if str_eq(op, "$ne") {
        Some(o != 0)
    } else if str_eq(op, "$gt") {
        Some(o > 0)
    } else if str_eq(op, "$gte") {
        Some(o >= 0)
    } else if str_eq(op, "$lt") {
        Some(o < 0)
    } else if str_eq(op, "$lte") {
        Some(o <= 0)
    } else {
        None
    }
}

fn is_computed_exec(v: &JsonValue) -> (r: bool)
    ensures
        r == is_computed(*v),
{
    match v {
        JsonValue::Object(ms) => ms.len() == 1 && is_operator_name_exec(ms[0].0.as_str()),
        _ => false,
    }
}

/// The value an operand that is not computed stands for (see [`plain_operand`]).
pub fn plain_operand_exec<'a>(v: &'a JsonValue, d: &'a DocumentFields) -> (r: Option<&'a JsonValue>)
    ensures
        match r {
            Some(x) => plain_operand(*v, *d) == Some(x@),
            None => plain_operand(*v, *d) is None,
        },
{
    match v {
        JsonValue::String(s) => {
            if is_operator_name_exec(s.as_str()) {
                let n = s.unicode_len();
                let path = s.as_str().substring_char(1, n);
                proof {
                    assert(path@ =~= s@.skip(1));
                }
                match d.lookup(path) {
                    Some(f) => match &f.value {
                        Some(x) => Some(x),
                        None => None,
                    },
                    None => None,
                }
            } else {
                Some(v)
            }
        },
        _ => Some(v),
    }
}

/// What `ext` computes for an operand that is computed; nothing to hold
/// for one that is read from the document or is a literal.
fn operand<'a, X: FloatOperators>(v: &'a JsonValue, d: &'a DocumentFields, ext: &X) -> (r: Result<Option<JsonValue>, IronBaseError>)
    ensures
        !is_computed(*v) ==> r == Ok::<Option<JsonValue>, IronBaseError>(None),
{
    if is_computed_exec(v) {
        ext.compute(v, d)
    } else {
        Ok(None)
    }
}

fn comparison_exec<X: FloatOperators>(op: &str, args: &JsonValue, d: &DocumentFields, ext: &X) -> (res: Result<bool, IronBaseError>)
    requires
        is_comparison(op@),
    ensures
        (match args {
            JsonValue::Array(items) => items@.len() != 2 || (!is_computed(items@[0]) && !is_computed(items@[1])),
            _ => true,
        }) ==> outcome_is(res, comparison_outcome(op@, *args, *d)),
{
    match args {
        JsonValue::Array(items) => {
            if items.len() != 2 {
                return Err(IronBaseError::InvalidQuery("Comparison in $expr requires exactly 2 arguments".to_string()));
            }
            let lc = match operand(&items[0], d, ext) {
                Ok(c) => c,
                Err(e) => return Err(e),
            };
            let rc = match operand(&items[1], d, ext) {
                Ok(c) => c,
                Err(e) => return Err(e),
            };
            let l = if is_computed_exec(&items[0]) {
                lc.as_ref()
            } else {
                plain_operand_exec(&items[0], d)
            };
            let r = if is_computed_exec(&items[1]) {
                rc.as_ref()
            } else {
                plain_operand_exec(&items[1], d)
            };
            match (l, r) {
                (Some(a), Some(b)) => match compare_values(a, b) {
                    Some(o) => Ok(accepted_exec(op, o) == Some(true)),
                    None => Ok(false),
                },
                _ => Ok(false),
            }
        },
        _ => Err(IronBaseError::InvalidQuery("Comparison in $expr requires an array".to_string())),
    }
}

/// Whether `$expr` expression `e` holds of document `d`. Computed operands
/// (`$substr`, arithmetic) are computed by `ext`; where there are none the
/// outcome is [`expr_outcome`].
pub fn evaluate_expr<X: FloatOperators>(e: &JsonValue, d: &DocumentFields, ext: &X) -> (res: Result<bool, IronBaseError>)
    ensures
        expr_plain(*e) ==> outcome_is(res, expr_outcome(*e, *d)),
    decreases e, 1int, 0int,
{
    match e {
        JsonValue::Object(ms) => {
            if ms.len() != 1 {
                return Err(IronBaseError::InvalidQuery("$expr expression must have exactly one operator".to_string()));
            }
            let op = ms[0].0.as_str();
            let args = &ms[0].1;
            proof {
                assert(decreases_to!(*e => *ms));
                assert(decreases_to!(*ms => ms@));
                assert(decreases_to!(ms@ => ms@[0]));
                assert(decreases_to!(ms@[0] => ms@[0].1));
            }
            if accepted_exec(op, 0).is_some() {
                comparison_exec(op, args, d, ext)
            } else if str_eq(op, "$and") || str_eq(op, "$or") {
                let any = str_eq(op, "$or");
                match args {
                    JsonValue::Array(items) => {
                        let mut i: usize = 0;
                        while i < items.len()
                            invariant
                                *args == JsonValue::Array(*items),
                                i <= items@.len(),
                                expr_plain(*e) ==> plain_from(*args, i as int),
                                expr_plain(*e) ==> expr_outcome(*e, *d) == junction_from(*d, any, *args, i as int),
                                *e == JsonValue::Object(*ms),
                                (op@ == "$and"@ || op@ == "$or"@) && any == (op@ == "$or"@),
                                op@ == ms@[0].0@,
                                *args == ms@[0].1,
                                ms@.len() == 1,
                            decreases items@.len() - i,
                        {
                            proof {
                                assert(decreases_to!(*e => *ms));
                                assert(decreases_to!(*ms => ms@));
                                assert(decreases_to!(ms@ => ms@[0]));
                                assert(decreases_to!(ms@[0] => ms@[0].1));
                                assert(decreases_to!(*args => *items));
                                assert(decreases_to!(*items => items@));
                                assert(decreases_to!(items@ => items@[i as int]));
                            }
                            match evaluate_expr(&items[i], d, ext) {
                                Err(err) => return Err(err),
                                Ok(b) => {
                                    if b == any {
                                        return Ok(any);
                                    }
                                },
                            }
                            i = i + 1;
                        }
                        Ok(!any)
                    },
                    _ => Err(IronBaseError::InvalidQuery(concat2(op, " in $expr requires an array"))),
                }
            } else if str_eq(op, "$not") {
                match args {
                    JsonValue::Array(items) => {
                        if items.len() != 1 {
                            return Err(IronBaseError::InvalidQuery("$not in $expr requires exactly one element".to_string()));
                        }
                        proof {
                            assert(decreases_to!(*args => *items));
                            assert(decreases_to!(*items => items@));
                            assert(decreases_to!(items@ => items@[0]));
                        }
                        match evaluate_expr(&items[0], d, ext) {
                            Ok(b) => Ok(!b),
                            Err(err) => Err(err),
                        }
                    },
                    _ => Err(IronBaseError::InvalidQuery("$not in $expr requires an array".to_string())),
                }
            } else {
                Err(IronBaseError::InvalidQuery(concat2("Unsupported operator in $expr: ", op)))
            }
        },
        _ => Err(IronBaseError::InvalidQuery("$expr expression must be an object".to_string())),
    }
}

} // verus!
