//! Matching a document against a query filter: field conditions with their
//! operators, the logical operators, `$not`, `$elemMatch`, the `$regex` and
//! `$options` pair, and the `$**` wildcard.
use vstd::prelude::*;
use crate::error::IronBaseError;
use crate::index::extract::{float_rank, rank_of_bits, DocumentFields};
use crate::index::key::{chars_order, int_order};
use crate::query::operators::{
    all_among, as_i64, bson_type_name, equal_or_holds, has_type, in_or_overlaps, invalid_query, number_text, AllOperator,
    AndOperator, ElemMatchOperator, EqOperator, ExistsOperator, GtOperator, GteOperator, InOperator, LtOperator, LteOperator,
    NeOperator, NinOperator, NorOperator, NotOperator, OperatorKind, OperatorMatcher, OperatorRegistry, OrOperator, SizeOperator,
    TypeOperator, operator_named,
};
use crate::query::expr::{evaluate_expr, expr_outcome, expr_plain};
use crate::query::text_search::{outcome_is, regex_match_with_options, regex_on_items, regex_outcome, RegexOperator};
use crate::query::value::{json_eq, lemma_values_view, values_view, JsonNumber, JsonValue, JsonView, NumView};
use crate::text::{compare_strs, concat2, str_eq};

verus! {

// ---------------------------------------------------------------------------
// What a document offers at a path
// ---------------------------------------------------------------------------

/// The values a path reaches, arrays on the way flattened.
pub open spec fn field_values(d: DocumentFields, p: Seq<char>) -> Seq<JsonValue> {
    match d.field(p) {
        Some(f) => f.values@,
        None => Seq::empty(),
    }
}

/// The value a path leads to.
pub open spec fn field_value(d: DocumentFields, p: Seq<char>) -> Option<JsonValue> {
    match d.field(p) {
        Some(f) => f.value,
        None => None,
    }
}

pub open spec fn opt_value_view(v: Option<JsonValue>) -> Option<JsonView> {
    match v {
        Some(x) => Some(x@),
        None => None,
    }
}

pub open spec fn opt_ref(v: Option<&JsonValue>) -> Option<JsonValue> {
    match v {
        Some(x) => Some(*x),
        None => None,
    }
}

/// The first member of `ms` named `key`.
pub open spec fn member(ms: Seq<(String, JsonValue)>, key: Seq<char>) -> Option<JsonValue>
    decreases ms.len(),
{
    if ms.len() == 0 {
        None
    } else if ms[0].0@ == key {
        Some(ms[0].1)
    } else {
        member(ms.drop_first(), key)
    }
}

/// Some member of `ms` is named `key`.
pub open spec fn has_member(ms: Seq<(String, JsonValue)>, key: Seq<char>) -> bool {
    member(ms, key) is Some
}

/// `s` begins with `p`.
pub open spec fn starts_with(s: Seq<char>, p: Seq<char>) -> bool {
    p.len() <= s.len() && s.take(p.len() as int) == p
}

/// A name of an operator: it begins with `$`.
pub open spec fn is_operator_name(s: Seq<char>) -> bool {
    s.len() > 0 && s[0] == '$'
}

/// Position of the first `.` in `s`, or its length when there is none.
pub open spec fn first_dot(s: Seq<char>) -> int
    decreases s.len(),
{
    if s.len() == 0 {
        0
    } else if s[0] == '.' {
        0
    } else {
        1 + first_dot(s.drop_first())
    }
}

// ---------------------------------------------------------------------------
// Value order of `$gt`, `$gte`, `$lt`, `$lte`
// ---------------------------------------------------------------------------

/// Integer value of an integral number.
pub open spec fn int_value(n: NumView) -> Option<int> {
    match n {
        NumView::PosInt(u) => Some(u as int),
        NumView::NegInt(i) => Some(i as int),
        NumView::Float(_) => None,
    }
}

/// The float held by `bits` is below zero (negative zero aside).
pub open spec fn float_negative(bits: u64) -> bool {
    (bits >> 63u64) == 1
}

/// Biased exponent field of a float's bits.
pub open spec fn float_biased_exp(bits: u64) -> u64 {
    (bits >> 52u64) & 0x7ffu64
}

/// Fraction field of a float's bits.
pub open spec fn float_frac(bits: u64) -> u64 {
    bits & 0xf_ffff_ffff_ffffu64
}

/// Integer significand of a finite float: its magnitude is
/// `float_sig(bits) * 2^float_exp(bits)`.
pub open spec fn float_sig(bits: u64) -> nat {
    if float_biased_exp(bits) == 0 {
        float_frac(bits) as nat
    } else {
        (float_frac(bits) + 0x10_0000_0000_0000) as nat
    }
}

/// Binary exponent of a finite float (see [`float_sig`]).
pub open spec fn float_exp(bits: u64) -> int {
    if float_biased_exp(bits) == 0 {
        -1074
    } else {
        float_biased_exp(bits) - 1075
    }
}

/// Order of `a` against `sig * 2^exp`.
pub open spec fn mag_order(a: nat, sig: nat, exp: int) -> int {
    if exp >= 0 {
        int_order(a as int, (sig * vstd::arithmetic::power2::pow2(exp as nat)) as int)
    } else {
        int_order((a * vstd::arithmetic::power2::pow2((-exp) as nat)) as int, sig as int)
    }
}

/// Order of an integer against a finite float, by value.
pub open spec fn int_float_order(i: int, bits: u64) -> int {
    if float_sig(bits) == 0 {
        int_order(i, 0)
    } else if !float_negative(bits) {
        if i < 0 {
            -1
        } else {
            mag_order(i as nat, float_sig(bits), float_exp(bits))
        }
    } else {
        if i >= 0 {
            1
        } else {
            -mag_order((-i) as nat, float_sig(bits), float_exp(bits))
        }
    }
}

/// Order of two numbers by value: integers exactly, floats by their order
/// rank, an integer against a float exactly.
pub open spec fn number_order(a: NumView, b: NumView) -> Option<int> {
    match (int_value(a), int_value(b)) {
        (Some(x), Some(y)) => Some(int_order(x, y)),
        (None, None) => Some(int_order(float_rank(a->Float_0) as int, float_rank(b->Float_0) as int)),
        (Some(x), None) => Some(int_float_order(x, b->Float_0)),
        (None, Some(y)) => Some(-int_float_order(y, a->Float_0)),
    }
}

/// Order of two values of one kind (null, booleans, numbers, strings); other
/// pairs are not ordered.
pub open spec fn value_order(a: JsonView, b: JsonView) -> Option<int> {
    match (a, b) {
        (JsonView::Null, JsonView::Null) => Some(0),
        (JsonView::Bool(x), JsonView::Bool(y)) => Some(
            int_order(
                if x {
                    1
                } else {
                    0
                },
                if y {
                    1
                } else {
                    0
                },
            ),
        ),
        (JsonView::Number(x), JsonView::Number(y)) => number_order(x, y),
        (JsonView::Str(x), JsonView::Str(y)) => Some(chars_order(x, y)),
        _ => None,
    }
}

/// What a comparison operator asks of an order.
pub open spec fn order_holds(k: OperatorKind, o: int) -> bool {
    match k {
        OperatorKind::Gt => o > 0,
        OperatorKind::Gte => o >= 0,
        OperatorKind::Lt => o < 0,
        OperatorKind::Lte => o <= 0,
        _ => false,
    }
}

/// `a` stands to `b` as the comparison operator `k` asks.
pub open spec fn compares(k: OperatorKind, a: JsonView, b: JsonView) -> bool {
    match value_order(a, b) {
        Some(o) => order_holds(k, o),
        None => false,
    }
}

/// A comparison operator on a document value: the value compares, or is an
/// array one of whose items does.
pub open spec fn compare_outcome(k: OperatorKind, dv: Option<JsonValue>, arg: JsonValue) -> Result<bool, Seq<char>> {
    match opt_value_view(dv) {
        None => Ok(false),
        Some(v) => Ok(
            compares(k, v, arg@) || (v is Arr && exists|i: int|
                0 <= i < v->Arr_0.len() && compares(k, #[trigger] v->Arr_0[i], arg@)),
        ),
    }
}

/// Integral JSON numbers are ordered by their values, whichever form
/// (non-negative or negative) each is held in: `$gt`, `$gte`, `$lt` and
/// `$lte` hold of two of them exactly as they hold of the integers.
pub proof fn lemma_integers_compare_by_value(a: NumView, b: NumView)
    requires
        !(a is Float),
        !(b is Float),
    ensures
        ({
            let x = if a is PosInt { a->PosInt_0 as int } else { a->NegInt_0 as int };
            let y = if b is PosInt { b->PosInt_0 as int } else { b->NegInt_0 as int };
            &&& value_order(JsonView::Number(a), JsonView::Number(b)) == Some(
                if x < y {
                    -1int
                } else if x == y {
                    0int
                } else {
                    1int
                },
            )
            &&& compares(OperatorKind::Gt, JsonView::Number(a), JsonView::Number(b)) == (x > y)
            &&& compares(OperatorKind::Gte, JsonView::Number(a), JsonView::Number(b)) == (x >= y)
            &&& compares(OperatorKind::Lt, JsonView::Number(a), JsonView::Number(b)) == (x < y)
            &&& compares(OperatorKind::Lte, JsonView::Number(a), JsonView::Number(b)) == (x <= y)
        }),
{
}

/// Any two numbers are ordered, a number stands level with itself, and
/// swapping two numbers reverses their order.
pub proof fn lemma_number_order_antisymmetric(a: NumView, b: NumView)
    ensures
        value_order(JsonView::Number(a), JsonView::Number(b)) is Some,
        value_order(JsonView::Number(a), JsonView::Number(a)) == Some(0int),
        value_order(JsonView::Number(b), JsonView::Number(a)) == Some(
            -value_order(JsonView::Number(a), JsonView::Number(b))->0,
        ),
{
}

/// Values of one scalar kind (null, booleans, numbers, strings) are
/// ordered and values of different kinds, arrays or objects are not;
/// swapping two values reverses their order; `false` is below `true`, and
/// strings are level exactly when equal.
pub proof fn lemma_value_order_antisymmetric(a: JsonView, b: JsonView)
    ensures
        value_order(a, b) is Some <==> (a is Null && b is Null) || (a is Bool && b is Bool) || (a is Number && b is Number) || (
        a is Str && b is Str),
        value_order(a, b) matches Some(o) ==> value_order(b, a) == Some(-o) && -1 <= o <= 1,
        value_order(JsonView::Bool(false), JsonView::Bool(true)) == Some(-1int),
        a is Str && b is Str ==> (value_order(a, b) == Some(0int) <==> a == b),
{
    if a is Str && b is Str {
        crate::index::key::lemma_chars_order_basic(a->Str_0, b->Str_0);
    }
    if a is Number && b is Number {
        lemma_number_order_antisymmetric(a->Number_0, b->Number_0);
        let x = a->Number_0;
        let y = b->Number_0;
        assert(value_order(a, b) == value_order(JsonView::Number(x), JsonView::Number(y)));
    }
}

/// `$ne` is the negation of `$eq`, and `$nin` of `$in` (where the argument
/// is an array); a value equals itself and is among any list holding it,
/// and an array holds every list of its own items (`$all`).
pub proof fn lemma_membership_operators(dv: Option<JsonValue>, arg: JsonValue)
    ensures
        basic_outcome(OperatorKind::Eq, dv, arg) is Ok,
        basic_outcome(OperatorKind::Ne, dv, arg) == Ok::<bool, Seq<char>>(!basic_outcome(OperatorKind::Eq, dv, arg)->Ok_0),
        arg@ is Arr ==> basic_outcome(OperatorKind::In, dv, arg) is Ok && basic_outcome(OperatorKind::Nin, dv, arg)
            == Ok::<bool, Seq<char>>(!basic_outcome(OperatorKind::In, dv, arg)->Ok_0),
        dv matches Some(v) && v@ == arg@ ==> basic_outcome(OperatorKind::Eq, dv, arg) == Ok::<bool, Seq<char>>(true),
        dv matches Some(v) && arg@ is Arr && arg@->Arr_0.contains(v@) ==> basic_outcome(OperatorKind::In, dv, arg) == Ok::<
            bool,
            Seq<char>,
        >(true),
        dv matches Some(v) && v@ == arg@ && v@ is Arr ==> basic_outcome(OperatorKind::All, dv, arg) == Ok::<bool, Seq<char>>(
            true,
        ),
        dv is None ==> basic_outcome(OperatorKind::Eq, dv, arg) == Ok::<bool, Seq<char>>(false),
{
    match dv {
        Some(v) => {
            if v@ == arg@ && v@ is Arr {
                let items = v@->Arr_0;
                assert forall|i: int| 0 <= i < items.len() implies items.contains(#[trigger] items[i]) by {}
            }
        },
        None => {},
    }
}

/// `$gte` is `$gt` or level, `$lte` is `$lt` or level, and `$gt` is `$lt`
/// with the operands swapped, for every three-way order.
pub proof fn lemma_comparisons_related(o: int)
    ensures
        order_holds(OperatorKind::Gte, o) == (order_holds(OperatorKind::Gt, o) || o == 0),
        order_holds(OperatorKind::Lte, o) == (order_holds(OperatorKind::Lt, o) || o == 0),
        order_holds(OperatorKind::Gt, o) == order_holds(OperatorKind::Lt, -o),
        order_holds(OperatorKind::Lt, -1),
        !order_holds(OperatorKind::Lt, 0),
{
}

proof fn lemma_pow2_52_53()
    ensures
        vstd::arithmetic::power2::pow2(52) == 0x10_0000_0000_0000,
        vstd::arithmetic::power2::pow2(53) == 0x20_0000_0000_0000,
        vstd::arithmetic::power2::pow2(64) == 0x1_0000_0000_0000_0000,
{
    vstd::arithmetic::power2::lemma2_to64();
    vstd::arithmetic::power2::lemma_pow2_adds(32, 20);
    vstd::arithmetic::power2::lemma_pow2_adds(32, 21);
}

/// Order of `a` against `sig * 2^exp` for the significand and exponent of a
/// nonzero finite float.
fn mag_compare(a: u64, sig: u64, exp: i64) -> (r: i8)
    requires
        0 < sig < 0x20_0000_0000_0000,
        exp >= 0 ==> sig >= 0x10_0000_0000_0000,
        -1074 <= exp <= 972,
    ensures
        r as int == mag_order(a as nat, sig as nat, exp as int),
{
    proof {
        lemma_pow2_52_53();
    }
    if exp >= 0 {
        if exp >= 64 {
            proof {
                if exp > 64 {
                    vstd::arithmetic::power2::lemma_pow2_strictly_increases(64, exp as nat);
                }
                let p = vstd::arithmetic::power2::pow2(exp as nat);
                assert(sig * p >= p) by (nonlinear_arith)
                    requires
                        sig >= 1,
                        p >= 0,
                ;
            }
            return -1;
        }
        let e = exp as u64;
        let q = a >> e;
        let ghost p = vstd::arithmetic::power2::pow2(e as nat);
        proof {
            vstd::bits::lemma_u64_shr_is_div(a, e);
            vstd::arithmetic::power2::lemma_pow2_pos(e as nat);
            vstd::arithmetic::div_mod::lemma_fundamental_div_mod(a as int, p as int);
            assert(0 <= (a as int) % (p as int) < p) by {
                vstd::arithmetic::div_mod::lemma_mod_bound(a as int, p as int);
            }
        }
        if q < sig {
            proof {
                assert((q + 1) * p <= sig * p) by (nonlinear_arith)
                    requires
                        q + 1 <= sig,
                        p > 0,
                ;
                assert(p * q + p == (q + 1) * p) by (nonlinear_arith);
            }
            return -1;
        }
        if q > sig {
            proof {
                assert(sig * p < q * p) by (nonlinear_arith)
                    requires
                        sig < q,
                        p > 0,
                ;
                assert(p * q == q * p) by (nonlinear_arith);
            }
            return 1;
        }
        proof {
            assert(p * q == q * p) by (nonlinear_arith);
            assert(q * p <= a);
            vstd::bits::lemma_u64_shl_is_mul(q, e);
        }
        if (q << e) == a {
            0
        } else {
            1
        }
    } else {
        let s = (0 - exp) as u64;
        if s >= 64 {
            if a == 0 {
                proof {
                    vstd::arithmetic::power2::lemma_pow2_pos(s as nat);
                    assert(0 * vstd::arithmetic::power2::pow2(s as nat) == 0);
                }
                return -1;
            }
            proof {
                if s > 64 {
                    vstd::arithmetic::power2::lemma_pow2_strictly_increases(64, s as nat);
                }
                let p = vstd::arithmetic::power2::pow2(s as nat);
                assert(a * p >= p) by (nonlinear_arith)
                    requires
                        a >= 1,
                        p >= 0,
                ;
            }
            return 1;
        }
        let q = sig >> s;
        let ghost p = vstd::arithmetic::power2::pow2(s as nat);
        proof {
            vstd::bits::lemma_u64_shr_is_div(sig, s);
            vstd::arithmetic::power2::lemma_pow2_pos(s as nat);
            vstd::arithmetic::div_mod::lemma_fundamental_div_mod(sig as int, p as int);
            assert(0 <= (sig as int) % (p as int) < p) by {
                vstd::arithmetic::div_mod::lemma_mod_bound(sig as int, p as int);
            }
            assert(p * q == q * p) by (nonlinear_arith);
        }
        if a < q {
            proof {
                assert(a * p < q * p) by (nonlinear_arith)
                    requires
                        a < q,
                        p > 0,
                ;
            }
            return -1;
        }
        if a > q {
            proof {
                assert((q + 1) * p <= a * p) by (nonlinear_arith)
                    requires
                        q + 1 <= a,
                        p > 0,
                ;
                assert(q * p + p == (q + 1) * p) by (nonlinear_arith);
            }
            return 1;
        }
        proof {
            vstd::bits::lemma_u64_shl_is_mul(q, s);
        }
        if (q << s) == sig {
            0
        } else {
            -1
        }
    }
}

/// Order of the integer of magnitude `a` (negative when `neg`) against the
/// finite float held by `bits`.
fn int_float_compare(a: u64, neg: bool, bits: u64) -> (r: i8)
    requires
        neg ==> a > 0,
    ensures
        r as int == int_float_order(if neg { -(a as int) } else { a as int }, bits),
{
    let biased = (bits >> 52) & 0x7ff;
    let frac = bits & 0xf_ffff_ffff_ffff;
    proof {
        assert(bits & 0xf_ffff_ffff_ffffu64 <= 0xf_ffff_ffff_ffffu64) by (bit_vector);
        assert((bits >> 52u64) & 0x7ffu64 <= 0x7ffu64) by (bit_vector);
    }
    let sig: u64 = if biased == 0 {
        frac
    } else {
        frac + 0x10_0000_0000_0000
    };
    let exp: i64 = if biased == 0 {
        -1074
    } else {
        biased as i64 - 1075
    };
    let fneg = (bits >> 63) == 1;
    if sig == 0 {
        return if neg {
            -1
        } else if a == 0 {
            0
        } else {
            1
        };
    }
    if !fneg {
        if neg {
            -1
        } else {
            mag_compare(a, sig, exp)
        }
    } else {
        if !neg {
            1
        } else {
            let m = mag_compare(a, sig, exp);
            0 - m
        }
    }
}

/// Order of two values by [`value_order`]: -1, 0 or 1, or none for values
/// that are not ordered.
pub fn compare_values(a: &JsonValue, b: &JsonValue) -> (r: Option<i8>)
    ensures
        match r {
            Some(o) => value_order(a@, b@) == Some(o as int),
            None => value_order(a@, b@) is None,
        },
{
    match (a, b) {
        (JsonValue::Null, JsonValue::Null) => Some(0),
        (JsonValue::Bool(x), JsonValue::Bool(y)) => {
            if *x == *y {
                Some(0)
            } else if !*x {
                Some(-1)
            } else {
                Some(1)
            }
        },
        (JsonValue::Number(x), JsonValue::Number(y)) => match (x, y) {
            (JsonNumber::PosInt(p), JsonNumber::PosInt(q)) => Some(
                if *p < *q {
                    -1
                } else if *p == *q {
                    0
                } else {
                    1
                },
            ),
            (JsonNumber::NegInt(p), JsonNumber::NegInt(q)) => Some(
                if *p < *q {
                    -1
                } else if *p == *q {
                    0
                } else {
                    1
                },
            ),
            (JsonNumber::NegInt(p), JsonNumber::PosInt(q)) => Some(
                if (*p as i128) < (*q as i128) {
                    -1
                } else if (*p as i128) == (*q as i128) {
                    0
                } else {
                    1
                },
            ),
            (JsonNumber::PosInt(p), JsonNumber::NegInt(q)) => Some(
                if (*p as i128) < (*q as i128) {
                    -1
                } else if (*p as i128) == (*q as i128) {
                    0
                } else {
                    1
                },
            ),
            (JsonNumber::PosInt(p), JsonNumber::Float(q, _)) => Some(int_float_compare(*p, false, *q)),
            (JsonNumber::NegInt(p), JsonNumber::Float(q, _)) => {
                if *p < 0 {
                    let mag = (0 - (*p as i128)) as u64;
                    Some(int_float_compare(mag, true, *q))
                } else {
                    Some(int_float_compare(*p as u64, false, *q))
                }
            },
            (JsonNumber::Float(p, _), JsonNumber::PosInt(q)) => Some(0 - int_float_compare(*q, false, *p)),
            (JsonNumber::Float(p, _), JsonNumber::NegInt(q)) => {
                if *q < 0 {
                    let mag = (0 - (*q as i128)) as u64;
                    Some(0 - int_float_compare(mag, true, *p))
                } else {
                    Some(0 - int_float_compare(*q as u64, false, *p))
                }
            },
            (JsonNumber::Float(p, _), JsonNumber::Float(q, _)) => {
                let rp = rank_of_bits(*p);
                let rq = rank_of_bits(*q);
                Some(
                    if rp < rq {
                        -1
                    } else if rp == rq {
                        0
                    } else {
                        1
                    },
                )
            },
        },
        (JsonValue::String(x), JsonValue::String(y)) => Some(compare_strs(x.as_str(), y.as_str())),
        _ => None,
    }
}

fn compares_exec(k: OperatorKind, a: &JsonValue, b: &JsonValue) -> (r: bool)
    ensures
        r == compares(k, a@, b@),
{
    match compare_values(a, b) {
        None => false,
        Some(o) => match k {
            OperatorKind::Gt => o > 0,
            OperatorKind::Gte => o >= 0,
            OperatorKind::Lt => o < 0,
            OperatorKind::Lte => o <= 0,
            _ => false,
        },
    }
}

fn compare_exec(k: OperatorKind, dv: Option<&JsonValue>, arg: &JsonValue) -> (r: bool)
    ensures
        compare_outcome(k, opt_ref(dv), *arg) == Ok::<bool, Seq<char>>(r),
{
    match dv {
        None => false,
        Some(v) => {
            if compares_exec(k, v, arg) {
                return true;
            }
            match v {
                JsonValue::Array(items) => {
                    proof {
                        lemma_values_view(items@);
                    }
                    let mut i: usize = 0;
                    while i < items.len()
                        invariant
                            *v == JsonValue::Array(*items),
                            dv == Some(v),
                            !compares(k, v@, arg@),
                            i <= items@.len(),
                            values_view(items@).len() == items@.len(),
                            forall|j: int| 0 <= j < items@.len() ==> #[trigger] values_view(items@)[j] == items@[j]@,
                            forall|j: int| 0 <= j < i ==> !compares(k, #[trigger] values_view(items@)[j], arg@),
                        decreases items@.len() - i,
                    {
                        if compares_exec(k, &items[i], arg) {
                            assert(v@ == JsonView::Arr(values_view(items@)));
                            assert(compares(k, v@->Arr_0[i as int], arg@));
                            return true;
                        }
                        i = i + 1;
                    }
                    assert(v@ == JsonView::Arr(values_view(items@)));
                    false
                },
                _ => false,
            }
        },
    }
}

// ---------------------------------------------------------------------------
// The operators that look at one value only
// ---------------------------------------------------------------------------

/// Name of an operator kind.
pub open spec fn kind_name(k: OperatorKind) -> Seq<char> {
    match k {
        OperatorKind::Eq => "$eq"@,
        OperatorKind::Ne => "$ne"@,
        OperatorKind::Gt => "$gt"@,
        OperatorKind::Gte => "$gte"@,
        OperatorKind::Lt => "$lt"@,
        OperatorKind::Lte => "$lte"@,
        OperatorKind::In => "$in"@,
        OperatorKind::Nin => "$nin"@,
        OperatorKind::All => "$all"@,
        OperatorKind::ElemMatch => "$elemMatch"@,
        OperatorKind::Size => "$size"@,
        OperatorKind::Exists => "$exists"@,
        OperatorKind::Type => "$type"@,
        OperatorKind::Regex => "$regex"@,
        OperatorKind::Fuzzy => "$fuzzy"@,
        OperatorKind::And => "$and"@,
        OperatorKind::Or => "$or"@,
        OperatorKind::Nor => "$nor"@,
        OperatorKind::Not => "$not"@,
        OperatorKind::Expr => "$expr"@,
    }
}

fn kind_name_exec(k: OperatorKind) -> (s: &'static str)
    ensures
        s@ == kind_name(k),
{
    match k {
        OperatorKind::Eq => "$eq",
        OperatorKind::Ne => "$ne",
        OperatorKind::Gt => "$gt",
        OperatorKind::Gte => "$gte",
        OperatorKind::Lt => "$lt",
        OperatorKind::Lte => "$lte",
        OperatorKind::In => "$in",
        OperatorKind::Nin => "$nin",
        OperatorKind::All => "$all",
        OperatorKind::ElemMatch => "$elemMatch",
        OperatorKind::Size => "$size",
        OperatorKind::Exists => "$exists",
        OperatorKind::Type => "$type",
        OperatorKind::Regex => "$regex",
        OperatorKind::Fuzzy => "$fuzzy",
        OperatorKind::And => "$and",
        OperatorKind::Or => "$or",
        OperatorKind::Nor => "$nor",
        OperatorKind::Not => "$not",
        OperatorKind::Expr => "$expr",
    }
}

/// Outcome of an operator that looks at the document value alone (every
/// operator but the logical ones, `$not`, `$elemMatch` and `$expr`).
/// `$fuzzy` computes with floats through [`FloatOperators`]: the matcher's
/// contracts speak of filters without it, and here it stands for a refusal.
pub open spec fn basic_outcome(k: OperatorKind, dv: Option<JsonValue>, arg: JsonValue) -> Result<bool, Seq<char>> {
    match k {
        OperatorKind::Eq => Ok(
            match dv {
                None => false,
                Some(v) => equal_or_holds(v@, arg@),
            },
        ),
        OperatorKind::Ne => Ok(
            match dv {
                None => true,
                Some(v) => !equal_or_holds(v@, arg@),
            },
        ),
        OperatorKind::In => match dv {
            None => Ok(false),
            Some(v) => match arg@ {
                JsonView::Arr(allowed) => Ok(in_or_overlaps(v@, allowed)),
                _ => Err("$in operator requires an array"@),
            },
        },
        OperatorKind::Nin => match arg@ {
            JsonView::Arr(allowed) => Ok(
                match dv {
                    None => true,
                    Some(v) => !in_or_overlaps(v@, allowed),
                },
            ),
            _ => Err("$nin operator requires an array"@),
        },
        OperatorKind::All => match opt_value_view(dv) {
            Some(JsonView::Arr(items)) => match arg@ {
                JsonView::Arr(required) => Ok(all_among(required, items)),
                _ => Err("$all operator requires an array"@),
            },
            _ => Ok(false),
        },
        OperatorKind::Exists => match arg@ {
            JsonView::Bool(b) => Ok(dv.is_some() == b),
            _ => Err("$exists operator requires a boolean"@),
        },
        OperatorKind::Size => match opt_value_view(dv) {
            Some(JsonView::Arr(items)) => match arg@ {
                JsonView::Number(NumView::PosInt(n)) => Ok(items.len() == n),
                JsonView::Number(NumView::NegInt(n)) => Ok(items.len() == n),
                _ => Err("$size operator requires an integer"@),
            },
            _ => Ok(false),
        },
        OperatorKind::Type => match dv {
            None => Ok(false),
            Some(v) => match arg {
                JsonValue::String(s) => match has_type(s@, v@) {
                    Some(b) => Ok(b),
                    None => Err("Unknown type name: "@ + s@),
                },
                JsonValue::Number(n) => match as_i64(n@) {
                    Some(code) => match bson_type_name(code) {
                        Some(name) => Ok(has_type(name, v@)->0),
                        None => Err("Unknown BSON type number: "@ + number_text(n)),
                    },
                    None => Err("Unknown BSON type number: "@ + number_text(n)),
                },
                _ => Err("$type operator requires a string or number"@),
            },
        },
        OperatorKind::Regex => match opt_value_view(dv) {
            Some(JsonView::Str(s)) => match arg@ {
                JsonView::Str(p) => regex_outcome(s, p, Seq::empty()),
                _ => Err("$regex operator requires a string pattern"@),
            },
            Some(JsonView::Arr(items)) => match arg@ {
                JsonView::Str(p) => regex_on_items(items, p),
                _ => Err("$regex operator requires a string pattern"@),
            },
            _ => Ok(false),
        },
        OperatorKind::Gt | OperatorKind::Gte | OperatorKind::Lt | OperatorKind::Lte => compare_outcome(k, dv, arg),
        _ => Err("Operator is evaluated by the application: "@ + kind_name(k)),
    }
}

fn basic_exec(k: OperatorKind, dv: Option<&JsonValue>, arg: &JsonValue) -> (res: Result<bool, IronBaseError>)
    requires
        !(k is And || k is Or || k is Nor || k is Not || k is ElemMatch),
    ensures
        outcome_is(res, basic_outcome(k, opt_ref(dv), *arg)),
{
    match k {
        OperatorKind::Eq => EqOperator.matches(dv, arg),
        OperatorKind::Ne => NeOperator.matches(dv, arg),
        OperatorKind::In => InOperator.matches(dv, arg),
        OperatorKind::Nin => NinOperator.matches(dv, arg),
        OperatorKind::All => AllOperator.matches(dv, arg),
        OperatorKind::Exists => ExistsOperator.matches(dv, arg),
        OperatorKind::Size => SizeOperator.matches(dv, arg),
        OperatorKind::Type => TypeOperator.matches(dv, arg),
        OperatorKind::Regex => RegexOperator.matches(dv, arg),
        OperatorKind::Gt | OperatorKind::Gte | OperatorKind::Lt | OperatorKind::Lte => Ok(compare_exec(k, dv, arg)),
        _ => Err(IronBaseError::InvalidQuery(concat2("Operator is evaluated by the application: ", kind_name_exec(k)))),
    }
}

} // verus!

verus! {

// ---------------------------------------------------------------------------
// `$regex` with `$options`
// ---------------------------------------------------------------------------

/// Outcome of a pattern with options on the strings among `items`, in order:
/// the first match, or the first error, or no match.
pub open spec fn regex_items(items: Seq<JsonView>, p: Seq<char>, o: Seq<char>) -> Result<bool, Seq<char>>
    decreases items.len(),
{
    if items.len() == 0 {
        Ok(false)
    } else {
        match items[0] {
            JsonView::Str(s) => match regex_outcome(s, p, o) {
                Ok(true) => Ok(true),
                Ok(false) => regex_items(items.drop_first(), p, o),
                Err(m) => Err(m),
            },
            _ => regex_items(items.drop_first(), p, o),
        }
    }
}

/// A pattern with options on one value: a string, or an array holding a
/// matching string; other values do not match.
pub open spec fn regex_value(v: Option<JsonValue>, p: Seq<char>, o: Seq<char>) -> Result<bool, Seq<char>> {
    match opt_value_view(v) {
        Some(JsonView::Str(s)) => regex_outcome(s, p, o),
        Some(JsonView::Arr(items)) => regex_items(items, p, o),
        _ => Ok(false),
    }
}

/// A pattern with options on the values `vals`, in order: the first match,
/// or the first error, or no match.
pub open spec fn regex_any(vals: Seq<JsonValue>, p: Seq<char>, o: Seq<char>) -> Result<bool, Seq<char>>
    decreases vals.len(),
{
    if vals.len() == 0 {
        Ok(false)
    } else {
        match regex_value(Some(vals[0]), p, o) {
            Ok(false) => regex_any(vals.drop_first(), p, o),
            r => r,
        }
    }
}

/// The pattern of a condition object: its `$regex` member, which must be a string.
pub open spec fn regex_pattern(cs: Seq<(String, JsonValue)>) -> Result<Seq<char>, Seq<char>> {
    match member(cs, "$regex"@) {
        Some(JsonValue::String(s)) => Ok(s@),
        _ => Err("$regex requires a string pattern"@),
    }
}

/// The options of a condition object: its `$options` member when a string.
pub open spec fn regex_options(cs: Seq<(String, JsonValue)>) -> Seq<char> {
    match member(cs, "$options"@) {
        Some(JsonValue::String(s)) => s@,
        _ => Seq::empty(),
    }
}

/// The `$regex` and `$options` pair of a field condition on the values a
/// path reaches (any of them), or on the value it leads to.
pub open spec fn field_regex(vals: Seq<JsonValue>, single: Option<JsonValue>, cs: Seq<(String, JsonValue)>) -> Result<bool, Seq<char>> {
    match regex_pattern(cs) {
        Err(m) => Err(m),
        Ok(p) => if vals.len() > 0 {
            regex_any(vals, p, regex_options(cs))
        } else {
            regex_value(single, p, regex_options(cs))
        },
    }
}

/// The `$regex` and `$options` pair of a condition object on one value.
pub open spec fn value_regex(v: Option<JsonValue>, cs: Seq<(String, JsonValue)>) -> Result<bool, Seq<char>> {
    match regex_pattern(cs) {
        Err(m) => Err(m),
        Ok(p) => regex_value(v, p, regex_options(cs)),
    }
}

pub(crate) fn member_exec<'a>(ms: &'a Vec<(String, JsonValue)>, key: &str) -> (r: Option<&'a JsonValue>)
    ensures
        opt_ref(r) == member(ms@, key@),
{
    let mut i: usize = 0;
    proof {
        assert(ms@.skip(0) =~= ms@);
    }
    while i < ms.len()
        invariant
            i <= ms@.len(),
            member(ms@, key@) == member(ms@.skip(i as int), key@),
        decreases ms@.len() - i,
    {
        proof {
            assert(ms@.skip(i as int)[0] == ms@[i as int]);
            assert(ms@.skip(i as int).drop_first() =~= ms@.skip(i + 1));
        }
        if str_eq(ms[i].0.as_str(), key) {
            return Some(&ms[i].1);
        }
        i = i + 1;
    }
    None
}

fn regex_value_exec(v: Option<&JsonValue>, p: &str, o: &str) -> (res: Result<bool, IronBaseError>)
    ensures
        outcome_is(res, regex_value(opt_ref(v), p@, o@)),
{
    match v {
        Some(JsonValue::String(s)) => regex_match_with_options(s.as_str(), p, o),
        Some(JsonValue::Array(items)) => {
            proof {
                lemma_values_view(items@);
            }
            let ghost vs = values_view(items@);
            let mut i: usize = 0;
            proof {
                assert(vs.skip(0) =~= vs);
            }
            while i < items.len()
                invariant
                    vs == values_view(items@),
                    vs.len() == items@.len(),
                    forall|j: int| 0 <= j < items@.len() ==> #[trigger] vs[j] == items@[j]@,
                    i <= items@.len(),
                    regex_items(vs, p@, o@) == regex_items(vs.skip(i as int), p@, o@),
                    opt_value_view(opt_ref(v)) == Some(JsonView::Arr(vs)),
                decreases items@.len() - i,
            {
                proof {
                    assert(vs.skip(i as int)[0] == vs[i as int]);
                    assert(vs.skip(i as int).drop_first() =~= vs.skip(i + 1));
                }
                match &items[i] {
                    JsonValue::String(s) => {
                        match regex_match_with_options(s.as_str(), p, o) {
                            Err(e) => {
                                return Err(e);
                            },
                            Ok(true) => {
                                return Ok(true);
                            },
                            Ok(false) => {},
                        }
                    },
                    _ => {},
                }
                i = i + 1;
            }
            proof {
                assert(vs.skip(i as int) =~= Seq::<JsonView>::empty());
            }
            Ok(false)
        },
        _ => Ok(false),
    }
}

/// The pattern and options of a condition object holding `$regex`.
fn regex_parts<'a>(cs: &'a Vec<(String, JsonValue)>) -> (res: Result<(&'a str, &'a str), IronBaseError>)
    ensures
        match regex_pattern(cs@) {
            Err(m) => res is Err && invalid_query(Err(res->Err_0), m),
            Ok(p) => res is Ok && res->Ok_0.0@ == p && res->Ok_0.1@ == regex_options(cs@),
        },
{
    let pattern = match member_exec(cs, "$regex") {
        Some(JsonValue::String(s)) => s.as_str(),
        _ => {
            return Err(IronBaseError::InvalidQuery("$regex requires a string pattern".to_string()));
        },
    };
    let options = match member_exec(cs, "$options") {
        Some(JsonValue::String(s)) => s.as_str(),
        _ => {
            proof {
                reveal_strlit("");
            }
            ""
        },
    };
    Ok((pattern, options))
}

fn field_regex_exec(vals: &Vec<JsonValue>, single: Option<&JsonValue>, cs: &Vec<(String, JsonValue)>) -> (res: Result<bool, IronBaseError>)
    ensures
        outcome_is(res, field_regex(vals@, opt_ref(single), cs@)),
{
    let (p, o) = match regex_parts(cs) {
        Err(e) => {
            return Err(e);
        },
        Ok(x) => x,
    };
    if vals.len() == 0 {
        return regex_value_exec(single, p, o);
    }
    let mut i: usize = 0;
    proof {
        assert(vals@.skip(0) =~= vals@);
    }
    while i < vals.len()
        invariant
            i <= vals@.len(),
            vals@.len() > 0,
            p@ == regex_pattern(cs@)->Ok_0,
            regex_pattern(cs@) is Ok,
            o@ == regex_options(cs@),
            regex_any(vals@, p@, o@) == regex_any(vals@.skip(i as int), p@, o@),
        decreases vals@.len() - i,
    {
        proof {
            assert(vals@.skip(i as int)[0] == vals@[i as int]);
            assert(vals@.skip(i as int).drop_first() =~= vals@.skip(i + 1));
        }
        let r = regex_value_exec(Some(&vals[i]), p, o);
        match r {
            Ok(false) => {},
            _ => {
                return r;
            },
        }
        i = i + 1;
    }
    proof {
        assert(vals@.skip(i as int) =~= Seq::<JsonValue>::empty());
    }
    Ok(false)
}

fn value_regex_exec(v: Option<&JsonValue>, cs: &Vec<(String, JsonValue)>) -> (res: Result<bool, IronBaseError>)
    ensures
        outcome_is(res, value_regex(opt_ref(v), cs@)),
{
    match regex_parts(cs) {
        Err(e) => Err(e),
        Ok((p, o)) => regex_value_exec(v, p, o),
    }
}

// ---------------------------------------------------------------------------
// Text helpers
// ---------------------------------------------------------------------------

fn starts_with_exec(s: &str, p: &str) -> (r: bool)
    ensures
        r == starts_with(s@, p@),
{
    let n = s.unicode_len();
    let m = p.unicode_len();
    if m > n {
        return false;
    }
    let head = s.substring_char(0, m);
    str_eq(head, p)
}

pub(crate) fn is_operator_name_exec(s: &str) -> (r: bool)
    ensures
        r == is_operator_name(s@),
{
    s.unicode_len() > 0 && s.get_char(0) == '$'
}

proof fn lemma_first_dot(s: Seq<char>, j: int)
    requires
        0 <= j < s.len(),
        s[j] == '.',
        forall|k: int| 0 <= k < j ==> s[k] != '.',
    ensures
        first_dot(s) == j,
    decreases j,
{
    if j > 0 {
        assert forall|k: int| 0 <= k < j - 1 implies s.drop_first()[k] != '.' by {
            assert(s.drop_first()[k] == s[k + 1]);
        }
        lemma_first_dot(s.drop_first(), j - 1);
    }
}

/// Position of the first `.` of `s`, if it has one.
fn dot_position(s: &str) -> (r: Option<usize>)
    ensures
        match r {
            Some(j) => j < s@.len() && first_dot(s@) == j && s@.contains('.'),
            None => !s@.contains('.'),
        },
{
    let n = s.unicode_len();
    let mut i: usize = 0;
    while i < n
        invariant
            n == s@.len(),
            i <= n,
            forall|k: int| 0 <= k < i ==> s@[k] != '.',
        decreases n - i,
    {
        if s.get_char(i) == '.' {
            proof {
                lemma_first_dot(s@, i as int);
            }
            return Some(i);
        }
        i = i + 1;
    }
    None
}

/// Message of a `$**` key followed by a dotted path.
pub open spec fn wildcard_path_message(name: Seq<char>) -> Seq<char> {
    "$** wildcard does not support nested paths. Use $**."@ + name.take(first_dot(name)) + " instead of $**."@ + name
}

} // verus!

verus! {

// ---------------------------------------------------------------------------
// What a filter says of a document
// ---------------------------------------------------------------------------

/// Members of an object value (none for other values).
pub open spec fn obj_members(v: JsonValue) -> Seq<(String, JsonValue)> {
    match v {
        JsonValue::Object(ms) => ms@,
        _ => Seq::empty(),
    }
}

/// Items of an array value (none for other values).
pub open spec fn arr_items(v: JsonValue) -> Seq<JsonValue> {
    match v {
        JsonValue::Array(items) => items@,
        _ => Seq::empty(),
    }
}

pub open spec fn opt_doc(ctx: Option<&DocumentFields>) -> Option<DocumentFields> {
    match ctx {
        Some(d) => Some(*d),
        None => None,
    }
}

/// Some condition of `cs` names a field rather than an operator.
pub open spec fn has_field_condition(cs: Seq<(String, JsonValue)>) -> bool {
    exists|j: int| 0 <= j < cs.len() && !is_operator_name(#[trigger] cs[j].0@)
}

/// Whether document `d` matches filter `f`, or the error a malformed filter
/// gives. The filter must be an object; each of its conditions must hold, in
/// order, the first error or failing condition deciding.
pub open spec fn filter_outcome(d: DocumentFields, f: JsonValue) -> Result<bool, Seq<char>>
    decreases f, 12int, 0int,
{
    match f {
        JsonValue::Object(_) => conds_from(d, f, 0),
        _ => Err("Filter must be an object"@),
    }
}

/// The conditions of filter object `f` from the `i`-th on.
pub open spec fn conds_from(d: DocumentFields, f: JsonValue, i: int) -> Result<bool, Seq<char>>
    decreases f, 11int, obj_members(f).len() - i,
{
    match f {
        JsonValue::Object(ms) => if 0 <= i < ms@.len() {
            proof {
                assert(decreases_to!(f => ms));
                assert(decreases_to!(ms => ms@));
                assert(decreases_to!(ms@ => ms@[i]));
                assert(decreases_to!(ms@[i] => ms@[i].1));
            }
            match cond_outcome(d, ms@[i].0@, ms@[i].1) {
                Ok(true) => conds_from(d, f, i + 1),
                r => r,
            }
        } else {
            Ok(true)
        },
        _ => Ok(true),
    }
}

/// One condition of a filter: a `$**.name` wildcard (the values listed for
/// that key), a top-level operator, or a field path.
pub open spec fn cond_outcome(d: DocumentFields, key: Seq<char>, v: JsonValue) -> Result<bool, Seq<char>>
    decreases v, 10int, 0int,
{
    if starts_with(key, "$**"@) && key == "$**"@ {
        Err("$** must be followed by a field name (e.g., $**.fieldName)"@)
    } else if starts_with(key, "$**."@) {
        let name = key.skip(4);
        if name.contains('.') {
            Err(wildcard_path_message(name))
        } else {
            field_cond(d, field_values(d, key), None, v)
        }
    } else if is_operator_name(key) && !starts_with(key, "$**"@) {
        match operator_named(key) {
            None => Err("Unknown operator: "@ + key),
            Some(k) => op_outcome(Some(d), k, None, v),
        }
    } else {
        field_cond(d, field_values(d, key), field_value(d, key), v)
    }
}

/// A field condition on the values `vals` the path reaches (any of them
/// may satisfy each operator), or, when it reaches none, on `single`: an
/// object of operators, or a value the field must equal.
pub open spec fn field_cond(d: DocumentFields, vals: Seq<JsonValue>, single: Option<JsonValue>, v: JsonValue) -> Result<
    bool,
    Seq<char>,
>
    decreases v, 9int, 0int,
{
    match v {
        JsonValue::Object(cs) => if has_member(cs@, "$regex"@) && has_member(cs@, "$options"@) {
            match field_regex(vals, single, cs@) {
                Ok(true) => field_ops_from(d, vals, single, v, 0, true),
                r => r,
            }
        } else {
            field_ops_from(d, vals, single, v, 0, false)
        },
        _ => check_match(Some(d), OperatorKind::Eq, vals, single, v),
    }
}

/// The operators of condition object `v` from the `i`-th on (members that
/// are not operators are passed over, and so are `$regex` and `$options`
/// once their pair was checked).
pub open spec fn field_ops_from(
    d: DocumentFields,
    vals: Seq<JsonValue>,
    single: Option<JsonValue>,
    v: JsonValue,
    i: int,
    skip_regex: bool,
) -> Result<bool, Seq<char>>
    decreases v, 8int, obj_members(v).len() - i,
{
    match v {
        JsonValue::Object(cs) => if 0 <= i < cs@.len() {
            proof {
                assert(decreases_to!(v => cs));
                assert(decreases_to!(cs => cs@));
                assert(decreases_to!(cs@ => cs@[i]));
                assert(decreases_to!(cs@[i] => cs@[i].1));
            }
            let name = cs@[i].0@;
            if (skip_regex && (name == "$regex"@ || name == "$options"@)) || !is_operator_name(name) {
                field_ops_from(d, vals, single, v, i + 1, skip_regex)
            } else {
                match operator_named(name) {
                    None => Err("Unknown operator: "@ + name),
                    Some(k) => match check_match(Some(d), k, vals, single, cs@[i].1) {
                        Ok(true) => field_ops_from(d, vals, single, v, i + 1, skip_regex),
                        r => r,
                    },
                }
            }
        } else {
            Ok(true)
        },
        _ => Ok(true),
    }
}

/// An operator on the values a path reaches (some of them must satisfy
/// it), or on `single` when it reaches none.
pub open spec fn check_match(
    ctx: Option<DocumentFields>,
    k: OperatorKind,
    vals: Seq<JsonValue>,
    single: Option<JsonValue>,
    arg: JsonValue,
) -> Result<bool, Seq<char>>
    decreases arg, 8int, 0int,
{
    if vals.len() == 0 {
        op_outcome(ctx, k, single, arg)
    } else {
        any_from(ctx, k, vals, arg, 0)
    }
}

/// An operator on the values `vals` from the `i`-th on: the first that
/// satisfies it, or the first error, decides.
pub open spec fn any_from(ctx: Option<DocumentFields>, k: OperatorKind, vals: Seq<JsonValue>, arg: JsonValue, i: int) -> Result<
    bool,
    Seq<char>,
>
    decreases arg, 7int, vals.len() - i,
{
    if 0 <= i < vals.len() {
        match op_outcome(ctx, k, Some(vals[i]), arg) {
            Ok(false) => any_from(ctx, k, vals, arg, i + 1),
            r => r,
        }
    } else {
        Ok(false)
    }
}

/// Operator `k` with argument `arg` on the value `dv`; `ctx` is the document
/// the logical operators and `$not` evaluate against (none inside
/// `$elemMatch`).
pub open spec fn op_outcome(ctx: Option<DocumentFields>, k: OperatorKind, dv: Option<JsonValue>, arg: JsonValue) -> Result<
    bool,
    Seq<char>,
>
    decreases arg, 6int, 0int,
{
    match k {
        OperatorKind::And | OperatorKind::Or | OperatorKind::Nor => match ctx {
            None => Err(kind_name(k) + " operator requires document context"@),
            Some(d) => match arg {
                JsonValue::Array(_) => logical_from(d, k, arg, 0),
                _ => Err(kind_name(k) + " operator requires an array"@),
            },
        },
        OperatorKind::Not => match ctx {
            None => Err("$not operator requires document context"@),
            Some(_) => match value_filter(ctx, dv, arg) {
                Ok(b) => Ok(!b),
                Err(m) => Err(m),
            },
        },
        OperatorKind::ElemMatch => elem_match(dv, arg),
        OperatorKind::Expr => match ctx {
            None => Err("$expr operator requires document context"@),
            Some(d) => expr_outcome(arg, d),
        },
        _ => basic_outcome(k, dv, arg),
    }
}

/// `$and`, `$or` or `$nor` over the sub-filters of `arg` from the `i`-th on.
pub open spec fn logical_from(d: DocumentFields, k: OperatorKind, arg: JsonValue, i: int) -> Result<bool, Seq<char>>
    decreases arg, 5int, arr_items(arg).len() - i,
{
    match arg {
        JsonValue::Array(items) => if 0 <= i < items@.len() {
            proof {
                assert(decreases_to!(arg => items));
                assert(decreases_to!(items => items@));
                assert(decreases_to!(items@ => items@[i]));
            }
            match filter_outcome(d, items@[i]) {
                Err(m) => Err(m),
                Ok(b) => if k is And && !b {
                    Ok(false)
                } else if k is Or && b {
                    Ok(true)
                } else if k is Nor && b {
                    Ok(false)
                } else {
                    logical_from(d, k, arg, i + 1)
                },
            }
        } else {
            Ok(!(k is Or))
        },
        _ => Ok(!(k is Or)),
    }
}

/// A filter value applied to one value (what `$not` negates): an object of
/// operators that must all hold (a `$regex`, with its `$options` if any,
/// checked first; `$options` alone refused), or a value it must equal.
pub open spec fn value_filter(ctx: Option<DocumentFields>, dv: Option<JsonValue>, f: JsonValue) -> Result<bool, Seq<char>>
    decreases f, 5int, 0int,
{
    match f {
        JsonValue::Object(cs) => if has_member(cs@, "$options"@) && !has_member(cs@, "$regex"@) {
            Err("$options requires $regex"@)
        } else if has_member(cs@, "$regex"@) {
            match value_regex(dv, cs@) {
                Ok(true) => value_ops_from(ctx, dv, f, 0, true),
                r => r,
            }
        } else {
            value_ops_from(ctx, dv, f, 0, false)
        },
        _ => Ok(opt_value_view(dv) == Some(f@)),
    }
}

/// The operators of `f` from the `i`-th on, applied to one value.
pub open spec fn value_ops_from(ctx: Option<DocumentFields>, dv: Option<JsonValue>, f: JsonValue, i: int, skip_regex: bool) -> Result<
    bool,
    Seq<char>,
>
    decreases f, 4int, obj_members(f).len() - i,
{
    match f {
        JsonValue::Object(ms) => if 0 <= i < ms@.len() {
            proof {
                assert(decreases_to!(f => ms));
                assert(decreases_to!(ms => ms@));
                assert(decreases_to!(ms@ => ms@[i]));
                assert(decreases_to!(ms@[i] => ms@[i].1));
            }
            let name = ms@[i].0@;
            if skip_regex && (name == "$regex"@ || name == "$options"@) {
                value_ops_from(ctx, dv, f, i + 1, skip_regex)
            } else if is_operator_name(name) {
                match operator_named(name) {
                    None => Err("Unknown operator: "@ + name),
                    Some(k) => match op_outcome(ctx, k, dv, ms@[i].1) {
                        Ok(true) => value_ops_from(ctx, dv, f, i + 1, skip_regex),
                        r => r,
                    },
                }
            } else {
                Err("Unexpected field in filter value"@)
            }
        } else {
            Ok(true)
        },
        _ => Ok(true),
    }
}

/// `$elemMatch`: the argument must be an object of conditions; some item of
/// the array value must meet them all.
pub open spec fn elem_match(dv: Option<JsonValue>, arg: JsonValue) -> Result<bool, Seq<char>>
    decreases arg, 5int, 0int,
{
    match arg {
        JsonValue::Object(_) => match dv {
            Some(JsonValue::Array(items)) => elem_items_from(items@, arg, 0),
            _ => Ok(false),
        },
        _ => Err("$elemMatch requires an object with query conditions"@),
    }
}

/// The items of an array from the `i`-th on against the conditions of
/// `arg`: object items by their members, other items by the operators (a
/// condition on a field fails them).
pub open spec fn elem_items_from(items: Seq<JsonValue>, arg: JsonValue, i: int) -> Result<bool, Seq<char>>
    decreases arg, 4int, items.len() - i,
{
    if 0 <= i < items.len() {
        let e = items[i];
        let r = match e {
            JsonValue::Object(om) => elem_conds_from(om@, e, arg, 0),
            _ => if has_field_condition(obj_members(arg)) {
                Ok(false)
            } else {
                ops_outcome(arg, Some(e))
            },
        };
        match r {
            Ok(false) => elem_items_from(items, arg, i + 1),
            r => r,
        }
    } else {
        Ok(false)
    }
}

/// The conditions of `arg` from the `j`-th on, on the object item `e` with
/// members `om`.
pub open spec fn elem_conds_from(om: Seq<(String, JsonValue)>, e: JsonValue, arg: JsonValue, j: int) -> Result<
    bool,
    Seq<char>,
>
    decreases arg, 3int, obj_members(arg).len() - j,
{
    match arg {
        JsonValue::Object(cs) => if 0 <= j < cs@.len() {
            proof {
                assert(decreases_to!(arg => cs));
                assert(decreases_to!(cs => cs@));
                assert(decreases_to!(cs@ => cs@[j]));
                assert(decreases_to!(cs@[j] => cs@[j].1));
            }
            let key = cs@[j].0@;
            let val = cs@[j].1;
            if is_operator_name(key) {
                match operator_named(key) {
                    None => Err("Unknown operator: "@ + key),
                    Some(k) => match op_outcome(None, k, Some(e), val) {
                        Ok(true) => elem_conds_from(om, e, arg, j + 1),
                        r => r,
                    },
                }
            } else {
                match val {
                    JsonValue::Object(_) => match ops_outcome(val, member(om, key)) {
                        Ok(true) => elem_conds_from(om, e, arg, j + 1),
                        r => r,
                    },
                    _ => if opt_value_view(member(om, key)) == Some(val@) {
                        elem_conds_from(om, e, arg, j + 1)
                    } else {
                        Ok(false)
                    },
                }
            }
        } else {
            Ok(true)
        },
        _ => Ok(true),
    }
}

/// An object of operators on one value, with the `$regex` and `$options`
/// pair checked first (`$options` alone is refused).
pub open spec fn ops_outcome(obj: JsonValue, value: Option<JsonValue>) -> Result<bool, Seq<char>>
    decreases obj, 3int, 0int,
{
    match obj {
        JsonValue::Object(cs) => if has_member(cs@, "$regex"@) && has_member(cs@, "$options"@) {
            match value_regex(value, cs@) {
                Ok(true) => ops_from(obj, value, 0, true),
                r => r,
            }
        } else if has_member(cs@, "$options"@) {
            Err("$options requires $regex"@)
        } else {
            ops_from(obj, value, 0, false)
        },
        _ => Ok(true),
    }
}

/// The operators of `obj` from the `i`-th on, applied to one value.
pub open spec fn ops_from(obj: JsonValue, value: Option<JsonValue>, i: int, skip_regex: bool) -> Result<bool, Seq<char>>
    decreases obj, 2int, obj_members(obj).len() - i,
{
    match obj {
        JsonValue::Object(cs) => if 0 <= i < cs@.len() {
            proof {
                assert(decreases_to!(obj => cs));
                assert(decreases_to!(cs => cs@));
                assert(decreases_to!(cs@ => cs@[i]));
                assert(decreases_to!(cs@[i] => cs@[i].1));
            }
            let name = cs@[i].0@;
            if (skip_regex && (name == "$regex"@ || name == "$options"@)) || !is_operator_name(name) {
                ops_from(obj, value, i + 1, skip_regex)
            } else {
                match operator_named(name) {
                    None => Err("Unknown operator: "@ + name),
                    Some(k) => match op_outcome(None, k, value, cs@[i].1) {
                        Ok(true) => ops_from(obj, value, i + 1, skip_regex),
                        r => r,
                    },
                }
            }
        } else {
            Ok(true)
        },
        _ => Ok(true),
    }
}

} // verus!

verus! {

// ---------------------------------------------------------------------------
// `$fuzzy` and `$expr`
// ---------------------------------------------------------------------------

/// The operators that compute in floating point, `$fuzzy` (similarity
/// scores) and the computed operands of `$expr` (`$substr` and arithmetic
/// on field values): the application evaluates them, and the matcher hands
/// them over.
pub trait FloatOperators {
    /// `$fuzzy` with argument `filter_value` on the document value.
    fn fuzzy(&self, doc_value: Option<&JsonValue>, filter_value: &JsonValue) -> Result<bool, IronBaseError>;

    /// The value of a computed `$expr` operand (an object of one operator)
    /// on the document; `None` where it has none (a missing or non-numeric
    /// operand, a zero divisor).
    fn compute(&self, operand: &JsonValue, document: &DocumentFields) -> Result<Option<JsonValue>, IronBaseError>;
}

/// No evaluator: `$fuzzy` and computed `$expr` operands are refused.
pub struct NoFloatOperators;

impl FloatOperators for NoFloatOperators {
    fn fuzzy(&self, _doc_value: Option<&JsonValue>, _filter_value: &JsonValue) -> Result<bool, IronBaseError> {
        Err(IronBaseError::InvalidQuery("Operator is evaluated by the application: $fuzzy".to_string()))
    }

    fn compute(&self, _operand: &JsonValue, _document: &DocumentFields) -> Result<Option<JsonValue>, IronBaseError> {
        Err(IronBaseError::InvalidQuery("Operator is evaluated by the application: $expr".to_string()))
    }
}

/// A member `{n: v}` that needs the evaluator: `$fuzzy`, or `$expr` with
/// a computed operand.
pub open spec fn member_computes(n: Seq<char>, v: JsonValue) -> bool {
    n == "$fuzzy"@ || (n == "$expr"@ && !expr_plain(v))
}

/// Operator `k` with argument `arg` needs the evaluator.
pub open spec fn computes_floats(k: OperatorKind, arg: JsonValue) -> bool {
    k is Fuzzy || (k is Expr && !expr_plain(arg))
}

/// Some object member anywhere in `v` needs the evaluator (see [`member_computes`]).
pub open spec fn uses_float_ops(v: JsonValue) -> bool
    decreases v,
{
    match v {
        JsonValue::Array(items) => {
            proof {
                assert(decreases_to!(v => items));
                assert(decreases_to!(items => items@));
            }
            items_use_float_ops(items@)
        },
        JsonValue::Object(ms) => {
            proof {
                assert(decreases_to!(v => ms));
                assert(decreases_to!(ms => ms@));
            }
            members_use_float_ops(ms@)
        },
        _ => false,
    }
}

/// Some item of `s` needs the evaluator.
pub open spec fn items_use_float_ops(s: Seq<JsonValue>) -> bool
    decreases s,
{
    if s.len() == 0 {
        false
    } else {
        uses_float_ops(s[0]) || items_use_float_ops(s.drop_first())
    }
}

/// Some member of `ms` needs the evaluator, itself or within its value.
pub open spec fn members_use_float_ops(ms: Seq<(String, JsonValue)>) -> bool
    decreases ms,
{
    if ms.len() == 0 {
        false
    } else {
        proof {
            assert(decreases_to!(ms => ms[0]));
            assert(decreases_to!(ms[0] => ms[0].1));
        }
        member_computes(ms[0].0@, ms[0].1) || uses_float_ops(ms[0].1) || members_use_float_ops(ms.drop_first())
    }
}

proof fn lemma_members_no_float(ms: Seq<(String, JsonValue)>, i: int)
    requires
        !members_use_float_ops(ms),
        0 <= i < ms.len(),
    ensures
        !member_computes(ms[i].0@, ms[i].1),
        !uses_float_ops(ms[i].1),
        operator_named(ms[i].0@) matches Some(k) ==> !computes_floats(k, ms[i].1),
    decreases i,
{
    if i > 0 {
        assert(ms.drop_first()[i - 1] == ms[i]);
        lemma_members_no_float(ms.drop_first(), i - 1);
    }
}

proof fn lemma_items_no_float(s: Seq<JsonValue>, i: int)
    requires
        !items_use_float_ops(s),
        0 <= i < s.len(),
    ensures
        !uses_float_ops(s[i]),
    decreases i,
{
    if i > 0 {
        assert(s.drop_first()[i - 1] == s[i]);
        lemma_items_no_float(s.drop_first(), i - 1);
    }
}

// ---------------------------------------------------------------------------
// Matching
// ---------------------------------------------------------------------------

/// Whether `doc` matches `filter`: an error for a malformed filter, else
/// whether every condition holds. The values a condition's path reaches are
/// read from `doc` under the condition's key (for `$**.name` the values
/// found under `name` at any depth).
pub fn matches_filter_with<X: FloatOperators>(doc: &DocumentFields, filter: &JsonValue, ext: &X) -> (res: Result<bool, IronBaseError>)
    ensures
        !uses_float_ops(*filter) ==> outcome_is(res, filter_outcome(*doc, *filter)),
    decreases filter, 12int, 0int,
{
    match filter {
        JsonValue::Object(ms) => {
            let mut i: usize = 0;
            while i < ms.len()
                invariant
                    *filter == JsonValue::Object(*ms),
                    i <= ms@.len(),
                    !uses_float_ops(*filter) ==> filter_outcome(*doc, *filter) == conds_from(*doc, *filter, i as int),
                decreases ms@.len() - i,
            {
                proof {
                    assert(decreases_to!(*filter => filter->Object_0));
                    assert(decreases_to!(*ms => ms@));
                    assert(decreases_to!(ms@ => ms@[i as int]));
                    assert(decreases_to!(ms@[i as int] => ms@[i as int].1));
                    if !uses_float_ops(*filter) {
                        lemma_members_no_float(ms@, i as int);
                    }
                }
                let r = cond_exec(doc, ms[i].0.as_str(), &ms[i].1, ext);
                match r {
                    Ok(true) => {},
                    _ => {
                        return r;
                    },
                }
                i = i + 1;
            }
            Ok(true)
        },
        _ => Err(IronBaseError::InvalidQuery("Filter must be an object".to_string())),
    }
}

/// Whether `doc` matches `filter`, with `$fuzzy` and the computed operands
/// of `$expr` refused (see [`matches_filter_with`] for an evaluator of them).
pub fn matches_filter(doc: &DocumentFields, filter: &JsonValue) -> (res: Result<bool, IronBaseError>)
    ensures
        !uses_float_ops(*filter) ==> outcome_is(res, filter_outcome(*doc, *filter)),
{
    matches_filter_with(doc, filter, &NoFloatOperators)
}

/// A filter value applied to one value, with `$fuzzy` and the computed
/// operands of `$expr` refused.
pub fn matches_filter_value(dv: Option<&JsonValue>, f: &JsonValue, ctx: Option<&DocumentFields>) -> (res: Result<bool, IronBaseError>)
    ensures
        !uses_float_ops(*f) ==> outcome_is(res, value_filter(opt_doc(ctx), opt_ref(dv), *f)),
{
    matches_filter_value_with(dv, f, ctx, &NoFloatOperators)
}

fn cond_exec<X: FloatOperators>(doc: &DocumentFields, key: &str, v: &JsonValue, ext: &X) -> (res: Result<bool, IronBaseError>)
    ensures
        !member_computes(key@, *v) && !uses_float_ops(*v) ==> outcome_is(res, cond_outcome(*doc, key@, *v)),
    decreases v, 10int, 0int,
{
    let empty: Vec<JsonValue> = Vec::new();
    let wild = starts_with_exec(key, "$**");
    if wild && str_eq(key, "$**") {
        return Err(IronBaseError::InvalidQuery("$** must be followed by a field name (e.g., $**.fieldName)".to_string()));
    }
    if starts_with_exec(key, "$**.") {
        proof {
            reveal_strlit("$**.");
        }
        let n = key.unicode_len();
        let name = key.substring_char(4, n);
        proof {
            assert(name@ =~= key@.skip(4));
        }
        match dot_position(name) {
            Some(j) => {
                let head = name.substring_char(0, j);
                let mut msg = concat2("$** wildcard does not support nested paths. Use $**.", head);
                msg.append(" instead of $**.");
                msg.append(name);
                proof {
                    assert(head@ =~= name@.take(first_dot(name@)));
                }
                return Err(IronBaseError::InvalidQuery(msg));
            },
            None => {
                let vals = match doc.lookup(key) {
                    Some(f) => &f.values,
                    None => &empty,
                };
                proof {
                    assert(empty@ =~= Seq::<JsonValue>::empty());
                }
                return field_cond_exec(doc, vals, None, v, ext);
            },
        }
    }
    if is_operator_name_exec(key) && !wild {
        let registry = OperatorRegistry::new();
        return match registry.get(key) {
            None => Err(IronBaseError::InvalidQuery(concat2("Unknown operator: ", key))),
            Some(k) => op_exec(Some(doc), k, None, v, ext),
        };
    }
    let (vals, single) = match doc.lookup(key) {
        Some(f) => (
            &f.values,
            match &f.value {
                Some(x) => Some(x),
                None => None,
            },
        ),
        None => (&empty, None),
    };
    proof {
        assert(empty@ =~= Seq::<JsonValue>::empty());
    }
    field_cond_exec(doc, vals, single, v, ext)
}

fn field_cond_exec<X: FloatOperators>(doc: &DocumentFields, vals: &Vec<JsonValue>, single: Option<&JsonValue>, v: &JsonValue, ext: &X) -> (res: Result<
    bool,
    IronBaseError,
>)
    ensures
        !uses_float_ops(*v) ==> outcome_is(res, field_cond(*doc, vals@, opt_ref(single), *v)),
    decreases v, 9int, 0int,
{
    match v {
        JsonValue::Object(cs) => {
            let has_regex = member_exec(cs, "$regex").is_some();
            let has_options = member_exec(cs, "$options").is_some();
            let skip = has_regex && has_options;
            if skip {
                match field_regex_exec(vals, single, cs) {
                    Ok(true) => {},
                    r => {
                        return r;
                    },
                }
            }
            let mut i: usize = 0;
            while i < cs.len()
                invariant
                    *v == JsonValue::Object(*cs),
                    i <= cs@.len(),
                    skip == (has_member(cs@, "$regex"@) && has_member(cs@, "$options"@)),
                    !uses_float_ops(*v) ==> field_cond(*doc, vals@, opt_ref(single), *v) == field_ops_from(*doc, vals@, opt_ref(single), *v, i as int, skip),
                decreases cs@.len() - i,
            {
                proof {
                    assert(decreases_to!(*v => v->Object_0));
                    assert(decreases_to!(*cs => cs@));
                    assert(decreases_to!(cs@ => cs@[i as int]));
                    assert(decreases_to!(cs@[i as int] => cs@[i as int].1));
                    if !uses_float_ops(*v) {
                        lemma_members_no_float(cs@, i as int);
                    }
                }
                let name = cs[i].0.as_str();
                let passed = (skip && (str_eq(name, "$regex") || str_eq(name, "$options"))) || !is_operator_name_exec(name);
                if !passed {
                    let registry = OperatorRegistry::new();
                    match registry.get(name) {
                        None => {
                            return Err(IronBaseError::InvalidQuery(concat2("Unknown operator: ", name)));
                        },
                        Some(k) => {
                            let r = check_match_exec(Some(doc), k, vals, single, &cs[i].1, ext);
                            match r {
                                Ok(true) => {},
                                _ => {
                                    return r;
                                },
                            }
                        },
                    }
                }
                i = i + 1;
            }
            Ok(true)
        },
        _ => check_match_exec(Some(doc), OperatorKind::Eq, vals, single, v, ext),
    }
}

fn check_match_exec<X: FloatOperators>(
    ctx: Option<&DocumentFields>,
    k: OperatorKind,
    vals: &Vec<JsonValue>,
    single: Option<&JsonValue>,
    arg: &JsonValue,
    ext: &X,
) -> (res: Result<bool, IronBaseError>)
    ensures
        !computes_floats(k, *arg) && !uses_float_ops(*arg) ==> outcome_is(res, check_match(opt_doc(ctx), k, vals@, opt_ref(single), *arg)),
    decreases arg, 8int, 0int,
{
    if vals.len() == 0 {
        return op_exec(ctx, k, single, arg, ext);
    }
    let mut i: usize = 0;
    while i < vals.len()
        invariant
            i <= vals@.len(),
            vals@.len() > 0,
            !computes_floats(k, *arg) && !uses_float_ops(*arg) ==> check_match(opt_doc(ctx), k, vals@, opt_ref(single), *arg) == any_from(opt_doc(ctx), k, vals@, *arg, i as int),
        decreases vals@.len() - i,
    {
        let r = op_exec(ctx, k, Some(&vals[i]), arg, ext);
        match r {
            Ok(false) => {},
            _ => {
                return r;
            },
        }
        i = i + 1;
    }
    Ok(false)
}

fn op_exec<X: FloatOperators>(ctx: Option<&DocumentFields>, k: OperatorKind, dv: Option<&JsonValue>, arg: &JsonValue, ext: &X) -> (res: Result<
    bool,
    IronBaseError,
>)
    ensures
        !computes_floats(k, *arg) && !uses_float_ops(*arg) ==> outcome_is(res, op_outcome(opt_doc(ctx), k, opt_ref(dv), *arg)),
    decreases arg, 6int, 0int,
{
    match k {
        OperatorKind::And | OperatorKind::Or | OperatorKind::Nor => match ctx {
            None => Err(IronBaseError::InvalidQuery(concat2(kind_name_exec(k), " operator requires document context"))),
            Some(d) => match arg {
                JsonValue::Array(items) => {
                    let mut i: usize = 0;
                    while i < items.len()
                        invariant
                            *arg == JsonValue::Array(*items),
                            k is And || k is Or || k is Nor,
                            i <= items@.len(),
                            !uses_float_ops(*arg) ==> op_outcome(opt_doc(ctx), k, opt_ref(dv), *arg) == logical_from(*d, k, *arg, i as int),
                            ctx == Some(d),
                        decreases items@.len() - i,
                    {
                        proof {
                            assert(decreases_to!(*arg => arg->Array_0));
                            assert(decreases_to!(*items => items@));
                            assert(decreases_to!(items@ => items@[i as int]));
                            if !uses_float_ops(*arg) {
                                lemma_items_no_float(items@, i as int);
                            }
                        }
                        match matches_filter_with(d, &items[i], ext) {
                            Err(e) => {
                                return Err(e);
                            },
                            Ok(b) => {
                                if matches!(k, OperatorKind::And) && !b {
                                    return Ok(false);
                                }
                                if matches!(k, OperatorKind::Or) && b {
                                    return Ok(true);
                                }
                                if matches!(k, OperatorKind::Nor) && b {
                                    return Ok(false);
                                }
                            },
                        }
                        i = i + 1;
                    }
                    Ok(!matches!(k, OperatorKind::Or))
                },
                _ => Err(IronBaseError::InvalidQuery(concat2(kind_name_exec(k), " operator requires an array"))),
            },
        },
        OperatorKind::Not => match ctx {
            None => Err(IronBaseError::InvalidQuery("$not operator requires document context".to_string())),
            Some(_) => match matches_filter_value_with(dv, arg, ctx, ext) {
                Ok(b) => Ok(!b),
                Err(e) => Err(e),
            },
        },
        OperatorKind::ElemMatch => elem_exec(dv, arg, ext),
        OperatorKind::Fuzzy => ext.fuzzy(dv, arg),
        OperatorKind::Expr => match ctx {
            None => Err(IronBaseError::InvalidQuery("$expr operator requires document context".to_string())),
            Some(d) => evaluate_expr(arg, d, ext),
        },
        _ => basic_exec(k, dv, arg),
    }
}

/// A filter value applied to one value: an object whose operators must all
/// hold of it, or a value it must equal; `$fuzzy` and `$expr` go to `ext`.
pub fn matches_filter_value_with<X: FloatOperators>(dv: Option<&JsonValue>, f: &JsonValue, ctx: Option<&DocumentFields>, ext: &X) -> (res: Result<bool, IronBaseError>)
    ensures
        !uses_float_ops(*f) ==> outcome_is(res, value_filter(opt_doc(ctx), opt_ref(dv), *f)),
    decreases f, 5int, 0int,
{
    match f {
        JsonValue::Object(ms) => {
            let has_regex = member_exec(ms, "$regex").is_some();
            let has_options = member_exec(ms, "$options").is_some();
            if has_options && !has_regex {
                return Err(IronBaseError::InvalidQuery("$options requires $regex".to_string()));
            }
            if has_regex {
                match value_regex_exec(dv, ms) {
                    Ok(true) => {},
                    r => {
                        return r;
                    },
                }
            }
            let mut i: usize = 0;
            while i < ms.len()
                invariant
                    *f == JsonValue::Object(*ms),
                    i <= ms@.len(),
                    has_regex == has_member(ms@, "$regex"@),
                    !uses_float_ops(*f) ==> value_filter(opt_doc(ctx), opt_ref(dv), *f) == value_ops_from(opt_doc(ctx), opt_ref(dv), *f, i as int, has_regex),
                decreases ms@.len() - i,
            {
                proof {
                    assert(decreases_to!(*f => f->Object_0));
                    assert(decreases_to!(*ms => ms@));
                    assert(decreases_to!(ms@ => ms@[i as int]));
                    assert(decreases_to!(ms@[i as int] => ms@[i as int].1));
                    if !uses_float_ops(*f) {
                        lemma_members_no_float(ms@, i as int);
                    }
                }
                let name = ms[i].0.as_str();
                if has_regex && (str_eq(name, "$regex") || str_eq(name, "$options")) {
                    i = i + 1;
                    continue;
                }
                if !is_operator_name_exec(name) {
                    return Err(IronBaseError::InvalidQuery("Unexpected field in filter value".to_string()));
                }
                let registry = OperatorRegistry::new();
                match registry.get(name) {
                    None => {
                        return Err(IronBaseError::InvalidQuery(concat2("Unknown operator: ", name)));
                    },
                    Some(k) => {
                        let r = op_exec(ctx, k, dv, &ms[i].1, ext);
                        match r {
                            Ok(true) => {},
                            _ => {
                                return r;
                            },
                        }
                    },
                }
                i = i + 1;
            }
            Ok(true)
        },
        _ => match dv {
            None => Ok(false),
            Some(x) => Ok(json_eq(x, f)),
        },
    }
}

fn has_field_condition_exec(cs: &Vec<(String, JsonValue)>) -> (r: bool)
    ensures
        r == has_field_condition(cs@),
{
    let mut i: usize = 0;
    while i < cs.len()
        invariant
            i <= cs@.len(),
            forall|j: int| 0 <= j < i ==> is_operator_name(#[trigger] cs@[j].0@),
        decreases cs@.len() - i,
    {
        if !is_operator_name_exec(cs[i].0.as_str()) {
            return true;
        }
        i = i + 1;
    }
    false
}

fn elem_exec<X: FloatOperators>(dv: Option<&JsonValue>, arg: &JsonValue, ext: &X) -> (res: Result<bool, IronBaseError>)
    ensures
        !uses_float_ops(*arg) ==> outcome_is(res, elem_match(opt_ref(dv), *arg)),
    decreases arg, 5int, 0int,
{
    let cs = match arg {
        JsonValue::Object(cs) => cs,
        _ => {
            return Err(IronBaseError::InvalidQuery("$elemMatch requires an object with query conditions".to_string()));
        },
    };
    let items = match dv {
        Some(JsonValue::Array(items)) => items,
        _ => {
            return Ok(false);
        },
    };
    let field_conds = has_field_condition_exec(cs);
    let mut i: usize = 0;
    while i < items.len()
        invariant
            *arg == JsonValue::Object(*cs),
            field_conds == has_field_condition(cs@),
            i <= items@.len(),
            !uses_float_ops(*arg) ==> elem_match(opt_ref(dv), *arg) == elem_items_from(items@, *arg, i as int),
        decreases items@.len() - i,
    {
        let e = &items[i];
        let r = match e {
            JsonValue::Object(om) => elem_conds_exec(om, e, arg, cs, ext),
            _ => {
                if field_conds {
                    Ok(false)
                } else {
                    ops_exec(arg, Some(e), ext)
                }
            },
        };
        match r {
            Ok(false) => {},
            _ => {
                return r;
            },
        }
        i = i + 1;
    }
    Ok(false)
}

fn elem_conds_exec<X: FloatOperators>(om: &Vec<(String, JsonValue)>, e: &JsonValue, arg: &JsonValue, cs: &Vec<(String, JsonValue)>, ext: &X) -> (res: Result<
    bool,
    IronBaseError,
>)
    requires
        *arg == JsonValue::Object(*cs),
        *e == JsonValue::Object(*om),
    ensures
        !uses_float_ops(*arg) ==> outcome_is(res, elem_conds_from(om@, *e, *arg, 0)),
    decreases arg, 3int, 0int,
{
    let mut j: usize = 0;
    while j < cs.len()
        invariant
            *arg == JsonValue::Object(*cs),
            *e == JsonValue::Object(*om),
            j <= cs@.len(),
            !uses_float_ops(*arg) ==> elem_conds_from(om@, *e, *arg, 0) == elem_conds_from(om@, *e, *arg, j as int),
        decreases cs@.len() - j,
    {
        proof {
            assert(decreases_to!(*arg => arg->Object_0));
            assert(decreases_to!(*cs => cs@));
            assert(decreases_to!(cs@ => cs@[j as int]));
            assert(decreases_to!(cs@[j as int] => cs@[j as int].1));
            if !uses_float_ops(*arg) {
                lemma_members_no_float(cs@, j as int);
            }
        }
        let key = cs[j].0.as_str();
        let val = &cs[j].1;
        let step: Result<bool, IronBaseError> = if is_operator_name_exec(key) {
            let registry = OperatorRegistry::new();
            match registry.get(key) {
                None => Err(IronBaseError::InvalidQuery(concat2("Unknown operator: ", key))),
                Some(k) => op_exec(None, k, Some(e), val, ext),
            }
        } else {
            let fv = member_exec(om, key);
            match val {
                JsonValue::Object(_) => ops_exec(val, fv, ext),
                _ => match fv {
                    Some(x) => Ok(json_eq(x, val)),
                    None => Ok(false),
                },
            }
        };
        match step {
            Ok(true) => {},
            _ => {
                return step;
            },
        }
        j = j + 1;
    }
    Ok(true)
}

fn ops_exec<X: FloatOperators>(obj: &JsonValue, value: Option<&JsonValue>, ext: &X) -> (res: Result<bool, IronBaseError>)
    ensures
        !uses_float_ops(*obj) ==> outcome_is(res, ops_outcome(*obj, opt_ref(value))),
    decreases obj, 3int, 0int,
{
    match obj {
        JsonValue::Object(cs) => {
            let has_regex = member_exec(cs, "$regex").is_some();
            let has_options = member_exec(cs, "$options").is_some();
            let skip = has_regex && has_options;
            if skip {
                match value_regex_exec(value, cs) {
                    Ok(true) => {},
                    r => {
                        return r;
                    },
                }
            } else if has_options {
                return Err(IronBaseError::InvalidQuery("$options requires $regex".to_string()));
            }
            let mut i: usize = 0;
            while i < cs.len()
                invariant
                    *obj == JsonValue::Object(*cs),
                    i <= cs@.len(),
                    skip == (has_member(cs@, "$regex"@) && has_member(cs@, "$options"@)),
                    !uses_float_ops(*obj) ==> ops_outcome(*obj, opt_ref(value)) == ops_from(*obj, opt_ref(value), i as int, skip),
                decreases cs@.len() - i,
            {
                proof {
                    assert(decreases_to!(*obj => obj->Object_0));
                    assert(decreases_to!(*cs => cs@));
                    assert(decreases_to!(cs@ => cs@[i as int]));
                    assert(decreases_to!(cs@[i as int] => cs@[i as int].1));
                    if !uses_float_ops(*obj) {
                        lemma_members_no_float(cs@, i as int);
                    }
                }
                let name = cs[i].0.as_str();
                let passed = (skip && (str_eq(name, "$regex") || str_eq(name, "$options"))) || !is_operator_name_exec(name);
                if !passed {
                    let registry = OperatorRegistry::new();
                    match registry.get(name) {
                        None => {
                            return Err(IronBaseError::InvalidQuery(concat2("Unknown operator: ", name)));
                        },
                        Some(k) => {
                            let r = op_exec(None, k, value, &cs[i].1, ext);
                            match r {
                                Ok(true) => {},
                                _ => {
                                    return r;
                                },
                            }
                        },
                    }
                }
                i = i + 1;
            }
            Ok(true)
        },
        _ => Ok(true),
    }
}


impl OperatorMatcher for GtOperator {
    fn name(&self) -> (s: &'static str)
        ensures
            s@ == "$gt"@,
    {
        "$gt"
    }

    fn matches(&self, doc_value: Option<&JsonValue>, filter_value: &JsonValue) -> (res: Result<bool, IronBaseError>)
        ensures
            outcome_is(res, compare_outcome(OperatorKind::Gt, opt_ref(doc_value), *filter_value)),
    {
        Ok(compare_exec(OperatorKind::Gt, doc_value, filter_value))
    }
}

impl OperatorMatcher for GteOperator {
    fn name(&self) -> (s: &'static str)
        ensures
            s@ == "$gte"@,
    {
        "$gte"
    }

    fn matches(&self, doc_value: Option<&JsonValue>, filter_value: &JsonValue) -> (res: Result<bool, IronBaseError>)
        ensures
            outcome_is(res, compare_outcome(OperatorKind::Gte, opt_ref(doc_value), *filter_value)),
    {
        Ok(compare_exec(OperatorKind::Gte, doc_value, filter_value))
    }
}

impl OperatorMatcher for LtOperator {
    fn name(&self) -> (s: &'static str)
        ensures
            s@ == "$lt"@,
    {
        "$lt"
    }

    fn matches(&self, doc_value: Option<&JsonValue>, filter_value: &JsonValue) -> (res: Result<bool, IronBaseError>)
        ensures
            outcome_is(res, compare_outcome(OperatorKind::Lt, opt_ref(doc_value), *filter_value)),
    {
        Ok(compare_exec(OperatorKind::Lt, doc_value, filter_value))
    }
}

impl OperatorMatcher for LteOperator {
    fn name(&self) -> (s: &'static str)
        ensures
            s@ == "$lte"@,
    {
        "$lte"
    }

    fn matches(&self, doc_value: Option<&JsonValue>, filter_value: &JsonValue) -> (res: Result<bool, IronBaseError>)
        ensures
            outcome_is(res, compare_outcome(OperatorKind::Lte, opt_ref(doc_value), *filter_value)),
    {
        Ok(compare_exec(OperatorKind::Lte, doc_value, filter_value))
    }
}

impl OperatorMatcher for ElemMatchOperator {
    fn name(&self) -> (s: &'static str)
        ensures
            s@ == "$elemMatch"@,
    {
        "$elemMatch"
    }

    fn matches(&self, doc_value: Option<&JsonValue>, filter_value: &JsonValue) -> (res: Result<bool, IronBaseError>)
        ensures
            !uses_float_ops(*filter_value) ==> outcome_is(res, elem_match(opt_ref(doc_value), *filter_value)),
    {
        elem_exec(doc_value, filter_value, &NoFloatOperators)
    }
}

impl AndOperator {
    pub fn name(&self) -> (s: &'static str)
        ensures
            s@ == "$and"@,
    {
        "$and"
    }

    /// The operator applied with the document it evaluates against.
    pub fn matches(&self, doc_value: Option<&JsonValue>, filter_value: &JsonValue, document: Option<&DocumentFields>) -> (res:
        Result<bool, IronBaseError>)
        ensures
            !uses_float_ops(*filter_value) ==> outcome_is(res, op_outcome(opt_doc(document), OperatorKind::And, opt_ref(doc_value), *filter_value)),
    {
        op_exec(document, OperatorKind::And, doc_value, filter_value, &NoFloatOperators)
    }
}

impl OrOperator {
    pub fn name(&self) -> (s: &'static str)
        ensures
            s@ == "$or"@,
    {
        "$or"
    }

    /// The operator applied with the document it evaluates against.
    pub fn matches(&self, doc_value: Option<&JsonValue>, filter_value: &JsonValue, document: Option<&DocumentFields>) -> (res:
        Result<bool, IronBaseError>)
        ensures
            !uses_float_ops(*filter_value) ==> outcome_is(res, op_outcome(opt_doc(document), OperatorKind::Or, opt_ref(doc_value), *filter_value)),
    {
        op_exec(document, OperatorKind::Or, doc_value, filter_value, &NoFloatOperators)
    }
}

impl NorOperator {
    pub fn name(&self) -> (s: &'static str)
        ensures
            s@ == "$nor"@,
    {
        "$nor"
    }

    /// The operator applied with the document it evaluates against.
    pub fn matches(&self, doc_value: Option<&JsonValue>, filter_value: &JsonValue, document: Option<&DocumentFields>) -> (res:
        Result<bool, IronBaseError>)
        ensures
            !uses_float_ops(*filter_value) ==> outcome_is(res, op_outcome(opt_doc(document), OperatorKind::Nor, opt_ref(doc_value), *filter_value)),
    {
        op_exec(document, OperatorKind::Nor, doc_value, filter_value, &NoFloatOperators)
    }
}

impl NotOperator {
    pub fn name(&self) -> (s: &'static str)
        ensures
            s@ == "$not"@,
    {
        "$not"
    }

    /// The operator applied with the document it evaluates against.
    pub fn matches(&self, doc_value: Option<&JsonValue>, filter_value: &JsonValue, document: Option<&DocumentFields>) -> (res:
        Result<bool, IronBaseError>)
        ensures
            !uses_float_ops(*filter_value) ==> outcome_is(res, op_outcome(opt_doc(document), OperatorKind::Not, opt_ref(doc_value), *filter_value)),
    {
        op_exec(document, OperatorKind::Not, doc_value, filter_value, &NoFloatOperators)
    }
}

} // verus!

verus! {

/// An empty filter matches every document.
pub proof fn lemma_empty_filter_matches(d: DocumentFields, f: JsonValue)
    requires
        f is Object,
        obj_members(f).len() == 0,
    ensures
        filter_outcome(d, f) == Ok::<bool, Seq<char>>(true),
{
}

/// Over the same sub-filters, `$nor` gives the negation of what `$or` gives,
/// and both give the same error.
pub proof fn lemma_nor_negates_or(d: DocumentFields, arg: JsonValue, i: int)
    requires
        arg is Array,
    ensures
        match logical_from(d, OperatorKind::Or, arg, i) {
            Ok(b) => logical_from(d, OperatorKind::Nor, arg, i) == Ok::<bool, Seq<char>>(!b),
            Err(m) => logical_from(d, OperatorKind::Nor, arg, i) == Err::<bool, Seq<char>>(m),
        },
    decreases arr_items(arg).len() - i,
{
    if 0 <= i < arr_items(arg).len() {
        lemma_nor_negates_or(d, arg, i + 1);
    }
}

/// A filter object of one condition `{key: v}` on a field path says what
/// that condition says.
pub proof fn lemma_single_condition(d: DocumentFields, f: JsonValue)
    requires
        f is Object,
        obj_members(f).len() == 1,
    ensures
        filter_outcome(d, f) == cond_outcome(d, obj_members(f)[0].0@, obj_members(f)[0].1),
{
    let r = cond_outcome(d, obj_members(f)[0].0@, obj_members(f)[0].1);
    assert(conds_from(d, f, 1) == Ok::<bool, Seq<char>>(true));
    match r {
        Ok(true) => {},
        _ => {},
    }
}


/// Where no condition of `f` from the `i`-th on is malformed, they hold
/// together exactly when each holds.
proof fn lemma_conds_conjunction(d: DocumentFields, f: JsonValue, i: int)
    requires
        f is Object,
        0 <= i <= obj_members(f).len(),
        forall|j: int| i <= j < obj_members(f).len() ==> cond_outcome(d, #[trigger] obj_members(f)[j].0@, obj_members(f)[j].1) is Ok,
    ensures
        conds_from(d, f, i) == Ok::<bool, Seq<char>>(
            forall|j: int| i <= j < obj_members(f).len() ==> cond_outcome(d, #[trigger] obj_members(f)[j].0@, obj_members(f)[j].1)
                == Ok::<bool, Seq<char>>(true),
        ),
    decreases obj_members(f).len() - i,
{
    if i < obj_members(f).len() {
        lemma_conds_conjunction(d, f, i + 1);
        let r = cond_outcome(d, obj_members(f)[i].0@, obj_members(f)[i].1);
        match r {
            Ok(true) => {},
            _ => {},
        }
    }
}

/// A filter is the conjunction of its conditions: where `parts` are the
/// one-condition filters `{key: v}` of `f`, in order, and none of them is
/// malformed, `f` matches a document exactly when every part does.
pub proof fn lemma_filter_is_conjunction(d: DocumentFields, f: JsonValue, parts: Seq<JsonValue>)
    requires
        f is Object,
        parts.len() == obj_members(f).len(),
        forall|i: int| 0 <= i < parts.len() ==> (#[trigger] parts[i]) is Object && obj_members(parts[i]) == seq![obj_members(f)[i]],
        forall|i: int| 0 <= i < parts.len() ==> filter_outcome(d, #[trigger] parts[i]) is Ok,
    ensures
        filter_outcome(d, f) == Ok::<bool, Seq<char>>(
            forall|i: int| 0 <= i < parts.len() ==> filter_outcome(d, #[trigger] parts[i]) == Ok::<bool, Seq<char>>(true),
        ),
{
    let n = parts.len();
    let c = |j: int| cond_outcome(d, obj_members(f)[j].0@, obj_members(f)[j].1);
    assert forall|i: int| 0 <= i < n implies filter_outcome(d, #[trigger] parts[i]) == c(i) by {
        lemma_single_condition(d, parts[i]);
    }
    assert forall|j: int| 0 <= j < obj_members(f).len() implies cond_outcome(d, #[trigger] obj_members(f)[j].0@, obj_members(f)[j].1) is Ok by {
        assert(filter_outcome(d, parts[j]) == c(j));
    }
    lemma_conds_conjunction(d, f, 0);
    if forall|i: int| 0 <= i < n ==> filter_outcome(d, #[trigger] parts[i]) == Ok::<bool, Seq<char>>(true) {
        assert forall|j: int| 0 <= j < obj_members(f).len() implies cond_outcome(d, #[trigger] obj_members(f)[j].0@, obj_members(f)[j].1)
            == Ok::<bool, Seq<char>>(true) by {
            assert(filter_outcome(d, parts[j]) == c(j));
        }
    } else {
        let i = choose|i: int| !(0 <= i < n ==> filter_outcome(d, #[trigger] parts[i]) == Ok::<bool, Seq<char>>(true));
        assert(filter_outcome(d, parts[i]) == c(i));
    }
}

} // verus!
