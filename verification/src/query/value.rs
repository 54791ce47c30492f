//! JSON values as query operators read them.
use vstd::prelude::*;
use crate::text::str_eq;

verus! {

/// A JSON number as it was parsed: a non-negative integer, a negative
/// integer, or a finite float, held by its IEEE-754 bits (negative zero
/// written as zero) with the text it prints as.
#[derive(Debug)]
pub enum JsonNumber {
    PosInt(u64),
    NegInt(i64),
    Float(u64, String),
}

/// Mathematical form of a [`JsonNumber`]: a float is its bits.
pub enum NumView {
    PosInt(u64),
    NegInt(i64),
    Float(u64),
}

impl View for JsonNumber {
    type V = NumView;

    open spec fn view(&self) -> NumView {
        match self {
            JsonNumber::PosInt(u) => NumView::PosInt(*u),
            JsonNumber::NegInt(i) => NumView::NegInt(*i),
            JsonNumber::Float(b, _) => NumView::Float(*b),
        }
    }
}

/// Whether two numbers are equal.
pub fn num_eq(a: &JsonNumber, b: &JsonNumber) -> (r: bool)
    ensures
        r == (a@ == b@),
{
    match (a, b) {
        (JsonNumber::PosInt(x), JsonNumber::PosInt(y)) => *x == *y,
        (JsonNumber::NegInt(x), JsonNumber::NegInt(y)) => *x == *y,
        (JsonNumber::Float(x, _), JsonNumber::Float(y, _)) => *x == *y,
        _ => false,
    }
}

/// A JSON value. Object members are kept sorted by key, each key once.
#[derive(Debug)]
pub enum JsonValue {
    Null,
    Bool(bool),
    Number(JsonNumber),
    String(String),
    Array(Vec<JsonValue>),
    Object(Vec<(String, JsonValue)>),
}

/// Mathematical form of a [`JsonValue`].
pub enum JsonView {
    Null,
    Bool(bool),
    Number(NumView),
    Str(Seq<char>),
    Arr(Seq<JsonView>),
    Obj(Seq<(Seq<char>, JsonView)>),
}

impl JsonValue {
    pub open spec fn view_json(self) -> JsonView
        decreases self,
    {
        match self {
            JsonValue::Null => JsonView::Null,
            JsonValue::Bool(b) => JsonView::Bool(b),
            JsonValue::Number(n) => JsonView::Number(n@),
            JsonValue::String(s) => JsonView::Str(s@),
            JsonValue::Array(items) => JsonView::Arr(values_view(items@)),
            JsonValue::Object(members) => JsonView::Obj(members_view(members@)),
        }
    }
}

impl View for JsonValue {
    type V = JsonView;

    open spec fn view(&self) -> JsonView {
        self.view_json()
    }
}

/// Views of a sequence of values.
pub open spec fn values_view(s: Seq<JsonValue>) -> Seq<JsonView>
    decreases s,
{
    if s.len() == 0 {
        Seq::empty()
    } else {
        values_view(s.drop_last()).push(s.last().view_json())
    }
}

/// Views of a sequence of object members.
pub open spec fn members_view(s: Seq<(String, JsonValue)>) -> Seq<(Seq<char>, JsonView)>
    decreases s,
{
    if s.len() == 0 {
        Seq::empty()
    } else {
        members_view(s.drop_last()).push((s.last().0@, s.last().1.view_json()))
    }
}

pub proof fn lemma_values_view(s: Seq<JsonValue>)
    ensures
        values_view(s).len() == s.len(),
        forall|i: int| 0 <= i < s.len() ==> #[trigger] values_view(s)[i] == s[i].view_json(),
    decreases s.len(),
{
    if s.len() > 0 {
        lemma_values_view(s.drop_last());
        assert forall|i: int| 0 <= i < s.len() implies #[trigger] values_view(s)[i] == s[i].view_json() by {
            if i < s.len() - 1 {
                assert(s.drop_last()[i] == s[i]);
            }
        }
    }
}

pub proof fn lemma_members_view(s: Seq<(String, JsonValue)>)
    ensures
        members_view(s).len() == s.len(),
        forall|i: int| 0 <= i < s.len() ==> #[trigger] members_view(s)[i] == (s[i].0@, s[i].1.view_json()),
    decreases s.len(),
{
    if s.len() > 0 {
        lemma_members_view(s.drop_last());
        assert forall|i: int| 0 <= i < s.len() implies #[trigger] members_view(s)[i] == (s[i].0@, s[i].1.view_json()) by {
            if i < s.len() - 1 {
                assert(s.drop_last()[i] == s[i]);
            }
        }
    }
}

/// Whether two values are equal.
pub fn json_eq(a: &JsonValue, b: &JsonValue) -> (r: bool)
    ensures
        r == (a@ == b@),
    decreases a,
{
    match (a, b) {
        (JsonValue::Null, JsonValue::Null) => true,
        (JsonValue::Bool(x), JsonValue::Bool(y)) => *x == *y,
        (JsonValue::Number(x), JsonValue::Number(y)) => num_eq(x, y),
        (JsonValue::String(x), JsonValue::String(y)) => str_eq(x.as_str(), y.as_str()),
        (JsonValue::Array(x), JsonValue::Array(y)) => {
            proof {
                lemma_values_view(x@);
                lemma_values_view(y@);
            }
            if x.len() != y.len() {
                return false;
            }
            let mut i: usize = 0;
            while i < x.len()
                invariant
                    *a == JsonValue::Array(*x),
                    *b == JsonValue::Array(*y),
                    x@.len() == y@.len(),
                    i <= x@.len(),
                    values_view(x@).len() == x@.len(),
                    values_view(y@).len() == y@.len(),
                    forall|j: int| 0 <= j < x@.len() ==> #[trigger] values_view(x@)[j] == x@[j].view_json(),
                    forall|j: int| 0 <= j < y@.len() ==> #[trigger] values_view(y@)[j] == y@[j].view_json(),
                    forall|j: int| 0 <= j < i ==> x@[j].view_json() == y@[j].view_json(),
                decreases x@.len() - i,
            {
                proof {
                    assert(decreases_to!(*a => a->Array_0));
                    assert(decreases_to!(*x => x@));
                    assert(decreases_to!(x@ => x@[i as int]));
                }
                if !json_eq(&x[i], &y[i]) {
                    proof {
                        assert(values_view(x@)[i as int] != values_view(y@)[i as int]);
                    }
                    return false;
                }
                i = i + 1;
            }
            proof {
                assert(values_view(x@) =~= values_view(y@));
            }
            true
        },
        (JsonValue::Object(x), JsonValue::Object(y)) => {
            proof {
                lemma_members_view(x@);
                lemma_members_view(y@);
            }
            if x.len() != y.len() {
                return false;
            }
            let mut i: usize = 0;
            while i < x.len()
                invariant
                    *a == JsonValue::Object(*x),
                    *b == JsonValue::Object(*y),
                    x@.len() == y@.len(),
                    i <= x@.len(),
                    members_view(x@).len() == x@.len(),
                    members_view(y@).len() == y@.len(),
                    forall|j: int| 0 <= j < x@.len() ==> #[trigger] members_view(x@)[j] == (x@[j].0@, x@[j].1.view_json()),
                    forall|j: int| 0 <= j < y@.len() ==> #[trigger] members_view(y@)[j] == (y@[j].0@, y@[j].1.view_json()),
                    forall|j: int| 0 <= j < i ==> members_view(x@)[j] == members_view(y@)[j],
                decreases x@.len() - i,
            {
                proof {
                    assert(decreases_to!(*a => a->Object_0));
                    assert(decreases_to!(*x => x@));
                    assert(decreases_to!(x@ => x@[i as int]));
                    assert(decreases_to!(x@[i as int] => x@[i as int].1));
                }
                if !str_eq(x[i].0.as_str(), y[i].0.as_str()) || !json_eq(&x[i].1, &y[i].1) {
                    proof {
                        assert(members_view(x@)[i as int] != members_view(y@)[i as int]);
                    }
                    return false;
                }
                proof {
                    assert(members_view(x@)[i as int] == members_view(y@)[i as int]);
                }
                i = i + 1;
            }
            proof {
                assert(members_view(x@) =~= members_view(y@));
            }
            true
        },
        _ => false,
    }
}

/// Whether `v` is among `items`.
pub fn json_contains(items: &Vec<JsonValue>, v: &JsonValue) -> (r: bool)
    ensures
        r == values_view(items@).contains(v@),
{
    proof {
        lemma_values_view(items@);
    }
    let mut i: usize = 0;
    while i < items.len()
        invariant
            i <= items@.len(),
            values_view(items@).len() == items@.len(),
            forall|j: int| 0 <= j < items@.len() ==> #[trigger] values_view(items@)[j] == items@[j].view_json(),
            forall|j: int| 0 <= j < i ==> values_view(items@)[j] != v@,
        decreases items@.len() - i,
    {
        if json_eq(&items[i], v) {
            assert(values_view(items@)[i as int] == v@);
            return true;
        }
        i = i + 1;
    }
    false
}

} // verus!
