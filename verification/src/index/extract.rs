//! What an index reads of a document, and the keys it derives from it.
use vstd::prelude::*;
use crate::index::btree::{key_views, BPlusTree, IndexMetadata};
use crate::index::key::{key_order, keys_view, lemma_keys_view, IndexKey, KeyView, OrderedFloat};
use crate::query::value::{lemma_values_view, values_view, JsonNumber, JsonValue, JsonView, NumView};
use crate::text::{lowercase, str_eq, to_lower};

verus! {

/// What the indexes read of a document at one dotted path.
#[derive(Debug)]
pub struct FieldValues {
    pub path: String,
    /// Every value the path reaches, the elements of arrays on the way included.
    pub values: Vec<JsonValue>,
    /// The path passes through an array.
    pub crosses_array: bool,
    /// The value the path leads to, if it leads to one.
    pub value: Option<JsonValue>,
}

/// What the indexes read of a document: the values at each path they
/// cover. A path that is not listed reaches nothing.
#[derive(Debug)]
pub struct DocumentFields {
    pub fields: Vec<FieldValues>,
}

/// The first listed field with path `p`.
pub open spec fn first_field(fs: Seq<FieldValues>, p: Seq<char>) -> Option<FieldValues>
    decreases fs.len(),
{
    if fs.len() == 0 {
        None
    } else if fs[0].path@ == p {
        Some(fs[0])
    } else {
        first_field(fs.drop_first(), p)
    }
}

impl DocumentFields {
    /// What is listed for path `p`.
    pub open spec fn field(&self, p: Seq<char>) -> Option<FieldValues> {
        first_field(self.fields@, p)
    }

    /// The values path `p` reaches.
    pub open spec fn values_at(&self, p: Seq<char>) -> Seq<JsonView> {
        match self.field(p) {
            Some(f) => values_view(f.values@),
            None => Seq::empty(),
        }
    }

    /// Whether path `p` passes through an array.
    pub open spec fn crosses_array(&self, p: Seq<char>) -> bool {
        match self.field(p) {
            Some(f) => f.crosses_array,
            None => false,
        }
    }

    /// The value path `p` leads to.
    pub open spec fn value_at(&self, p: Seq<char>) -> Option<JsonView> {
        match self.field(p) {
            Some(f) => match f.value {
                Some(v) => Some(v@),
                None => None,
            },
            None => None,
        }
    }

    /// What is listed for a path.
    pub fn lookup(&self, path: &str) -> (r: Option<&FieldValues>)
        ensures
            match r {
                Some(f) => self.field(path@) == Some(*f),
                None => self.field(path@) is None,
            },
    {
        let n = self.fields.len();
        let mut i: usize = 0;
        assert(self.fields@.subrange(0, n as int) =~= self.fields@);
        while i < n
            invariant
                n == self.fields@.len(),
                i <= n,
                self.field(path@) == first_field(self.fields@.subrange(i as int, n as int), path@),
            decreases n - i,
        {
            assert(self.fields@.subrange(i as int, n as int).drop_first() =~= self.fields@.subrange(i + 1, n as int));
            if str_eq(self.fields[i].path.as_str(), path) {
                return Some(&self.fields[i]);
            }
            i = i + 1;
        }
        None
    }
}

/// Order rank of a float held by its IEEE-754 bits (see [`OrderedFloat`]):
/// negative numbers have their bits inverted, the others get the sign bit set.
pub open spec fn float_rank(bits: u64) -> u64 {
    if bits >> 63u64 == 1 {
        !bits
    } else {
        bits | 0x8000_0000_0000_0000u64
    }
}

/// IEEE-754 bits of the `f64` nearest to an integer `u` of at least 2^63
/// (ties to even): a 53-bit significand with exponent 63, or 2^64 when
/// rounding carries out of it.
pub open spec fn u64_float_bits(u: u64) -> u64 {
    let q = u >> 11u64;
    let r = u & 0x7ffu64;
    let up = r > 0x400 || (r == 0x400 && q & 1 == 1);
    let q2: int = if up {
        q + 1
    } else {
        q as int
    };
    if q2 == 0x20_0000_0000_0000 {
        0x43f0_0000_0000_0000u64
    } else {
        (0x43e0_0000_0000_0000 + (q2 - 0x10_0000_0000_0000)) as u64
    }
}

/// The key of a JSON value: scalars by value (an integer beyond `i64` as
/// the float nearest to it), strings lowercased when `ci`, arrays and
/// objects as `Null`.
pub open spec fn json_key(v: JsonView, ci: bool) -> KeyView {
    match v {
        JsonView::Null => KeyView::Null,
        JsonView::Bool(b) => KeyView::Bool(b),
        JsonView::Number(NumView::PosInt(u)) => if u <= i64::MAX {
            KeyView::Int(u as int)
        } else {
            KeyView::Float(float_rank(u64_float_bits(u)) as nat)
        },
        JsonView::Number(NumView::NegInt(i)) => KeyView::Int(i as int),
        JsonView::Number(NumView::Float(b)) => KeyView::Float(float_rank(b) as nat),
        JsonView::Str(s) => if ci {
            KeyView::Str(lowercase(s))
        } else {
            KeyView::Str(s)
        },
        _ => KeyView::Null,
    }
}

/// A number is always indexed by its value, never as `Null`: an integer
/// that fits in `i64` (negative ones included) under the `Int` key of that
/// integer, any other number under a `Float` key; whether strings are
/// lowercased does not matter to it.
pub proof fn lemma_number_key(n: NumView, ci: bool)
    ensures
        json_key(JsonView::Number(n), ci) is Int || json_key(JsonView::Number(n), ci) is Float,
        json_key(JsonView::Number(n), ci) == json_key(JsonView::Number(n), !ci),
        n is NegInt ==> json_key(JsonView::Number(n), ci) == KeyView::Int(n->NegInt_0 as int),
        n is PosInt && n->PosInt_0 <= i64::MAX ==> json_key(JsonView::Number(n), ci) == KeyView::Int(n->PosInt_0 as int),
        n is Float ==> json_key(JsonView::Number(n), ci) is Float,
{
}

/// Two integers that fit in `i64` get the same key exactly when they are
/// equal, and keys in the order of the integers, whichever form each is
/// held in.
pub proof fn lemma_integer_keys_by_value(a: NumView, b: NumView, ci: bool)
    requires
        !(a is Float),
        !(b is Float),
        a is PosInt ==> a->PosInt_0 <= i64::MAX,
        b is PosInt ==> b->PosInt_0 <= i64::MAX,
    ensures
        ({
            let x = if a is PosInt { a->PosInt_0 as int } else { a->NegInt_0 as int };
            let y = if b is PosInt { b->PosInt_0 as int } else { b->NegInt_0 as int };
            &&& (json_key(JsonView::Number(a), ci) == json_key(JsonView::Number(b), ci)) == (x == y)
            &&& key_order(json_key(JsonView::Number(a), ci), json_key(JsonView::Number(b), ci)) == if x < y {
                -1int
            } else if x == y {
                0int
            } else {
                1int
            }
        }),
{
}

pub(crate) fn rank_of_bits(bits: u64) -> (r: u64)
    ensures
        r == float_rank(bits),
{
    if bits >> 63 == 1 {
        !bits
    } else {
        bits | 0x8000_0000_0000_0000
    }
}

fn float_bits_of_large(u: u64) -> (b: u64)
    requires
        u > i64::MAX,
    ensures
        b == u64_float_bits(u),
{
    let q = u >> 11;
    let r = u & 0x7ff;
    assert(0x10_0000_0000_0000 <= q < 0x20_0000_0000_0000) by (bit_vector)
        requires
            u > 0x7fff_ffff_ffff_ffffu64,
            q == u >> 11u64,
    ;
    let up = r > 0x400 || (r == 0x400 && q & 1 == 1);
    let q2 = if up {
        q + 1
    } else {
        q
    };
    if q2 == 0x20_0000_0000_0000 {
        0x43f0_0000_0000_0000
    } else {
        0x43e0_0000_0000_0000 + (q2 - 0x10_0000_0000_0000)
    }
}

/// The key of a JSON value (see [`json_key`]).
pub fn key_of_json(v: &JsonValue, ci: bool) -> (k: IndexKey)
    ensures
        k@ == json_key(v@, ci),
{
    match v {
        JsonValue::Null => IndexKey::Null,
        JsonValue::Bool(b) => IndexKey::Bool(*b),
        JsonValue::Number(JsonNumber::PosInt(u)) => {
            if *u <= 0x7fff_ffff_ffff_ffff {
                IndexKey::Int(*u as i64)
            } else {
                IndexKey::Float(OrderedFloat(rank_of_bits(float_bits_of_large(*u))))
            }
        },
        JsonValue::Number(JsonNumber::NegInt(i)) => IndexKey::Int(*i),
        JsonValue::Number(JsonNumber::Float(b, _)) => IndexKey::Float(OrderedFloat(rank_of_bits(*b))),
        JsonValue::String(s) => {
            if ci {
                IndexKey::String(to_lower(s.as_str()))
            } else {
                IndexKey::String(s.clone())
            }
        },
        _ => IndexKey::Null,
    }
}

/// Keys of the values at one path: one per value, or a single `Null` when
/// the path reaches nothing.
pub open spec fn field_keys(vals: Seq<JsonView>, ci: bool) -> Seq<KeyView> {
    if vals.len() == 0 {
        seq![KeyView::Null]
    } else {
        Seq::new(vals.len(), |i: int| json_key(vals[i], ci))
    }
}

/// Each prefix of `ps` extended by each of `vals`, prefix by prefix.
pub open spec fn extend(ps: Seq<Seq<KeyView>>, vals: Seq<KeyView>) -> Seq<Seq<KeyView>>
    decreases ps.len(),
{
    if ps.len() == 0 {
        Seq::empty()
    } else {
        extend(ps.drop_last(), vals) + Seq::new(vals.len(), |j: int| ps.last().push(vals[j]))
    }
}

/// Every choice of one key per field, the first field varying slowest.
pub open spec fn combos(fvs: Seq<Seq<KeyView>>) -> Seq<Seq<KeyView>>
    decreases fvs.len(),
{
    if fvs.len() == 0 {
        seq![Seq::<KeyView>::empty()]
    } else {
        extend(combos(fvs.drop_last()), fvs.last())
    }
}

/// Keys of each field of a compound index.
pub open spec fn compound_field_keys(m: IndexMetadata, d: DocumentFields) -> Seq<Seq<KeyView>> {
    Seq::new(m.fields@.len(), |i: int| field_keys(d.values_at(m.fields@[i]@), m.case_insensitive))
}

/// The keys an index with metadata `m` derives from a document: for a
/// compound index one compound key per choice of a key of each field, else
/// the keys of its field.
pub open spec fn doc_keys(m: IndexMetadata, d: DocumentFields) -> Seq<KeyView> {
    if m.fields@.len() > 1 {
        let cs = combos(compound_field_keys(m, d));
        Seq::new(cs.len(), |i: int| KeyView::Compound(cs[i]))
    } else {
        field_keys(d.values_at(m.field@), m.case_insensitive)
    }
}

/// Views of a sequence of key vectors.
pub open spec fn key_rows(rows: Seq<Vec<IndexKey>>) -> Seq<Seq<KeyView>> {
    Seq::new(rows.len(), |i: int| key_views(rows[i]@))
}

/// Copy of a key vector.
fn copy_keys(v: &Vec<IndexKey>) -> (res: Vec<IndexKey>)
    ensures
        key_views(res@) == key_views(v@),
{
    let mut out: Vec<IndexKey> = Vec::new();
    let mut i: usize = 0;
    while i < v.len()
        invariant
            i <= v@.len(),
            key_views(out@) == key_views(v@).subrange(0, i as int),
        decreases v@.len() - i,
    {
        let k = v[i].clone();
        let ghost o = out@;
        out.push(k);
        assert(key_views(o).len() == i);
        assert(key_views(out@) =~= key_views(v@).subrange(0, i + 1));
        i = i + 1;
    }
    assert(key_views(v@).subrange(0, i as int) =~= key_views(v@));
    out
}

/// Keys of the values at one path (see [`field_keys`]).
fn keys_of_values(doc: &DocumentFields, path: &str, ci: bool) -> (res: Vec<IndexKey>)
    ensures
        key_views(res@) == field_keys(doc.values_at(path@), ci),
{
    let mut out: Vec<IndexKey> = Vec::new();
    match doc.lookup(path) {
        Some(f) => {
            let n = f.values.len();
            proof {
                lemma_values_view(f.values@);
            }
            if n == 0 {
                out.push(IndexKey::Null);
                assert(key_views(out@) =~= seq![KeyView::Null]);
                return out;
            }
            let mut i: usize = 0;
            while i < n
                invariant
                    n == f.values@.len(),
                    i <= n,
                    key_views(out@) == Seq::new(i as nat, |j: int| json_key(f.values@[j]@, ci)),
                decreases n - i,
            {
                let k = key_of_json(&f.values[i], ci);
                let ghost o = out@;
                out.push(k);
                assert(key_views(o).len() == i);
                assert(out@ == o.push(k));
                assert(k@ == json_key(f.values@[i as int]@, ci));
                assert(key_views(out@)[i as int] == k@);
                assert forall|j: int| 0 <= j < i + 1 implies key_views(out@)[j] == json_key(f.values@[j]@, ci) by {
                    if j < i {
                        assert(out@[j] == o[j]);
                        assert(key_views(o)[j] == json_key(f.values@[j]@, ci));
                    }
                }
                assert(key_views(out@) =~= Seq::new((i + 1) as nat, |j: int| json_key(f.values@[j]@, ci)));
                i = i + 1;
            }
            assert(key_views(out@) =~= field_keys(doc.values_at(path@), ci));
            out
        },
        None => {
            out.push(IndexKey::Null);
            assert(key_views(out@) =~= seq![KeyView::Null]);
            out
        },
    }
}

/// Each row of `prefixes` extended by each of `vals` (see [`extend`]).
fn extend_rows(prefixes: &Vec<Vec<IndexKey>>, vals: &Vec<IndexKey>) -> (res: Vec<Vec<IndexKey>>)
    ensures
        key_rows(res@) == extend(key_rows(prefixes@), key_views(vals@)),
{
    let ghost ps = key_rows(prefixes@);
    let ghost vs = key_views(vals@);
    let mut next: Vec<Vec<IndexKey>> = Vec::new();
    let mut p: usize = 0;
    assert(key_rows(next@) =~= extend(ps.subrange(0, 0), vs));
    while p < prefixes.len()
        invariant
            ps == key_rows(prefixes@),
            vs == key_views(vals@),
            p <= prefixes@.len(),
            key_rows(next@) == extend(ps.subrange(0, p as int), vs),
        decreases prefixes@.len() - p,
    {
        let ghost base = key_rows(next@);
        let mut j: usize = 0;
        while j < vals.len()
            invariant
                ps == key_rows(prefixes@),
                vs == key_views(vals@),
                p < prefixes@.len(),
                j <= vals@.len(),
                key_rows(next@) == base + Seq::new(j as nat, |q: int| ps[p as int].push(vs[q])),
            decreases vals@.len() - j,
        {
            let mut key = copy_keys(&prefixes[p]);
            let ghost kv = key_views(key@);
            let v = vals[j].clone();
            key.push(v);
            assert(key_views(key@) =~= ps[p as int].push(vs[j as int]));
            let ghost o = next@;
            next.push(key);
            assert(key_rows(next@) =~= key_rows(o).push(key_views(key@)));
            assert(key_rows(next@) =~= base + Seq::new((j + 1) as nat, |q: int| ps[p as int].push(vs[q])));
            j = j + 1;
        }
        proof {
            let s = ps.subrange(0, p + 1);
            assert(s.drop_last() =~= ps.subrange(0, p as int));
            assert(s.last() == ps[p as int]);
            assert(Seq::new(j as nat, |q: int| ps[p as int].push(vs[q])) =~= Seq::new(
                vs.len(),
                |q: int| s.last().push(vs[q]),
            ));
        }
        p = p + 1;
    }
    assert(ps.subrange(0, p as int) =~= ps);
    next
}

impl BPlusTree {
    /// The keys this index derives from a document (see [`doc_keys`]).
    pub fn extract_keys(&self, doc: &DocumentFields) -> (res: Vec<IndexKey>)
        ensures
            key_views(res@) == doc_keys(self.meta(), *doc),
    {
        let m = self.metadata_ref();
        let ci = m.case_insensitive;
        if m.fields.len() > 1 {
            let ghost fvs = compound_field_keys(*m, *doc);
            let mut rows: Vec<Vec<IndexKey>> = Vec::new();
            let empty: Vec<IndexKey> = Vec::new();
            assert(key_views(empty@) =~= Seq::<KeyView>::empty());
            rows.push(empty);
            assert(fvs.subrange(0, 0).len() == 0);
            assert(key_rows(rows@) =~= combos(fvs.subrange(0, 0)));
            let mut i: usize = 0;
            while i < m.fields.len()
                invariant
                    *m == self.meta(),
                    ci == m.case_insensitive,
                    fvs == compound_field_keys(*m, *doc),
                    i <= m.fields@.len(),
                    key_rows(rows@) == combos(fvs.subrange(0, i as int)),
                decreases m.fields@.len() - i,
            {
                let vals = keys_of_values(doc, m.fields[i].as_str(), ci);
                rows = extend_rows(&rows, &vals);
                assert(fvs.subrange(0, i + 1).drop_last() =~= fvs.subrange(0, i as int));
                i = i + 1;
            }
            assert(fvs.subrange(0, i as int) =~= fvs);
            let ghost cs = key_rows(rows@);
            let mut out: Vec<IndexKey> = Vec::new();
            let mut k: usize = 0;
            let n = rows.len();
            let mut rest = rows;
            let mut taken: Vec<Vec<IndexKey>> = Vec::new();
            while k < n
                invariant
                    n == cs.len(),
                    k <= n,
                    key_rows(rest@) == cs.subrange(k as int, n as int),
                    key_views(out@) == Seq::new(k as nat, |q: int| KeyView::Compound(cs[q])),
                decreases n - k,
            {
                let ghost before = rest@;
                assert(key_rows(rest@).len() == rest@.len());
                let row = rest.remove(0);
                assert(key_rows(rest@) =~= cs.subrange(k + 1, n as int)) by {
                    assert(rest@ =~= before.subrange(1, before.len() as int));
                    assert(key_rows(before).len() == before.len());
                    assert forall|j: int| 0 <= j < rest@.len() implies key_rows(rest@)[j] == cs[k + 1 + j] by {
                        assert(rest@[j] == before[j + 1]);
                        assert(key_rows(before)[j + 1] == cs.subrange(k as int, n as int)[j + 1]);
                    }
                }
                assert(key_views(row@) == cs[k as int]) by {
                    assert(key_rows(before)[0] == key_views(row@));
                    assert(key_rows(before)[0] == cs.subrange(k as int, n as int)[0]);
                }
                proof {
                    lemma_keys_view(row@);
                    assert(keys_view(row@) =~= key_views(row@));
                }
                let ghost o = out@;
                let ck = IndexKey::Compound(row);
                assert(ck@ == KeyView::Compound(cs[k as int]));
                out.push(ck);
                assert(key_views(o).len() == k);
                assert forall|q: int| 0 <= q < k + 1 implies key_views(out@)[q] == KeyView::Compound(cs[q]) by {
                    if q < k {
                        assert(out@[q] == o[q]);
                        assert(key_views(o)[q] == KeyView::Compound(cs[q]));
                    }
                }
                assert(key_views(out@) =~= Seq::new((k + 1) as nat, |q: int| KeyView::Compound(cs[q])));
                k = k + 1;
            }
            out
        } else {
            keys_of_values(doc, m.field.as_str(), ci)
        }
    }

    /// The first key this index derives from a document (`Null` when none).
    pub fn extract_key(&self, doc: &DocumentFields) -> (k: IndexKey)
        ensures
            doc_keys(self.meta(), *doc).len() > 0 ==> k@ == doc_keys(self.meta(), *doc)[0],
            doc_keys(self.meta(), *doc).len() == 0 ==> k@ == KeyView::Null,
    {
        let mut keys = self.extract_keys(doc);
        if keys.len() > 0 {
            keys.swap_remove(0)
        } else {
            IndexKey::Null
        }
    }
}

/// Key of the value a path leads to (see [`json_key`]), if it leads to one.
pub open spec fn key_at_path(d: DocumentFields, p: Seq<char>) -> Option<KeyView> {
    match d.value_at(p) {
        Some(v) => Some(json_key(v, false)),
        None => None,
    }
}

/// Key of the value a path leads to, if it leads to one (how bulk index
/// builds read a single-field key).
pub fn key_at(doc: &DocumentFields, path: &str) -> (r: Option<IndexKey>)
    ensures
        match r {
            Some(k) => key_at_path(*doc, path@) == Some(k@),
            None => key_at_path(*doc, path@) is None,
        },
{
    match doc.lookup(path) {
        Some(f) => match &f.value {
            Some(v) => Some(key_of_json(v, false)),
            None => None,
        },
        None => None,
    }
}

/// The compound key of the values the fields lead to, `Null` for a field
/// that leads to none (how bulk index builds read a compound key).
pub fn compound_key_at(doc: &DocumentFields, fields: &Vec<String>) -> (k: IndexKey)
    ensures
        k@ == KeyView::Compound(
            Seq::new(
                fields@.len(),
                |i: int|
                    match key_at_path(*doc, fields@[i]@) {
                        Some(x) => x,
                        None => KeyView::Null,
                    },
            ),
        ),
{
    let ghost want = Seq::new(
        fields@.len(),
        |i: int|
            match key_at_path(*doc, fields@[i]@) {
                Some(x) => x,
                None => KeyView::Null,
            },
    );
    let mut parts: Vec<IndexKey> = Vec::new();
    let mut i: usize = 0;
    while i < fields.len()
        invariant
            i <= fields@.len(),
            want.len() == fields@.len(),
            forall|j: int|
                0 <= j < fields@.len() ==> #[trigger] want[j] == match key_at_path(*doc, fields@[j]@) {
                    Some(x) => x,
                    None => KeyView::Null,
                },
            key_views(parts@) == want.subrange(0, i as int),
        decreases fields@.len() - i,
    {
        let k = match key_at(doc, fields[i].as_str()) {
            Some(k) => k,
            None => IndexKey::Null,
        };
        let ghost o = parts@;
        parts.push(k);
        assert(key_views(o).len() == i);
        assert(key_views(parts@) =~= want.subrange(0, i + 1)) by {
            assert forall|j: int| 0 <= j < i + 1 implies key_views(parts@)[j] == want[j] by {
                if j < i {
                    assert(parts@[j] == o[j]);
                    assert(key_views(o)[j] == want.subrange(0, i as int)[j]);
                }
            }
        }
        i = i + 1;
    }
    proof {
        assert(want.subrange(0, i as int) =~= want);
        lemma_keys_view(parts@);
        assert(keys_view(parts@) =~= key_views(parts@));
    }
    IndexKey::Compound(parts)
}

} // verus!
