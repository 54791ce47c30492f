//! Index keys and the total order in which the B+ tree keeps them.
use vstd::prelude::*;
use crate::text::{char_from_code, char_text, concat2};

verus! {

/// A float key held by its order rank: the application maps each `f64` to an
/// integer whose natural order is the float order (NaN above every number,
/// both zeros on one rank), so that keys compare by integers alone.
#[derive(Debug, Clone, Copy, PartialEq, Eq, PartialOrd, Ord, Hash)]
pub struct OrderedFloat(pub u64);

/// Index key: the values a B+ tree can hold.
///
/// Keys are ordered `Null < Bool < Int < Float < String < Compound < MaxKey`;
/// values of one kind compare by their payload, compound keys element by element.
#[derive(Debug, PartialEq, Eq, PartialOrd, Ord, Hash)]
pub enum IndexKey {
    Null,
    Bool(bool),
    Int(i64),
    Float(OrderedFloat),
    String(String),
    /// Compound key of a multi-field index, one part per field.
    Compound(Vec<IndexKey>),
    /// Sentinel above every other key, used as an open upper bound.
    MaxKey,
}

/// Mathematical form of an [`IndexKey`].
pub enum KeyView {
    Null,
    Bool(bool),
    Int(int),
    Float(nat),
    Str(Seq<char>),
    Compound(Seq<KeyView>),
    Max,
}

impl IndexKey {
    pub open spec fn view_key(self) -> KeyView
        decreases self,
    {
        match self {
            IndexKey::Null => KeyView::Null,
            IndexKey::Bool(b) => KeyView::Bool(b),
            IndexKey::Int(i) => KeyView::Int(i as int),
            IndexKey::Float(f) => KeyView::Float(f.0 as nat),
            IndexKey::String(s) => KeyView::Str(s@),
            IndexKey::Compound(parts) => KeyView::Compound(keys_view(parts@)),
            IndexKey::MaxKey => KeyView::Max,
        }
    }
}

/// Views of a sequence of keys, element by element.
pub open spec fn keys_view(s: Seq<IndexKey>) -> Seq<KeyView>
    decreases s,
{
    if s.len() == 0 {
        Seq::empty()
    } else {
        keys_view(s.subrange(0, s.len() - 1)).push(s[s.len() - 1].view_key())
    }
}

pub proof fn lemma_keys_view(s: Seq<IndexKey>)
    ensures
        keys_view(s).len() == s.len(),
        forall|i: int| 0 <= i < s.len() ==> #[trigger] keys_view(s)[i] == s[i].view_key(),
    decreases s.len(),
{
    if s.len() > 0 {
        lemma_keys_view(s.subrange(0, s.len() - 1));
        assert forall|i: int| 0 <= i < s.len() implies #[trigger] keys_view(s)[i] == s[i].view_key() by {
            if i < s.len() - 1 {
                assert(s.subrange(0, s.len() - 1)[i] == s[i]);
            }
        }
    }
}

impl IndexKey {
    /// Deep copy of a key.
    pub fn copy_key(&self) -> (res: IndexKey)
        ensures
            res@ == self@,
        decreases self,
    {
        match self {
            IndexKey::Null => IndexKey::Null,
            IndexKey::Bool(b) => IndexKey::Bool(*b),
            IndexKey::Int(i) => IndexKey::Int(*i),
            IndexKey::Float(f) => IndexKey::Float(*f),
            IndexKey::String(s) => IndexKey::String(s.clone()),
            IndexKey::Compound(parts) => {
                let mut out: Vec<IndexKey> = Vec::new();
                let mut i: usize = 0;
                while i < parts.len()
                    invariant
                        *self == IndexKey::Compound(*parts),
                        i <= parts@.len(),
                        out@.len() == i,
                        forall|j: int| 0 <= j < i ==> (#[trigger] out@[j])@ == parts@[j]@,
                    decreases parts@.len() - i,
                {
                    proof {
                        assert(self->Compound_0 == *parts);
                        assert(decreases_to!(*self => self->Compound_0));
                        assert(decreases_to!(*parts => parts@));
                        assert(decreases_to!(parts@ => parts@[i as int]));
                        assert(decreases_to!(*self => parts@[i as int]));
                    }
                    out.push(parts[i].copy_key());
                    i = i + 1;
                }
                let res = IndexKey::Compound(out);
                assert(res@ == self@) by {
                    lemma_keys_view(out@);
                    lemma_keys_view(parts@);
                    assert(keys_view(out@) =~= keys_view(parts@));
                }
                res
            },
            IndexKey::MaxKey => IndexKey::MaxKey,
        }
    }
}

impl Clone for IndexKey {
    fn clone(&self) -> (res: Self)
        ensures
            res@ == self@,
    {
        self.copy_key()
    }
}

impl View for IndexKey {
    type V = KeyView;

    open spec fn view(&self) -> KeyView {
        self.view_key()
    }
}

/// Rank of a key's kind in the order of kinds.
pub open spec fn kind_rank(k: KeyView) -> int {
    match k {
        KeyView::Null => 0,
        KeyView::Bool(_) => 1,
        KeyView::Int(_) => 2,
        KeyView::Float(_) => 3,
        KeyView::Str(_) => 4,
        KeyView::Compound(_) => 5,
        KeyView::Max => 6,
    }
}

/// Three-way comparison of integers: -1, 0 or 1.
pub open spec fn int_order(a: int, b: int) -> int {
    if a < b {
        -1
    } else if a == b {
        0
    } else {
        1
    }
}

/// Lexicographic comparison of character sequences by code point.
pub open spec fn chars_order(a: Seq<char>, b: Seq<char>) -> int
    decreases a.len(),
{
    if a.len() == 0 {
        if b.len() == 0 {
            0
        } else {
            -1
        }
    } else if b.len() == 0 {
        1
    } else if (a[0] as int) != (b[0] as int) {
        int_order(a[0] as int, b[0] as int)
    } else {
        chars_order(a.drop_first(), b.drop_first())
    }
}

/// Three-way comparison of keys: -1, 0 or 1.
pub open spec fn key_order(a: KeyView, b: KeyView) -> int
    decreases a,
{
    if kind_rank(a) != kind_rank(b) {
        int_order(kind_rank(a), kind_rank(b))
    } else {
        match (a, b) {
            (KeyView::Bool(x), KeyView::Bool(y)) => int_order(
                if x { 1 } else { 0 },
                if y { 1 } else { 0 },
            ),
            (KeyView::Int(x), KeyView::Int(y)) => int_order(x, y),
            (KeyView::Float(x), KeyView::Float(y)) => int_order(x as int, y as int),
            (KeyView::Str(x), KeyView::Str(y)) => chars_order(x, y),
            (KeyView::Compound(x), KeyView::Compound(y)) => keys_order(x, y),
            _ => 0,
        }
    }
}

/// Lexicographic comparison of key sequences.
pub open spec fn keys_order(a: Seq<KeyView>, b: Seq<KeyView>) -> int
    decreases a,
{
    if a.len() == 0 {
        if b.len() == 0 {
            0
        } else {
            -1
        }
    } else if b.len() == 0 {
        1
    } else if key_order(a[0], b[0]) != 0 {
        key_order(a[0], b[0])
    } else {
        keys_order(a.drop_first(), b.drop_first())
    }
}

} // verus!

verus! {

// ---------------------------------------------------------------------------
// Order laws
// ---------------------------------------------------------------------------

pub proof fn lemma_chars_order_basic(a: Seq<char>, b: Seq<char>)
    ensures
        chars_order(a, b) == -chars_order(b, a),
        -1 <= chars_order(a, b) <= 1,
        chars_order(a, b) == 0 <==> a == b,
    decreases a.len(),
{
    if a.len() > 0 && b.len() > 0 && a[0] == b[0] {
        lemma_chars_order_basic(a.drop_first(), b.drop_first());
        if a.drop_first() == b.drop_first() {
            assert(a =~= seq![a[0]] + a.drop_first());
            assert(b =~= seq![b[0]] + b.drop_first());
        }
    }
    if a.len() > 0 && b.len() > 0 && a[0] != b[0] {
        assert((a[0] as int) != (b[0] as int));
    }
    if a.len() == 0 && b.len() == 0 {
        assert(a =~= b);
    }
}

pub proof fn lemma_chars_order_trans(a: Seq<char>, b: Seq<char>, c: Seq<char>)
    requires
        chars_order(a, b) <= 0,
        chars_order(b, c) <= 0,
    ensures
        chars_order(a, c) <= 0,
    decreases a.len(),
{
    if a.len() > 0 && b.len() > 0 && c.len() > 0 {
        if a[0] == b[0] && b[0] == c[0] {
            lemma_chars_order_trans(a.drop_first(), b.drop_first(), c.drop_first());
        }
    }
}

/// Key order laws: the order is a total order whose equal keys are identical.
pub proof fn lemma_key_order_basic(a: KeyView, b: KeyView)
    ensures
        key_order(a, b) == -key_order(b, a),
        -1 <= key_order(a, b) <= 1,
        key_order(a, b) == 0 <==> a == b,
    decreases a,
{
    if kind_rank(a) == kind_rank(b) {
        match (a, b) {
            (KeyView::Str(x), KeyView::Str(y)) => {
                lemma_chars_order_basic(x, y);
            },
            (KeyView::Compound(x), KeyView::Compound(y)) => {
                lemma_keys_order_basic(x, y);
            },
            _ => {},
        }
    }
}

/// Lexicographic key-sequence order: antisymmetric, three-valued, zero only on equal sequences.
pub proof fn lemma_keys_order_basic(a: Seq<KeyView>, b: Seq<KeyView>)
    ensures
        keys_order(a, b) == -keys_order(b, a),
        -1 <= keys_order(a, b) <= 1,
        keys_order(a, b) == 0 <==> a == b,
    decreases a,
{
    if a.len() > 0 && b.len() > 0 {
        lemma_key_order_basic(a[0], b[0]);
        if key_order(a[0], b[0]) == 0 {
            lemma_keys_order_basic(a.drop_first(), b.drop_first());
            if a.drop_first() == b.drop_first() {
                assert(a =~= seq![a[0]] + a.drop_first());
                assert(b =~= seq![b[0]] + b.drop_first());
            }
        }
    }
    if a.len() == 0 && b.len() == 0 {
        assert(a =~= b);
    }
}

/// Transitivity of the non-strict key order.
pub proof fn lemma_key_order_trans(a: KeyView, b: KeyView, c: KeyView)
    requires
        key_order(a, b) <= 0,
        key_order(b, c) <= 0,
    ensures
        key_order(a, c) <= 0,
    decreases a,
{
    if kind_rank(a) == kind_rank(b) && kind_rank(b) == kind_rank(c) {
        match (a, b, c) {
            (KeyView::Str(x), KeyView::Str(y), KeyView::Str(z)) => {
                lemma_chars_order_trans(x, y, z);
            },
            (KeyView::Compound(x), KeyView::Compound(y), KeyView::Compound(z)) => {
                lemma_keys_order_trans(x, y, z);
            },
            _ => {},
        }
    }
}

/// Transitivity of the non-strict lexicographic order on key sequences.
pub proof fn lemma_keys_order_trans(a: Seq<KeyView>, b: Seq<KeyView>, c: Seq<KeyView>)
    requires
        keys_order(a, b) <= 0,
        keys_order(b, c) <= 0,
    ensures
        keys_order(a, c) <= 0,
    decreases a,
{
    if a.len() > 0 && b.len() > 0 && c.len() > 0 {
        lemma_key_order_basic(a[0], b[0]);
        lemma_key_order_basic(b[0], c[0]);
        lemma_key_order_basic(a[0], c[0]);
        lemma_key_order_trans(a[0], b[0], c[0]);
        if key_order(a[0], b[0]) == 0 && key_order(b[0], c[0]) == 0 {
            lemma_keys_order_trans(a.drop_first(), b.drop_first(), c.drop_first());
        } else if key_order(a[0], c[0]) == 0 {
            // a[0] == c[0], so a[0] <= b[0] <= a[0] forces both steps to be ties
            lemma_key_order_trans(b[0], c[0], a[0]);
        }
    }
}

/// Strict order is transitive through a non-strict step on either side.
pub proof fn lemma_key_order_lt_trans(a: KeyView, b: KeyView, c: KeyView)
    requires
        key_order(a, b) <= 0,
        key_order(b, c) <= 0,
        key_order(a, b) < 0 || key_order(b, c) < 0,
    ensures
        key_order(a, c) < 0,
{
    lemma_key_order_trans(a, b, c);
    lemma_key_order_basic(a, b);
    lemma_key_order_basic(b, c);
    lemma_key_order_basic(a, c);
    if key_order(a, c) == 0 {
        lemma_key_order_basic(c, b);
    }
}

} // verus!

verus! {

/// Kind rank of a key, as computed by [`kind_rank`].
pub fn key_kind_rank(k: &IndexKey) -> (r: u8)
    ensures
        r as int == kind_rank(k@),
{
    match k {
        IndexKey::Null => 0,
        IndexKey::Bool(_) => 1,
        IndexKey::Int(_) => 2,
        IndexKey::Float(_) => 3,
        IndexKey::String(_) => 4,
        IndexKey::Compound(_) => 5,
        IndexKey::MaxKey => 6,
    }
}

/// Three-way comparison of index keys: -1 when `a < b`, 0 when equal, 1 when `a > b`.
pub fn compare_keys(a: &IndexKey, b: &IndexKey) -> (r: i8)
    ensures
        r as int == key_order(a@, b@),
    decreases a,
{
    let ra = key_kind_rank(a);
    let rb = key_kind_rank(b);
    if ra != rb {
        return if ra < rb {
            -1
        } else {
            1
        };
    }
    match (a, b) {
        (IndexKey::Bool(x), IndexKey::Bool(y)) => {
            if *x == *y {
                0
            } else if !*x {
                -1
            } else {
                1
            }
        },
        (IndexKey::Int(x), IndexKey::Int(y)) => {
            if *x < *y {
                -1
            } else if *x == *y {
                0
            } else {
                1
            }
        },
        (IndexKey::Float(x), IndexKey::Float(y)) => {
            if x.0 < y.0 {
                -1
            } else if x.0 == y.0 {
                0
            } else {
                1
            }
        },
        (IndexKey::String(x), IndexKey::String(y)) => crate::text::compare_strs(x.as_str(), y.as_str()),
        (IndexKey::Compound(x), IndexKey::Compound(y)) => {
            let ghost xv = keys_view(x@);
            let ghost yv = keys_view(y@);
            proof {
                lemma_keys_view(x@);
                lemma_keys_view(y@);
                assert(xv.skip(0) =~= xv);
                assert(yv.skip(0) =~= yv);
                assert(a@ == KeyView::Compound(xv));
                assert(b@ == KeyView::Compound(yv));
            }
            let mut i: usize = 0;
            while i < x.len() && i < y.len()
                invariant
                    *a == IndexKey::Compound(*x),
                    *b == IndexKey::Compound(*y),
                    key_order(a@, b@) == keys_order(xv, yv),
                    xv == keys_view(x@),
                    yv == keys_view(y@),
                    xv.len() == x@.len(),
                    yv.len() == y@.len(),
                    forall|j: int| 0 <= j < x@.len() ==> #[trigger] xv[j] == x@[j]@,
                    forall|j: int| 0 <= j < y@.len() ==> #[trigger] yv[j] == y@[j]@,
                    i <= x@.len(),
                    i <= y@.len(),
                    keys_order(xv, yv) == keys_order(xv.skip(i as int), yv.skip(i as int)),
                decreases x@.len() - i,
            {
                proof {
                    assert(a->Compound_0 == *x);
                    assert(decreases_to!(*a => a->Compound_0));
                    assert(decreases_to!(*x => x@));
                    assert(decreases_to!(x@ => x@[i as int]));
                }
                let c = compare_keys(&x[i], &y[i]);
                if c != 0 {
                    assert(xv.skip(i as int)[0] == xv[i as int]);
                    assert(yv.skip(i as int)[0] == yv[i as int]);
                    return c;
                }
                proof {
                    assert(xv.skip(i as int)[0] == xv[i as int]);
                    assert(yv.skip(i as int)[0] == yv[i as int]);
                    assert(xv.skip(i as int).drop_first() =~= xv.skip(i + 1));
                    assert(yv.skip(i as int).drop_first() =~= yv.skip(i + 1));
                }
                i = i + 1;
            }
            if x.len() == y.len() {
                0
            } else if i == x.len() {
                -1
            } else {
                1
            }
        },
        _ => 0,
    }
}

/// Whether `a` sorts strictly before `b`.
pub fn key_less(a: &IndexKey, b: &IndexKey) -> (r: bool)
    ensures
        r == (key_order(a@, b@) < 0),
{
    compare_keys(a, b) < 0
}

/// Whether two keys are the same key.
pub fn key_equal(a: &IndexKey, b: &IndexKey) -> (r: bool)
    ensures
        r == (a@ == b@),
{
    proof {
        lemma_key_order_basic(a@, b@);
    }
    compare_keys(a, b) == 0
}

} // verus!

verus! {

// ---------------------------------------------------------------------------
// Prefix scans
// ---------------------------------------------------------------------------

/// Code point after that of `c` among Unicode scalar values: one more,
/// skipping the surrogate gap.
pub open spec fn next_code(c: char) -> u32 {
    if (c as u32) + 1 == 0xD800 {
        0xE000
    } else {
        ((c as u32) + 1) as u32
    }
}

/// Position of the last character of `p` that is not `char::MAX`, or -1.
pub open spec fn last_below_max(p: Seq<char>) -> int
    decreases p.len(),
{
    if p.len() == 0 {
        -1
    } else if (p.last() as u32) < 0x10FFFF {
        p.len() - 1
    } else {
        last_below_max(p.drop_last())
    }
}

/// Exclusive upper bound of a scan for strings starting with `p`: `p` cut
/// after its last character below `char::MAX`, that character replaced by the
/// next scalar value; the largest key when there is no such character.
pub open spec fn prefix_bound(p: Seq<char>) -> KeyView {
    let k = last_below_max(p);
    if k < 0 {
        KeyView::Max
    } else {
        KeyView::Str(p.take(k).push(next_code(p[k]) as char))
    }
}

/// Next Unicode scalar value after `c`, skipping the surrogate gap; `None`
/// when `c` is `char::MAX`.
pub fn next_scalar(c: char) -> (r: Option<char>)
    ensures
        match r {
            Some(n) => (c as u32) < 0x10FFFF && n as u32 == next_code(c),
            None => c as u32 == 0x10FFFF,
        },
{
    let code: u32 = c as u32;
    if code >= 0x10FFFF {
        return None;
    }
    let mut cp: u32 = code + 1;
    if cp == 0xD800 {
        cp = 0xE000;
    }
    char_from_code(cp)
}

/// Exclusive upper bound for a scan of the strings that start with `prefix`
/// (use with an inclusive start at `prefix`): the smallest key above every
/// such string.
pub fn prefix_scan_upper_bound(prefix: &str) -> (r: IndexKey)
    ensures
        r@ == prefix_bound(prefix@),
{
    let ghost p = prefix@;
    let n = prefix.unicode_len();
    let mut k: usize = n;
    proof {
        assert(p.take(n as int) =~= p);
    }
    while k > 0
        invariant
            p == prefix@,
            n == p.len(),
            k <= n,
            last_below_max(p) == last_below_max(p.take(k as int)),
        decreases k,
    {
        let c = prefix.get_char(k - 1);
        let ghost t = p.take(k as int);
        assert(t.last() == c);
        assert(t.drop_last() =~= p.take(k - 1));
        match next_scalar(c) {
            Some(nc) => {
                let head = prefix.substring_char(0, k - 1);
                let tail = char_text(nc);
                let s = concat2(head, tail.as_str());
                proof {
                    assert(last_below_max(p) == k - 1);
                    assert(head@ =~= p.take(k - 1));
                    assert(s@ =~= p.take(k - 1).push(nc));
                    assert(p[k - 1] == c);
                    vstd::utf8::char_u32_cast(nc, nc as u32);
                }
                return IndexKey::String(s);
            },
            None => {
                k = k - 1;
            },
        }
    }
    proof {
        assert(p.take(0) =~= Seq::<char>::empty());
    }
    IndexKey::MaxKey
}

/// The last character below `char::MAX` lies within the string.
proof fn lemma_last_below_max(p: Seq<char>)
    ensures
        -1 <= last_below_max(p) < p.len(),
        last_below_max(p) >= 0 ==> (p[last_below_max(p)] as u32) < 0x10FFFF,
    decreases p.len(),
{
    if p.len() > 0 && (p.last() as u32) >= 0x10FFFF {
        lemma_last_below_max(p.drop_last());
        let k = last_below_max(p);
        if k >= 0 {
            assert(p.drop_last()[k] == p[k]);
        }
    }
}

/// Two strings that agree before position `k` and differ there with a
/// smaller code point in `a` compare below.
proof fn lemma_chars_order_at(a: Seq<char>, b: Seq<char>, k: int)
    requires
        0 <= k < a.len(),
        k < b.len(),
        forall|i: int| 0 <= i < k ==> a[i] == b[i],
        (a[k] as int) < (b[k] as int),
    ensures
        chars_order(a, b) == -1,
    decreases k,
{
    if k > 0 {
        assert(a[0] == b[0]);
        assert forall|i: int| 0 <= i < k - 1 implies a.drop_first()[i] == b.drop_first()[i] by {
            assert(a[i + 1] == b[i + 1]);
        }
        lemma_chars_order_at(a.drop_first(), b.drop_first(), k - 1);
    }
}

/// The character after `c` has a larger code point.
proof fn lemma_next_code(c: char)
    requires
        (c as u32) < 0x10FFFF,
    ensures
        (c as int) < ((next_code(c) as char) as int),
{
    let n = next_code(c);
    assert((n as char) as u32 == n);
    assert(((n as char) as int) == ((n as char) as u32) as int);
    assert((c as int) == (c as u32) as int);
}

/// Every string that starts with `p` sorts strictly below the prefix-scan
/// bound of `p`.
pub proof fn lemma_prefix_bound_above(p: Seq<char>, t: Seq<char>)
    ensures
        key_order(KeyView::Str(p + t), prefix_bound(p)) < 0,
{
    lemma_last_below_max(p);
    let k = last_below_max(p);
    if k >= 0 {
        let b = p.take(k).push(next_code(p[k]) as char);
        let a = p + t;
        assert(b[k] == next_code(p[k]) as char);
        lemma_next_code(p[k]);
        assert forall|i: int| 0 <= i < k implies a[i] == b[i] by {
            assert(a[i] == p[i]);
            assert(b[i] == p.take(k)[i]);
        }
        assert(a[k] == p[k]);
        lemma_chars_order_at(a, b, k);
    }
}

} // verus!

verus! {

/// `char::MAX`, the largest Unicode scalar value.
pub open spec fn max_char() -> char {
    '\u{10FFFF}'
}

/// Every character's code is at most that of `char::MAX`.
proof fn lemma_char_at_most_max(c: char)
    ensures
        (c as int) <= 0x10FFFF,
        (c as int) == (c as u32) as int,
        (c as u32) >= 0x10FFFF ==> c == max_char(),
{
    if (c as u32) >= 0x10FFFF {
        vstd::utf8::char_u32_cast(c, c as u32);
        vstd::utf8::char_u32_cast(max_char(), max_char() as u32);
    }
}

/// No character lies strictly between `c` and the character after it.
proof fn lemma_no_char_between(x: char, c: char)
    requires
        (c as u32) < 0x10FFFF,
        (x as int) < (next_code(c) as char) as int,
    ensures
        (x as int) <= (c as int),
{
    let n = next_code(c);
    assert((n as char) as u32 == n);
    assert(((n as char) as int) == ((n as char) as u32) as int);
    lemma_char_at_most_max(x);
    lemma_char_at_most_max(c);
}

/// Strings sharing their first `n` characters compare as what follows.
proof fn lemma_chars_order_common_prefix(a: Seq<char>, b: Seq<char>, n: int)
    requires
        0 <= n <= a.len(),
        n <= b.len(),
        a.take(n) == b.take(n),
    ensures
        chars_order(a, b) == chars_order(a.skip(n), b.skip(n)),
    decreases n,
{
    if n > 0 {
        assert(a[0] == a.take(n)[0] && b[0] == b.take(n)[0]);
        assert(a.drop_first().take(n - 1) =~= a.take(n).drop_first());
        assert(b.drop_first().take(n - 1) =~= b.take(n).drop_first());
        lemma_chars_order_common_prefix(a.drop_first(), b.drop_first(), n - 1);
        assert(a.drop_first().skip(n - 1) =~= a.skip(n));
        assert(b.drop_first().skip(n - 1) =~= b.skip(n));
    } else {
        assert(a.skip(0) =~= a);
        assert(b.skip(0) =~= b);
    }
}

/// A prefix of a string compares at most equal to it.
proof fn lemma_chars_order_prefix(a: Seq<char>, b: Seq<char>)
    requires
        a.len() <= b.len(),
        a == b.take(a.len() as int),
    ensures
        chars_order(a, b) <= 0,
    decreases a.len(),
{
    if a.len() > 0 {
        assert(a[0] == b[0]);
        assert(a.drop_first() =~= b.drop_first().take(a.len() - 1));
        lemma_chars_order_prefix(a.drop_first(), b.drop_first());
    }
}

/// A string of `char::MAX` longer than `y` compares above it.
proof fn lemma_below_max_run(y: Seq<char>, s: Seq<char>)
    requires
        s.len() > y.len(),
        forall|i: int| 0 <= i < s.len() ==> #[trigger] s[i] == max_char(),
    ensures
        chars_order(y, s) < 0,
    decreases y.len(),
{
    if y.len() > 0 {
        lemma_char_at_most_max(y[0]);
        lemma_char_at_most_max(s[0]);
        if y[0] == s[0] {
            assert forall|i: int| 0 <= i < s.drop_first().len() implies #[trigger] s.drop_first()[i] == max_char() by {
                assert(s.drop_first()[i] == s[i + 1]);
            }
            lemma_below_max_run(y.drop_first(), s.drop_first());
        }
    }
}

/// A string below another is a proper prefix of it, or first differs from
/// it by a smaller character.
proof fn lemma_chars_lt_cases(y: Seq<char>, b: Seq<char>)
    requires
        chars_order(y, b) < 0,
    ensures
        (y.len() < b.len() && y == b.take(y.len() as int)) || exists|j: int|
            0 <= j < y.len() && j < b.len() && y.take(j) == b.take(j) && (y[j] as int) < (b[j] as int),
    decreases y.len(),
{
    if y.len() > 0 && b.len() > 0 {
        if (y[0] as int) == (b[0] as int) {
            lemma_chars_lt_cases(y.drop_first(), b.drop_first());
            lemma_char_at_most_max(y[0]);
            lemma_char_at_most_max(b[0]);
            vstd::utf8::char_u32_cast(y[0], y[0] as u32);
            vstd::utf8::char_u32_cast(b[0], b[0] as u32);
            assert(y[0] == b[0]);
            if y.drop_first().len() < b.drop_first().len() && y.drop_first() == b.drop_first().take(
                y.drop_first().len() as int,
            ) {
                assert forall|i: int| 0 <= i < y.len() implies #[trigger] y[i] == b.take(y.len() as int)[i] by {
                    if i > 0 {
                        assert(y[i] == y.drop_first()[i - 1]);
                        assert(b.drop_first().take(y.drop_first().len() as int)[i - 1] == b[i]);
                    }
                }
                assert(y =~= b.take(y.len() as int));
            } else {
                let j = choose|j: int|
                    0 <= j < y.drop_first().len() && j < b.drop_first().len() && y.drop_first().take(j)
                        == b.drop_first().take(j) && (y.drop_first()[j] as int) < (b.drop_first()[j] as int);
                assert(y.take(j + 1) =~= b.take(j + 1)) by {
                    assert forall|i: int| 0 <= i < j + 1 implies #[trigger] y.take(j + 1)[i] == b.take(j + 1)[i] by {
                        if i > 0 {
                            assert(y.drop_first().take(j)[i - 1] == b.drop_first().take(j)[i - 1]);
                        }
                    }
                }
                assert(y[j + 1] == y.drop_first()[j] && b[j + 1] == b.drop_first()[j]);
            }
        } else {
            assert(y.take(0) =~= b.take(0));
        }
    } else if y.len() == 0 {
        assert(y =~= b.take(0));
    }
}

/// Characters after the last one below `char::MAX` are all `char::MAX`.
proof fn lemma_after_last_below_max(p: Seq<char>, i: int)
    requires
        last_below_max(p) < i < p.len(),
    ensures
        p[i] == max_char(),
    decreases p.len(),
{
    lemma_last_below_max(p);
    lemma_char_at_most_max(p.last());
    if i == p.len() - 1 {
        lemma_char_at_most_max(p[i]);
    } else {
        assert(p.drop_last()[i] == p[i]);
        lemma_after_last_below_max(p.drop_last(), i);
    }
}

/// The bound is the least string above every string that starts with `p`:
/// each string below it is at most one that starts with `p` (`p` followed
/// by `char::MAX` repeated).
pub proof fn lemma_prefix_bound_least(p: Seq<char>, y: Seq<char>)
    requires
        key_order(KeyView::Str(y), prefix_bound(p)) < 0,
    ensures
        key_order(KeyView::Str(p + Seq::new(y.len() + 1, |i: int| max_char())), KeyView::Str(y)) >= 0,
{
    let t = Seq::new(y.len() + 1, |i: int| max_char());
    let s = p + t;
    lemma_last_below_max(p);
    let k = last_below_max(p);
    assert forall|i: int| k < i < s.len() implies #[trigger] s[i] == max_char() by {
        if i < p.len() {
            lemma_after_last_below_max(p, i);
        }
    }
    if k < 0 {
        lemma_below_max_run(y, s);
    } else {
        let c = p[k];
        let b = p.take(k).push(next_code(c) as char);
        lemma_chars_lt_cases(y, b);
        if y.len() < b.len() && y == b.take(y.len() as int) {
            assert(y =~= s.take(y.len() as int));
            lemma_chars_order_prefix(y, s);
        } else {
            let j = choose|j: int|
                0 <= j < y.len() && j < b.len() && y.take(j) == b.take(j) && (y[j] as int) < (b[j] as int);
            assert forall|i: int| 0 <= i < j implies #[trigger] y[i] == s[i] by {
                assert(y.take(j)[i] == y[i]);
                assert(b.take(j)[i] == b[i]);
                assert(b[i] == p[i]);
            }
            assert(y.take(j) =~= s.take(j));
            if j < k {
                assert(b[j] == p[j] && s[j] == p[j]);
                lemma_chars_order_at(y, s, j);
            } else {
                assert(j == k);
                assert(b[k] == next_code(c) as char);
                lemma_no_char_between(y[k], c);
                lemma_char_at_most_max(y[k]);
                lemma_char_at_most_max(c);
                assert(s[k] == c);
                if (y[k] as int) < (c as int) {
                    lemma_chars_order_at(y, s, k);
                } else {
                    vstd::utf8::char_u32_cast(y[k], y[k] as u32);
                    vstd::utf8::char_u32_cast(c, c as u32);
                    assert(y[k] == c);
                    assert(y.take(k + 1) =~= s.take(k + 1));
                    lemma_chars_order_common_prefix(y, s, k + 1);
                    assert forall|i: int| 0 <= i < s.skip(k + 1).len() implies #[trigger] s.skip(k + 1)[i] == max_char() by {
                        assert(s.skip(k + 1)[i] == s[k + 1 + i]);
                    }
                    lemma_below_max_run(y.skip(k + 1), s.skip(k + 1));
                }
            }
        }
    }
    lemma_chars_order_basic(y, s);
}

} // verus!

verus! {

/// What a query planner reads of an index, compound ones included.
#[derive(Debug)]
pub struct IndexPrefixInfo {
    pub index_name: String,
    /// First field: queries on it can use the index.
    pub prefix_field: String,
    pub is_compound: bool,
    pub num_fields: usize,
    /// Only documents that have the field are indexed.
    pub sparse: bool,
    /// Estimated number of distinct keys (0: unknown).
    pub distinct_count: u64,
    /// Being built: planners ignore it meanwhile.
    pub building: bool,
    pub num_keys: u64,
    pub case_insensitive: bool,
    pub null_count: u64,
    /// Share of multikey documents, in `[0.0, 1.0]` (`f32` bits).
    pub multikey_ratio: u32,
    pub histogram: Option<crate::index::btree::Histogram>,
    pub mcv: Option<crate::index::btree::MostCommonValues>,
}

} // verus!

verus! {

// ---------------------------------------------------------------------------
// Key text in messages
// ---------------------------------------------------------------------------

/// Text of a key in error messages: the variant's name with its payload in
/// brackets (strings quoted and escaped, float keys by their order rank,
/// compound keys as a bracketed list).
pub open spec fn key_debug(k: KeyView) -> Seq<char>
    decreases k,
{
    match k {
        KeyView::Null => "Null"@,
        KeyView::Bool(b) => if b {
            "Bool(true)"@
        } else {
            "Bool(false)"@
        },
        KeyView::Int(i) => "Int("@ + crate::text::decimal(i) + ")"@,
        KeyView::Float(r) => "Float(OrderedFloat("@ + crate::text::decimal(r as int) + "))"@,
        KeyView::Str(s) => "String("@ + crate::text::debug_text(s) + ")"@,
        KeyView::Compound(ks) => "Compound(["@ + keys_debug(ks) + "])"@,
        KeyView::Max => "MaxKey"@,
    }
}

/// Texts of the keys `ks`, separated by `", "`.
pub open spec fn keys_debug(ks: Seq<KeyView>) -> Seq<char>
    decreases ks,
{
    if ks.len() == 0 {
        Seq::empty()
    } else if ks.len() == 1 {
        key_debug(ks[0])
    } else {
        keys_debug(ks.drop_last()) + ", "@ + key_debug(ks.last())
    }
}

/// The text of `key` in error messages.
pub fn key_debug_text(key: &IndexKey) -> (s: String)
    ensures
        s@ == key_debug(key@),
    decreases key,
{
    match key {
        IndexKey::Null => "Null".to_string(),
        IndexKey::Bool(b) => if *b {
            "Bool(true)".to_string()
        } else {
            "Bool(false)".to_string()
        },
        IndexKey::Int(i) => {
            let t = crate::text::i64_text(*i);
            crate::text::concat3("Int(", t.as_str(), ")")
        },
        IndexKey::Float(f) => {
            let t = crate::text::u64_text(f.0);
            crate::text::concat3("Float(OrderedFloat(", t.as_str(), "))")
        },
        IndexKey::String(s) => {
            let t = crate::text::str_debug(s.as_str());
            crate::text::concat3("String(", t.as_str(), ")")
        },
        IndexKey::Compound(parts) => {
            let ghost xv = keys_view(parts@);
            proof {
                lemma_keys_view(parts@);
                assert(xv.subrange(0, 0) =~= Seq::<KeyView>::empty());
            }
            let mut out = String::new();
            let mut i: usize = 0;
            while i < parts.len()
                invariant
                    *key == IndexKey::Compound(*parts),
                    xv == keys_view(parts@),
                    xv.len() == parts@.len(),
                    forall|j: int| 0 <= j < parts@.len() ==> #[trigger] xv[j] == parts@[j]@,
                    i <= parts@.len(),
                    out@ == keys_debug(xv.subrange(0, i as int)),
                decreases parts@.len() - i,
            {
                proof {
                    assert(key->Compound_0 == *parts);
                    assert(decreases_to!(*key => key->Compound_0));
                    assert(decreases_to!(*parts => parts@));
                    assert(decreases_to!(parts@ => parts@[i as int]));
                }
                let t = key_debug_text(&parts[i]);
                let ghost pre = xv.subrange(0, i as int);
                proof {
                    assert(xv.subrange(0, i + 1).drop_last() =~= pre);
                    assert(xv.subrange(0, i + 1).last() == parts@[i as int]@);
                }
                if i > 0 {
                    out.append(", ");
                }
                out.append(t.as_str());
                proof {
                    if i == 0 {
                        assert(xv.subrange(0, 1)[0] == parts@[0]@);
                        assert(out@ =~= keys_debug(xv.subrange(0, 1)));
                    } else {
                        assert(out@ =~= keys_debug(xv.subrange(0, i + 1)));
                    }
                }
                i = i + 1;
            }
            proof {
                assert(xv.subrange(0, i as int) =~= xv);
            }
            crate::text::concat3("Compound([", out.as_str(), "])")
        },
        IndexKey::MaxKey => "MaxKey".to_string(),
    }
}

} // verus!
