//! The key ranges a query plan scans on one index, and counting or scanning
//! all of them together.
use vstd::prelude::*;
use std::collections::HashMap;
use crate::document::{DocIdView, DocumentId, compare_ids, doc_order, lemma_doc_order_basic, lemma_doc_order_lt_trans};
use crate::error::IronBaseError;
use crate::index::btree::{BPlusTree, Entry, RangeQueryMode, RangeQueryResult, ScanOrder};
use crate::index::key::{IndexKey, KeyView, key_kind_rank, kind_rank, prefix_bound, prefix_scan_upper_bound};
use crate::index::scan::{KeyRange, catalog_ids, docs_of, id_views, key_range, listed_pred, range_entries};

verus! {

/// One contiguous key interval to scan.
#[derive(Debug)]
pub struct SubRange {
    pub start: IndexKey,
    pub end: IndexKey,
    pub inclusive_start: bool,
    pub inclusive_end: bool,
}

impl SubRange {
    /// The interval as a key range.
    pub open spec fn range(&self) -> KeyRange {
        key_range(&self.start, &self.end, self.inclusive_start, self.inclusive_end)
    }
}

/// The key ranges a plan scans on one index: one interval, the integer and
/// float buckets of a numeric interval, or one per `$in` key or regex
/// prefix; `exact` when counting them without a post-filter answers the
/// query.
#[derive(Debug)]
pub struct PlanRanges {
    pub index_name: String,
    pub sub_ranges: Vec<SubRange>,
    pub exact: bool,
}

impl PlanRanges {
    /// Whether the ranges are one contiguous interval (what a streaming
    /// cursor can follow).
    pub fn single_contiguous(&self) -> (r: bool)
        ensures
            r == (self.sub_ranges@.len() == 1),
    {
        self.sub_ranges.len() == 1
    }

    /// Ranges of one interval.
    pub fn single(
        index_name: String,
        start: IndexKey,
        end: IndexKey,
        inclusive_start: bool,
        inclusive_end: bool,
        exact: bool,
    ) -> (r: Self)
        ensures
            r.index_name == index_name,
            r.exact == exact,
            r.sub_ranges@ == seq![SubRange { start, end, inclusive_start, inclusive_end }],
    {
        let mut sub_ranges: Vec<SubRange> = Vec::new();
        sub_ranges.push(SubRange { start, end, inclusive_start, inclusive_end });
        PlanRanges { index_name, sub_ranges, exact }
    }

    /// Ranges of several intervals.
    pub fn multi(index_name: String, sub_ranges: Vec<SubRange>, exact: bool) -> (r: Self)
        ensures
            r.index_name == index_name,
            r.sub_ranges == sub_ranges,
            r.exact == exact,
    {
        PlanRanges { index_name, sub_ranges, exact }
    }
}

/// How a query is answered from one index (`field` is the field the
/// plan's condition is on).
#[derive(Debug)]
pub enum QueryPlan {
    /// Equality on a key; on a compound index, on the key as its first field.
    IndexScan { index_name: String, field: String, key: IndexKey, is_compound: bool },
    /// A range between optional bounds.
    IndexRangeScan {
        index_name: String,
        field: String,
        start: Option<IndexKey>,
        end: Option<IndexKey>,
        inclusive_start: bool,
        inclusive_end: bool,
    },
    /// The strings with a prefix (an anchored regex); `exact` when the regex
    /// is the prefix alone.
    RegexPrefixScan { index_name: String, field: String, prefix: String, exact: bool, case_insensitive: bool },
    /// Every document a sparse index holds (`$exists: true`).
    SparseIndexScan { index_name: String, field: String },
    /// The strings with any of several prefixes.
    MultiRegexPrefixScan { index_name: String, field: String, prefixes: Vec<String> },
    /// Equality on any of several keys (`$in`).
    MultiValueScan { index_name: String, field: String, keys: Vec<IndexKey> },
}

impl QueryPlan {
    /// The index the plan scans (every plan names one).
    pub open spec fn index_name_spec(&self) -> Seq<char> {
        match self {
            QueryPlan::IndexScan { index_name, .. } => index_name@,
            QueryPlan::IndexRangeScan { index_name, .. } => index_name@,
            QueryPlan::RegexPrefixScan { index_name, .. } => index_name@,
            QueryPlan::SparseIndexScan { index_name, .. } => index_name@,
            QueryPlan::MultiRegexPrefixScan { index_name, .. } => index_name@,
            QueryPlan::MultiValueScan { index_name, .. } => index_name@,
        }
    }

    /// The index the plan scans.
    pub fn index_name(&self) -> (r: &String)
        ensures
            r@ == self.index_name_spec(),
    {
        match self {
            QueryPlan::IndexScan { index_name, .. } => index_name,
            QueryPlan::IndexRangeScan { index_name, .. } => index_name,
            QueryPlan::RegexPrefixScan { index_name, .. } => index_name,
            QueryPlan::SparseIndexScan { index_name, .. } => index_name,
            QueryPlan::MultiRegexPrefixScan { index_name, .. } => index_name,
            QueryPlan::MultiValueScan { index_name, .. } => index_name,
        }
    }
}

/// A numeric range split onto the two disjoint buckets numbers are keyed in
/// (every `Int` key sorts below every `Float` key): the integers in it, if
/// any, and the floats in it.
#[derive(Debug)]
pub struct NumericBuckets {
    pub int_range: Option<SubRange>,
    pub float_range: SubRange,
}

/// An interval by the views of its bounds.
pub open spec fn sub_view(r: SubRange) -> (KeyView, KeyView, bool, bool) {
    (r.start@, r.end@, r.inclusive_start, r.inclusive_end)
}

/// The intervals by the views of their bounds.
pub open spec fn sub_views(rs: Seq<SubRange>) -> Seq<(KeyView, KeyView, bool, bool)> {
    Seq::new(rs.len(), |i: int| sub_view(rs[i]))
}

pub open spec fn opt_key_view(k: Option<IndexKey>) -> Option<KeyView> {
    match k {
        Some(x) => Some(x@),
        None => None,
    }
}

/// The range of the compound keys whose first part is `k`, on an index of
/// `arity` fields (the point `k` on a single-field index).
pub open spec fn prefix_range_view(k: KeyView, arity: nat) -> (KeyView, KeyView) {
    if arity <= 1 {
        (k, k)
    } else {
        (
            KeyView::Compound(seq![k] + Seq::new((arity - 1) as nat, |i: int| KeyView::Null)),
            KeyView::Compound(seq![k] + Seq::new((arity - 1) as nat, |i: int| KeyView::Max)),
        )
    }
}

/// Interval (low, low inclusive, high, high inclusive, exact) of a range
/// scan whose bounds are not numbers: bounds of one kind as they are; one
/// string or boolean bound completed by the least or greatest key of its
/// kind, so the interval holds keys of that kind only; otherwise the widest
/// interval, which needs a post-filter.
pub open spec fn typed_bounds(s: Option<KeyView>, e: Option<KeyView>, is: bool, ie: bool) -> (KeyView, bool, KeyView, bool, bool) {
    if s is Some && e is Some && kind_rank(s->0) == kind_rank(e->0) {
        (s->0, is, e->0, ie, true)
    } else if s is None && e is Some && e->0 is Str {
        (KeyView::Str(Seq::empty()), true, e->0, ie, true)
    } else if s is None && e is Some && e->0 is Bool {
        (KeyView::Bool(false), true, e->0, ie, true)
    } else if s is Some && e is None && s->0 is Str {
        (s->0, is, KeyView::Max, true, true)
    } else if s is Some && e is None && s->0 is Bool {
        (s->0, is, KeyView::Bool(true), true, true)
    } else {
        (
            match s {
                Some(k) => k,
                None => KeyView::Null,
            },
            is,
            match e {
                Some(k) => k,
                None => KeyView::Max,
            },
            ie,
            false,
        )
    }
}

/// The intervals a plan scans on an index of `arity` fields, and whether
/// counting them answers the query; `numeric` is the numeric split of a
/// range scan's bounds, where they are numbers.
pub open spec fn plan_intervals(p: QueryPlan, arity: nat, numeric: Option<NumericBuckets>) -> (
    Seq<(KeyView, KeyView, bool, bool)>,
    bool,
) {
    match p {
        QueryPlan::IndexScan { key, is_compound, .. } => {
            let r = if is_compound {
                prefix_range_view(key@, arity)
            } else {
                (key@, key@)
            };
            (seq![(r.0, r.1, true, true)], true)
        },
        QueryPlan::IndexRangeScan { start, end, inclusive_start, inclusive_end, .. } => match numeric {
            Some(b) => (
                match b.int_range {
                    Some(ir) => seq![sub_view(ir), sub_view(b.float_range)],
                    None => seq![sub_view(b.float_range)],
                },
                true,
            ),
            None => {
                let t = typed_bounds(opt_key_view(start), opt_key_view(end), inclusive_start, inclusive_end);
                (seq![(t.0, t.2, t.1, t.3)], t.4)
            },
        },
        QueryPlan::RegexPrefixScan { prefix, exact, case_insensitive, .. } => (
            seq![(KeyView::Str(prefix@), prefix_bound(prefix@), true, false)],
            exact && !case_insensitive,
        ),
        QueryPlan::SparseIndexScan { .. } => (seq![(KeyView::Null, KeyView::Max, true, true)], true),
        QueryPlan::MultiRegexPrefixScan { prefixes, .. } => (
            Seq::new(prefixes@.len(), |i: int| (KeyView::Str(prefixes@[i]@), prefix_bound(prefixes@[i]@), true, false)),
            true,
        ),
        QueryPlan::MultiValueScan { keys, .. } => (
            Seq::new(keys@.len(), |i: int| (keys@[i]@, keys@[i]@, true, true)),
            true,
        ),
    }
}

/// Interval of a range scan whose bounds are not numbers (see [`typed_bounds`]).
fn typed_range(start: &Option<IndexKey>, end: &Option<IndexKey>, is: bool, ie: bool) -> (r: (SubRange, bool))
    ensures
        (r.0.start@, r.0.inclusive_start, r.0.end@, r.0.inclusive_end, r.1) == typed_bounds(
            opt_key_view(*start),
            opt_key_view(*end),
            is,
            ie,
        ),
{
    let (lo, lo_incl, hi, hi_incl, exact) = match (start, end) {
        (Some(s), Some(e)) if key_kind_rank(s) == key_kind_rank(e) => (s.copy_key(), is, e.copy_key(), ie, true),
        (None, Some(IndexKey::String(e))) => (IndexKey::String(String::new()), true, IndexKey::String(e.clone()), ie, true),
        (None, Some(IndexKey::Bool(e))) => (IndexKey::Bool(false), true, IndexKey::Bool(*e), ie, true),
        (Some(IndexKey::String(s)), None) => (IndexKey::String(s.clone()), is, IndexKey::MaxKey, true, true),
        (Some(IndexKey::Bool(s)), None) => (IndexKey::Bool(*s), is, IndexKey::Bool(true), true, true),
        _ => (
            match start {
                Some(s) => s.copy_key(),
                None => IndexKey::Null,
            },
            is,
            match end {
                Some(e) => e.copy_key(),
                None => IndexKey::MaxKey,
            },
            ie,
            false,
        ),
    };
    (SubRange { start: lo, end: hi, inclusive_start: lo_incl, inclusive_end: hi_incl }, exact)
}

impl PlanRanges {
    /// The key ranges a plan scans on `index`. A compound equality scan
    /// covers every key with the plan's key as first part; a range scan
    /// over numbers scans its integer and float buckets, `numeric` (the
    /// application splits the bounds, in floating point); other range
    /// scans are completed within the kind of their bound; a prefix scan is
    /// the half-open interval of its strings, exact only for a
    /// case-sensitive prefix-only regex.
    pub fn from_plan(plan: &QueryPlan, index: &BPlusTree, numeric: Option<NumericBuckets>) -> (r: PlanRanges)
        ensures
            r.index_name@ == plan.index_name_spec(),
            (sub_views(r.sub_ranges@), r.exact) == plan_intervals(*plan, index.meta().fields@.len(), numeric),
    {
        let index_name = plan.index_name().clone();
        match plan {
            QueryPlan::IndexScan { key, is_compound, .. } => {
                let (start, end) = if *is_compound {
                    index.build_prefix_range(key.copy_key())
                } else {
                    (key.copy_key(), key.copy_key())
                };
                let r = PlanRanges::single(index_name, start, end, true, true, true);
                proof {
                    assert(sub_views(r.sub_ranges@) =~= plan_intervals(*plan, index.meta().fields@.len(), numeric).0);
                }
                r
            },
            QueryPlan::IndexRangeScan { start, end, inclusive_start, inclusive_end, .. } => match numeric {
                Some(b) => {
                    let mut subs: Vec<SubRange> = Vec::new();
                    match b.int_range {
                        Some(ir) => subs.push(ir),
                        None => {},
                    }
                    subs.push(b.float_range);
                    let r = PlanRanges::multi(index_name, subs, true);
                    proof {
                        assert(sub_views(r.sub_ranges@) =~= plan_intervals(*plan, index.meta().fields@.len(), numeric).0);
                    }
                    r
                },
                None => {
                    let (sub, exact) = typed_range(start, end, *inclusive_start, *inclusive_end);
                    let r = PlanRanges::single(index_name, sub.start, sub.end, sub.inclusive_start, sub.inclusive_end, exact);
                    proof {
                        assert(sub_views(r.sub_ranges@) =~= plan_intervals(*plan, index.meta().fields@.len(), numeric).0);
                    }
                    r
                },
            },
            QueryPlan::RegexPrefixScan { prefix, exact, case_insensitive, .. } => {
                let start = IndexKey::String(prefix.clone());
                let end = prefix_scan_upper_bound(prefix.as_str());
                let r = PlanRanges::single(index_name, start, end, true, false, *exact && !*case_insensitive);
                proof {
                    assert(sub_views(r.sub_ranges@) =~= plan_intervals(*plan, index.meta().fields@.len(), numeric).0);
                }
                r
            },
            QueryPlan::SparseIndexScan { .. } => {
                let r = PlanRanges::single(index_name, IndexKey::Null, IndexKey::MaxKey, true, true, true);
                proof {
                    assert(sub_views(r.sub_ranges@) =~= plan_intervals(*plan, index.meta().fields@.len(), numeric).0);
                }
                r
            },
            QueryPlan::MultiRegexPrefixScan { prefixes, .. } => {
                let mut subs: Vec<SubRange> = Vec::new();
                let mut i: usize = 0;
                while i < prefixes.len()
                    invariant
                        i <= prefixes@.len(),
                        subs@.len() == i,
                        forall|j: int| 0 <= j < i ==> #[trigger] sub_view(subs@[j]) == (
                            KeyView::Str(prefixes@[j]@),
                            prefix_bound(prefixes@[j]@),
                            true,
                            false,
                        ),
                    decreases prefixes@.len() - i,
                {
                    let p = &prefixes[i];
                    subs.push(SubRange {
                        start: IndexKey::String(p.clone()),
                        end: prefix_scan_upper_bound(p.as_str()),
                        inclusive_start: true,
                        inclusive_end: false,
                    });
                    i = i + 1;
                }
                let r = PlanRanges::multi(index_name, subs, true);
                proof {
                    assert(sub_views(r.sub_ranges@) =~= plan_intervals(*plan, index.meta().fields@.len(), numeric).0);
                }
                r
            },
            QueryPlan::MultiValueScan { keys, .. } => {
                let mut subs: Vec<SubRange> = Vec::new();
                let mut i: usize = 0;
                while i < keys.len()
                    invariant
                        i <= keys@.len(),
                        subs@.len() == i,
                        forall|j: int| 0 <= j < i ==> #[trigger] sub_view(subs@[j]) == (keys@[j]@, keys@[j]@, true, true),
                    decreases keys@.len() - i,
                {
                    subs.push(SubRange {
                        start: keys[i].copy_key(),
                        end: keys[i].copy_key(),
                        inclusive_start: true,
                        inclusive_end: true,
                    });
                    i = i + 1;
                }
                let r = PlanRanges::multi(index_name, subs, true);
                proof {
                    assert(sub_views(r.sub_ranges@) =~= plan_intervals(*plan, index.meta().fields@.len(), numeric).0);
                }
                r
            },
        }
    }
}

/// Entries in range `r` whose documents are among `ids`, counted.
pub open spec fn validated_count(es: Seq<Entry>, r: KeyRange, ids: Set<DocIdView>) -> nat {
    range_entries(es, r).filter(listed_pred(ids)).len()
}

/// Sum over the intervals of their validated counts.
pub open spec fn ranges_validated_count(es: Seq<Entry>, subs: Seq<SubRange>, ids: Set<DocIdView>) -> nat
    decreases subs.len(),
{
    if subs.len() == 0 {
        0
    } else {
        ranges_validated_count(es, subs.drop_last(), ids) + validated_count(es, subs.last().range(), ids)
    }
}

/// Documents of the entries in any of the intervals.
pub open spec fn ranges_ids(es: Seq<Entry>, subs: Seq<SubRange>) -> Set<DocIdView>
    decreases subs.len(),
{
    if subs.len() == 0 {
        Set::empty()
    } else {
        ranges_ids(es, subs.drop_last()).union(docs_of(range_entries(es, subs.last().range())).to_set())
    }
}

/// Ids in strictly increasing order (so each once).
pub open spec fn ids_ascending(s: Seq<DocIdView>) -> bool {
    forall|i: int, j: int| 0 <= i < j < s.len() ==> doc_order(s[i], s[j]) < 0
}

/// A prefix of the intervals counts no more than all of them.
proof fn lemma_ranges_count_prefix(es: Seq<Entry>, subs: Seq<SubRange>, ids: Set<DocIdView>, k: int)
    requires
        0 <= k <= subs.len(),
    ensures
        ranges_validated_count(es, subs.take(k), ids) <= ranges_validated_count(es, subs, ids),
    decreases subs.len(),
{
    if k == subs.len() {
        assert(subs.take(k) =~= subs);
    } else {
        lemma_ranges_count_prefix(es, subs.drop_last(), ids, k);
        assert(subs.drop_last().take(k) =~= subs.take(k));
    }
}

/// Where `id` goes among ascending ids: the ids before the slot are below it;
/// the id at the slot is `id` itself (`true`) or above it.
fn slot_of(out: &Vec<DocumentId>, id: &DocumentId) -> (r: (usize, bool))
    ensures
        r.0 <= out@.len(),
        forall|a: int| 0 <= a < r.0 ==> doc_order(#[trigger] out@[a]@, id@) < 0,
        r.1 ==> r.0 < out@.len() && out@[r.0 as int]@ == id@,
        !r.1 && r.0 < out@.len() ==> doc_order(out@[r.0 as int]@, id@) > 0,
{
    let mut j: usize = 0;
    while j < out.len()
        invariant
            j <= out@.len(),
            forall|a: int| 0 <= a < j ==> doc_order(#[trigger] out@[a]@, id@) < 0,
        decreases out@.len() - j,
    {
        let c = compare_ids(&out[j], id);
        if c >= 0 {
            proof {
                lemma_doc_order_basic(out@[j as int]@, id@);
            }
            return (j, c == 0);
        }
        j = j + 1;
    }
    (j, false)
}

/// Add `id` to ascending distinct ids, unless it is there already.
fn insert_distinct(out: &mut Vec<DocumentId>, id: DocumentId)
    requires
        ids_ascending(id_views(old(out)@)),
    ensures
        ids_ascending(id_views(final(out)@)),
        id_views(final(out)@).to_set() == id_views(old(out)@).to_set().insert(id@),
{
    let ghost s = id_views(out@);
    let ghost x = id@;
    let (j, found) = slot_of(out, &id);
    if found {
        proof {
            assert(s[j as int] == x);
            assert(s.to_set().insert(x) =~= s.to_set());
        }
    } else {
        out.insert(j, id);
        proof {
            let n = id_views(out@);
            assert(n =~= s.insert(j as int, x));
            assert forall|p: int, q: int| 0 <= p < q < n.len() implies doc_order(n[p], n[q]) < 0 by {
                if q < j {
                    assert(n[p] == s[p] && n[q] == s[q]);
                } else if q == j {
                    assert(n[p] == s[p] && n[q] == x);
                    assert(s[p] == old(out)@[p]@);
                } else if p < j {
                    assert(n[p] == s[p] && n[q] == s[q - 1]);
                } else if p == j {
                    assert(n[p] == x && n[q] == s[q - 1]);
                    assert(s[j as int] == old(out)@[j as int]@);
                    lemma_doc_order_basic(s[j as int], x);
                    if q - 1 > j {
                        lemma_doc_order_lt_trans(x, s[j as int], s[q - 1]);
                    }
                } else {
                    assert(n[p] == s[p - 1] && n[q] == s[q - 1]);
                }
            }
            assert forall|y: DocIdView| n.to_set().contains(y) <==> s.to_set().insert(x).contains(y) by {
                if n.contains(y) {
                    let i = choose|i: int| 0 <= i < n.len() && n[i] == y;
                    if i < j {
                        assert(s[i] == y);
                    } else if i > j {
                        assert(s[i - 1] == y);
                    }
                }
                if s.contains(y) {
                    let i = choose|i: int| 0 <= i < s.len() && s[i] == y;
                    if i < j {
                        assert(n[i] == y);
                    } else {
                        assert(n[i + 1] == y);
                    }
                }
                if y == x {
                    assert(n[j as int] == x);
                }
            }
            assert(n.to_set() =~= s.to_set().insert(x));
        }
    }
}

impl BPlusTree {
    /// Documents the catalog lists, counted over every interval and summed
    /// (exact only for disjoint intervals of an index without array values).
    pub fn count_exact(&self, ranges: &PlanRanges, catalog: &HashMap<DocumentId, u64>) -> (c: usize)
        requires
            self.wf(),
            ranges_validated_count(self.entries(), ranges.sub_ranges@, catalog_ids(catalog@.dom())) <= usize::MAX,
        ensures
            c == ranges_validated_count(self.entries(), ranges.sub_ranges@, catalog_ids(catalog@.dom())),
    {
        let ghost es = self.entries();
        let ghost subs = ranges.sub_ranges@;
        let ghost ids = catalog_ids(catalog@.dom());
        let mut total: usize = 0;
        let mut i: usize = 0;
        proof {
            assert(subs.take(0) =~= Seq::<SubRange>::empty());
        }
        while i < ranges.sub_ranges.len()
            invariant
                self.wf(),
                es == self.entries(),
                subs == ranges.sub_ranges@,
                ids == catalog_ids(catalog@.dom()),
                i <= subs.len(),
                ranges_validated_count(es, subs, ids) <= usize::MAX,
                total == ranges_validated_count(es, subs.take(i as int), ids),
            decreases subs.len() - i,
        {
            let r = &ranges.sub_ranges[i];
            let c = self.count_range_validated(&r.start, &r.end, r.inclusive_start, r.inclusive_end, catalog);
            proof {
                assert(subs.take(i + 1).drop_last() =~= subs.take(i as int));
                assert(subs.take(i + 1).last() == subs[i as int]);
                lemma_ranges_count_prefix(es, subs, ids, i + 1);
            }
            total = total + c;
            i = i + 1;
        }
        proof {
            assert(subs.take(subs.len() as int) =~= subs);
        }
        total
    }

    /// Documents in any of the intervals: one interval's in scan order as
    /// they are; those of several (or none) in increasing id order, each once.
    pub fn scan_ranges(&self, ranges: &PlanRanges) -> (res: Result<Vec<DocumentId>, IronBaseError>)
        requires
            self.wf(),
        ensures
            res is Ok,
            ranges.sub_ranges@.len() == 1 ==> id_views(res->Ok_0@) == docs_of(
                range_entries(self.entries(), ranges.sub_ranges@[0].range()),
            ),
            ranges.sub_ranges@.len() != 1 ==> {
                &&& ids_ascending(id_views(res->Ok_0@))
                &&& id_views(res->Ok_0@).to_set() == ranges_ids(self.entries(), ranges.sub_ranges@)
            },
    {
        let ghost es = self.entries();
        let ghost subs = ranges.sub_ranges@;
        if ranges.sub_ranges.len() == 1 {
            let r = &ranges.sub_ranges[0];
            let docs = self.scan_all(r);
            return Ok(docs);
        }
        let mut out: Vec<DocumentId> = Vec::new();
        let mut i: usize = 0;
        proof {
            assert(subs.take(0) =~= Seq::<SubRange>::empty());
            assert(id_views(out@).to_set() =~= Set::<DocIdView>::empty());
        }
        while i < ranges.sub_ranges.len()
            invariant
                self.wf(),
                es == self.entries(),
                subs == ranges.sub_ranges@,
                i <= subs.len(),
                ids_ascending(id_views(out@)),
                id_views(out@).to_set() == ranges_ids(es, subs.take(i as int)),
            decreases subs.len() - i,
        {
            let r = &ranges.sub_ranges[i];
            let chunk = self.scan_all(r);
            let ghost before = id_views(out@).to_set();
            let ghost cv = id_views(chunk@);
            let mut j: usize = 0;
            proof {
                assert(cv.take(0).to_set() =~= Set::<DocIdView>::empty());
                assert(before.union(Set::<DocIdView>::empty()) =~= before);
            }
            while j < chunk.len()
                invariant
                    cv == id_views(chunk@),
                    j <= chunk@.len(),
                    ids_ascending(id_views(out@)),
                    id_views(out@).to_set() == before.union(cv.take(j as int).to_set()),
                decreases chunk@.len() - j,
            {
                let d = chunk[j].copy_id();
                insert_distinct(&mut out, d);
                proof {
                    assert(cv.take(j + 1) =~= cv.take(j as int).push(cv[j as int]));
                    cv.take(j as int).lemma_push_to_set_commute(cv[j as int]);
                    assert(before.union(cv.take(j + 1).to_set()) =~= before.union(cv.take(j as int).to_set()).insert(
                        cv[j as int],
                    ));
                }
                j = j + 1;
            }
            proof {
                assert(cv.take(chunk@.len() as int) =~= cv);
                assert(subs.take(i + 1).drop_last() =~= subs.take(i as int));
                assert(subs.take(i + 1).last() == subs[i as int]);
            }
            i = i + 1;
        }
        proof {
            assert(subs.take(subs.len() as int) =~= subs);
        }
        Ok(out)
    }

    /// Documents of the entries in one interval, in key order.
    fn scan_all(&self, r: &SubRange) -> (docs: Vec<DocumentId>)
        requires
            self.wf(),
        ensures
            id_views(docs@) == docs_of(range_entries(self.entries(), r.range())),
    {
        let mode = RangeQueryMode::Scan { skip: 0, limit: None, order: ScanOrder::Asc };
        let res = self.range_query(&r.start, &r.end, r.inclusive_start, r.inclusive_end, mode);
        proof {
            self.lemma_entries_sorted();
            let rs = range_entries(self.entries(), r.range());
            self.entries().lemma_filter_len(crate::index::scan::range_pred(r.range()));
            if rs.len() > 0 {
                assert(rs.subrange(0, rs.len() as int) =~= rs);
            } else {
                assert(rs =~= Seq::<Entry>::empty());
            }
        }
        match res {
            RangeQueryResult::Docs(d) => d,
            RangeQueryResult::Count(_) => Vec::new(),
        }
    }
}

} // verus!
