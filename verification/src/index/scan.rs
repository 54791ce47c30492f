//! Range queries over a B+ tree: counting and ordered scans with skip and
//! limit, visiting only the children whose key bounds meet the range.
use vstd::prelude::*;
use std::collections::HashMap;
use crate::document::{DocIdView, DocumentId};
use crate::index::btree::{
    BTreeNode, Entry, child_hi, child_lo, children_entries, entries_within, key_views, keys_sorted,
    leaf_entries, lemma_children_entries_append, lemma_children_entries_single, lemma_children_prefix_entries,
    lemma_wf_children_index,
    lemma_wf_entries, node_entries, partition_point, wf_node, within,
};
use crate::index::key::{
    IndexKey, KeyView, compare_keys, key_order, lemma_key_order_basic, lemma_key_order_lt_trans,
    lemma_key_order_trans,
};

verus! {

// ---------------------------------------------------------------------------
// Specification
// ---------------------------------------------------------------------------

/// Bounds of a key range: `start` and `end`, each inclusive or exclusive.
pub struct KeyRange {
    pub start: KeyView,
    pub end: KeyView,
    pub inclusive_start: bool,
    pub inclusive_end: bool,
}

pub open spec fn key_range(start: &IndexKey, end: &IndexKey, inclusive_start: bool, inclusive_end: bool) -> KeyRange {
    KeyRange { start: start@, end: end@, inclusive_start, inclusive_end }
}

/// `k` is not below the range's start.
pub open spec fn lower_ok(r: KeyRange, k: KeyView) -> bool {
    if r.inclusive_start {
        key_order(r.start, k) <= 0
    } else {
        key_order(r.start, k) < 0
    }
}

/// `k` is not above the range's end.
pub open spec fn upper_ok(r: KeyRange, k: KeyView) -> bool {
    if r.inclusive_end {
        key_order(k, r.end) <= 0
    } else {
        key_order(k, r.end) < 0
    }
}

pub open spec fn in_range(r: KeyRange, k: KeyView) -> bool {
    lower_ok(r, k) && upper_ok(r, k)
}

pub open spec fn range_pred(r: KeyRange) -> spec_fn(Entry) -> bool {
    |e: Entry| in_range(r, e.0)
}

/// The entries whose keys lie in the range, in their order.
pub open spec fn range_entries(es: Seq<Entry>, r: KeyRange) -> Seq<Entry> {
    es.filter(range_pred(r))
}

/// What a scan returns of `es`: the first `skip` dropped, then at most `limit` kept.
pub open spec fn window<A>(es: Seq<A>, skip: int, limit: int) -> Seq<A> {
    let rest = if skip < es.len() {
        es.subrange(skip, es.len() as int)
    } else {
        Seq::empty()
    };
    if rest.len() <= limit {
        rest
    } else {
        rest.subrange(0, limit)
    }
}

/// Document ids of a sequence of entries.
pub open spec fn docs_of(es: Seq<Entry>) -> Seq<DocIdView> {
    Seq::new(es.len(), |i: int| es[i].1)
}

/// Views of a sequence of document ids.
pub open spec fn id_views(v: Seq<DocumentId>) -> Seq<DocIdView> {
    Seq::new(v.len(), |i: int| v[i]@)
}

/// Views of a sequence of (key, document id) pairs.
pub open spec fn pair_views(v: Seq<(IndexKey, DocumentId)>) -> Seq<Entry> {
    Seq::new(v.len(), |i: int| (v[i].0@, v[i].1@))
}

/// Everything at or below the bound fails the range's start (no bound: nothing is left of it).
pub open spec fn left_out(r: KeyRange, lo: Option<KeyView>) -> bool {
    match lo {
        None => true,
        Some(l) => !lower_ok(r, l),
    }
}

pub open spec fn min_int(a: int, b: int) -> int {
    if a <= b {
        a
    } else {
        b
    }
}

// ---------------------------------------------------------------------------
// Lemmas on ranges and windows
// ---------------------------------------------------------------------------

pub proof fn lemma_range_add(a: Seq<Entry>, b: Seq<Entry>, r: KeyRange)
    ensures
        range_entries(a + b, r) == range_entries(a, r) + range_entries(b, r),
{
    Seq::filter_distributes_over_add(a, b, range_pred(r));
}

/// No entry in range: the range part is empty.
pub proof fn lemma_range_none(es: Seq<Entry>, r: KeyRange)
    requires
        forall|i: int| 0 <= i < es.len() ==> !in_range(r, #[trigger] es[i].0),
    ensures
        range_entries(es, r) == Seq::<Entry>::empty(),
    decreases es.len(),
{
    reveal(Seq::filter);
    if es.len() > 0 {
        lemma_range_none(es.drop_last(), r);
        assert(!in_range(r, es[es.len() - 1].0));
    }
}

/// Every entry in range: the range part is everything.
pub proof fn lemma_range_all(es: Seq<Entry>, r: KeyRange)
    requires
        forall|i: int| 0 <= i < es.len() ==> in_range(r, #[trigger] es[i].0),
    ensures
        range_entries(es, r) == es,
    decreases es.len(),
{
    reveal(Seq::filter);
    if es.len() > 0 {
        lemma_range_all(es.drop_last(), r);
        assert(in_range(r, es[es.len() - 1].0));
        assert(es.drop_last().push(es.last()) =~= es);
    }
}

pub proof fn lemma_range_single(e: Entry, r: KeyRange)
    ensures
        range_entries(seq![e], r) == (if in_range(r, e.0) {
            seq![e]
        } else {
            Seq::<Entry>::empty()
        }),
{
    reveal_with_fuel(Seq::filter, 2);
    assert(seq![e].drop_last() =~= Seq::<Entry>::empty());
}

/// A sorted run whose entries in range are exactly positions `a .. b`.
proof fn lemma_range_interval(es: Seq<Entry>, r: KeyRange, a: int, b: int)
    requires
        0 <= a <= es.len(),
        0 <= b <= es.len(),
        forall|i: int| 0 <= i < es.len() ==> (in_range(r, #[trigger] es[i].0) <==> (a <= i < b)),
    ensures
        range_entries(es, r) == es.subrange(a, if b < a { a } else { b }),
{
    let m = if b < a { a } else { b };
    let p0 = es.subrange(0, a);
    let p1 = es.subrange(a, m);
    let p2 = es.subrange(m, es.len() as int);
    assert(es =~= p0 + p1 + p2);
    assert forall|i: int| 0 <= i < p0.len() implies !in_range(r, #[trigger] p0[i].0) by {
        assert(p0[i] == es[i]);
    }
    assert forall|i: int| 0 <= i < p1.len() implies in_range(r, #[trigger] p1[i].0) by {
        assert(p1[i] == es[a + i]);
    }
    assert forall|i: int| 0 <= i < p2.len() implies !in_range(r, #[trigger] p2[i].0) by {
        assert(p2[i] == es[m + i]);
    }
    lemma_range_none(p0, r);
    lemma_range_all(p1, r);
    lemma_range_none(p2, r);
    lemma_range_add(p0 + p1, p2, r);
    lemma_range_add(p0, p1, r);
    assert(Seq::<Entry>::empty() + p1 + Seq::<Entry>::empty() =~= p1);
}

/// Entries within `[lo, hi]` miss the range when `lo` is above its end or
/// `hi` below its start.
proof fn lemma_range_pruned(es: Seq<Entry>, r: KeyRange, lo: Option<KeyView>, hi: Option<KeyView>)
    requires
        entries_within(es, lo, hi),
        (lo is Some && key_order(lo->0, r.end) > 0) || (hi is Some && key_order(hi->0, r.start) < 0),
    ensures
        range_entries(es, r) == Seq::<Entry>::empty(),
{
    assert forall|i: int| 0 <= i < es.len() implies !in_range(r, #[trigger] es[i].0) by {
        assert(within(es[i].0, lo, hi));
        let k = es[i].0;
        if lo is Some && key_order(lo->0, r.end) > 0 {
            lemma_key_order_basic(lo->0, r.end);
            lemma_key_order_lt_trans(r.end, lo->0, k);
            lemma_key_order_basic(r.end, k);
        } else {
            lemma_key_order_lt_trans(k, hi->0, r.start);
            lemma_key_order_basic(k, r.start);
        }
    }
    lemma_range_none(es, r);
}

pub proof fn lemma_window_len<A>(es: Seq<A>, skip: int, limit: int)
    requires
        0 <= skip,
        0 <= limit,
    ensures
        window(es, skip, limit).len() <= limit,
{
}

/// One more entry: it joins the window once `skip` entries came before it
/// and the window is not yet full.
pub proof fn lemma_window_push<A>(es: Seq<A>, e: A, skip: int, limit: int)
    requires
        0 <= skip,
        0 <= limit,
    ensures
        window(es.push(e), skip, limit) == (if es.len() >= skip && window(es, skip, limit).len() < limit {
            window(es, skip, limit).push(e)
        } else {
            window(es, skip, limit)
        }),
{
    let n = es.len() as int;
    let w = window(es, skip, limit);
    if skip < n {
        assert(es.push(e).subrange(skip, n + 1) =~= es.subrange(skip, n).push(e));
        if n - skip < limit {
            assert(window(es.push(e), skip, limit) =~= w.push(e));
        } else {
            assert(es.push(e).subrange(skip, n + 1).subrange(0, limit) =~= es.subrange(skip, n).subrange(
                0,
                limit,
            ));
            if n - skip == limit {
                assert(es.subrange(skip, n).subrange(0, limit) =~= es.subrange(skip, n));
            }
        }
    } else if skip == n {
        assert(es.push(e).subrange(skip, n + 1) =~= seq![e]);
        if limit > 0 {
            assert(window(es.push(e), skip, limit) =~= w.push(e));
        } else {
            assert(seq![e].subrange(0, 0) =~= Seq::<A>::empty());
        }
    }
}

/// A full window stays as it is whatever follows.
pub proof fn lemma_window_full<A>(a: Seq<A>, b: Seq<A>, skip: int, limit: int)
    requires
        0 <= skip,
        0 <= limit,
        window(a, skip, limit).len() == limit,
    ensures
        window(a + b, skip, limit) == window(a, skip, limit),
{
    let n = a.len() as int;
    if limit == 0 {
        assert(window(a + b, skip, limit) =~= Seq::<A>::empty());
    } else {
        assert(skip < n);
        assert((a + b).subrange(skip, (a + b).len() as int).subrange(0, limit) =~= a.subrange(skip, n).subrange(
            0,
            limit,
        ));
        if n - skip == limit {
            assert(a.subrange(skip, n).subrange(0, limit) =~= a.subrange(skip, n));
        }
    }
}

pub proof fn lemma_docs_push(es: Seq<Entry>, e: Entry)
    ensures
        docs_of(es.push(e)) == docs_of(es).push(e.1),
{
    assert(docs_of(es.push(e)) =~= docs_of(es).push(e.1));
}

} // verus!

verus! {

// ---------------------------------------------------------------------------
// Counting
// ---------------------------------------------------------------------------

pub(crate) proof fn lemma_prefix_step(cs: Seq<Box<BTreeNode>>, i: int)
    requires
        0 <= i < cs.len(),
    ensures
        children_entries(cs.subrange(0, i + 1)) == children_entries(cs.subrange(0, i)) + node_entries(*cs[i]),
        children_entries(cs.subrange(0, i + 1)).len() <= children_entries(cs).len(),
{
    assert(cs.subrange(0, i + 1).subrange(0, i) =~= cs.subrange(0, i));
    assert(cs.subrange(0, i + 1)[i] == cs[i]);
    assert(cs =~= cs.subrange(0, i + 1) + cs.subrange(i + 1, cs.len() as int));
    lemma_children_entries_append(cs.subrange(0, i + 1), cs.subrange(i + 1, cs.len() as int));
}

/// Positions `s .. e` of a sorted leaf hold exactly its keys in the range.
fn leaf_bounds(
    keys: &Vec<IndexKey>,
    start: &IndexKey,
    end: &IndexKey,
    inclusive_start: bool,
    inclusive_end: bool,
) -> (res: (usize, usize))
    requires
        keys_sorted(key_views(keys@)),
    ensures
        res.0 <= keys@.len(),
        res.1 <= keys@.len(),
        forall|i: int|
            0 <= i < keys@.len() ==> (lower_ok(key_range(start, end, inclusive_start, inclusive_end), #[trigger] keys@[i]@)
                <==> res.0 <= i),
        forall|i: int|
            0 <= i < keys@.len() ==> (upper_ok(key_range(start, end, inclusive_start, inclusive_end), #[trigger] keys@[i]@)
                <==> i < res.1),
        forall|i: int|
            0 <= i < keys@.len() ==> (in_range(
                key_range(start, end, inclusive_start, inclusive_end),
                #[trigger] keys@[i]@,
            ) <==> (res.0 <= i < res.1)),
{
    let s = partition_point(keys, start, inclusive_start);
    let e = partition_point(keys, end, !inclusive_end);
    proof {
        let r = key_range(start, end, inclusive_start, inclusive_end);
        assert forall|i: int| 0 <= i < keys@.len() implies (lower_ok(r, #[trigger] keys@[i]@) <==> s <= i) && (upper_ok(r, keys@[i]@) <==> i < e) by {
            lemma_key_order_basic(keys@[i]@, start@);
            lemma_key_order_basic(keys@[i]@, end@);
        }
    }
    (s, e)
}

/// Number of entries below `node` whose keys lie in the range.
pub(crate) fn count_range(
    node: &BTreeNode,
    start: &IndexKey,
    end: &IndexKey,
    inclusive_start: bool,
    inclusive_end: bool,
    Ghost(lo): Ghost<Option<KeyView>>,
    Ghost(hi): Ghost<Option<KeyView>>,
) -> (c: usize)
    requires
        wf_node(*node, lo, hi),
        node_entries(*node).len() <= usize::MAX,
    ensures
        c == range_entries(node_entries(*node), key_range(start, end, inclusive_start, inclusive_end)).len(),
    decreases node,
{
    let ghost r = key_range(start, end, inclusive_start, inclusive_end);
    match node {
        BTreeNode::Leaf(leaf) => {
            let (s, e) = leaf_bounds(&leaf.keys, start, end, inclusive_start, inclusive_end);
            proof {
                let es = leaf_entries(*leaf);
                assert forall|i: int| 0 <= i < es.len() implies (in_range(r, #[trigger] es[i].0) <==> (s <= i < e)) by {
                    assert(es[i].0 == leaf.keys@[i]@);
                }
                lemma_range_interval(es, r, s as int, e as int);
            }
            if e > s {
                e - s
            } else {
                0
            }
        },
        BTreeNode::Internal(internal) => {
            let ghost ks = key_views(internal.keys@);
            let ghost cs = internal.children@;
            proof {
                lemma_wf_children_index(cs, ks, lo, hi);
                assert(cs.subrange(0, 0) =~= Seq::<Box<BTreeNode>>::empty());
                lemma_range_none(Seq::<Entry>::empty(), r);
            }
            let mut count: usize = 0;
            let mut i: usize = 0;
            while i < internal.children.len()
                invariant
                    cs == internal.children@,
                    ks == key_views(internal.keys@),
                    cs.len() == ks.len() + 1,
                    *node == BTreeNode::Internal(*internal),
                    node_entries(*node) == children_entries(cs),
                    children_entries(cs).len() <= usize::MAX,
                    forall|j: int| 0 <= j < cs.len() ==> #[trigger] wf_node(*cs[j], child_lo(ks, lo, j), child_hi(ks, hi, j)),
                    r == key_range(start, end, inclusive_start, inclusive_end),
                    i <= cs.len(),
                    count == range_entries(children_entries(cs.subrange(0, i as int)), r).len(),
                decreases cs.len() - i,
            {
                let ghost before = children_entries(cs.subrange(0, i as int));
                let ghost ce = node_entries(*cs[i as int]);
                proof {
                    lemma_prefix_step(cs, i as int);
                    lemma_range_add(before, ce, r);
                    Seq::lemma_filter_len(before + ce, range_pred(r));
                    lemma_wf_entries(*cs[i as int], child_lo(ks, lo, i as int), child_hi(ks, hi, i as int));
                    assert(decreases_to!(*node => node->Internal_0));
                    assert(decreases_to!(*internal => internal.children));
                    assert(decreases_to!(internal.children => internal.children@));
                    assert(decreases_to!(internal.children@ => internal.children@[i as int]));
                }
                let min_ok = i == 0 || compare_keys(&internal.keys[i - 1], end) <= 0;
                let max_ok = i >= internal.keys.len() || compare_keys(&internal.keys[i], start) >= 0;
                if min_ok && max_ok {
                    let c = count_range(
                        &internal.children[i],
                        start,
                        end,
                        inclusive_start,
                        inclusive_end,
                        Ghost(child_lo(ks, lo, i as int)),
                        Ghost(child_hi(ks, hi, i as int)),
                    );
                    count = count + c;
                } else {
                    proof {
                        lemma_range_pruned(ce, r, child_lo(ks, lo, i as int), child_hi(ks, hi, i as int));
                    }
                }
                i = i + 1;
            }
            proof {
                assert(cs.subrange(0, cs.len() as int) =~= cs);
            }
            count
        },
    }
}

} // verus!

verus! {

// ---------------------------------------------------------------------------
// Ascending scans
// ---------------------------------------------------------------------------

/// Skip count after `n` entries in range went by.
pub open spec fn skipped_after(skip: usize, n: int) -> int {
    min_int(skip as int, n)
}

/// Ascending scan below `node`, continuing a scan that has already passed the
/// in-range entries `before`: adds the document ids of the window of
/// `before` followed by this node's in-range entries. Returns `true` when the
/// window filled up, so that nothing after it can change the result.
pub(crate) fn scan_asc(
    node: &BTreeNode,
    start: &IndexKey,
    end: &IndexKey,
    inclusive_start: bool,
    inclusive_end: bool,
    results: &mut Vec<DocumentId>,
    skipped: &mut usize,
    skip: usize,
    limit: usize,
    Ghost(lo): Ghost<Option<KeyView>>,
    Ghost(hi): Ghost<Option<KeyView>>,
    Ghost(before): Ghost<Seq<Entry>>,
) -> (full: bool)
    requires
        wf_node(*node, lo, hi),
        *old(skipped) == skipped_after(skip, before.len() as int),
        id_views(old(results)@) == docs_of(window(before, skip as int, limit as int)),
    ensures
        ({
            let after = before + range_entries(
                node_entries(*node),
                key_range(start, end, inclusive_start, inclusive_end),
            );
            &&& id_views(final(results)@) == docs_of(window(after, skip as int, limit as int))
            &&& !full ==> *final(skipped) == skipped_after(skip, after.len() as int)
            &&& full ==> final(results)@.len() == limit
        }),
    decreases node,
{
    let ghost r = key_range(start, end, inclusive_start, inclusive_end);
    match node {
        BTreeNode::Leaf(leaf) => {
            let ghost es = leaf_entries(*leaf);
            let (s, e) = leaf_bounds(&leaf.keys, start, end, inclusive_start, inclusive_end);
            proof {
                assert forall|i: int| 0 <= i < es.len() implies (in_range(r, #[trigger] es[i].0) <==> (s <= i < e)) by {
                    assert(es[i].0 == leaf.keys@[i]@);
                }
                lemma_range_interval(es, r, s as int, e as int);
                assert(es.subrange(s as int, s as int) =~= Seq::<Entry>::empty());
                assert(before + Seq::<Entry>::empty() =~= before);
            }
            let mut idx = s;
            while idx < e
                invariant
                    es == leaf_entries(*leaf),
                    node_entries(*node) == es,
                    r == key_range(start, end, inclusive_start, inclusive_end),
                    leaf.keys@.len() == leaf.document_ids@.len(),
                    s <= idx,
                    idx <= e || idx == s,
                    e <= es.len(),
                    range_entries(es, r) == es.subrange(s as int, if e < s { s as int } else { e as int }),
                    *skipped == skipped_after(skip, (before + es.subrange(s as int, idx as int)).len() as int),
                    id_views(results@) == docs_of(window(before + es.subrange(s as int, idx as int), skip as int, limit as int)),
                decreases e - idx,
            {
                let ghost cur = before + es.subrange(s as int, idx as int);
                let ghost ent = es[idx as int];
                proof {
                    assert(before + es.subrange(s as int, idx + 1) =~= cur.push(ent));
                    lemma_window_push(cur, ent, skip as int, limit as int);
                    lemma_window_len(cur, skip as int, limit as int);
                    lemma_docs_push(window(cur, skip as int, limit as int), ent);
                }
                if *skipped < skip {
                    *skipped = *skipped + 1;
                } else if results.len() >= limit {
                    proof {
                        assert(id_views(results@).len() == results@.len());
                        assert(results@.len() == limit);
                        let rest = es.subrange(idx as int, e as int);
                        assert(cur + rest =~= before + es.subrange(s as int, e as int));
                        lemma_window_full(cur, rest, skip as int, limit as int);
                    }
                    return true;
                } else {
                    let d = leaf.document_ids[idx].copy_id();
                    let ghost prev = results@;
                    results.push(d);
                    proof {
                        assert(id_views(results@) =~= id_views(prev).push(ent.1)) by {
                            assert(ent.1 == leaf.document_ids@[idx as int]@);
                        }
                    }
                }
                idx = idx + 1;
            }
            false
        },
        BTreeNode::Internal(internal) => {
            let ghost ks = key_views(internal.keys@);
            let ghost cs = internal.children@;
            proof {
                lemma_wf_children_index(cs, ks, lo, hi);
                assert(cs.subrange(0, 0) =~= Seq::<Box<BTreeNode>>::empty());
                lemma_range_none(Seq::<Entry>::empty(), r);
                assert(before + Seq::<Entry>::empty() =~= before);
            }
            let mut i: usize = 0;
            while i < internal.children.len()
                invariant
                    cs == internal.children@,
                    ks == key_views(internal.keys@),
                    cs.len() == ks.len() + 1,
                    *node == BTreeNode::Internal(*internal),
                    node_entries(*node) == children_entries(cs),
                    forall|j: int| 0 <= j < cs.len() ==> #[trigger] wf_node(*cs[j], child_lo(ks, lo, j), child_hi(ks, hi, j)),
                    r == key_range(start, end, inclusive_start, inclusive_end),
                    i <= cs.len(),
                    *skipped == skipped_after(skip, (before + range_entries(children_entries(cs.subrange(0, i as int)), r)).len() as int),
                    id_views(results@) == docs_of(window(before + range_entries(children_entries(cs.subrange(0, i as int)), r), skip as int, limit as int)),
                decreases cs.len() - i,
            {
                let ghost pre = range_entries(children_entries(cs.subrange(0, i as int)), r);
                let ghost ce = node_entries(*cs[i as int]);
                proof {
                    lemma_prefix_step(cs, i as int);
                    lemma_range_add(children_entries(cs.subrange(0, i as int)), ce, r);
                    lemma_wf_entries(*cs[i as int], child_lo(ks, lo, i as int), child_hi(ks, hi, i as int));
                    assert(before + pre + range_entries(ce, r) =~= before + (pre + range_entries(ce, r)));
                    assert(decreases_to!(*node => node->Internal_0));
                    assert(decreases_to!(*internal => internal.children));
                    assert(decreases_to!(internal.children => internal.children@));
                    assert(decreases_to!(internal.children@ => internal.children@[i as int]));
                }
                let min_ok = i == 0 || compare_keys(&internal.keys[i - 1], end) <= 0;
                let max_ok = i >= internal.keys.len() || compare_keys(&internal.keys[i], start) >= 0;
                if min_ok && max_ok {
                    let full = scan_asc(
                        &internal.children[i],
                        start,
                        end,
                        inclusive_start,
                        inclusive_end,
                        results,
                        skipped,
                        skip,
                        limit,
                        Ghost(child_lo(ks, lo, i as int)),
                        Ghost(child_hi(ks, hi, i as int)),
                        Ghost(before + pre),
                    );
                    if full {
                        proof {
                            let done = before + pre + range_entries(ce, r);
                            assert(id_views(results@).len() == results@.len());
                            assert(docs_of(window(done, skip as int, limit as int)).len() == window(done, skip as int, limit as int).len());
                            let rest = range_entries(children_entries(cs.subrange(i + 1, cs.len() as int)), r);
                            assert(cs =~= cs.subrange(0, i + 1) + cs.subrange(i + 1, cs.len() as int));
                            lemma_children_entries_append(cs.subrange(0, i + 1), cs.subrange(i + 1, cs.len() as int));
                            lemma_range_add(children_entries(cs.subrange(0, i + 1)), children_entries(cs.subrange(i + 1, cs.len() as int)), r);
                            assert(done + rest =~= before + range_entries(children_entries(cs), r));
                            lemma_window_full(done, rest, skip as int, limit as int);
                        }
                        return true;
                    }
                } else {
                    proof {
                        lemma_range_pruned(ce, r, child_lo(ks, lo, i as int), child_hi(ks, hi, i as int));
                        assert(pre + Seq::<Entry>::empty() =~= pre);
                    }
                }
                i = i + 1;
            }
            proof {
                assert(cs.subrange(0, cs.len() as int) =~= cs);
            }
            false
        },
    }
}


/// Ascending scan below `node` collecting (key, document id) pairs; as
/// [`scan_asc`], continuing after the in-range entries `before`: adds the window of
/// `before` followed by this node's in-range entries. Returns `true` when the
/// window filled up, so that nothing after it can change the result.
pub(crate) fn scan_asc_pairs(
    node: &BTreeNode,
    start: &IndexKey,
    end: &IndexKey,
    inclusive_start: bool,
    inclusive_end: bool,
    results: &mut Vec<(IndexKey, DocumentId)>,
    skipped: &mut usize,
    skip: usize,
    limit: usize,
    Ghost(lo): Ghost<Option<KeyView>>,
    Ghost(hi): Ghost<Option<KeyView>>,
    Ghost(before): Ghost<Seq<Entry>>,
) -> (full: bool)
    requires
        wf_node(*node, lo, hi),
        *old(skipped) == skipped_after(skip, before.len() as int),
        pair_views(old(results)@) == window(before, skip as int, limit as int),
    ensures
        ({
            let after = before + range_entries(
                node_entries(*node),
                key_range(start, end, inclusive_start, inclusive_end),
            );
            &&& pair_views(final(results)@) == window(after, skip as int, limit as int)
            &&& !full ==> *final(skipped) == skipped_after(skip, after.len() as int)
            &&& full ==> final(results)@.len() == limit
        }),
    decreases node,
{
    let ghost r = key_range(start, end, inclusive_start, inclusive_end);
    match node {
        BTreeNode::Leaf(leaf) => {
            let ghost es = leaf_entries(*leaf);
            let (s, e) = leaf_bounds(&leaf.keys, start, end, inclusive_start, inclusive_end);
            proof {
                assert forall|i: int| 0 <= i < es.len() implies (in_range(r, #[trigger] es[i].0) <==> (s <= i < e)) by {
                    assert(es[i].0 == leaf.keys@[i]@);
                }
                lemma_range_interval(es, r, s as int, e as int);
                assert(es.subrange(s as int, s as int) =~= Seq::<Entry>::empty());
                assert(before + Seq::<Entry>::empty() =~= before);
            }
            let mut idx = s;
            while idx < e
                invariant
                    es == leaf_entries(*leaf),
                    node_entries(*node) == es,
                    r == key_range(start, end, inclusive_start, inclusive_end),
                    leaf.keys@.len() == leaf.document_ids@.len(),
                    s <= idx,
                    idx <= e || idx == s,
                    e <= es.len(),
                    range_entries(es, r) == es.subrange(s as int, if e < s { s as int } else { e as int }),
                    *skipped == skipped_after(skip, (before + es.subrange(s as int, idx as int)).len() as int),
                    pair_views(results@) == window(before + es.subrange(s as int, idx as int), skip as int, limit as int),
                decreases e - idx,
            {
                let ghost cur = before + es.subrange(s as int, idx as int);
                let ghost ent = es[idx as int];
                proof {
                    assert(before + es.subrange(s as int, idx + 1) =~= cur.push(ent));
                    lemma_window_push(cur, ent, skip as int, limit as int);
                    lemma_window_len(cur, skip as int, limit as int);
                }
                if *skipped < skip {
                    *skipped = *skipped + 1;
                } else if results.len() >= limit {
                    proof {
                        assert(pair_views(results@).len() == results@.len());
                        assert(results@.len() == limit);
                        let rest = es.subrange(idx as int, e as int);
                        assert(cur + rest =~= before + es.subrange(s as int, e as int));
                        lemma_window_full(cur, rest, skip as int, limit as int);
                    }
                    return true;
                } else {
                    let k = leaf.keys[idx].copy_key();
                    let d = leaf.document_ids[idx].copy_id();
                    let ghost prev = results@;
                    results.push((k, d));
                    proof {
                        assert(pair_views(results@) =~= pair_views(prev).push(ent)) by {
                            assert(ent == (leaf.keys@[idx as int]@, leaf.document_ids@[idx as int]@));
                        }
                    }
                }
                idx = idx + 1;
            }
            false
        },
        BTreeNode::Internal(internal) => {
            let ghost ks = key_views(internal.keys@);
            let ghost cs = internal.children@;
            proof {
                lemma_wf_children_index(cs, ks, lo, hi);
                assert(cs.subrange(0, 0) =~= Seq::<Box<BTreeNode>>::empty());
                lemma_range_none(Seq::<Entry>::empty(), r);
                assert(before + Seq::<Entry>::empty() =~= before);
            }
            let mut i: usize = 0;
            while i < internal.children.len()
                invariant
                    cs == internal.children@,
                    ks == key_views(internal.keys@),
                    cs.len() == ks.len() + 1,
                    *node == BTreeNode::Internal(*internal),
                    node_entries(*node) == children_entries(cs),
                    forall|j: int| 0 <= j < cs.len() ==> #[trigger] wf_node(*cs[j], child_lo(ks, lo, j), child_hi(ks, hi, j)),
                    r == key_range(start, end, inclusive_start, inclusive_end),
                    i <= cs.len(),
                    *skipped == skipped_after(skip, (before + range_entries(children_entries(cs.subrange(0, i as int)), r)).len() as int),
                    pair_views(results@) == window(before + range_entries(children_entries(cs.subrange(0, i as int)), r), skip as int, limit as int),
                decreases cs.len() - i,
            {
                let ghost pre = range_entries(children_entries(cs.subrange(0, i as int)), r);
                let ghost ce = node_entries(*cs[i as int]);
                proof {
                    lemma_prefix_step(cs, i as int);
                    lemma_range_add(children_entries(cs.subrange(0, i as int)), ce, r);
                    lemma_wf_entries(*cs[i as int], child_lo(ks, lo, i as int), child_hi(ks, hi, i as int));
                    assert(before + pre + range_entries(ce, r) =~= before + (pre + range_entries(ce, r)));
                    assert(decreases_to!(*node => node->Internal_0));
                    assert(decreases_to!(*internal => internal.children));
                    assert(decreases_to!(internal.children => internal.children@));
                    assert(decreases_to!(internal.children@ => internal.children@[i as int]));
                }
                let min_ok = i == 0 || compare_keys(&internal.keys[i - 1], end) <= 0;
                let max_ok = i >= internal.keys.len() || compare_keys(&internal.keys[i], start) >= 0;
                if min_ok && max_ok {
                    let full = scan_asc_pairs(
                        &internal.children[i],
                        start,
                        end,
                        inclusive_start,
                        inclusive_end,
                        results,
                        skipped,
                        skip,
                        limit,
                        Ghost(child_lo(ks, lo, i as int)),
                        Ghost(child_hi(ks, hi, i as int)),
                        Ghost(before + pre),
                    );
                    if full {
                        proof {
                            let done = before + pre + range_entries(ce, r);
                            assert(pair_views(results@).len() == results@.len());
                            let rest = range_entries(children_entries(cs.subrange(i + 1, cs.len() as int)), r);
                            assert(cs =~= cs.subrange(0, i + 1) + cs.subrange(i + 1, cs.len() as int));
                            lemma_children_entries_append(cs.subrange(0, i + 1), cs.subrange(i + 1, cs.len() as int));
                            lemma_range_add(children_entries(cs.subrange(0, i + 1)), children_entries(cs.subrange(i + 1, cs.len() as int)), r);
                            assert(done + rest =~= before + range_entries(children_entries(cs), r));
                            lemma_window_full(done, rest, skip as int, limit as int);
                        }
                        return true;
                    }
                } else {
                    proof {
                        lemma_range_pruned(ce, r, child_lo(ks, lo, i as int), child_hi(ks, hi, i as int));
                        assert(pre + Seq::<Entry>::empty() =~= pre);
                    }
                }
                i = i + 1;
            }
            proof {
                assert(cs.subrange(0, cs.len() as int) =~= cs);
            }
            false
        },
    }
}

} // verus!

verus! {

// ---------------------------------------------------------------------------
// Descending scans
// ---------------------------------------------------------------------------

/// Number of results after which the descending walk stops: the limit, and
/// at least one (the walk tests the limit after each added result, so a
/// limit of zero is answered before the walk starts).
pub open spec fn desc_cap(limit: usize) -> int {
    if limit == 0 {
        1
    } else {
        limit as int
    }
}

pub proof fn lemma_reverse_add<A>(a: Seq<A>, b: Seq<A>)
    ensures
        (a + b).reverse() == b.reverse() + a.reverse(),
{
    assert((a + b).reverse() =~= b.reverse() + a.reverse());
}

/// A key at or below one that fails the range's start fails it too.
pub proof fn lemma_lower_fails_below(r: KeyRange, a: KeyView, b: KeyView)
    requires
        key_order(a, b) <= 0,
        !lower_ok(r, b),
    ensures
        !lower_ok(r, a),
{
    if lower_ok(r, a) {
        lemma_key_order_trans(r.start, a, b);
        if !r.inclusive_start {
            lemma_key_order_lt_trans(r.start, a, b);
        }
    }
}

proof fn lemma_suffix_step(cs: Seq<Box<BTreeNode>>, i: int)
    requires
        0 <= i < cs.len(),
    ensures
        children_entries(cs.subrange(i, cs.len() as int)) == node_entries(*cs[i]) + children_entries(
            cs.subrange(i + 1, cs.len() as int),
        ),
{
    assert(cs.subrange(i, cs.len() as int) =~= seq![cs[i]] + cs.subrange(i + 1, cs.len() as int));
    lemma_children_entries_append(seq![cs[i]], cs.subrange(i + 1, cs.len() as int));
    lemma_children_entries_single(cs[i]);
}

/// Descending scan below `node`, continuing a scan that has already passed
/// the in-range entries `before`: adds the document ids of the window of
/// `before` followed by this node's in-range entries from the largest key
/// down. Returns `false` when the scan is over: the window is full, or a key
/// below the range's start was met, so nothing left of `lo` is in range.
pub(crate) fn scan_desc(
    node: &BTreeNode,
    start: &IndexKey,
    end: &IndexKey,
    inclusive_start: bool,
    inclusive_end: bool,
    results: &mut Vec<DocumentId>,
    skipped: &mut usize,
    skip: usize,
    limit: usize,
    Ghost(lo): Ghost<Option<KeyView>>,
    Ghost(hi): Ghost<Option<KeyView>>,
    Ghost(before): Ghost<Seq<Entry>>,
) -> (go_on: bool)
    requires
        wf_node(*node, lo, hi),
        *old(skipped) == skipped_after(skip, before.len() as int),
        id_views(old(results)@) == docs_of(window(before, skip as int, desc_cap(limit))),
        old(results)@.len() < desc_cap(limit),
    ensures
        ({
            let r = key_range(start, end, inclusive_start, inclusive_end);
            let after = before + range_entries(node_entries(*node), r).reverse();
            &&& id_views(final(results)@) == docs_of(window(after, skip as int, desc_cap(limit)))
            &&& go_on ==> *final(skipped) == skipped_after(skip, after.len() as int)
            &&& go_on ==> final(results)@.len() < desc_cap(limit)
            &&& !go_on ==> final(results)@.len() == desc_cap(limit) || left_out(r, lo)
        }),
    decreases node,
{
    let ghost r = key_range(start, end, inclusive_start, inclusive_end);
    let ghost cap = desc_cap(limit);
    match node {
        BTreeNode::Leaf(leaf) => {
            let ghost es = leaf_entries(*leaf);
            let ghost n = es.len() as int;
            proof {
                assert(es.subrange(n, n) =~= Seq::<Entry>::empty());
                lemma_range_none(Seq::<Entry>::empty(), r);
                assert(Seq::<Entry>::empty().reverse() =~= Seq::<Entry>::empty());
                assert(before + Seq::<Entry>::empty() =~= before);
            }
            let mut j = leaf.keys.len();
            while j > 0
                invariant
                    es == leaf_entries(*leaf),
                    node_entries(*node) == es,
                    n == es.len(),
                    wf_node(*node, lo, hi),
                    *node == BTreeNode::Leaf(*leaf),
                    r == key_range(start, end, inclusive_start, inclusive_end),
                    cap == desc_cap(limit),
                    leaf.keys@.len() == leaf.document_ids@.len(),
                    j <= n,
                    *skipped == skipped_after(skip, (before + range_entries(es.subrange(j as int, n), r).reverse()).len() as int),
                    id_views(results@) == docs_of(window(before + range_entries(es.subrange(j as int, n), r).reverse(), skip as int, cap)),
                    results@.len() < cap,
                decreases j,
            {
                j = j - 1;
                let ghost cur = before + range_entries(es.subrange(j + 1, n), r).reverse();
                let ghost ent = es[j as int];
                proof {
                    assert(es.subrange(j as int, n) =~= seq![ent] + es.subrange(j + 1, n));
                    lemma_range_add(seq![ent], es.subrange(j + 1, n), r);
                    lemma_range_single(ent, r);
                    lemma_reverse_add(range_entries(seq![ent], r), range_entries(es.subrange(j + 1, n), r));
                    assert(ent.0 == leaf.keys@[j as int]@);
                    if in_range(r, ent.0) {
                        assert(seq![ent].reverse() =~= seq![ent]);
                        assert(before + range_entries(es.subrange(j as int, n), r).reverse() =~= cur.push(ent));
                    } else {
                        assert(Seq::<Entry>::empty().reverse() =~= Seq::<Entry>::empty());
                        assert(before + range_entries(es.subrange(j as int, n), r).reverse() =~= cur);
                    }
                    lemma_window_push(cur, ent, skip as int, cap);
                    lemma_window_len(cur, skip as int, cap);
                    lemma_docs_push(window(cur, skip as int, cap), ent);
                }
                let c_start = compare_keys(&leaf.keys[j], start);
                let below_start = if inclusive_start {
                    c_start < 0
                } else {
                    c_start <= 0
                };
                let c_end = compare_keys(&leaf.keys[j], end);
                let above_end = if inclusive_end {
                    c_end > 0
                } else {
                    c_end >= 0
                };
                proof {
                    lemma_key_order_basic(ent.0, start@);
                    assert(below_start == !lower_ok(r, ent.0));
                    assert(above_end == !upper_ok(r, ent.0));
                }
                if below_start {
                    proof {
                        // everything from position j leftwards is below the start too
                        let left = es.subrange(0, j + 1);
                        assert forall|i: int| 0 <= i < left.len() implies !in_range(r, #[trigger] left[i].0) by {
                            assert(left[i] == es[i]);
                            assert(es[i].0 == leaf.keys@[i]@);
                            if i < j {
                                assert(key_views(leaf.keys@)[i] == leaf.keys@[i]@);
                                assert(key_views(leaf.keys@)[j as int] == leaf.keys@[j as int]@);
                            } else {
                                lemma_key_order_basic(ent.0, ent.0);
                            }
                            lemma_lower_fails_below(r, es[i].0, ent.0);
                        }
                        lemma_range_none(left, r);
                        assert(es =~= left + es.subrange(j + 1, n));
                        lemma_range_add(left, es.subrange(j + 1, n), r);
                        assert(Seq::<Entry>::empty() + range_entries(es.subrange(j + 1, n), r) =~= range_entries(es.subrange(j + 1, n), r));
                        if lo is Some {
                            assert(within(leaf.keys@[j as int]@, lo, hi));
                            lemma_lower_fails_below(r, lo->0, ent.0);
                        }
                    }
                    return false;
                }
                if !above_end {
                    if *skipped < skip {
                        *skipped = *skipped + 1;
                    } else {
                        let d = leaf.document_ids[j].copy_id();
                        let ghost prev = results@;
                        results.push(d);
                        proof {
                            assert(id_views(results@) =~= id_views(prev).push(ent.1)) by {
                                assert(ent.1 == leaf.document_ids@[j as int]@);
                            }
                        }
                        if results.len() >= limit {
                            proof {
                                let rest = range_entries(es.subrange(0, j as int), r).reverse();
                                assert(es =~= es.subrange(0, j as int) + es.subrange(j as int, n));
                                lemma_range_add(es.subrange(0, j as int), es.subrange(j as int, n), r);
                                lemma_reverse_add(range_entries(es.subrange(0, j as int), r), range_entries(es.subrange(j as int, n), r));
                                let done = before + range_entries(es.subrange(j as int, n), r).reverse();
                                assert(done + rest =~= before + range_entries(es, r).reverse());
                                lemma_window_full(done, rest, skip as int, cap);
                            }
                            return false;
                        }
                    }
                }
            }
            proof {
                assert(es.subrange(0, n) =~= es);
            }
            true
        },
        BTreeNode::Internal(internal) => {
            let ghost ks = key_views(internal.keys@);
            let ghost cs = internal.children@;
            let ghost n = cs.len() as int;
            proof {
                lemma_wf_children_index(cs, ks, lo, hi);
                assert(cs.subrange(n, n) =~= Seq::<Box<BTreeNode>>::empty());
                lemma_range_none(Seq::<Entry>::empty(), r);
                assert(Seq::<Entry>::empty().reverse() =~= Seq::<Entry>::empty());
                assert(before + Seq::<Entry>::empty() =~= before);
                assert forall|k: int| 0 <= k < ks.len() implies #[trigger] within(ks[k], lo, hi) by {
                    assert(within(internal.keys@[k]@, lo, hi));
                }
            }
            let mut i = internal.children.len();
            while i > 0
                invariant
                    cs == internal.children@,
                    ks == key_views(internal.keys@),
                    n == cs.len(),
                    cs.len() == ks.len() + 1,
                    keys_sorted(ks),
                    forall|k: int| 0 <= k < ks.len() ==> #[trigger] within(ks[k], lo, hi),
                    *node == BTreeNode::Internal(*internal),
                    node_entries(*node) == children_entries(cs),
                    forall|k: int| 0 <= k < cs.len() ==> #[trigger] wf_node(*cs[k], child_lo(ks, lo, k), child_hi(ks, hi, k)),
                    r == key_range(start, end, inclusive_start, inclusive_end),
                    cap == desc_cap(limit),
                    i <= n,
                    *skipped == skipped_after(skip, (before + range_entries(children_entries(cs.subrange(i as int, n)), r).reverse()).len() as int),
                    id_views(results@) == docs_of(window(before + range_entries(children_entries(cs.subrange(i as int, n)), r).reverse(), skip as int, cap)),
                    results@.len() < cap,
                decreases i,
            {
                i = i - 1;
                let ghost post = range_entries(children_entries(cs.subrange(i + 1, n)), r);
                let ghost ce = node_entries(*cs[i as int]);
                let ghost cur = before + post.reverse();
                proof {
                    lemma_suffix_step(cs, i as int);
                    lemma_range_add(ce, children_entries(cs.subrange(i + 1, n)), r);
                    lemma_reverse_add(range_entries(ce, r), post);
                    assert(before + range_entries(children_entries(cs.subrange(i as int, n)), r).reverse() =~= cur + range_entries(ce, r).reverse());
                    lemma_wf_entries(*cs[i as int], child_lo(ks, lo, i as int), child_hi(ks, hi, i as int));
                    assert(decreases_to!(*node => node->Internal_0));
                    assert(decreases_to!(*internal => internal.children));
                    assert(decreases_to!(internal.children => internal.children@));
                    assert(decreases_to!(internal.children@ => internal.children@[i as int]));
                }
                let min_ok = i == 0 || compare_keys(&internal.keys[i - 1], end) <= 0;
                let max_ok = i >= internal.keys.len() || compare_keys(&internal.keys[i], start) >= 0;
                if min_ok && max_ok {
                    let go_on = scan_desc(
                        &internal.children[i],
                        start,
                        end,
                        inclusive_start,
                        inclusive_end,
                        results,
                        skipped,
                        skip,
                        limit,
                        Ghost(child_lo(ks, lo, i as int)),
                        Ghost(child_hi(ks, hi, i as int)),
                        Ghost(cur),
                    );
                    if !go_on {
                        proof {
                            let done = cur + range_entries(ce, r).reverse();
                            let pre = children_entries(cs.subrange(0, i as int));
                            let rest = range_entries(pre, r).reverse();
                            assert(cs =~= cs.subrange(0, i as int) + cs.subrange(i as int, n));
                            lemma_children_entries_append(cs.subrange(0, i as int), cs.subrange(i as int, n));
                            lemma_range_add(pre, children_entries(cs.subrange(i as int, n)), r);
                            lemma_reverse_add(range_entries(pre, r), range_entries(children_entries(cs.subrange(i as int, n)), r));
                            assert(done + rest =~= before + range_entries(children_entries(cs), r).reverse());
                            if results@.len() == cap {
                                assert(id_views(results@).len() == results@.len());
                                assert(docs_of(window(done, skip as int, cap)).len() == window(done, skip as int, cap).len());
                                lemma_window_full(done, rest, skip as int, cap);
                            } else {
                                assert(left_out(r, child_lo(ks, lo, i as int)));
                                if i == 0 {
                                    assert(cs.subrange(0, 0) =~= Seq::<Box<BTreeNode>>::empty());
                                    lemma_range_none(Seq::<Entry>::empty(), r);
                                } else {
                                    lemma_children_prefix_entries(cs, ks, lo, hi, i as nat);
                                    assert forall|k: int| 0 <= k < pre.len() implies !in_range(r, #[trigger] pre[k].0) by {
                                        assert(within(pre[k].0, lo, child_hi(ks, hi, i - 1)));
                                        lemma_lower_fails_below(r, pre[k].0, ks[i - 1]);
                                    }
                                    lemma_range_none(pre, r);
                                    if lo is Some {
                                        assert(within(ks[i - 1], lo, hi));
                                        lemma_lower_fails_below(r, lo->0, ks[i - 1]);
                                    }
                                }
                                assert(Seq::<Entry>::empty().reverse() =~= Seq::<Entry>::empty());
                                assert(done + Seq::<Entry>::empty() =~= done);
                            }
                        }
                        return false;
                    }
                } else {
                    proof {
                        lemma_range_pruned(ce, r, child_lo(ks, lo, i as int), child_hi(ks, hi, i as int));
                        assert(Seq::<Entry>::empty().reverse() =~= Seq::<Entry>::empty());
                        assert(cur + Seq::<Entry>::empty() =~= cur);
                    }
                }
            }
            proof {
                assert(cs.subrange(0, n) =~= cs);
            }
            true
        },
    }
}


/// Descending scan below `node` collecting (key, document id) pairs; as
/// [`scan_desc`], continuing after the in-range entries `before`: adds the window of
/// `before` followed by this node's in-range entries from the largest key
/// down. Returns `false` when the scan is over: the window is full, or a key
/// below the range's start was met, so nothing left of `lo` is in range.
pub(crate) fn scan_desc_pairs(
    node: &BTreeNode,
    start: &IndexKey,
    end: &IndexKey,
    inclusive_start: bool,
    inclusive_end: bool,
    results: &mut Vec<(IndexKey, DocumentId)>,
    skipped: &mut usize,
    skip: usize,
    limit: usize,
    Ghost(lo): Ghost<Option<KeyView>>,
    Ghost(hi): Ghost<Option<KeyView>>,
    Ghost(before): Ghost<Seq<Entry>>,
) -> (go_on: bool)
    requires
        wf_node(*node, lo, hi),
        *old(skipped) == skipped_after(skip, before.len() as int),
        pair_views(old(results)@) == window(before, skip as int, desc_cap(limit)),
        old(results)@.len() < desc_cap(limit),
    ensures
        ({
            let r = key_range(start, end, inclusive_start, inclusive_end);
            let after = before + range_entries(node_entries(*node), r).reverse();
            &&& pair_views(final(results)@) == window(after, skip as int, desc_cap(limit))
            &&& go_on ==> *final(skipped) == skipped_after(skip, after.len() as int)
            &&& go_on ==> final(results)@.len() < desc_cap(limit)
            &&& !go_on ==> final(results)@.len() == desc_cap(limit) || left_out(r, lo)
        }),
    decreases node,
{
    let ghost r = key_range(start, end, inclusive_start, inclusive_end);
    let ghost cap = desc_cap(limit);
    match node {
        BTreeNode::Leaf(leaf) => {
            let ghost es = leaf_entries(*leaf);
            let ghost n = es.len() as int;
            proof {
                assert(es.subrange(n, n) =~= Seq::<Entry>::empty());
                lemma_range_none(Seq::<Entry>::empty(), r);
                assert(Seq::<Entry>::empty().reverse() =~= Seq::<Entry>::empty());
                assert(before + Seq::<Entry>::empty() =~= before);
            }
            let mut j = leaf.keys.len();
            while j > 0
                invariant
                    es == leaf_entries(*leaf),
                    node_entries(*node) == es,
                    n == es.len(),
                    wf_node(*node, lo, hi),
                    *node == BTreeNode::Leaf(*leaf),
                    r == key_range(start, end, inclusive_start, inclusive_end),
                    cap == desc_cap(limit),
                    leaf.keys@.len() == leaf.document_ids@.len(),
                    j <= n,
                    *skipped == skipped_after(skip, (before + range_entries(es.subrange(j as int, n), r).reverse()).len() as int),
                    pair_views(results@) == window(before + range_entries(es.subrange(j as int, n), r).reverse(), skip as int, cap),
                    results@.len() < cap,
                decreases j,
            {
                j = j - 1;
                let ghost cur = before + range_entries(es.subrange(j + 1, n), r).reverse();
                let ghost ent = es[j as int];
                proof {
                    assert(es.subrange(j as int, n) =~= seq![ent] + es.subrange(j + 1, n));
                    lemma_range_add(seq![ent], es.subrange(j + 1, n), r);
                    lemma_range_single(ent, r);
                    lemma_reverse_add(range_entries(seq![ent], r), range_entries(es.subrange(j + 1, n), r));
                    assert(ent.0 == leaf.keys@[j as int]@);
                    if in_range(r, ent.0) {
                        assert(seq![ent].reverse() =~= seq![ent]);
                        assert(before + range_entries(es.subrange(j as int, n), r).reverse() =~= cur.push(ent));
                    } else {
                        assert(Seq::<Entry>::empty().reverse() =~= Seq::<Entry>::empty());
                        assert(before + range_entries(es.subrange(j as int, n), r).reverse() =~= cur);
                    }
                    lemma_window_push(cur, ent, skip as int, cap);
                    lemma_window_len(cur, skip as int, cap);
                }
                let c_start = compare_keys(&leaf.keys[j], start);
                let below_start = if inclusive_start {
                    c_start < 0
                } else {
                    c_start <= 0
                };
                let c_end = compare_keys(&leaf.keys[j], end);
                let above_end = if inclusive_end {
                    c_end > 0
                } else {
                    c_end >= 0
                };
                proof {
                    lemma_key_order_basic(ent.0, start@);
                    assert(below_start == !lower_ok(r, ent.0));
                    assert(above_end == !upper_ok(r, ent.0));
                }
                if below_start {
                    proof {
                        // everything from position j leftwards is below the start too
                        let left = es.subrange(0, j + 1);
                        assert forall|i: int| 0 <= i < left.len() implies !in_range(r, #[trigger] left[i].0) by {
                            assert(left[i] == es[i]);
                            assert(es[i].0 == leaf.keys@[i]@);
                            if i < j {
                                assert(key_views(leaf.keys@)[i] == leaf.keys@[i]@);
                                assert(key_views(leaf.keys@)[j as int] == leaf.keys@[j as int]@);
                            } else {
                                lemma_key_order_basic(ent.0, ent.0);
                            }
                            lemma_lower_fails_below(r, es[i].0, ent.0);
                        }
                        lemma_range_none(left, r);
                        assert(es =~= left + es.subrange(j + 1, n));
                        lemma_range_add(left, es.subrange(j + 1, n), r);
                        assert(Seq::<Entry>::empty() + range_entries(es.subrange(j + 1, n), r) =~= range_entries(es.subrange(j + 1, n), r));
                        if lo is Some {
                            assert(within(leaf.keys@[j as int]@, lo, hi));
                            lemma_lower_fails_below(r, lo->0, ent.0);
                        }
                    }
                    return false;
                }
                if !above_end {
                    if *skipped < skip {
                        *skipped = *skipped + 1;
                    } else {
                        let k = leaf.keys[j].copy_key();
                        let d = leaf.document_ids[j].copy_id();
                        let ghost prev = results@;
                        results.push((k, d));
                        proof {
                            assert(pair_views(results@) =~= pair_views(prev).push(ent)) by {
                                assert(ent == (leaf.keys@[j as int]@, leaf.document_ids@[j as int]@));
                            }
                        }
                        if results.len() >= limit {
                            proof {
                                let rest = range_entries(es.subrange(0, j as int), r).reverse();
                                assert(es =~= es.subrange(0, j as int) + es.subrange(j as int, n));
                                lemma_range_add(es.subrange(0, j as int), es.subrange(j as int, n), r);
                                lemma_reverse_add(range_entries(es.subrange(0, j as int), r), range_entries(es.subrange(j as int, n), r));
                                let done = before + range_entries(es.subrange(j as int, n), r).reverse();
                                assert(done + rest =~= before + range_entries(es, r).reverse());
                                lemma_window_full(done, rest, skip as int, cap);
                            }
                            return false;
                        }
                    }
                }
            }
            proof {
                assert(es.subrange(0, n) =~= es);
            }
            true
        },
        BTreeNode::Internal(internal) => {
            let ghost ks = key_views(internal.keys@);
            let ghost cs = internal.children@;
            let ghost n = cs.len() as int;
            proof {
                lemma_wf_children_index(cs, ks, lo, hi);
                assert(cs.subrange(n, n) =~= Seq::<Box<BTreeNode>>::empty());
                lemma_range_none(Seq::<Entry>::empty(), r);
                assert(Seq::<Entry>::empty().reverse() =~= Seq::<Entry>::empty());
                assert(before + Seq::<Entry>::empty() =~= before);
                assert forall|k: int| 0 <= k < ks.len() implies #[trigger] within(ks[k], lo, hi) by {
                    assert(within(internal.keys@[k]@, lo, hi));
                }
            }
            let mut i = internal.children.len();
            while i > 0
                invariant
                    cs == internal.children@,
                    ks == key_views(internal.keys@),
                    n == cs.len(),
                    cs.len() == ks.len() + 1,
                    keys_sorted(ks),
                    forall|k: int| 0 <= k < ks.len() ==> #[trigger] within(ks[k], lo, hi),
                    *node == BTreeNode::Internal(*internal),
                    node_entries(*node) == children_entries(cs),
                    forall|k: int| 0 <= k < cs.len() ==> #[trigger] wf_node(*cs[k], child_lo(ks, lo, k), child_hi(ks, hi, k)),
                    r == key_range(start, end, inclusive_start, inclusive_end),
                    cap == desc_cap(limit),
                    i <= n,
                    *skipped == skipped_after(skip, (before + range_entries(children_entries(cs.subrange(i as int, n)), r).reverse()).len() as int),
                    pair_views(results@) == window(before + range_entries(children_entries(cs.subrange(i as int, n)), r).reverse(), skip as int, cap),
                    results@.len() < cap,
                decreases i,
            {
                i = i - 1;
                let ghost post = range_entries(children_entries(cs.subrange(i + 1, n)), r);
                let ghost ce = node_entries(*cs[i as int]);
                let ghost cur = before + post.reverse();
                proof {
                    lemma_suffix_step(cs, i as int);
                    lemma_range_add(ce, children_entries(cs.subrange(i + 1, n)), r);
                    lemma_reverse_add(range_entries(ce, r), post);
                    assert(before + range_entries(children_entries(cs.subrange(i as int, n)), r).reverse() =~= cur + range_entries(ce, r).reverse());
                    lemma_wf_entries(*cs[i as int], child_lo(ks, lo, i as int), child_hi(ks, hi, i as int));
                    assert(decreases_to!(*node => node->Internal_0));
                    assert(decreases_to!(*internal => internal.children));
                    assert(decreases_to!(internal.children => internal.children@));
                    assert(decreases_to!(internal.children@ => internal.children@[i as int]));
                }
                let min_ok = i == 0 || compare_keys(&internal.keys[i - 1], end) <= 0;
                let max_ok = i >= internal.keys.len() || compare_keys(&internal.keys[i], start) >= 0;
                if min_ok && max_ok {
                    let go_on = scan_desc_pairs(
                        &internal.children[i],
                        start,
                        end,
                        inclusive_start,
                        inclusive_end,
                        results,
                        skipped,
                        skip,
                        limit,
                        Ghost(child_lo(ks, lo, i as int)),
                        Ghost(child_hi(ks, hi, i as int)),
                        Ghost(cur),
                    );
                    if !go_on {
                        proof {
                            let done = cur + range_entries(ce, r).reverse();
                            let pre = children_entries(cs.subrange(0, i as int));
                            let rest = range_entries(pre, r).reverse();
                            assert(cs =~= cs.subrange(0, i as int) + cs.subrange(i as int, n));
                            lemma_children_entries_append(cs.subrange(0, i as int), cs.subrange(i as int, n));
                            lemma_range_add(pre, children_entries(cs.subrange(i as int, n)), r);
                            lemma_reverse_add(range_entries(pre, r), range_entries(children_entries(cs.subrange(i as int, n)), r));
                            assert(done + rest =~= before + range_entries(children_entries(cs), r).reverse());
                            if results@.len() == cap {
                                assert(pair_views(results@).len() == results@.len());
                                lemma_window_full(done, rest, skip as int, cap);
                            } else {
                                assert(left_out(r, child_lo(ks, lo, i as int)));
                                if i == 0 {
                                    assert(cs.subrange(0, 0) =~= Seq::<Box<BTreeNode>>::empty());
                                    lemma_range_none(Seq::<Entry>::empty(), r);
                                } else {
                                    lemma_children_prefix_entries(cs, ks, lo, hi, i as nat);
                                    assert forall|k: int| 0 <= k < pre.len() implies !in_range(r, #[trigger] pre[k].0) by {
                                        assert(within(pre[k].0, lo, child_hi(ks, hi, i - 1)));
                                        lemma_lower_fails_below(r, pre[k].0, ks[i - 1]);
                                    }
                                    lemma_range_none(pre, r);
                                    if lo is Some {
                                        assert(within(ks[i - 1], lo, hi));
                                        lemma_lower_fails_below(r, lo->0, ks[i - 1]);
                                    }
                                }
                                assert(Seq::<Entry>::empty().reverse() =~= Seq::<Entry>::empty());
                                assert(done + Seq::<Entry>::empty() =~= done);
                            }
                        }
                        return false;
                    }
                } else {
                    proof {
                        lemma_range_pruned(ce, r, child_lo(ks, lo, i as int), child_hi(ks, hi, i as int));
                        assert(Seq::<Entry>::empty().reverse() =~= Seq::<Entry>::empty());
                        assert(cur + Seq::<Entry>::empty() =~= cur);
                    }
                }
            }
            proof {
                assert(cs.subrange(0, n) =~= cs);
            }
            true
        },
    }
}

} // verus!

verus! {

// ---------------------------------------------------------------------------
// Counting against a catalog of live documents
// ---------------------------------------------------------------------------

/// Ids (by view) of the documents a catalog lists.
pub open spec fn catalog_ids(dom: Set<DocumentId>) -> Set<DocIdView> {
    Set::new(|v: DocIdView| exists|k: DocumentId| dom.contains(k) && k@ == v)
}

pub open spec fn listed_pred(ids: Set<DocIdView>) -> spec_fn(Entry) -> bool {
    |e: Entry| ids.contains(e.1)
}

/// The range's start is not above its end, and a single-key range includes an end.
pub open spec fn bounds_ordered(r: KeyRange) -> bool {
    key_order(r.start, r.end) < 0 || (key_order(r.start, r.end) == 0 && (r.inclusive_start || r.inclusive_end))
}

/// `HashMap::contains_key` of std: whether the catalog lists a document with this id.
#[verifier::external_body]
fn catalog_contains(catalog: &HashMap<DocumentId, u64>, id: &DocumentId) -> (r: bool)
    ensures
        r == catalog_ids(catalog@.dom()).contains(id@),
{
    catalog.contains_key(id)
}

proof fn lemma_filter_push(es: Seq<Entry>, e: Entry, p: spec_fn(Entry) -> bool)
    ensures
        es.push(e).filter(p) == if p(e) {
            es.filter(p).push(e)
        } else {
            es.filter(p)
        },
{
    reveal(Seq::filter);
    assert(es.push(e).drop_last() =~= es);
}

/// Number of entries below `node` in the range whose documents the catalog lists.
pub(crate) fn count_validated(
    node: &BTreeNode,
    start: &IndexKey,
    end: &IndexKey,
    inclusive_start: bool,
    inclusive_end: bool,
    catalog: &HashMap<DocumentId, u64>,
    Ghost(lo): Ghost<Option<KeyView>>,
    Ghost(hi): Ghost<Option<KeyView>>,
) -> (c: usize)
    requires
        wf_node(*node, lo, hi),
        node_entries(*node).len() <= usize::MAX,
        bounds_ordered(key_range(start, end, inclusive_start, inclusive_end)),
    ensures
        c == range_entries(node_entries(*node), key_range(start, end, inclusive_start, inclusive_end)).filter(
            listed_pred(catalog_ids(catalog@.dom())),
        ).len(),
    decreases node,
{
    let ghost r = key_range(start, end, inclusive_start, inclusive_end);
    let ghost p = listed_pred(catalog_ids(catalog@.dom()));
    match node {
        BTreeNode::Leaf(leaf) => {
            let ghost es = leaf_entries(*leaf);
            let (s, e) = leaf_bounds(&leaf.keys, start, end, inclusive_start, inclusive_end);
            proof {
                if e < s {
                    // a key failing both bounds would sit between end and start
                    let k = leaf.keys@[e as int]@;
                    assert(!lower_ok(r, k) && !upper_ok(r, k));
                    lemma_key_order_basic(r.start, k);
                    lemma_key_order_basic(k, r.end);
                    lemma_key_order_basic(r.start, r.end);
                    if key_order(k, r.start) < 0 {
                        lemma_key_order_lt_trans(k, r.start, r.end);
                    } else {
                        lemma_key_order_trans(k, r.start, r.end);
                    }
                    lemma_key_order_basic(k, r.end);
                }
                assert forall|i: int| 0 <= i < es.len() implies (in_range(r, #[trigger] es[i].0) <==> (s <= i < e)) by {
                    assert(es[i].0 == leaf.keys@[i]@);
                }
                lemma_range_interval(es, r, s as int, e as int);
                assert(es.subrange(s as int, s as int) =~= Seq::<Entry>::empty());
                reveal(Seq::filter);
            }
            let mut count: usize = 0;
            let mut i = s;
            while i < e
                invariant
                    es == leaf_entries(*leaf),
                    node_entries(*node) == es,
                    leaf.keys@.len() == leaf.document_ids@.len(),
                    s <= i <= e,
                    e <= es.len(),
                    p == listed_pred(catalog_ids(catalog@.dom())),
                    count == es.subrange(s as int, i as int).filter(p).len(),
                    count <= i - s,
                decreases e - i,
            {
                proof {
                    assert(es.subrange(s as int, i + 1) =~= es.subrange(s as int, i as int).push(es[i as int]));
                    lemma_filter_push(es.subrange(s as int, i as int), es[i as int], p);
                    assert(es[i as int].1 == leaf.document_ids@[i as int]@);
                }
                if catalog_contains(catalog, &leaf.document_ids[i]) {
                    count = count + 1;
                }
                i = i + 1;
            }
            count
        },
        BTreeNode::Internal(internal) => {
            let ghost ks = key_views(internal.keys@);
            let ghost cs = internal.children@;
            proof {
                lemma_wf_children_index(cs, ks, lo, hi);
                assert(cs.subrange(0, 0) =~= Seq::<Box<BTreeNode>>::empty());
                lemma_range_none(Seq::<Entry>::empty(), r);
                reveal(Seq::filter);
            }
            let mut count: usize = 0;
            let mut i: usize = 0;
            while i < internal.children.len()
                invariant
                    cs == internal.children@,
                    ks == key_views(internal.keys@),
                    cs.len() == ks.len() + 1,
                    *node == BTreeNode::Internal(*internal),
                    node_entries(*node) == children_entries(cs),
                    children_entries(cs).len() <= usize::MAX,
                    forall|j: int| 0 <= j < cs.len() ==> #[trigger] wf_node(*cs[j], child_lo(ks, lo, j), child_hi(ks, hi, j)),
                    r == key_range(start, end, inclusive_start, inclusive_end),
                    bounds_ordered(r),
                    p == listed_pred(catalog_ids(catalog@.dom())),
                    i <= cs.len(),
                    count == range_entries(children_entries(cs.subrange(0, i as int)), r).filter(p).len(),
                decreases cs.len() - i,
            {
                let ghost before = children_entries(cs.subrange(0, i as int));
                let ghost ce = node_entries(*cs[i as int]);
                proof {
                    lemma_prefix_step(cs, i as int);
                    lemma_range_add(before, ce, r);
                    Seq::filter_distributes_over_add(range_entries(before, r), range_entries(ce, r), p);
                    Seq::lemma_filter_len(before + ce, range_pred(r));
                    Seq::lemma_filter_len(range_entries(before + ce, r), p);
                    lemma_wf_entries(*cs[i as int], child_lo(ks, lo, i as int), child_hi(ks, hi, i as int));
                    assert(decreases_to!(*node => node->Internal_0));
                    assert(decreases_to!(*internal => internal.children));
                    assert(decreases_to!(internal.children => internal.children@));
                    assert(decreases_to!(internal.children@ => internal.children@[i as int]));
                }
                let min_ok = i == 0 || compare_keys(&internal.keys[i - 1], end) <= 0;
                let max_ok = i >= internal.keys.len() || compare_keys(&internal.keys[i], start) >= 0;
                if min_ok && max_ok {
                    let c = count_validated(
                        &internal.children[i],
                        start,
                        end,
                        inclusive_start,
                        inclusive_end,
                        catalog,
                        Ghost(child_lo(ks, lo, i as int)),
                        Ghost(child_hi(ks, hi, i as int)),
                    );
                    count = count + c;
                } else {
                    proof {
                        lemma_range_pruned(ce, r, child_lo(ks, lo, i as int), child_hi(ks, hi, i as int));
                        reveal(Seq::filter);
                    }
                }
                i = i + 1;
            }
            proof {
                assert(cs.subrange(0, cs.len() as int) =~= cs);
            }
            count
        },
    }
}

} // verus!
