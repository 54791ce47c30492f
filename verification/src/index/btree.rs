//! B+ tree index: ordered (key, document) entries kept in leaves, routed by
//! separator keys in internal nodes.
use vstd::prelude::*;
use crate::document::{DocIdView, DocumentId, compare_ids};
use crate::error::IronBaseError;
use crate::index::scan::{
    bounds_ordered, catalog_ids, count_range, count_validated, desc_cap, docs_of, id_views, key_range,
    lemma_prefix_step, listed_pred, pair_views, range_entries, scan_asc, scan_asc_pairs, scan_desc,
    scan_desc_pairs, window, range_pred,
};
use std::collections::HashMap;
use crate::limits::MAX_KEYS_PER_NODE;
pub use crate::limits::NODE_PAGE_SIZE;
use crate::index::key::{
    IndexKey, KeyView, compare_keys, keys_view, lemma_keys_view, key_order, lemma_key_order_basic, lemma_key_order_lt_trans,
    lemma_key_order_trans,
};

verus! {

/// One indexed entry: a key and the document it points to.
pub type Entry = (KeyView, DocIdView);

/// Leaf node: keys with their document ids, in key order.
#[derive(Debug)]
pub struct LeafNode {
    pub keys: Vec<IndexKey>,
    pub document_ids: Vec<DocumentId>,
    /// File offset of the next leaf in the persisted layout (0 = none).
    pub next_leaf_offset: u64,
}

/// Internal node: separator keys and one more child than separators.
#[derive(Debug)]
pub struct InternalNode {
    pub keys: Vec<IndexKey>,
    pub children: Vec<Box<BTreeNode>>,
    /// File offsets of persisted children (empty for in-memory nodes).
    pub children_offsets: Vec<u64>,
}

/// A B+ tree node.
#[derive(Debug)]
pub enum BTreeNode {
    Internal(InternalNode),
    Leaf(LeafNode),
}

// ---------------------------------------------------------------------------
// Specification: entries, bounds, well-formedness
// ---------------------------------------------------------------------------

/// Views of a sequence of keys.
pub open spec fn key_views(ks: Seq<IndexKey>) -> Seq<KeyView> {
    Seq::new(ks.len(), |i: int| ks[i]@)
}

/// The entries of a leaf, in stored order.
pub open spec fn leaf_entries(l: LeafNode) -> Seq<Entry> {
    Seq::new(l.keys@.len(), |i: int| (l.keys@[i]@, l.document_ids@[i]@))
}

/// All entries below a node, leaf by leaf from left to right.
pub open spec fn node_entries(n: BTreeNode) -> Seq<Entry>
    decreases n,
{
    match n {
        BTreeNode::Leaf(l) => leaf_entries(l),
        BTreeNode::Internal(int_node) => {
            proof {
                assert(decreases_to!(n => int_node));
                assert(decreases_to!(int_node => int_node.children));
                assert(decreases_to!(int_node.children => int_node.children@));
            }
            children_entries(int_node.children@)
        },
    }
}

/// Entries below a sequence of children, concatenated in order.
pub open spec fn children_entries(cs: Seq<Box<BTreeNode>>) -> Seq<Entry>
    decreases cs,
{
    if cs.len() == 0 {
        Seq::empty()
    } else {
        proof {
            assert(decreases_to!(cs => cs[cs.len() - 1]));
        }
        children_entries(cs.subrange(0, cs.len() - 1)) + node_entries(*cs[cs.len() - 1])
    }
}

/// `k` is not below the optional lower bound.
pub open spec fn above(lo: Option<KeyView>, k: KeyView) -> bool {
    match lo {
        None => true,
        Some(l) => key_order(l, k) <= 0,
    }
}

/// `k` is not above the optional upper bound.
pub open spec fn below(k: KeyView, hi: Option<KeyView>) -> bool {
    match hi {
        None => true,
        Some(h) => key_order(k, h) <= 0,
    }
}

pub open spec fn within(k: KeyView, lo: Option<KeyView>, hi: Option<KeyView>) -> bool {
    above(lo, k) && below(k, hi)
}

/// Keys in non-decreasing order.
pub open spec fn keys_sorted(ks: Seq<KeyView>) -> bool {
    forall|i: int, j: int| 0 <= i < j < ks.len() ==> key_order(ks[i], ks[j]) <= 0
}

/// Entries in non-decreasing key order.
pub open spec fn entries_sorted(es: Seq<Entry>) -> bool {
    forall|i: int, j: int| 0 <= i < j < es.len() ==> key_order(es[i].0, es[j].0) <= 0
}

/// Every entry key lies within the bounds.
pub open spec fn entries_within(es: Seq<Entry>, lo: Option<KeyView>, hi: Option<KeyView>) -> bool {
    forall|i: int| 0 <= i < es.len() ==> #[trigger] within(es[i].0, lo, hi)
}

/// Lower bound of child `i` of a node with separators `ks` and bounds `lo`.
pub open spec fn child_lo(ks: Seq<KeyView>, lo: Option<KeyView>, i: int) -> Option<KeyView> {
    if i == 0 {
        lo
    } else {
        Some(ks[i - 1])
    }
}

/// Upper bound of child `i` of a node with separators `ks` and bounds `hi`.
pub open spec fn child_hi(ks: Seq<KeyView>, hi: Option<KeyView>, i: int) -> Option<KeyView> {
    if i == ks.len() {
        hi
    } else {
        Some(ks[i])
    }
}

/// A node is well formed within the key bounds `[lo, hi]`: keys sorted and
/// within bounds, each child well formed within the bounds its separators give.
pub open spec fn wf_node(n: BTreeNode, lo: Option<KeyView>, hi: Option<KeyView>) -> bool
    decreases n,
{
    match n {
        BTreeNode::Leaf(l) => {
            &&& l.keys@.len() == l.document_ids@.len()
            &&& keys_sorted(key_views(l.keys@))
            &&& forall|i: int| 0 <= i < l.keys@.len() ==> #[trigger] within(l.keys@[i]@, lo, hi)
        },
        BTreeNode::Internal(int_node) => {
            proof {
                assert(decreases_to!(n => int_node));
                assert(decreases_to!(int_node => int_node.children));
                assert(decreases_to!(int_node.children => int_node.children@));
            }
            &&& int_node.children@.len() == int_node.keys@.len() + 1
            &&& keys_sorted(key_views(int_node.keys@))
            &&& forall|i: int| 0 <= i < int_node.keys@.len() ==> #[trigger] within(int_node.keys@[i]@, lo, hi)
            &&& wf_children(int_node.children@, key_views(int_node.keys@), lo, hi)
        },
    }
}

/// Children `0 .. cs.len()` are well formed within their bounds.
pub open spec fn wf_children(
    cs: Seq<Box<BTreeNode>>,
    ks: Seq<KeyView>,
    lo: Option<KeyView>,
    hi: Option<KeyView>,
) -> bool
    decreases cs,
{
    if cs.len() == 0 {
        true
    } else {
        proof {
            assert(decreases_to!(cs => cs[cs.len() - 1]));
        }
        &&& wf_children(cs.subrange(0, cs.len() - 1), ks, lo, hi)
        &&& wf_node(*cs[cs.len() - 1], child_lo(ks, lo, cs.len() - 1), child_hi(ks, hi, cs.len() - 1))
    }
}

} // verus!

verus! {

// ---------------------------------------------------------------------------
// Structural lemmas
// ---------------------------------------------------------------------------

pub proof fn lemma_children_entries_append(a: Seq<Box<BTreeNode>>, b: Seq<Box<BTreeNode>>)
    ensures
        children_entries(a + b) == children_entries(a) + children_entries(b),
    decreases b.len(),
{
    if b.len() == 0 {
        assert(a + b =~= a);
        assert(children_entries(b) =~= Seq::empty());
        assert(children_entries(a) + children_entries(b) =~= children_entries(a));
    } else {
        let b0 = b.subrange(0, b.len() - 1);
        lemma_children_entries_append(a, b0);
        assert((a + b).subrange(0, (a + b).len() - 1) =~= a + b0);
        assert((a + b)[(a + b).len() - 1] == b[b.len() - 1]);
        assert(children_entries(a + b) == children_entries(a + b0) + node_entries(*b[b.len() - 1]));
        assert(children_entries(b) == children_entries(b0) + node_entries(*b[b.len() - 1]));
        assert(children_entries(a + b) =~= children_entries(a) + children_entries(b));
    }
}

pub proof fn lemma_children_entries_single(c: Box<BTreeNode>)
    ensures
        children_entries(seq![c]) == node_entries(*c),
{
    assert(seq![c].subrange(0, 0) =~= Seq::<Box<BTreeNode>>::empty());
    assert(children_entries(Seq::<Box<BTreeNode>>::empty()) + node_entries(*c) =~= node_entries(*c));
}

/// Entries of a child sequence split around child `i`.
pub proof fn lemma_children_entries_split(cs: Seq<Box<BTreeNode>>, i: int)
    requires
        0 <= i < cs.len(),
    ensures
        children_entries(cs) == children_entries(cs.subrange(0, i)) + node_entries(*cs[i])
            + children_entries(cs.subrange(i + 1, cs.len() as int)),
{
    let a = cs.subrange(0, i);
    let b = cs.subrange(i + 1, cs.len() as int);
    assert(cs =~= a + seq![cs[i]] + b);
    lemma_children_entries_append(a + seq![cs[i]], b);
    lemma_children_entries_append(a, seq![cs[i]]);
    lemma_children_entries_single(cs[i]);
}

pub proof fn lemma_wf_children_index(
    cs: Seq<Box<BTreeNode>>,
    ks: Seq<KeyView>,
    lo: Option<KeyView>,
    hi: Option<KeyView>,
)
    ensures
        wf_children(cs, ks, lo, hi) <==> (forall|i: int|
            0 <= i < cs.len() ==> #[trigger] wf_node(*cs[i], child_lo(ks, lo, i), child_hi(ks, hi, i))),
    decreases cs.len(),
{
    if cs.len() > 0 {
        let c0 = cs.subrange(0, cs.len() - 1);
        lemma_wf_children_index(c0, ks, lo, hi);
        assert forall|i: int| 0 <= i < c0.len() implies c0[i] == cs[i] by {}
        if (forall|i: int|
            0 <= i < cs.len() ==> #[trigger] wf_node(*cs[i], child_lo(ks, lo, i), child_hi(ks, hi, i))) {
            assert forall|i: int| 0 <= i < c0.len() implies #[trigger] wf_node(
                *c0[i],
                child_lo(ks, lo, i),
                child_hi(ks, hi, i),
            ) by {
                assert(c0[i] == cs[i]);
                assert(wf_node(*cs[i], child_lo(ks, lo, i), child_hi(ks, hi, i)));
            }
            assert(wf_children(c0, ks, lo, hi));
            let last = cs.len() - 1;
            assert(wf_node(*cs[last], child_lo(ks, lo, last), child_hi(ks, hi, last)));
            assert(wf_children(cs, ks, lo, hi));
        }
        if wf_children(cs, ks, lo, hi) {
            assert forall|i: int| 0 <= i < cs.len() implies #[trigger] wf_node(
                *cs[i],
                child_lo(ks, lo, i),
                child_hi(ks, hi, i),
            ) by {
                if i < cs.len() - 1 {
                    assert(c0[i] == cs[i]);
                    assert(wf_node(*c0[i], child_lo(ks, lo, i), child_hi(ks, hi, i)));
                }
            }
        }
    }
}

pub proof fn lemma_within_trans_lo(lo: Option<KeyView>, s: KeyView, k: KeyView)
    requires
        above(lo, s),
        key_order(s, k) <= 0,
    ensures
        above(lo, k),
{
    if let Some(l) = lo {
        lemma_key_order_trans(l, s, k);
    }
}

pub proof fn lemma_within_trans_hi(k: KeyView, s: KeyView, hi: Option<KeyView>)
    requires
        below(s, hi),
        key_order(k, s) <= 0,
    ensures
        below(k, hi),
{
    if let Some(h) = hi {
        lemma_key_order_trans(k, s, h);
    }
}

/// Concatenating two sorted entry runs separated by a key gives a sorted run.
pub proof fn lemma_sorted_concat(a: Seq<Entry>, b: Seq<Entry>, s: KeyView)
    requires
        entries_sorted(a),
        entries_sorted(b),
        forall|i: int| 0 <= i < a.len() ==> key_order(#[trigger] a[i].0, s) <= 0,
        forall|i: int| 0 <= i < b.len() ==> key_order(s, #[trigger] b[i].0) <= 0,
    ensures
        entries_sorted(a + b),
{
    assert forall|i: int, j: int| 0 <= i < j < (a + b).len() implies key_order(
        (a + b)[i].0,
        (a + b)[j].0,
    ) <= 0 by {
        if i < a.len() && j >= a.len() {
            assert((a + b)[i] == a[i]);
            assert((a + b)[j] == b[j - a.len()]);
            lemma_key_order_trans(a[i].0, s, b[j - a.len()].0);
        } else if i >= a.len() {
            assert((a + b)[i] == b[i - a.len()]);
            assert((a + b)[j] == b[j - a.len()]);
        } else {
            assert((a + b)[i] == a[i]);
            assert((a + b)[j] == a[j]);
        }
    }
}

} // verus!

verus! {

/// A well-formed node holds its entries sorted and within its bounds.
pub proof fn lemma_wf_entries(n: BTreeNode, lo: Option<KeyView>, hi: Option<KeyView>)
    requires
        wf_node(n, lo, hi),
    ensures
        entries_sorted(node_entries(n)),
        entries_within(node_entries(n), lo, hi),
    decreases n, 0nat,
{
    match n {
        BTreeNode::Leaf(l) => {
            let es = leaf_entries(l);
            assert forall|i: int, j: int| 0 <= i < j < es.len() implies key_order(es[i].0, es[j].0)
                <= 0 by {
                assert(key_views(l.keys@)[i] == l.keys@[i]@);
                assert(key_views(l.keys@)[j] == l.keys@[j]@);
            }
        },
        BTreeNode::Internal(int_node) => {
            let cs = int_node.children@;
            let ks = key_views(int_node.keys@);
            assert(decreases_to!(n => int_node));
            assert(decreases_to!(int_node => int_node.children));
            assert(decreases_to!(int_node.children => int_node.children@));
            lemma_wf_children_index(cs, ks, lo, hi);
            assert forall|i: int| 0 <= i < ks.len() implies #[trigger] within(ks[i], lo, hi) by {
                assert(within(int_node.keys@[i]@, lo, hi));
            }
            lemma_children_prefix_entries(cs, ks, lo, hi, cs.len() as nat);
            assert(cs.subrange(0, cs.len() as int) =~= cs);
        },
    }
}

/// The first `k` children of a well-formed node hold sorted entries bounded
/// above by the separator after child `k - 1`.
pub proof fn lemma_children_prefix_entries(
    cs: Seq<Box<BTreeNode>>,
    ks: Seq<KeyView>,
    lo: Option<KeyView>,
    hi: Option<KeyView>,
    k: nat,
)
    requires
        k <= cs.len(),
        cs.len() == ks.len() + 1,
        keys_sorted(ks),
        forall|i: int| 0 <= i < ks.len() ==> #[trigger] within(ks[i], lo, hi),
        forall|i: int|
            0 <= i < cs.len() ==> #[trigger] wf_node(*cs[i], child_lo(ks, lo, i), child_hi(ks, hi, i)),
    ensures
        entries_sorted(children_entries(cs.subrange(0, k as int))),
        k > 0 ==> entries_within(
            children_entries(cs.subrange(0, k as int)),
            lo,
            child_hi(ks, hi, k - 1),
        ),
    decreases cs, k,
{
    if k > 0 {
        let pre = cs.subrange(0, k - 1);
        let c = cs[k - 1];
        assert(decreases_to!(cs => cs[k - 1]));
        lemma_children_prefix_entries(cs, ks, lo, hi, (k - 1) as nat);
        assert(wf_node(*cs[k - 1], child_lo(ks, lo, k - 1), child_hi(ks, hi, k - 1)));
        lemma_wf_entries(*c, child_lo(ks, lo, k - 1), child_hi(ks, hi, k - 1));
        assert(cs.subrange(0, k as int).subrange(0, k - 1) =~= pre);
        assert(cs.subrange(0, k as int)[k - 1] == c);
        let ea = children_entries(pre);
        let eb = node_entries(*c);
        assert(children_entries(cs.subrange(0, k as int)) == ea + eb);
        if k == 1 {
            assert(pre =~= Seq::<Box<BTreeNode>>::empty());
            assert(ea + eb =~= eb);
        } else {
            let s = ks[k - 2];
            // entries before child k-1 are bounded by separator k-2, child k-1's are above it
            assert forall|i: int| 0 <= i < ea.len() implies key_order(#[trigger] ea[i].0, s) <= 0 by {
                assert(within(ea[i].0, lo, child_hi(ks, hi, k - 2)));
            }
            assert forall|i: int| 0 <= i < eb.len() implies key_order(s, #[trigger] eb[i].0) <= 0 by {
                assert(within(eb[i].0, child_lo(ks, lo, k - 1), child_hi(ks, hi, k - 1)));
            }
            lemma_sorted_concat(ea, eb, s);
        }
        // upper bound of the whole prefix is that of child k-1
        assert forall|i: int| 0 <= i < (ea + eb).len() implies #[trigger] within(
            (ea + eb)[i].0,
            lo,
            child_hi(ks, hi, k - 1),
        ) by {
            if i < ea.len() {
                assert((ea + eb)[i] == ea[i]);
                let s = ks[k - 2];
                assert(within(ea[i].0, lo, child_hi(ks, hi, k - 2)));
                // child_hi(k-2) = separator k-2 <= child_hi(k-1)
                if k - 1 < ks.len() {
                    assert(key_order(ks[k - 2], ks[k - 1]) <= 0);
                    lemma_key_order_trans(ea[i].0, s, ks[k - 1]);
                } else {
                    assert(within(ks[k - 2], lo, hi));
                    lemma_within_trans_hi(ea[i].0, s, hi);
                }
            } else {
                assert((ea + eb)[i] == eb[i - ea.len()]);
                assert(within(eb[i - ea.len()].0, child_lo(ks, lo, k - 1), child_hi(ks, hi, k - 1)));
                if k >= 2 {
                    assert(within(ks[k - 2], lo, hi));
                    lemma_within_trans_lo(lo, ks[k - 2], eb[i - ea.len()].0);
                }
            }
        }
    } else {
        assert(cs.subrange(0, 0) =~= Seq::<Box<BTreeNode>>::empty());
    }
}

} // verus!

verus! {

// ---------------------------------------------------------------------------
// Positions in sorted key runs
// ---------------------------------------------------------------------------

/// Number of keys strictly below `k`.
pub open spec fn count_lt(ks: Seq<KeyView>, k: KeyView) -> nat
    decreases ks.len(),
{
    if ks.len() == 0 {
        0
    } else {
        count_lt(ks.drop_last(), k) + if key_order(ks.last(), k) < 0 { 1nat } else { 0nat }
    }
}

/// Number of keys not above `k`.
pub open spec fn count_le(ks: Seq<KeyView>, k: KeyView) -> nat
    decreases ks.len(),
{
    if ks.len() == 0 {
        0
    } else {
        count_le(ks.drop_last(), k) + if key_order(ks.last(), k) <= 0 { 1nat } else { 0nat }
    }
}

/// In a sorted run, a split point `r` with everything before it below `k`
/// (strictly when `strict`) and everything from it on not below, is the count.
proof fn lemma_partition_is_count(ks: Seq<KeyView>, k: KeyView, r: int, strict: bool)
    requires
        0 <= r <= ks.len(),
        forall|i: int| 0 <= i < r ==> if strict {
            key_order(#[trigger] ks[i], k) < 0
        } else {
            key_order(ks[i], k) <= 0
        },
        forall|i: int| r <= i < ks.len() ==> if strict {
            key_order(#[trigger] ks[i], k) >= 0
        } else {
            key_order(ks[i], k) > 0
        },
    ensures
        strict ==> r == count_lt(ks, k),
        !strict ==> r == count_le(ks, k),
    decreases ks.len(),
{
    if ks.len() > 0 {
        let last = ks.len() - 1;
        if r == ks.len() {
            lemma_partition_is_count(ks.drop_last(), k, r - 1, strict);
            assert(if strict { key_order(ks[last], k) < 0 } else { key_order(ks[last], k) <= 0 });
        } else {
            lemma_partition_is_count(ks.drop_last(), k, r, strict);
            assert(if strict { key_order(ks[last], k) >= 0 } else { key_order(ks[last], k) > 0 });
        }
    }
}

/// First position whose key is not below `key` (`strict`), or whose key is
/// above `key` (`!strict`), in a sorted run.
pub(crate) fn partition_point(keys: &Vec<IndexKey>, key: &IndexKey, strict: bool) -> (r: usize)
    requires
        keys_sorted(key_views(keys@)),
    ensures
        r <= keys@.len(),
        strict ==> r == count_lt(key_views(keys@), key@),
        !strict ==> r == count_le(key_views(keys@), key@),
        forall|i: int| 0 <= i < r ==> if strict {
            key_order(#[trigger] keys@[i]@, key@) < 0
        } else {
            key_order(keys@[i]@, key@) <= 0
        },
        forall|i: int| r <= i < keys@.len() ==> if strict {
            key_order(#[trigger] keys@[i]@, key@) >= 0
        } else {
            key_order(keys@[i]@, key@) > 0
        },
{
    let ghost ks = key_views(keys@);
    let mut lo: usize = 0;
    let mut hi: usize = keys.len();
    while lo < hi
        invariant
            ks == key_views(keys@),
            keys_sorted(ks),
            0 <= lo <= hi <= keys@.len(),
            forall|i: int| 0 <= i < lo ==> if strict {
                key_order(#[trigger] keys@[i]@, key@) < 0
            } else {
                key_order(keys@[i]@, key@) <= 0
            },
            forall|i: int| hi <= i < keys@.len() ==> if strict {
                key_order(#[trigger] keys@[i]@, key@) >= 0
            } else {
                key_order(keys@[i]@, key@) > 0
            },
        decreases hi - lo,
    {
        let mid = lo + (hi - lo) / 2;
        let c = compare_keys(&keys[mid], key);
        let goes_left = if strict {
            c < 0
        } else {
            c <= 0
        };
        if goes_left {
            proof {
                assert forall|i: int| 0 <= i <= mid implies if strict {
                    key_order(#[trigger] keys@[i]@, key@) < 0
                } else {
                    key_order(keys@[i]@, key@) <= 0
                } by {
                    assert(ks[i] == keys@[i]@ && ks[mid as int] == keys@[mid as int]@);
                    if i < mid {
                        lemma_key_order_basic(keys@[i]@, keys@[mid as int]@);
                        lemma_key_order_trans(keys@[i]@, keys@[mid as int]@, key@);
                        if strict {
                            lemma_key_order_lt_trans(keys@[i]@, keys@[mid as int]@, key@);
                        }
                    }
                }
            }
            lo = mid + 1;
        } else {
            proof {
                assert forall|i: int| mid <= i < keys@.len() implies if strict {
                    key_order(#[trigger] keys@[i]@, key@) >= 0
                } else {
                    key_order(keys@[i]@, key@) > 0
                } by {
                    assert(ks[i] == keys@[i]@ && ks[mid as int] == keys@[mid as int]@);
                    if i > mid {
                        lemma_key_order_basic(keys@[mid as int]@, keys@[i]@);
                        lemma_key_order_basic(key@, keys@[mid as int]@);
                        lemma_key_order_basic(key@, keys@[i]@);
                        lemma_key_order_trans(key@, keys@[mid as int]@, keys@[i]@);
                        if !strict {
                            lemma_key_order_lt_trans(key@, keys@[mid as int]@, keys@[i]@);
                        }
                    }
                }
            }
            hi = mid;
        }
    }
    proof {
        assert forall|i: int| 0 <= i < lo implies if strict {
            key_order(#[trigger] ks[i], key@) < 0
        } else {
            key_order(ks[i], key@) <= 0
        } by {
            assert(ks[i] == keys@[i]@);
        }
        assert forall|i: int| lo <= i < ks.len() implies if strict {
            key_order(#[trigger] ks[i], key@) >= 0
        } else {
            key_order(ks[i], key@) > 0
        } by {
            assert(ks[i] == keys@[i]@);
        }
        lemma_partition_is_count(ks, key@, lo as int, strict);
    }
    lo
}

} // verus!

verus! {

// ---------------------------------------------------------------------------
// Point lookup
// ---------------------------------------------------------------------------

/// Document found by descending from `n` towards `k`: at each internal node the
/// child after every separator not above `k`; in the leaf, the first entry
/// whose key is `k`.
pub open spec fn node_lookup(n: BTreeNode, k: KeyView) -> Option<DocIdView>
    decreases n,
{
    match n {
        BTreeNode::Leaf(l) => {
            let p = count_lt(key_views(l.keys@), k) as int;
            if p < l.keys@.len() && l.keys@[p]@ == k && p < l.document_ids@.len() {
                Some(l.document_ids@[p]@)
            } else {
                None
            }
        },
        BTreeNode::Internal(int_node) => {
            let c = count_le(key_views(int_node.keys@), k) as int;
            if c < int_node.children@.len() {
                proof {
                    assert(decreases_to!(n => int_node));
                    assert(decreases_to!(int_node => int_node.children));
                    assert(decreases_to!(int_node.children => int_node.children@));
                    assert(decreases_to!(int_node.children@ => int_node.children@[c]));
                }
                node_lookup(*int_node.children@[c], k)
            } else {
                None
            }
        },
    }
}

/// What a lookup finds is an entry of the node.
pub proof fn lemma_lookup_sound(n: BTreeNode, k: KeyView)
    requires
        node_lookup(n, k) is Some,
    ensures
        node_entries(n).contains((k, node_lookup(n, k)->0)),
    decreases n,
{
    match n {
        BTreeNode::Leaf(l) => {
            let p = count_lt(key_views(l.keys@), k) as int;
            assert(leaf_entries(l)[p] == (k, node_lookup(n, k)->0));
        },
        BTreeNode::Internal(int_node) => {
            let cs = int_node.children@;
            let c = count_le(key_views(int_node.keys@), k) as int;
            assert(decreases_to!(n => int_node));
            assert(decreases_to!(int_node => int_node.children));
            assert(decreases_to!(int_node.children => int_node.children@));
            assert(decreases_to!(int_node.children@ => int_node.children@[c]));
            lemma_lookup_sound(*cs[c], k);
            lemma_children_entries_split(cs, c);
            let pre = children_entries(cs.subrange(0, c));
            let mid = node_entries(*cs[c]);
            let post = children_entries(cs.subrange(c + 1, cs.len() as int));
            let j = choose|j: int| 0 <= j < mid.len() && mid[j] == (k, node_lookup(n, k)->0);
            assert((pre + mid + post)[pre.len() + j] == mid[j]);
        },
    }
}

/// No entry has the key `k`.
pub open spec fn key_absent(es: Seq<Entry>, k: KeyView) -> bool {
    forall|i: int| 0 <= i < es.len() ==> #[trigger] es[i].0 != k
}

/// A lookup of `k` below `n` finds an entry, and finds `d` when `k` was new.
pub open spec fn finds_inserted(n: BTreeNode, k: KeyView, d: DocIdView, was_absent: bool) -> bool {
    &&& node_lookup(n, k) is Some
    &&& was_absent ==> node_lookup(n, k) == Some(d)
}

/// The half of a split node that a lookup of `k` descends into.
pub open spec fn split_side(left: BTreeNode, sep: KeyView, right: BTreeNode, k: KeyView) -> BTreeNode {
    if key_order(sep, k) <= 0 {
        right
    } else {
        left
    }
}

/// In a sorted run, the keys before `count_le` are not above `k`, the rest are.
proof fn lemma_count_le_splits(ks: Seq<KeyView>, k: KeyView)
    requires
        keys_sorted(ks),
    ensures
        count_le(ks, k) <= ks.len(),
        forall|i: int| 0 <= i < count_le(ks, k) ==> key_order(#[trigger] ks[i], k) <= 0,
        forall|i: int| count_le(ks, k) <= i < ks.len() ==> key_order(#[trigger] ks[i], k) > 0,
    decreases ks.len(),
{
    if ks.len() > 0 {
        let d = ks.drop_last();
        let last = ks.len() - 1;
        assert forall|i: int, j: int| 0 <= i < j < d.len() implies key_order(d[i], d[j]) <= 0 by {
            assert(d[i] == ks[i] && d[j] == ks[j]);
        }
        lemma_count_le_splits(d, k);
        if key_order(ks[last], k) <= 0 {
            if count_le(d, k) < d.len() {
                let i = count_le(d, k) as int;
                assert(d[i] == ks[i]);
                lemma_key_order_trans(ks[i], ks[last], k);
            }
            assert forall|i: int| 0 <= i < count_le(ks, k) implies key_order(#[trigger] ks[i], k) <= 0 by {
                if i < last {
                    assert(d[i] == ks[i]);
                }
            }
        } else {
            assert forall|i: int| 0 <= i < count_le(ks, k) implies key_order(#[trigger] ks[i], k) <= 0 by {
                assert(d[i] == ks[i]);
            }
            assert forall|i: int| count_le(ks, k) <= i < ks.len() implies key_order(#[trigger] ks[i], k) > 0 by {
                if i < last {
                    assert(d[i] == ks[i]);
                }
            }
        }
    }
}

/// In a sorted leaf whose key at `p` is `k` and whose earlier keys are below
/// `k`, a lookup of `k` finds the document at `p`.
proof fn lemma_leaf_lookup_at(l: LeafNode, k: KeyView, p: int)
    requires
        l.keys@.len() == l.document_ids@.len(),
        keys_sorted(key_views(l.keys@)),
        0 <= p < l.keys@.len(),
        l.keys@[p]@ == k,
        forall|i: int| 0 <= i < p ==> key_order(#[trigger] l.keys@[i]@, k) < 0,
    ensures
        node_lookup(BTreeNode::Leaf(l), k) == Some(l.document_ids@[p]@),
{
    let ks = key_views(l.keys@);
    assert forall|i: int| 0 <= i < p implies key_order(#[trigger] ks[i], k) < 0 by {
        assert(ks[i] == l.keys@[i]@);
    }
    assert forall|i: int| p <= i < ks.len() implies key_order(#[trigger] ks[i], k) >= 0 by {
        assert(ks[i] == l.keys@[i]@);
        if i > p {
            assert(ks[p] == k);
            assert(key_order(ks[p], ks[i]) <= 0);
            lemma_key_order_basic(ks[i], k);
        } else {
            lemma_key_order_basic(k, k);
        }
    }
    lemma_partition_is_count(ks, k, p, true);
}

/// A sorted leaf split into `a` and `b`: where a lookup of `k` goes, it finds
/// an entry, and the one at `p` when no other key is `k`.
proof fn lemma_leaf_split_lookup(l: LeafNode, a: LeafNode, b: LeafNode, k: KeyView, d: DocIdView, p: int, absent: bool)
    requires
        l.keys@.len() == l.document_ids@.len(),
        keys_sorted(key_views(l.keys@)),
        0 <= p < l.keys@.len(),
        l.keys@[p]@ == k,
        l.document_ids@[p]@ == d,
        forall|i: int| 0 <= i < p ==> key_order(#[trigger] l.keys@[i]@, k) < 0,
        absent ==> forall|i: int| 0 <= i < l.keys@.len() && i != p ==> #[trigger] l.keys@[i]@ != k,
        l.keys@ == a.keys@ + b.keys@,
        l.document_ids@ == a.document_ids@ + b.document_ids@,
        a.keys@.len() == a.document_ids@.len(),
        b.keys@.len() >= 1,
    ensures
        finds_inserted(split_side(BTreeNode::Leaf(a), b.keys@[0]@, BTreeNode::Leaf(b), k), k, d, absent),
{
    let m = a.keys@.len() as int;
    let ks = key_views(l.keys@);
    assert forall|i: int, j: int| 0 <= i < j < b.keys@.len() implies key_order(
        key_views(b.keys@)[i],
        key_views(b.keys@)[j],
    ) <= 0 by {
        assert(b.keys@[i] == l.keys@[m + i] && b.keys@[j] == l.keys@[m + j]);
        assert(ks[m + i] == l.keys@[m + i]@ && ks[m + j] == l.keys@[m + j]@);
    }
    assert forall|i: int, j: int| 0 <= i < j < a.keys@.len() implies key_order(
        key_views(a.keys@)[i],
        key_views(a.keys@)[j],
    ) <= 0 by {
        assert(a.keys@[i] == l.keys@[i] && a.keys@[j] == l.keys@[j]);
        assert(ks[i] == l.keys@[i]@ && ks[j] == l.keys@[j]@);
    }
    assert(b.keys@[0] == l.keys@[m]);
    if p >= m {
        assert forall|i: int| 0 <= i < p - m implies key_order(#[trigger] b.keys@[i]@, k) < 0 by {
            assert(b.keys@[i] == l.keys@[m + i]);
        }
        assert(b.keys@[p - m] == l.keys@[p]);
        assert(b.document_ids@[p - m] == l.document_ids@[p]);
        lemma_leaf_lookup_at(b, k, p - m);
        if m < p {
            assert(ks[m] == l.keys@[m]@ && ks[p] == l.keys@[p]@);
            assert(key_order(ks[m], ks[p]) <= 0);
        } else {
            lemma_key_order_basic(k, k);
        }
    } else {
        assert forall|i: int| 0 <= i < p implies key_order(#[trigger] a.keys@[i]@, k) < 0 by {
            assert(a.keys@[i] == l.keys@[i]);
        }
        assert(a.keys@[p] == l.keys@[p]);
        assert(a.document_ids@[p] == l.document_ids@[p]);
        lemma_leaf_lookup_at(a, k, p);
        if key_order(b.keys@[0]@, k) <= 0 {
            assert(ks[m] == l.keys@[m]@ && ks[p] == l.keys@[p]@);
            assert(key_order(ks[p], ks[m]) <= 0);
            lemma_key_order_basic(ks[m], k);
            assert(l.keys@[m]@ == k);
            lemma_leaf_lookup_at(b, k, 0);
        }
    }
}

/// Separators split at `idx` around `k`: with `s` inserted there, the
/// separators not above `k` are those before `idx`, and `s` when it is not
/// above `k`.
proof fn lemma_count_le_insert(ks: Seq<KeyView>, k: KeyView, idx: int, s: KeyView)
    requires
        0 <= idx <= ks.len(),
        forall|i: int| 0 <= i < idx ==> key_order(#[trigger] ks[i], k) <= 0,
        forall|i: int| idx <= i < ks.len() ==> key_order(#[trigger] ks[i], k) > 0,
    ensures
        count_le(ks.insert(idx, s), k) == if key_order(s, k) <= 0 {
            idx + 1
        } else {
            idx
        },
{
    let nks = ks.insert(idx, s);
    let r = if key_order(s, k) <= 0 {
        idx + 1
    } else {
        idx
    };
    assert forall|i: int| 0 <= i < r implies key_order(#[trigger] nks[i], k) <= 0 by {
        if i < idx {
            assert(nks[i] == ks[i]);
        }
    }
    assert forall|i: int| r <= i < nks.len() implies key_order(#[trigger] nks[i], k) > 0 by {
        if i > idx {
            assert(nks[i] == ks[i - 1]);
        }
    }
    lemma_partition_is_count(nks, k, r, false);
}

/// An internal node split into `a`, the separator `sep` and `b`: a lookup of
/// `k` in the half it descends into finds what it found in the whole node.
proof fn lemma_internal_split_lookup(n: InternalNode, a: InternalNode, sep: IndexKey, b: InternalNode, k: KeyView)
    requires
        n.children@.len() == n.keys@.len() + 1,
        keys_sorted(key_views(n.keys@)),
        n.keys@ == a.keys@.push(sep) + b.keys@,
        n.children@ == a.children@ + b.children@,
        a.children@.len() == a.keys@.len() + 1,
    ensures
        node_lookup(split_side(BTreeNode::Internal(a), sep@, BTreeNode::Internal(b), k), k) == node_lookup(
            BTreeNode::Internal(n),
            k,
        ),
{
    let ks = key_views(n.keys@);
    let m = a.keys@.len() as int;
    lemma_count_le_splits(ks, k);
    let c = count_le(ks, k) as int;
    assert(n.keys@[m] == sep);
    assert(ks[m] == sep@);
    if key_order(sep@, k) <= 0 {
        assert(c > m);
        let rk = key_views(b.keys@);
        assert forall|j: int| 0 <= j < c - m - 1 implies key_order(#[trigger] rk[j], k) <= 0 by {
            assert(b.keys@[j] == n.keys@[m + 1 + j]);
            assert(ks[m + 1 + j] == n.keys@[m + 1 + j]@);
        }
        assert forall|j: int| c - m - 1 <= j < rk.len() implies key_order(#[trigger] rk[j], k) > 0 by {
            assert(b.keys@[j] == n.keys@[m + 1 + j]);
            assert(ks[m + 1 + j] == n.keys@[m + 1 + j]@);
        }
        lemma_partition_is_count(rk, k, c - m - 1, false);
        assert(b.children@[c - m - 1] == n.children@[c]);
    } else {
        assert(c <= m);
        let ak = key_views(a.keys@);
        assert forall|j: int| 0 <= j < c implies key_order(#[trigger] ak[j], k) <= 0 by {
            assert(a.keys@[j] == n.keys@[j]);
            assert(ks[j] == n.keys@[j]@);
        }
        assert forall|j: int| c <= j < ak.len() implies key_order(#[trigger] ak[j], k) > 0 by {
            assert(a.keys@[j] == n.keys@[j]);
            assert(ks[j] == n.keys@[j]@);
        }
        lemma_partition_is_count(ak, k, c, false);
        assert(a.children@[c] == n.children@[c]);
    }
}

/// A key absent from the entries below a node's children is absent below each child.
proof fn lemma_absent_in_child(cs: Seq<Box<BTreeNode>>, idx: int, k: KeyView)
    requires
        0 <= idx < cs.len(),
        key_absent(children_entries(cs), k),
    ensures
        key_absent(node_entries(*cs[idx]), k),
{
    lemma_children_entries_split(cs, idx);
    let pre = children_entries(cs.subrange(0, idx));
    let mid = node_entries(*cs[idx]);
    let post = children_entries(cs.subrange(idx + 1, cs.len() as int));
    assert forall|j: int| 0 <= j < mid.len() implies #[trigger] mid[j].0 != k by {
        assert((pre + mid + post)[pre.len() + j] == mid[j]);
    }
}

/// A lookup through an internal node descends into child `count_le` of its
/// separators.
proof fn lemma_lookup_child(n: InternalNode, k: KeyView)
    requires
        n.children@.len() == n.keys@.len() + 1,
        count_le(key_views(n.keys@), k) <= n.keys@.len(),
    ensures
        node_lookup(BTreeNode::Internal(n), k) == node_lookup(*n.children@[count_le(key_views(n.keys@), k) as int], k),
{
}

/// Child `idx` of a node, the one a lookup of `k` descends into, replaced by
/// the halves `c` and `r` of its split around `s`: the lookup now descends
/// into the half that `s` sends it to.
proof fn lemma_child_split_lookup(
    n: InternalNode,
    ks: Seq<KeyView>,
    cs: Seq<Box<BTreeNode>>,
    idx: int,
    c: Box<BTreeNode>,
    s: KeyView,
    r: Box<BTreeNode>,
    k: KeyView,
)
    requires
        cs.len() == ks.len() + 1,
        0 <= idx <= ks.len(),
        forall|i: int| 0 <= i < idx ==> key_order(#[trigger] ks[i], k) <= 0,
        forall|i: int| idx <= i < ks.len() ==> key_order(#[trigger] ks[i], k) > 0,
        key_views(n.keys@) == ks.insert(idx, s),
        n.children@ == cs.subrange(0, idx) + seq![c, r] + cs.subrange(idx + 1, cs.len() as int),
    ensures
        node_lookup(BTreeNode::Internal(n), k) == node_lookup(split_side(*c, s, *r, k), k),
{
    lemma_count_le_insert(ks, k, idx, s);
    assert(n.keys@.len() == key_views(n.keys@).len());
    lemma_lookup_child(n, k);
    assert(n.children@[idx] == c);
    assert(n.children@[idx + 1] == r);
}

fn search_in_node(node: &BTreeNode, key: &IndexKey, Ghost(lo): Ghost<Option<KeyView>>, Ghost(hi): Ghost<Option<KeyView>>) -> (res: Option<DocumentId>)
    requires
        wf_node(*node, lo, hi),
    ensures
        match res {
            None => node_lookup(*node, key@) is None,
            Some(d) => node_lookup(*node, key@) == Some(d@),
        },
    decreases node,
{
    match node {
        BTreeNode::Leaf(leaf) => {
            let p = partition_point(&leaf.keys, key, true);
            if p < leaf.keys.len() && crate::index::key::key_equal(&leaf.keys[p], key) {
                Some(leaf.document_ids[p].copy_id())
            } else {
                None
            }
        },
        BTreeNode::Internal(internal) => {
            let c = partition_point(&internal.keys, key, false);
            if c < internal.children.len() {
                proof {
                    lemma_wf_children_index(internal.children@, key_views(internal.keys@), lo, hi);
                    assert(node->Internal_0 == *internal);
                    assert(decreases_to!(*node => node->Internal_0));
                    assert(decreases_to!(*internal => internal.children));
                    assert(decreases_to!(internal.children => internal.children@));
                    assert(decreases_to!(internal.children@ => internal.children@[c as int]));
                }
                search_in_node(
                    &internal.children[c],
                    key,
                    Ghost(child_lo(key_views(internal.keys@), lo, c as int)),
                    Ghost(child_hi(key_views(internal.keys@), hi, c as int)),
                )
            } else {
                None
            }
        },
    }
}

} // verus!

verus! {

// ---------------------------------------------------------------------------
// Size estimates used to decide splits
// ---------------------------------------------------------------------------

/// A range whose bounds are not ordered holds no key.
pub proof fn lemma_empty_range(r: crate::index::scan::KeyRange)
    requires
        !bounds_ordered(r),
    ensures
        forall|k: KeyView| !#[trigger] crate::index::scan::in_range(r, k),
{
    assert forall|k: KeyView| !#[trigger] crate::index::scan::in_range(r, k) by {
        if crate::index::scan::in_range(r, k) {
            lemma_key_order_basic(r.start, k);
            lemma_key_order_basic(k, r.end);
            lemma_key_order_basic(r.start, r.end);
            lemma_key_order_trans(r.start, k, r.end);
            if key_order(r.start, r.end) == 0 {
                assert(r.start == r.end);
            }
        }
    }
}

/// Capped at `usize::MAX`, as saturating sums are.
pub open spec fn sat(x: int) -> int {
    if x > usize::MAX {
        usize::MAX as int
    } else {
        x
    }
}

/// Length in bytes of the UTF-8 encoding of a string, as `str::len` gives it.
pub open spec fn utf8_len(s: Seq<char>) -> usize {
    vstd::utf8::encode_utf8(s).len() as usize
}

/// Estimated JSON size of a key: a fixed size per kind, a string's UTF-8
/// length plus 20, a compound key the sum of its parts plus 15.
pub open spec fn key_json_size(k: IndexKey) -> nat
    decreases k,
{
    match k {
        IndexKey::Null => 15,
        IndexKey::Bool(_) => 15,
        IndexKey::Int(_) => 25,
        IndexKey::Float(_) => 30,
        IndexKey::String(s) => (utf8_len(s@) + 20) as nat,
        IndexKey::Compound(parts) => {
            proof {
                assert(decreases_to!(k => parts));
                assert(decreases_to!(parts => parts@));
            }
            keys_json_size(parts@) + 15
        },
        IndexKey::MaxKey => 15,
    }
}

/// Sum of the estimated JSON sizes of keys.
pub open spec fn keys_json_size(ks: Seq<IndexKey>) -> nat
    decreases ks,
{
    if ks.len() == 0 {
        0
    } else {
        proof {
            assert(decreases_to!(ks => ks[ks.len() - 1]));
        }
        keys_json_size(ks.drop_last()) + key_json_size(ks.last())
    }
}

/// Estimated JSON size of a key (sums saturate).
fn estimate_key_size(key: &IndexKey) -> (n: usize)
    ensures
        n == sat(key_json_size(*key) as int),
    decreases key,
{
    match key {
        IndexKey::Null => 15,
        IndexKey::Bool(_) => 15,
        IndexKey::Int(_) => 25,
        IndexKey::Float(_) => 30,
        IndexKey::String(s) => {
            let l = s.as_str().len();
            assert(l == utf8_len(s@));
            l.saturating_add(20)
        },
        IndexKey::Compound(parts) => {
            let mut total: usize = 0;
            assert(parts@.subrange(0, 0) =~= Seq::<IndexKey>::empty());
            let mut i: usize = 0;
            while i < parts.len()
                invariant
                    *key == IndexKey::Compound(*parts),
                    i <= parts@.len(),
                    total == sat(keys_json_size(parts@.subrange(0, i as int)) as int),
                decreases parts@.len() - i,
            {
                proof {
                    assert(key->Compound_0 == *parts);
                    assert(decreases_to!(*key => key->Compound_0));
                    assert(decreases_to!(*parts => parts@));
                    assert(decreases_to!(parts@ => parts@[i as int]));
                    assert(parts@.subrange(0, i + 1).drop_last() =~= parts@.subrange(0, i as int));
                }
                total = total.saturating_add(estimate_key_size(&parts[i]));
                i = i + 1;
            }
            proof {
                assert(parts@.subrange(0, i as int) =~= parts@);
                assert(key_json_size(*key) == keys_json_size(parts@) + 15);
            }
            total.saturating_add(15)
        },
        IndexKey::MaxKey => 15,
    }
}

/// Sum of the estimated JSON sizes of keys (saturating).
fn estimate_keys_size(keys: &Vec<IndexKey>) -> (n: usize)
    ensures
        n == sat(keys_json_size(keys@) as int),
{
    let mut total: usize = 0;
    let mut i: usize = 0;
    assert(keys@.subrange(0, 0) =~= Seq::<IndexKey>::empty());
    while i < keys.len()
        invariant
            i <= keys@.len(),
            total == sat(keys_json_size(keys@.subrange(0, i as int)) as int),
        decreases keys@.len() - i,
    {
        proof {
            assert(keys@.subrange(0, i + 1).drop_last() =~= keys@.subrange(0, i as int));
        }
        total = total.saturating_add(estimate_key_size(&keys[i]));
        i = i + 1;
    }
    assert(keys@.subrange(0, i as int) =~= keys@);
    total
}

/// Estimated serialized size of a leaf: 80, its keys, 40 per document id (saturating).
fn estimate_leaf_size(leaf: &LeafNode) -> (n: usize)
    ensures
        n == sat((80 + keys_json_size(leaf.keys@) + 40 * leaf.document_ids@.len()) as int),
{
    let key_sizes = estimate_keys_size(&leaf.keys);
    let n = leaf.document_ids.len();
    let ids = if n <= usize::MAX / 40 {
        n * 40
    } else {
        usize::MAX
    };
    80usize.saturating_add(key_sizes).saturating_add(ids)
}

/// Estimated serialized size of an internal node: 80, its keys, 12 per child
/// offset (saturating).
fn estimate_internal_size(internal: &InternalNode) -> (n: usize)
    ensures
        n == sat((80 + keys_json_size(internal.keys@) + 12 * internal.children_offsets@.len()) as int),
{
    let key_sizes = estimate_keys_size(&internal.keys);
    let n = internal.children_offsets.len();
    let offs = if n <= usize::MAX / 12 {
        n * 12
    } else {
        usize::MAX
    };
    80usize.saturating_add(key_sizes).saturating_add(offs)
}

// ---------------------------------------------------------------------------
// Insert
// ---------------------------------------------------------------------------

/// Result of inserting below a node: its entries gained one entry somewhere.
pub open spec fn inserted_at(old_es: Seq<Entry>, new_es: Seq<Entry>, e: Entry) -> bool {
    exists|p: int| 0 <= p <= old_es.len() && new_es == old_es.insert(p, e)
}

/// Split a full leaf at its middle; the right half becomes a new leaf whose
/// first key is the separator.
fn split_leaf(leaf: &mut LeafNode, Ghost(lo): Ghost<Option<KeyView>>, Ghost(hi): Ghost<Option<KeyView>>) -> (res: (IndexKey, Box<BTreeNode>))
    requires
        wf_node(BTreeNode::Leaf(*old(leaf)), lo, hi),
        old(leaf).keys@.len() >= 1,
    ensures
        within(res.0@, lo, hi),
        wf_node(BTreeNode::Leaf(*final(leaf)), lo, Some(res.0@)),
        wf_node(*res.1, Some(res.0@), hi),
        leaf_entries(*final(leaf)) + node_entries(*res.1) == leaf_entries(*old(leaf)),
        *res.1 matches BTreeNode::Leaf(r) && {
            &&& old(leaf).keys@ == final(leaf).keys@ + r.keys@
            &&& old(leaf).document_ids@ == final(leaf).document_ids@ + r.document_ids@
            &&& r.keys@.len() >= 1
            &&& res.0@ == r.keys@[0]@
        },
{
    let ghost ks = key_views(leaf.keys@);
    let mid = leaf.keys.len() / 2;
    let right_keys = leaf.keys.split_off(mid);
    let right_doc_ids = leaf.document_ids.split_off(mid);
    let separator = right_keys[0].clone();
    let right_leaf = LeafNode {
        keys: right_keys,
        document_ids: right_doc_ids,
        next_leaf_offset: leaf.next_leaf_offset,
    };
    leaf.next_leaf_offset = 0;
    proof {
        let s = separator@;
        assert(right_keys@[0]@ == ks[mid as int]);
        assert forall|i: int| 0 <= i < leaf.keys@.len() implies #[trigger] within(leaf.keys@[i]@, lo, Some(s)) by {
            assert(leaf.keys@[i] == old(leaf).keys@[i]);
            assert(within(old(leaf).keys@[i]@, lo, hi));
            assert(ks[i] == old(leaf).keys@[i]@);
        }
        assert forall|i: int, j: int| 0 <= i < j < leaf.keys@.len() implies key_order(
            key_views(leaf.keys@)[i],
            key_views(leaf.keys@)[j],
        ) <= 0 by {
            assert(key_views(leaf.keys@)[i] == ks[i]);
            assert(key_views(leaf.keys@)[j] == ks[j]);
        }
        assert forall|i: int| 0 <= i < right_keys@.len() implies #[trigger] within(right_keys@[i]@, Some(s), hi) by {
            assert(right_keys@[i] == old(leaf).keys@[mid + i]);
            assert(within(old(leaf).keys@[mid + i]@, lo, hi));
            assert(ks[mid + i] == old(leaf).keys@[mid + i]@);
            if i > 0 {
                assert(key_order(ks[mid as int], ks[mid + i]) <= 0);
            } else {
                lemma_key_order_basic(s, s);
            }
        }
        assert forall|i: int, j: int| 0 <= i < j < right_keys@.len() implies key_order(
            key_views(right_keys@)[i],
            key_views(right_keys@)[j],
        ) <= 0 by {
            assert(key_views(right_keys@)[i] == ks[mid + i]);
            assert(key_views(right_keys@)[j] == ks[mid + j]);
        }
        assert(within(s, lo, hi)) by {
            assert(within(old(leaf).keys@[mid as int]@, lo, hi));
        }
        assert(leaf_entries(*leaf) + leaf_entries(right_leaf) =~= leaf_entries(*old(leaf)));
        assert(old(leaf).keys@ =~= leaf.keys@ + right_leaf.keys@);
        assert(old(leaf).document_ids@ =~= leaf.document_ids@ + right_leaf.document_ids@);
    }
    (separator, Box::new(BTreeNode::Leaf(right_leaf)))
}

/// Insert into a leaf in key order, splitting it when it grows too large.
fn insert_into_leaf(
    leaf: &mut LeafNode,
    key: IndexKey,
    doc_id: DocumentId,
    Ghost(lo): Ghost<Option<KeyView>>,
    Ghost(hi): Ghost<Option<KeyView>>,
) -> (res: Option<(IndexKey, Box<BTreeNode>)>)
    requires
        wf_node(BTreeNode::Leaf(*old(leaf)), lo, hi),
        within(key@, lo, hi),
    ensures
        match res {
            None => {
                &&& wf_node(BTreeNode::Leaf(*final(leaf)), lo, hi)
                &&& inserted_at(leaf_entries(*old(leaf)), leaf_entries(*final(leaf)), (key@, doc_id@))
                &&& finds_inserted(
                    BTreeNode::Leaf(*final(leaf)),
                    key@,
                    doc_id@,
                    key_absent(leaf_entries(*old(leaf)), key@),
                )
            },
            Some((sep, right)) => {
                &&& within(sep@, lo, hi)
                &&& wf_node(BTreeNode::Leaf(*final(leaf)), lo, Some(sep@))
                &&& wf_node(*right, Some(sep@), hi)
                &&& inserted_at(
                    leaf_entries(*old(leaf)),
                    leaf_entries(*final(leaf)) + node_entries(*right),
                    (key@, doc_id@),
                )
                &&& finds_inserted(
                    split_side(BTreeNode::Leaf(*final(leaf)), sep@, *right, key@),
                    key@,
                    doc_id@,
                    key_absent(leaf_entries(*old(leaf)), key@),
                )
            },
        },
{
    let ghost old_es = leaf_entries(*leaf);
    let ghost ks = key_views(leaf.keys@);
    let pos = partition_point(&leaf.keys, &key, true);
    let ghost kv = key@;
    let ghost dv = doc_id@;
    leaf.keys.insert(pos, key);
    leaf.document_ids.insert(pos, doc_id);
    proof {
        assert(leaf_entries(*leaf) =~= old_es.insert(pos as int, (kv, dv)));
        assert forall|i: int| 0 <= i < leaf.keys@.len() implies #[trigger] within(leaf.keys@[i]@, lo, hi) by {
            if i < pos {
                assert(leaf.keys@[i] == old(leaf).keys@[i]);
                assert(within(old(leaf).keys@[i]@, lo, hi));
            } else if i > pos {
                assert(leaf.keys@[i] == old(leaf).keys@[i - 1]);
                assert(within(old(leaf).keys@[i - 1]@, lo, hi));
            }
        }
        let nks = key_views(leaf.keys@);
        assert forall|i: int, j: int| 0 <= i < j < nks.len() implies key_order(nks[i], nks[j]) <= 0 by {
            assert(nks[i] == leaf.keys@[i]@);
            assert(nks[j] == leaf.keys@[j]@);
            if i < pos && j < pos {
                assert(nks[i] == ks[i] && nks[j] == ks[j]);
            } else if i < pos && j == pos {
                assert(nks[i] == ks[i]);
                assert(key_order(old(leaf).keys@[i]@, kv) < 0);
            } else if i < pos && j > pos {
                assert(nks[i] == ks[i] && nks[j] == ks[j - 1]);
            } else if i == pos {
                assert(nks[j] == ks[j - 1]);
                assert(key_order(old(leaf).keys@[j - 1]@, kv) >= 0);
                lemma_key_order_basic(kv, ks[j - 1]);
            } else {
                assert(nks[i] == ks[i - 1] && nks[j] == ks[j - 1]);
            }
        }
    }
    let ghost absent = key_absent(old_es, kv);
    proof {
        assert forall|i: int| 0 <= i < pos implies key_order(#[trigger] leaf.keys@[i]@, kv) < 0 by {
            assert(leaf.keys@[i] == old(leaf).keys@[i]);
        }
        if absent {
            assert forall|i: int| 0 <= i < leaf.keys@.len() && i != pos implies #[trigger] leaf.keys@[i]@ != kv by {
                if i < pos {
                    assert(leaf.keys@[i] == old(leaf).keys@[i]);
                    assert(old_es[i].0 == old(leaf).keys@[i]@);
                } else {
                    assert(leaf.keys@[i] == old(leaf).keys@[i - 1]);
                    assert(old_es[i - 1].0 == old(leaf).keys@[i - 1]@);
                }
            }
        }
    }
    let needs_split = leaf.keys.len() > MAX_KEYS_PER_NODE || estimate_leaf_size(leaf) > NODE_PAGE_SIZE
        - 200;
    if needs_split {
        let ghost mid_es = leaf_entries(*leaf);
        let ghost pre = *leaf;
        let (sep, right) = split_leaf(leaf, Ghost(lo), Ghost(hi));
        assert(inserted_at(old_es, leaf_entries(*leaf) + node_entries(*right), (kv, dv))) by {
            assert(mid_es == old_es.insert(pos as int, (kv, dv)));
        }
        proof {
            let r = right->Leaf_0;
            lemma_leaf_split_lookup(pre, *leaf, r, kv, dv, pos as int, absent);
        }
        Some((sep, right))
    } else {
        proof {
            lemma_leaf_lookup_at(*leaf, kv, pos as int);
        }
        None
    }
}

} // verus!

verus! {

/// Split an internal node at its middle separator, which moves up; the
/// separators and children to its right become a new internal node.
fn split_internal(
    internal: &mut InternalNode,
    Ghost(lo): Ghost<Option<KeyView>>,
    Ghost(hi): Ghost<Option<KeyView>>,
) -> (res: (IndexKey, Box<BTreeNode>))
    requires
        wf_node(BTreeNode::Internal(*old(internal)), lo, hi),
        old(internal).keys@.len() >= 1,
    ensures
        within(res.0@, lo, hi),
        wf_node(BTreeNode::Internal(*final(internal)), lo, Some(res.0@)),
        wf_node(*res.1, Some(res.0@), hi),
        node_entries(BTreeNode::Internal(*final(internal))) + node_entries(*res.1) == node_entries(
            BTreeNode::Internal(*old(internal)),
        ),
        *res.1 matches BTreeNode::Internal(r) && {
            &&& old(internal).keys@ == final(internal).keys@.push(res.0) + r.keys@
            &&& old(internal).children@ == final(internal).children@ + r.children@
            &&& final(internal).children@.len() == final(internal).keys@.len() + 1
        },
{
    let ghost ks = key_views(internal.keys@);
    let ghost cs = internal.children@;
    let ghost m: int = ks.len() as int;
    proof {
        lemma_wf_children_index(cs, ks, lo, hi);
    }
    let mid = internal.keys.len() / 2;
    let separator = internal.keys.remove(mid);
    let right_keys = internal.keys.split_off(mid);
    let right_children = internal.children.split_off(mid + 1);
    let right_offsets = if internal.children_offsets.len() > mid + 1 {
        internal.children_offsets.split_off(mid + 1)
    } else {
        Vec::new()
    };
    let right = InternalNode { keys: right_keys, children: right_children, children_offsets: right_offsets };
    proof {
        let s = separator@;
        assert(s == ks[mid as int]);
        let lks = key_views(internal.keys@);
        let rks = key_views(right.keys@);
        assert(lks =~= ks.subrange(0, mid as int));
        assert(rks =~= ks.subrange(mid + 1, m));
        assert(internal.children@ =~= cs.subrange(0, mid + 1));
        assert(right.children@ =~= cs.subrange(mid + 1, (m + 1) as int));
        assert(within(s, lo, hi)) by {
            assert(within(old(internal).keys@[mid as int]@, lo, hi));
        }
        // left node
        assert forall|i: int| 0 <= i < internal.keys@.len() implies #[trigger] within(internal.keys@[i]@, lo, Some(s)) by {
            assert(internal.keys@[i]@ == ks[i]);
            assert(within(old(internal).keys@[i]@, lo, hi));
            assert(key_order(ks[i], ks[mid as int]) <= 0);
        }
        assert forall|i: int| 0 <= i < internal.children@.len() implies #[trigger] wf_node(
            *internal.children@[i],
            child_lo(lks, lo, i),
            child_hi(lks, Some(s), i),
        ) by {
            assert(internal.children@[i] == cs[i]);
            assert(wf_node(*cs[i], child_lo(ks, lo, i), child_hi(ks, hi, i)));
        }
        lemma_wf_children_index(internal.children@, lks, lo, Some(s));
        // right node
        assert forall|i: int| 0 <= i < right.keys@.len() implies #[trigger] within(right.keys@[i]@, Some(s), hi) by {
            assert(right.keys@[i]@ == ks[mid + 1 + i]);
            assert(within(old(internal).keys@[mid + 1 + i]@, lo, hi));
            assert(key_order(ks[mid as int], ks[mid + 1 + i]) <= 0);
        }
        assert forall|i: int| 0 <= i < right.children@.len() implies #[trigger] wf_node(
            *right.children@[i],
            child_lo(rks, Some(s), i),
            child_hi(rks, hi, i),
        ) by {
            assert(right.children@[i] == cs[mid + 1 + i]);
            assert(wf_node(*cs[mid + 1 + i], child_lo(ks, lo, mid + 1 + i), child_hi(ks, hi, mid + 1 + i)));
        }
        lemma_wf_children_index(right.children@, rks, Some(s), hi);
        assert forall|i: int, j: int| 0 <= i < j < lks.len() implies key_order(lks[i], lks[j]) <= 0 by {
            assert(lks[i] == ks[i] && lks[j] == ks[j]);
        }
        assert forall|i: int, j: int| 0 <= i < j < rks.len() implies key_order(rks[i], rks[j]) <= 0 by {
            assert(rks[i] == ks[mid + 1 + i] && rks[j] == ks[mid + 1 + j]);
        }
        assert(cs =~= cs.subrange(0, mid + 1) + cs.subrange(mid + 1, (m + 1) as int));
        lemma_children_entries_append(cs.subrange(0, mid + 1), cs.subrange(mid + 1, (m + 1) as int));
        assert(old(internal).keys@ =~= internal.keys@.push(separator) + right.keys@);
    }
    (separator, Box::new(BTreeNode::Internal(right)))
}

} // verus!

verus! {

/// Replacing child `idx` by a well-formed child that gained an entry keeps the
/// children well formed and adds that entry to their concatenation.
proof fn lemma_replace_child(
    cs: Seq<Box<BTreeNode>>,
    ks: Seq<KeyView>,
    lo: Option<KeyView>,
    hi: Option<KeyView>,
    idx: int,
    c: Box<BTreeNode>,
    e: Entry,
)
    requires
        cs.len() == ks.len() + 1,
        0 <= idx < cs.len(),
        wf_children(cs, ks, lo, hi),
        wf_node(*c, child_lo(ks, lo, idx), child_hi(ks, hi, idx)),
        inserted_at(node_entries(*cs[idx]), node_entries(*c), e),
    ensures
        wf_children(cs.update(idx, c), ks, lo, hi),
        inserted_at(children_entries(cs), children_entries(cs.update(idx, c)), e),
{
    let ncs = cs.update(idx, c);
    lemma_wf_children_index(cs, ks, lo, hi);
    lemma_children_entries_split(cs, idx);
    lemma_children_entries_split(ncs, idx);
    let pre = cs.subrange(0, idx);
    let post = cs.subrange(idx + 1, cs.len() as int);
    assert(ncs.subrange(0, idx) =~= pre);
    assert(ncs.subrange(idx + 1, cs.len() as int) =~= post);
    let ce = node_entries(*cs[idx]);
    let p = choose|p: int| 0 <= p <= ce.len() && node_entries(*c) == ce.insert(p, e);
    let pe = children_entries(pre);
    assert(children_entries(ncs) =~= children_entries(cs).insert(pe.len() + p, e));
    assert forall|i: int| 0 <= i < ncs.len() implies #[trigger] wf_node(
        *ncs[i],
        child_lo(ks, lo, i),
        child_hi(ks, hi, i),
    ) by {
        if i != idx {
            assert(ncs[i] == cs[i]);
        }
    }
    lemma_wf_children_index(ncs, ks, lo, hi);
}

/// Replacing child `idx` by the two halves of its split, with their separator
/// added between them, keeps the node well formed and adds the new entry.
proof fn lemma_split_child(
    cs: Seq<Box<BTreeNode>>,
    ks: Seq<KeyView>,
    lo: Option<KeyView>,
    hi: Option<KeyView>,
    idx: int,
    c: Box<BTreeNode>,
    sep: KeyView,
    right: Box<BTreeNode>,
    e: Entry,
)
    requires
        cs.len() == ks.len() + 1,
        0 <= idx < cs.len(),
        keys_sorted(ks),
        forall|i: int| 0 <= i < ks.len() ==> #[trigger] within(ks[i], lo, hi),
        wf_children(cs, ks, lo, hi),
        within(sep, child_lo(ks, lo, idx), child_hi(ks, hi, idx)),
        wf_node(*c, child_lo(ks, lo, idx), Some(sep)),
        wf_node(*right, Some(sep), child_hi(ks, hi, idx)),
        inserted_at(node_entries(*cs[idx]), node_entries(*c) + node_entries(*right), e),
    ensures
        ({
            let nks = ks.insert(idx, sep);
            let ncs = cs.subrange(0, idx) + seq![c, right] + cs.subrange(idx + 1, cs.len() as int);
            &&& ncs.len() == nks.len() + 1
            &&& keys_sorted(nks)
            &&& forall|i: int| 0 <= i < nks.len() ==> #[trigger] within(nks[i], lo, hi)
            &&& wf_children(ncs, nks, lo, hi)
            &&& inserted_at(children_entries(cs), children_entries(ncs), e)
        }),
{
    let nks = ks.insert(idx, sep);
    let pre = cs.subrange(0, idx);
    let post = cs.subrange(idx + 1, cs.len() as int);
    let ncs = pre + seq![c, right] + post;
    lemma_wf_children_index(cs, ks, lo, hi);
    lemma_children_entries_split(cs, idx);
    // entries
    lemma_children_entries_append(pre + seq![c, right], post);
    lemma_children_entries_append(pre, seq![c, right]);
    assert(seq![c, right] =~= seq![c] + seq![right]);
    lemma_children_entries_append(seq![c], seq![right]);
    lemma_children_entries_single(c);
    lemma_children_entries_single(right);
    let ce = node_entries(*cs[idx]);
    let p = choose|p: int| 0 <= p <= ce.len() && node_entries(*c) + node_entries(*right) == ce.insert(p, e);
    let pe = children_entries(pre);
    assert(children_entries(ncs) =~= children_entries(cs).insert(pe.len() + p, e));
    // separators
    assert forall|i: int| 0 <= i < nks.len() implies #[trigger] within(nks[i], lo, hi) by {
        if i < idx {
            assert(nks[i] == ks[i]);
        } else if i > idx {
            assert(nks[i] == ks[i - 1]);
        } else {
            if idx > 0 {
                assert(within(ks[idx - 1], lo, hi));
                lemma_within_trans_lo(lo, ks[idx - 1], sep);
            }
            if idx < ks.len() {
                assert(within(ks[idx], lo, hi));
                lemma_within_trans_hi(sep, ks[idx], hi);
            }
        }
    }
    assert forall|i: int, j: int| 0 <= i < j < nks.len() implies key_order(nks[i], nks[j]) <= 0 by {
        if i < idx && j < idx {
            assert(nks[i] == ks[i] && nks[j] == ks[j]);
        } else if i < idx && j == idx {
            assert(nks[i] == ks[i]);
            if i < idx - 1 {
                assert(key_order(ks[i], ks[idx - 1]) <= 0);
            }
            lemma_key_order_basic(ks[idx - 1], ks[idx - 1]);
            lemma_key_order_trans(ks[i], ks[idx - 1], sep);
        } else if i < idx && j > idx {
            assert(nks[i] == ks[i] && nks[j] == ks[j - 1]);
        } else if i == idx {
            assert(nks[j] == ks[j - 1]);
            if j - 1 > idx {
                assert(key_order(ks[idx], ks[j - 1]) <= 0);
            }
            lemma_key_order_basic(ks[idx], ks[idx]);
            lemma_key_order_trans(sep, ks[idx], ks[j - 1]);
        } else {
            assert(nks[i] == ks[i - 1] && nks[j] == ks[j - 1]);
        }
    }
    // children bounds
    assert forall|i: int| 0 <= i < ncs.len() implies #[trigger] wf_node(
        *ncs[i],
        child_lo(nks, lo, i),
        child_hi(nks, hi, i),
    ) by {
        if i < idx {
            assert(ncs[i] == cs[i]);
            assert(child_lo(nks, lo, i) == child_lo(ks, lo, i));
            assert(child_hi(nks, hi, i) == child_hi(ks, hi, i));
        } else if i == idx {
            assert(ncs[i] == c);
            assert(child_lo(nks, lo, i) == child_lo(ks, lo, idx));
            assert(child_hi(nks, hi, i) == Some(sep));
        } else if i == idx + 1 {
            assert(ncs[i] == right);
            assert(child_lo(nks, lo, i) == Some(sep));
            assert(child_hi(nks, hi, i) == child_hi(ks, hi, idx));
        } else {
            assert(ncs[i] == cs[i - 1]);
            assert(child_lo(nks, lo, i) == child_lo(ks, lo, i - 1));
            assert(child_hi(nks, hi, i) == child_hi(ks, hi, i - 1));
        }
    }
    lemma_wf_children_index(ncs, nks, lo, hi);
}

/// Insert below a node, descending to the child whose bounds admit the key;
/// a child split adds its separator here, and this node splits in turn when
/// it grows too large.
#[verifier::spinoff_prover]
#[verifier::rlimit(40)]
fn insert_into_node(
    node: &mut BTreeNode,
    key: IndexKey,
    doc_id: DocumentId,
    Ghost(lo): Ghost<Option<KeyView>>,
    Ghost(hi): Ghost<Option<KeyView>>,
) -> (res: Option<(IndexKey, Box<BTreeNode>)>)
    requires
        wf_node(*old(node), lo, hi),
        within(key@, lo, hi),
    ensures
        match res {
            None => {
                &&& wf_node(*final(node), lo, hi)
                &&& inserted_at(node_entries(*old(node)), node_entries(*final(node)), (key@, doc_id@))
                &&& finds_inserted(*final(node), key@, doc_id@, key_absent(node_entries(*old(node)), key@))
            },
            Some((sep, right)) => {
                &&& within(sep@, lo, hi)
                &&& wf_node(*final(node), lo, Some(sep@))
                &&& wf_node(*right, Some(sep@), hi)
                &&& inserted_at(
                    node_entries(*old(node)),
                    node_entries(*final(node)) + node_entries(*right),
                    (key@, doc_id@),
                )
                &&& finds_inserted(
                    split_side(*final(node), sep@, *right, key@),
                    key@,
                    doc_id@,
                    key_absent(node_entries(*old(node)), key@),
                )
            },
        },
    decreases *old(node),
{
    match node {
        BTreeNode::Leaf(leaf) => insert_into_leaf(leaf, key, doc_id, Ghost(lo), Ghost(hi)),
        BTreeNode::Internal(internal) => {
            let ghost ks = key_views(internal.keys@);
            let ghost cs = internal.children@;
            let ghost kv = key@;
            let ghost dv = doc_id@;
            proof {
                lemma_wf_children_index(cs, ks, lo, hi);
            }
            let idx = partition_point(&internal.keys, &key, false);
            let ghost clo = child_lo(ks, lo, idx as int);
            let ghost chi = child_hi(ks, hi, idx as int);
            proof {
                assert(wf_node(*cs[idx as int], clo, chi));
                if idx > 0 {
                    assert(key_order(internal.keys@[idx - 1]@, kv) <= 0);
                }
                if idx < ks.len() {
                    assert(key_order(internal.keys@[idx as int]@, kv) > 0);
                    lemma_key_order_basic(kv, ks[idx as int]);
                }
                assert(within(kv, clo, chi));
                assert(decreases_to!(*old(node) => old(node)->Internal_0));
                assert(decreases_to!(old(node)->Internal_0 => old(node)->Internal_0.children));
                assert(decreases_to!(old(node)->Internal_0.children => old(node)->Internal_0.children@));
                assert(decreases_to!(old(node)->Internal_0.children@ => old(node)->Internal_0.children@[idx as int]));
            }
            let ghost absent = key_absent(node_entries(*old(node)), kv);
            proof {
                if absent {
                    lemma_absent_in_child(cs, idx as int, kv);
                }
            }
            let mut child = internal.children.remove(idx);
            let split = insert_into_node(&mut child, key, doc_id, Ghost(clo), Ghost(chi));
            internal.children.insert(idx, child);
            match split {
                None => {
                    proof {
                        lemma_lookup_child(*internal, kv);
                        assert(internal.children@ =~= cs.update(idx as int, internal.children@[idx as int]));
                        lemma_replace_child(cs, ks, lo, hi, idx as int, internal.children@[idx as int], (kv, dv));
                        assert(key_views(internal.keys@) == ks);
                        assert forall|i: int| 0 <= i < internal.keys@.len() implies #[trigger] within(internal.keys@[i]@, lo, hi) by {
                            assert(within(old(node)->Internal_0.keys@[i]@, lo, hi));
                        }
                    }
                    None
                },
                Some((sep, right)) => {
                    let ghost sv = sep@;
                    let ghost c = internal.children@[idx as int];
                    let ghost r = right;
                    proof {
                        assert forall|i: int| 0 <= i < ks.len() implies #[trigger] within(ks[i], lo, hi) by {
                            assert(within(old(node)->Internal_0.keys@[i]@, lo, hi));
                        }
                        lemma_split_child(cs, ks, lo, hi, idx as int, c, sv, r, (kv, dv));
                    }
                    internal.keys.insert(idx, sep);
                    let nchildren = internal.children.len();
                    assert(idx < nchildren);
                    internal.children.insert(idx + 1, right);
                    proof {
                        let nks = key_views(internal.keys@);
                        assert(nks =~= ks.insert(idx as int, sv));
                        assert(internal.children@ =~= cs.subrange(0, idx as int) + seq![c, r] + cs.subrange(
                            idx + 1,
                            cs.len() as int,
                        ));
                        assert forall|i: int| 0 <= i < internal.keys@.len() implies #[trigger] within(internal.keys@[i]@, lo, hi) by {
                            assert(internal.keys@[i]@ == nks[i]);
                        }
                        lemma_child_split_lookup(*internal, ks, cs, idx as int, c, sv, r, kv);
                    }
                    let needs_split = internal.keys.len() > MAX_KEYS_PER_NODE || estimate_internal_size(internal)
                        > NODE_PAGE_SIZE - 200;
                    if needs_split {
                        let ghost pre = *internal;
                        let (sep2, right2) = split_internal(internal, Ghost(lo), Ghost(hi));
                        proof {
                            lemma_internal_split_lookup(pre, *internal, sep2, right2->Internal_0, kv);
                        }
                        Some((sep2, right2))
                    } else {
                        None
                    }
                },
            }
        },
    }
}

} // verus!

verus! {

// ---------------------------------------------------------------------------
// Delete
// ---------------------------------------------------------------------------

/// One occurrence of `e` was taken out of `old_es`.
pub open spec fn removed_at(old_es: Seq<Entry>, new_es: Seq<Entry>, e: Entry) -> bool {
    exists|p: int| 0 <= p < old_es.len() && old_es[p] == e && new_es == old_es.remove(p)
}

/// A child that lost an entry, put back in place, keeps the children well
/// formed; their concatenation lost that entry.
proof fn lemma_replace_child_removed(
    cs: Seq<Box<BTreeNode>>,
    ks: Seq<KeyView>,
    lo: Option<KeyView>,
    hi: Option<KeyView>,
    idx: int,
    c: Box<BTreeNode>,
    e: Entry,
    removed: bool,
)
    requires
        cs.len() == ks.len() + 1,
        0 <= idx < cs.len(),
        wf_children(cs, ks, lo, hi),
        wf_node(*c, child_lo(ks, lo, idx), child_hi(ks, hi, idx)),
        removed ==> removed_at(node_entries(*cs[idx]), node_entries(*c), e),
        !removed ==> node_entries(*c) == node_entries(*cs[idx]),
    ensures
        wf_children(cs.update(idx, c), ks, lo, hi),
        removed ==> removed_at(children_entries(cs), children_entries(cs.update(idx, c)), e),
        !removed ==> children_entries(cs.update(idx, c)) == children_entries(cs),
{
    let ncs = cs.update(idx, c);
    lemma_wf_children_index(cs, ks, lo, hi);
    lemma_children_entries_split(cs, idx);
    lemma_children_entries_split(ncs, idx);
    let pre = cs.subrange(0, idx);
    let post = cs.subrange(idx + 1, cs.len() as int);
    assert(ncs.subrange(0, idx) =~= pre);
    assert(ncs.subrange(idx + 1, cs.len() as int) =~= post);
    let pe = children_entries(pre);
    let qe = children_entries(post);
    if removed {
        let ce = node_entries(*cs[idx]);
        let p = choose|p: int| 0 <= p < ce.len() && ce[p] == e && node_entries(*c) == ce.remove(p);
        assert((pe + ce + qe)[pe.len() + p] == e);
        assert(children_entries(ncs) =~= children_entries(cs).remove(pe.len() + p));
    }
    assert forall|i: int| 0 <= i < ncs.len() implies #[trigger] wf_node(
        *ncs[i],
        child_lo(ks, lo, i),
        child_hi(ks, hi, i),
    ) by {
        if i != idx {
            assert(ncs[i] == cs[i]);
        }
    }
    lemma_wf_children_index(ncs, ks, lo, hi);
}

/// Position of the entry `(key, doc_id)` in the run of entries with `key`
/// that starts at `start`, the first position whose key is not below `key`.
#[verifier::spinoff_prover]
fn find_in_run(
    keys: &Vec<IndexKey>,
    ids: &Vec<DocumentId>,
    key: &IndexKey,
    doc_id: &DocumentId,
    start: usize,
) -> (r: Option<usize>)
    requires
        keys@.len() == ids@.len(),
        start <= keys@.len(),
        keys_sorted(key_views(keys@)),
        forall|i: int| 0 <= i < start ==> key_order(#[trigger] keys@[i]@, key@) < 0,
        forall|i: int| start <= i < keys@.len() ==> key_order(#[trigger] keys@[i]@, key@) >= 0,
    ensures
        match r {
            Some(p) => p < keys@.len() && keys@[p as int]@ == key@ && ids@[p as int]@ == doc_id@,
            None => forall|i: int| 0 <= i < keys@.len() ==> !(#[trigger] keys@[i]@ == key@ && ids@[i]@ == doc_id@),
        },
{
    let ghost ks = key_views(keys@);
    let mut pos = start;
    while pos < keys.len()
        invariant
            ks == key_views(keys@),
            keys_sorted(ks),
            keys@.len() == ids@.len(),
            start <= pos <= keys@.len(),
            forall|i: int| 0 <= i < start ==> key_order(#[trigger] keys@[i]@, key@) < 0,
            forall|i: int| start <= i < pos ==> #[trigger] keys@[i]@ == key@ && ids@[i]@ != doc_id@,
            forall|i: int| start <= i < keys@.len() ==> key_order(#[trigger] keys@[i]@, key@) >= 0,
        decreases keys@.len() - pos,
    {
        if !crate::index::key::key_equal(&keys[pos], key) {
            proof {
                // past the run of equal keys: the rest are greater
                assert forall|i: int| 0 <= i < keys@.len() implies !(#[trigger] keys@[i]@ == key@ && ids@[i]@ == doc_id@) by {
                    if i >= pos {
                        assert(ks[pos as int] == keys@[pos as int]@ && ks[i] == keys@[i]@);
                        lemma_key_order_basic(keys@[pos as int]@, key@);
                        if i > pos {
                            lemma_key_order_lt_trans(key@, keys@[pos as int]@, keys@[i]@);
                        }
                        lemma_key_order_basic(key@, keys@[i]@);
                    } else if i < start {
                        lemma_key_order_basic(keys@[i]@, key@);
                    }
                }
            }
            return None;
        }
        if ids[pos].same_as(doc_id) {
            return Some(pos);
        }
        assert(keys@[pos as int]@ == key@ && ids@[pos as int]@ != doc_id@);
        pos = pos + 1;
    }
    proof {
        assert forall|i: int| 0 <= i < keys@.len() implies !(#[trigger] keys@[i]@ == key@ && ids@[i]@ == doc_id@) by {
            if i < start {
                lemma_key_order_basic(keys@[i]@, key@);
            }
        }
    }
    None
}

/// Whether some entry below `node` has key `key`: in a leaf the first key
/// not below it is checked; in an internal node every child whose bounds
/// admit the key is tried.
fn node_has_key(node: &BTreeNode, key: &IndexKey, Ghost(lo): Ghost<Option<KeyView>>, Ghost(hi): Ghost<Option<KeyView>>) -> (r: bool)
    requires
        wf_node(*node, lo, hi),
    ensures
        r == !key_absent(node_entries(*node), key@),
    decreases node,
{
    match node {
        BTreeNode::Leaf(leaf) => {
            let ghost es = leaf_entries(*leaf);
            let ghost ks = key_views(leaf.keys@);
            let start = partition_point(&leaf.keys, key, true);
            let hit = start < leaf.keys.len() && crate::index::key::key_equal(&leaf.keys[start], key);
            proof {
                if hit {
                    assert(es[start as int].0 == key@);
                } else {
                    assert forall|i: int| 0 <= i < es.len() implies #[trigger] es[i].0 != key@ by {
                        assert(es[i].0 == leaf.keys@[i]@);
                        if es[i].0 == key@ {
                            lemma_key_order_basic(leaf.keys@[i]@, key@);
                            assert(i >= start);
                            assert(ks[start as int] == leaf.keys@[start as int]@);
                            assert(ks[i] == leaf.keys@[i]@);
                            if i > start {
                                assert(key_order(ks[start as int], ks[i]) <= 0);
                            }
                            lemma_key_order_basic(leaf.keys@[start as int]@, key@);
                        }
                    }
                }
            }
            hit
        },
        BTreeNode::Internal(internal) => {
            let ghost ks = key_views(internal.keys@);
            let ghost cs = internal.children@;
            proof {
                lemma_wf_children_index(cs, ks, lo, hi);
                assert(cs.subrange(0, 0) =~= Seq::<Box<BTreeNode>>::empty());
            }
            let n = internal.children.len();
            let mut i: usize = 0;
            while i < n
                invariant
                    *node == BTreeNode::Internal(*internal),
                    cs == internal.children@,
                    ks == key_views(internal.keys@),
                    n == cs.len(),
                    cs.len() == ks.len() + 1,
                    i <= n,
                    wf_node(*node, lo, hi),
                    forall|j: int| 0 <= j < cs.len() ==> #[trigger] wf_node(*cs[j], child_lo(ks, lo, j), child_hi(ks, hi, j)),
                    key_absent(children_entries(cs.subrange(0, i as int)), key@),
                decreases n - i,
            {
                let ghost clo = child_lo(ks, lo, i as int);
                let ghost chi = child_hi(ks, hi, i as int);
                let ghost ce = node_entries(*cs[i as int]);
                proof {
                    let s1 = cs.subrange(0, i + 1);
                    assert(s1.subrange(0, i as int) =~= cs.subrange(0, i as int));
                    assert(s1[i as int] == cs[i as int]);
                    assert(children_entries(s1) == children_entries(cs.subrange(0, i as int)) + ce);
                    lemma_wf_entries(*cs[i as int], clo, chi);
                }
                let below_lo = i > 0 && compare_keys(key, &internal.keys[i - 1]) < 0;
                let above_hi = i < internal.keys.len() && compare_keys(key, &internal.keys[i]) > 0;
                if !below_lo && !above_hi {
                    proof {
                        assert(decreases_to!(*node => node->Internal_0));
                        assert(decreases_to!(node->Internal_0 => node->Internal_0.children));
                        assert(decreases_to!(node->Internal_0.children => node->Internal_0.children@));
                        assert(decreases_to!(node->Internal_0.children@ => node->Internal_0.children@[i as int]));
                    }
                    if node_has_key(&internal.children[i], key, Ghost(clo), Ghost(chi)) {
                        proof {
                            lemma_children_entries_split(cs, i as int);
                            let q = choose|q: int| 0 <= q < ce.len() && ce[q].0 == key@;
                            let pl = children_entries(cs.subrange(0, i as int)).len();
                            assert(children_entries(cs)[pl + q] == ce[q]);
                            assert(node_entries(*node) == children_entries(cs));
                        }
                        return true;
                    }
                } else {
                    proof {
                        assert forall|q: int| 0 <= q < ce.len() implies #[trigger] ce[q].0 != key@ by {
                            assert(within(ce[q].0, clo, chi));
                            if ce[q].0 == key@ {
                                if below_lo {
                                    assert(ks[i - 1] == internal.keys@[i - 1]@);
                                    lemma_key_order_basic(key@, internal.keys@[i - 1]@);
                                } else {
                                    assert(ks[i as int] == internal.keys@[i as int]@);
                                    lemma_key_order_basic(key@, internal.keys@[i as int]@);
                                }
                            }
                        }
                    }
                }
                proof {
                    let s1 = cs.subrange(0, i + 1);
                    let pre = children_entries(cs.subrange(0, i as int));
                    assert forall|q: int| 0 <= q < children_entries(s1).len() implies #[trigger] children_entries(s1)[q].0 != key@ by {
                        if q < pre.len() {
                            assert(children_entries(s1)[q] == pre[q]);
                        } else {
                            assert(children_entries(s1)[q] == ce[q - pre.len()]);
                        }
                    }
                }
                i = i + 1;
            }
            proof {
                assert(cs.subrange(0, n as int) =~= cs);
            }
            false
        },
    }
}

/// Remove one entry `(key, doc_id)` wherever it is below `node`: in a leaf,
/// the run of entries with `key` is scanned; in an internal node, every child
/// whose bounds admit `key` is tried in order until one holds the entry.
fn delete_in_node(
    node: &mut BTreeNode,
    key: &IndexKey,
    doc_id: &DocumentId,
    Ghost(lo): Ghost<Option<KeyView>>,
    Ghost(hi): Ghost<Option<KeyView>>,
) -> (deleted: bool)
    requires
        wf_node(*old(node), lo, hi),
    ensures
        wf_node(*final(node), lo, hi),
        deleted == node_entries(*old(node)).contains((key@, doc_id@)),
        deleted ==> removed_at(node_entries(*old(node)), node_entries(*final(node)), (key@, doc_id@)),
        !deleted ==> node_entries(*final(node)) == node_entries(*old(node)),
    decreases *old(node),
{
    let ghost e = (key@, doc_id@);
    match node {
        BTreeNode::Leaf(leaf) => {
            let ghost es = leaf_entries(*leaf);
            let ghost ks = key_views(leaf.keys@);
            let start = partition_point(&leaf.keys, key, true);
            match find_in_run(&leaf.keys, &leaf.document_ids, key, doc_id, start) {
                None => {
                    proof {
                        if es.contains(e) {
                            let q = choose|q: int| 0 <= q < es.len() && es[q] == e;
                            assert(leaf.keys@[q]@ == key@ && leaf.document_ids@[q]@ == doc_id@);
                        }
                    }
                    false
                },
                Some(pos) => {
                    leaf.keys.remove(pos);
                    leaf.document_ids.remove(pos);
                    proof {
                        assert(es[pos as int] == e);
                        assert(es.contains(e));
                        assert(leaf_entries(*leaf) =~= es.remove(pos as int));
                        assert forall|i: int| 0 <= i < leaf.keys@.len() implies #[trigger] within(leaf.keys@[i]@, lo, hi) by {
                            if i < pos {
                                assert(leaf.keys@[i] == old(node)->Leaf_0.keys@[i]);
                            } else {
                                assert(leaf.keys@[i] == old(node)->Leaf_0.keys@[i + 1]);
                            }
                        }
                        let nks = key_views(leaf.keys@);
                        assert forall|i: int, j: int| 0 <= i < j < nks.len() implies key_order(nks[i], nks[j]) <= 0 by {
                            if j < pos {
                                assert(nks[i] == ks[i] && nks[j] == ks[j]);
                            } else if i < pos {
                                assert(nks[i] == ks[i] && nks[j] == ks[j + 1]);
                            } else {
                                assert(nks[i] == ks[i + 1] && nks[j] == ks[j + 1]);
                            }
                        }
                    }
                    true
                },
            }
        },
        BTreeNode::Internal(internal) => {
            let ghost ks = key_views(internal.keys@);
            let ghost cs = internal.children@;
            let ghost okeys = internal.keys@;
            proof {
                lemma_wf_children_index(cs, ks, lo, hi);
                assert(cs.subrange(0, 0) =~= Seq::<Box<BTreeNode>>::empty());
            }
            let n = internal.children.len();
            let mut i: usize = 0;
            let mut found = false;
            while i < n && !found
                invariant
                    e == (key@, doc_id@),
                    *old(node) == BTreeNode::Internal(old(node)->Internal_0),
                    cs == old(node)->Internal_0.children@,
                    okeys == old(node)->Internal_0.keys@,
                    internal.keys@ == okeys,
                    ks == key_views(okeys),
                    n == cs.len(),
                    cs.len() == ks.len() + 1,
                    internal.children@.len() == cs.len(),
                    i <= n,
                    wf_node(*old(node), lo, hi),
                    wf_children(internal.children@, ks, lo, hi),
                    found ==> removed_at(children_entries(cs), children_entries(internal.children@), e),
                    found ==> children_entries(cs).contains(e),
                    !found ==> children_entries(internal.children@) == children_entries(cs),
                    !found ==> forall|j: int| 0 <= j < cs.len() ==> node_entries(*#[trigger] internal.children@[j]) == node_entries(*cs[j]),
                    !found ==> forall|j: int| i <= j < cs.len() ==> #[trigger] internal.children@[j] == cs[j],
                    !found ==> !children_entries(cs.subrange(0, i as int)).contains(e),
                decreases n - i,
            {
                let ghost cur = internal.children@;
                let ghost clo = child_lo(ks, lo, i as int);
                let ghost chi = child_hi(ks, hi, i as int);
                proof {
                    lemma_wf_children_index(cur, ks, lo, hi);
                    assert(wf_node(*cur[i as int], clo, chi));
                    let s1 = cs.subrange(0, i + 1);
                    assert(s1.subrange(0, i as int) =~= cs.subrange(0, i as int));
                    assert(s1[i as int] == cs[i as int]);
                    assert(children_entries(s1) == children_entries(cs.subrange(0, i as int)) + node_entries(*cs[i as int]));
                    lemma_wf_entries(*cur[i as int], clo, chi);
                    assert(node_entries(*cur[i as int]) == node_entries(*cs[i as int]));
                }
                let below_lo = i > 0 && compare_keys(key, &internal.keys[i - 1]) < 0;
                let above_hi = i < internal.keys.len() && compare_keys(key, &internal.keys[i]) > 0;
                let ghost ce = node_entries(*cs[i as int]);
                if !below_lo && !above_hi {
                    proof {
                        assert(decreases_to!(*old(node) => old(node)->Internal_0));
                        assert(decreases_to!(old(node)->Internal_0 => old(node)->Internal_0.children));
                        assert(decreases_to!(old(node)->Internal_0.children => old(node)->Internal_0.children@));
                        assert(decreases_to!(old(node)->Internal_0.children@ => old(node)->Internal_0.children@[i as int]));
                    }
                    assert(cur[i as int] == cs[i as int]);
                    let mut child = internal.children.remove(i);
                    assert(child == cs[i as int]);
                    let ghost c0 = *child;
                    let deleted = delete_in_node(&mut child, key, doc_id, Ghost(clo), Ghost(chi));
                    assert(c0 == *cur[i as int]);
                    assert(deleted ==> removed_at(node_entries(c0), node_entries(*child), e));
                    assert(deleted == node_entries(c0).contains(e));
                    internal.children.insert(i, child);
                    proof {
                        assert(internal.children@ =~= cur.update(i as int, internal.children@[i as int]));
                        lemma_replace_child_removed(
                            cur,
                            ks,
                            lo,
                            hi,
                            i as int,
                            internal.children@[i as int],
                            e,
                            deleted,
                        );
                    }
                    if deleted {
                        proof {
                            assert(forall|j: int| 0 <= j < internal.keys@.len() ==> #[trigger] within(internal.keys@[j]@, lo, hi));
                            assert(key_views(internal.keys@) == ks);
                            lemma_children_entries_split(cs, i as int);
                            let q = choose|q: int| 0 <= q < ce.len() && ce[q] == e;
                            let pl = children_entries(cs.subrange(0, i as int)).len();
                            assert(children_entries(cs)[pl + q] == e);
                        }
                        found = true;
                    }
                    if !deleted {
                    proof {
                        assert forall|j: int| 0 <= j < cs.len() implies node_entries(*#[trigger] internal.children@[j]) == node_entries(*cs[j]) by {
                            if j != i {
                                assert(internal.children@[j] == cur[j]);
                            }
                        }
                        assert forall|j: int| i + 1 <= j < cs.len() implies #[trigger] internal.children@[j] == cs[j] by {
                            assert(internal.children@[j] == cur[j]);
                        }
                    }
                    }
                } else {
                    proof {
                        if ce.contains(e) {
                            let q = choose|q: int| 0 <= q < ce.len() && ce[q] == e;
                            assert(within(ce[q].0, clo, chi));
                            if below_lo {
                                assert(ks[i - 1] == internal.keys@[i - 1]@);
                                lemma_key_order_basic(key@, internal.keys@[i - 1]@);
                            } else {
                                assert(ks[i as int] == internal.keys@[i as int]@);
                                lemma_key_order_basic(key@, internal.keys@[i as int]@);
                            }
                        }
                    }
                }
                proof {
                    let s1 = cs.subrange(0, i + 1);
                    if !found && children_entries(s1).contains(e) {
                        let q = choose|q: int| 0 <= q < children_entries(s1).len() && children_entries(s1)[q] == e;
                        let pl = children_entries(cs.subrange(0, i as int)).len();
                        if q < pl {
                            assert(children_entries(cs.subrange(0, i as int))[q] == e);
                        } else {
                            assert(ce[q - pl] == e);
                        }
                    }
                }
                i = i + 1;
            }
            proof {
                assert(cs.subrange(0, n as int) =~= cs);
                assert(forall|j: int| 0 <= j < internal.keys@.len() ==> #[trigger] within(internal.keys@[j]@, lo, hi));
                assert(key_views(internal.keys@) == ks);
            }
            found
        },
    }
}


} // verus!

verus! {

// ---------------------------------------------------------------------------
// Range query types
// ---------------------------------------------------------------------------

/// Scan order for range queries.
#[derive(Debug, Clone, Copy, PartialEq, Eq, Structural)]
pub enum ScanOrder {
    /// Smallest key first.
    Asc,
    /// Largest key first.
    Desc,
}

/// What `range_query` does with the entries in range.
#[derive(Debug, Clone, Copy)]
pub enum RangeQueryMode {
    /// Count them.
    Count,
    /// Return their document ids, `skip` dropped and at most `limit` kept.
    Scan { skip: usize, limit: Option<usize>, order: ScanOrder },
}

/// Result of `range_query`.
#[derive(Debug)]
pub enum RangeQueryResult {
    /// Answer to [`RangeQueryMode::Count`].
    Count(usize),
    /// Answer to [`RangeQueryMode::Scan`].
    Docs(Vec<DocumentId>),
}

impl RangeQueryResult {
    /// The count of a `Count` result.
    pub fn unwrap_count(self) -> (c: usize)
        requires
            self is Count,
        ensures
            c == self->Count_0,
    {
        match self {
            RangeQueryResult::Count(c) => c,
            RangeQueryResult::Docs(_) => 0,
        }
    }

    /// The document ids of a `Docs` result.
    pub fn unwrap_docs(self) -> (d: Vec<DocumentId>)
        requires
            self is Docs,
        ensures
            d == self->Docs_0,
    {
        match self {
            RangeQueryResult::Docs(d) => d,
            RangeQueryResult::Count(_) => Vec::new(),
        }
    }
}

// ---------------------------------------------------------------------------
// Statistics
// ---------------------------------------------------------------------------

/// Changes to an index since its statistics were last refreshed.
#[derive(Debug, Clone)]
pub struct StatisticsCounters {
    /// Inserts since the last refresh.
    pub writes_since_refresh: u64,
    /// Deletes since the last refresh.
    pub deletes_since_refresh: u64,
    /// Inserts overall.
    pub total_writes: u64,
    /// Number of keys when statistics were last refreshed.
    pub num_keys_at_last_refresh: u64,
}

impl Default for StatisticsCounters {
    fn default() -> (c: Self)
        ensures
            c.writes_since_refresh == 0,
            c.deletes_since_refresh == 0,
            c.total_writes == 0,
            c.num_keys_at_last_refresh == 0,
    {
        StatisticsCounters {
            writes_since_refresh: 0,
            deletes_since_refresh: 0,
            total_writes: 0,
            num_keys_at_last_refresh: 0,
        }
    }
}

impl StatisticsCounters {
    /// Statistics are stale: never refreshed, more than a tenth of the keys
    /// changed since, or more than 10,000 writes since.
    pub open spec fn stale(&self) -> bool {
        self.num_keys_at_last_refresh == 0
            || 10 * (self.writes_since_refresh + self.deletes_since_refresh) > self.num_keys_at_last_refresh
            || self.writes_since_refresh > 10000
    }

    /// Whether statistics should be refreshed (the current key count does not enter).
    pub fn needs_refresh(&self, current_num_keys: u64) -> (r: bool)
        requires
            self.writes_since_refresh + self.deletes_since_refresh <= u64::MAX,
        ensures
            r == self.stale(),
    {
        let n = self.num_keys_at_last_refresh;
        let changes = self.writes_since_refresh + self.deletes_since_refresh;
        let ratio_exceeded = if n == 0 {
            true
        } else {
            (changes as u128) * 10 > n as u128
        };
        ratio_exceeded || self.writes_since_refresh > 10000
    }

    /// Reset the counters after a refresh at `current_num_keys` keys.
    pub fn mark_refreshed(&mut self, current_num_keys: u64)
        ensures
            final(self).writes_since_refresh == 0,
            final(self).deletes_since_refresh == 0,
            final(self).num_keys_at_last_refresh == current_num_keys,
            final(self).total_writes == old(self).total_writes,
    {
        self.writes_since_refresh = 0;
        self.deletes_since_refresh = 0;
        self.num_keys_at_last_refresh = current_num_keys;
    }

    /// Count one insert.
    pub fn record_write(&mut self)
        requires
            old(self).writes_since_refresh < u64::MAX,
            old(self).total_writes < u64::MAX,
        ensures
            final(self).writes_since_refresh == old(self).writes_since_refresh + 1,
            final(self).total_writes == old(self).total_writes + 1,
            final(self).deletes_since_refresh == old(self).deletes_since_refresh,
            final(self).num_keys_at_last_refresh == old(self).num_keys_at_last_refresh,
    {
        self.writes_since_refresh = self.writes_since_refresh + 1;
        self.total_writes = self.total_writes + 1;
    }

    /// Count one delete.
    pub fn record_delete(&mut self)
        requires
            old(self).deletes_since_refresh < u64::MAX,
        ensures
            final(self).deletes_since_refresh == old(self).deletes_since_refresh + 1,
            final(self).writes_since_refresh == old(self).writes_since_refresh,
            final(self).total_writes == old(self).total_writes,
            final(self).num_keys_at_last_refresh == old(self).num_keys_at_last_refresh,
    {
        self.deletes_since_refresh = self.deletes_since_refresh + 1;
    }
}

} // verus!

verus! {

/// Number of histogram buckets unless stated otherwise.
pub fn default_bucket_count() -> (n: u32)
    ensures
        n == 64,
{
    64
}

/// View of an optional key.
pub open spec fn owned_key_view(o: Option<IndexKey>) -> Option<KeyView> {
    match o {
        Some(k) => Some(k@),
        None => None,
    }
}

/// Equi-depth histogram of an index's keys, for range selectivity estimates.
#[derive(Debug)]
pub struct Histogram {
    /// Sorted bucket boundaries: `bucket_count - 1` keys.
    pub boundaries: Vec<IndexKey>,
    pub min_value: Option<IndexKey>,
    pub max_value: Option<IndexKey>,
    pub bucket_count: u32,
}

impl Histogram {
    /// Fewest entries for which a histogram is built.
    pub const MIN_ENTRIES_FOR_HISTOGRAM: usize = 100000;

    /// Bucket of a value by binary search of the boundaries: with sorted
    /// boundaries, the number of boundaries below the value (a position
    /// holding it, when it is one of them).
    pub fn find_bucket(&self, value: &IndexKey) -> (b: usize)
        ensures
            b <= self.boundaries@.len(),
            keys_sorted(key_views(self.boundaries@)) ==> b == count_lt(key_views(self.boundaries@), value@),
    {
        let ghost ks = key_views(self.boundaries@);
        let ghost sorted = keys_sorted(ks);
        let keys = &self.boundaries;
        let mut lo: usize = 0;
        let mut hi: usize = keys.len();
        while lo < hi
            invariant
                ks == key_views(keys@),
                sorted == keys_sorted(ks),
                0 <= lo <= hi <= keys@.len(),
                sorted ==> forall|i: int| 0 <= i < lo ==> key_order(#[trigger] ks[i], value@) < 0,
                sorted ==> forall|i: int| hi <= i < keys@.len() ==> key_order(#[trigger] ks[i], value@) >= 0,
            decreases hi - lo,
        {
            let mid = lo + (hi - lo) / 2;
            let c = compare_keys(&keys[mid], value);
            if c < 0 {
                proof {
                    if sorted {
                        assert forall|i: int| 0 <= i <= mid implies key_order(#[trigger] ks[i], value@) < 0 by {
                            if i < mid {
                                lemma_key_order_lt_trans(ks[i], ks[mid as int], value@);
                            }
                        }
                    }
                }
                lo = mid + 1;
            } else {
                proof {
                    if sorted {
                        assert forall|i: int| mid <= i < keys@.len() implies key_order(#[trigger] ks[i], value@) >= 0 by {
                            if i > mid {
                                lemma_key_order_basic(value@, ks[mid as int]);
                                lemma_key_order_trans(value@, ks[mid as int], ks[i]);
                                lemma_key_order_basic(value@, ks[i]);
                            }
                        }
                    }
                }
                hi = mid;
            }
        }
        proof {
            if sorted {
                lemma_partition_is_count(ks, value@, lo as int, true);
            }
        }
        lo
    }

    /// Buckets that the range from `start` to `end` covers, at least one;
    /// an open start is the first bucket, an open end the bucket count.
    pub fn covered_buckets(&self, start: Option<&IndexKey>, end: Option<&IndexKey>) -> (c: usize)
        ensures
            c >= 1,
            keys_sorted(key_views(self.boundaries@)) ==> c == ({
                let s: int = match start {
                    Some(v) => count_lt(key_views(self.boundaries@), v@) as int,
                    None => 0,
                };
                let e: int = match end {
                    Some(v) => count_lt(key_views(self.boundaries@), v@) as int,
                    None => self.bucket_count as int,
                };
                if e - s > 1 {
                    e - s
                } else {
                    1
                }
            }),
    {
        let s = match start {
            Some(v) => self.find_bucket(v),
            None => 0,
        };
        let e = match end {
            Some(v) => self.find_bucket(v),
            None => self.bucket_count as usize,
        };
        if e > s && e - s > 1 {
            e - s
        } else {
            1
        }
    }

    /// Whether the histogram holds data.
    pub fn is_valid(&self) -> (r: bool)
        ensures
            r == (self.boundaries@.len() > 0 && self.bucket_count > 0),
    {
        self.boundaries.len() > 0 && self.bucket_count > 0
    }

    /// The same histogram: equal boundaries, extremes and bucket count.
    pub open spec fn same_as(&self, other: &Histogram) -> bool {
        &&& key_views(self.boundaries@) == key_views(other.boundaries@)
        &&& owned_key_view(self.min_value) == owned_key_view(other.min_value)
        &&& owned_key_view(self.max_value) == owned_key_view(other.max_value)
        &&& self.bucket_count == other.bucket_count
    }

    /// A copy of the histogram.
    pub fn copy(&self) -> (h: Histogram)
        ensures
            h.same_as(self),
    {
        let mut boundaries: Vec<IndexKey> = Vec::new();
        let mut i: usize = 0;
        while i < self.boundaries.len()
            invariant
                i <= self.boundaries@.len(),
                key_views(boundaries@) == key_views(self.boundaries@).subrange(0, i as int),
            decreases self.boundaries@.len() - i,
        {
            let k = self.boundaries[i].clone();
            let ghost bv = boundaries@;
            boundaries.push(k);
            assert(boundaries@ == bv.push(k));
            assert(key_views(bv).len() == i);
            assert(key_views(boundaries@) =~= key_views(self.boundaries@).subrange(0, i + 1));
            i = i + 1;
        }
        assert(key_views(self.boundaries@).subrange(0, i as int) =~= key_views(self.boundaries@));
        let min_value = match &self.min_value {
            Some(k) => Some(k.clone()),
            None => None,
        };
        let max_value = match &self.max_value {
            Some(k) => Some(k.clone()),
            None => None,
        };
        Histogram { boundaries, min_value, max_value, bucket_count: self.bucket_count }
    }
}

/// The most frequent keys of an index with their frequencies.
#[derive(Debug)]
pub struct MostCommonValues {
    /// (key, frequency), most frequent first.
    pub values: Vec<(IndexKey, u64)>,
    /// Number of keys counted.
    pub total_keys: u64,
    /// Sum of the listed frequencies.
    pub mcv_frequency_sum: u64,
}

impl MostCommonValues {
    /// Number of values kept.
    pub const DEFAULT_MCV_SIZE: usize = 20;
    /// Fewest entries for which the list is built.
    pub const MIN_ENTRIES_FOR_MCV: usize = 1000;
    /// Most distinct values counted.
    pub const MAX_TRACKED_DISTINCT: usize = 100000;

    /// Whether the list holds data.
    pub fn is_valid(&self) -> (r: bool)
        ensures
            r == (self.values@.len() > 0 && self.total_keys > 0),
    {
        self.values.len() > 0 && self.total_keys > 0
    }

    /// The same list: equal values, frequencies and totals.
    pub open spec fn same_as(&self, other: &MostCommonValues) -> bool {
        &&& count_views(self.values@) == count_views(other.values@)
        &&& self.total_keys == other.total_keys
        &&& self.mcv_frequency_sum == other.mcv_frequency_sum
    }

    /// A copy of the list.
    pub fn copy(&self) -> (m: MostCommonValues)
        ensures
            m.same_as(self),
    {
        let mut values: Vec<(IndexKey, u64)> = Vec::new();
        let mut i: usize = 0;
        while i < self.values.len()
            invariant
                i <= self.values@.len(),
                count_views(values@) == count_views(self.values@).subrange(0, i as int),
            decreases self.values@.len() - i,
        {
            let k = self.values[i].0.clone();
            let ghost vv = values@;
            values.push((k, self.values[i].1));
            assert(count_views(vv).len() == i);
            assert(count_views(values@) =~= count_views(self.values@).subrange(0, i + 1));
            i = i + 1;
        }
        assert(count_views(self.values@).subrange(0, i as int) =~= count_views(self.values@));
        MostCommonValues { values, total_keys: self.total_keys, mcv_frequency_sum: self.mcv_frequency_sum }
    }

    /// Frequency of the first listed value equal to `value`.
    pub fn frequency_of(&self, value: &IndexKey) -> (r: Option<u64>)
        ensures
            match r {
                Some(f) => exists|i: int|
                    0 <= i < self.values@.len() && #[trigger] self.values@[i].0@ == value@ && self.values@[i].1 == f
                        && forall|j: int| 0 <= j < i ==> self.values@[j].0@ != value@,
                None => forall|i: int| 0 <= i < self.values@.len() ==> #[trigger] self.values@[i].0@ != value@,
            },
    {
        let mut i: usize = 0;
        while i < self.values.len()
            invariant
                i <= self.values@.len(),
                forall|j: int| 0 <= j < i ==> #[trigger] self.values@[j].0@ != value@,
            decreases self.values@.len() - i,
        {
            if crate::index::key::key_equal(&self.values[i].0, value) {
                return Some(self.values[i].1);
            }
            i = i + 1;
        }
        None
    }
}

/// IEEE-754 bits of the `f32` value 1.0.
pub const F32_ONE_BITS: u32 = 0x3F80_0000;

/// IEEE-754 bits of the `f32` value 0.25.
pub const F32_QUARTER_BITS: u32 = 0x3E80_0000;

/// IEEE-754 bits of the `f32` value -0.0.
pub const F32_NEG_ZERO_BITS: u32 = 0x8000_0000;

/// A ratio held as `f32` bits lies in `[0.0, 1.0]` (negative zero included).
pub open spec fn unit_ratio_bits(b: u32) -> bool {
    b <= F32_ONE_BITS || b == F32_NEG_ZERO_BITS
}

/// Statistics of an index for query planning. The two ratios are held as
/// the IEEE-754 bits of their `f32` values.
#[derive(Debug)]
pub struct IndexStats {
    /// Number of distinct keys.
    pub distinct_count: u64,
    /// Number of null keys.
    pub null_count: u64,
    /// Share of multikey documents, in `[0.0, 1.0]` (`f32` bits).
    pub multikey_ratio: u32,
    /// Unix time of the last analysis.
    pub last_analyzed: u64,
    /// Share of entries sampled, in `[0.0, 1.0]` (`f32` bits).
    pub sample_rate: u32,
    pub histogram: Option<Histogram>,
    pub mcv: Option<MostCommonValues>,
}

impl Default for IndexStats {
    fn default() -> (s: Self)
        ensures
            s.distinct_count == 0,
            s.null_count == 0,
            s.last_analyzed == 0,
            s.multikey_ratio == 0,
            s.sample_rate == 0,
            s.histogram is None,
            s.mcv is None,
    {
        IndexStats {
            distinct_count: 0,
            null_count: 0,
            multikey_ratio: 0,
            last_analyzed: 0,
            sample_rate: 0,
            histogram: None,
            mcv: None,
        }
    }
}

impl IndexStats {
    /// Estimated number of documents for an equality query: all of them
    /// without statistics, else the average per distinct key, at least one.
    pub fn estimate_rows(&self, total_docs: u64) -> (n: u64)
        ensures
            self.distinct_count == 0 ==> n == total_docs,
            self.distinct_count != 0 ==> n == if total_docs / self.distinct_count >= 1 {
                total_docs / self.distinct_count
            } else {
                1
            },
    {
        if self.distinct_count == 0 {
            return total_docs;
        }
        let avg = total_docs / self.distinct_count;
        if avg >= 1 {
            avg
        } else {
            1
        }
    }

    /// Clamp the counts to the index size and reset ratios outside
    /// `[0.0, 1.0]` (NaN included) to zero; whether anything changed.
    pub fn validate_and_fix(&mut self, num_keys: u64) -> (fixed: bool)
        ensures
            final(self).distinct_count == if old(self).distinct_count > num_keys {
                num_keys
            } else {
                old(self).distinct_count
            },
            final(self).null_count == if old(self).null_count > num_keys {
                num_keys
            } else {
                old(self).null_count
            },
            final(self).multikey_ratio == if unit_ratio_bits(old(self).multikey_ratio) {
                old(self).multikey_ratio
            } else {
                0
            },
            final(self).sample_rate == if unit_ratio_bits(old(self).sample_rate) {
                old(self).sample_rate
            } else {
                0
            },
            final(self).last_analyzed == old(self).last_analyzed,
            final(self).histogram == old(self).histogram,
            final(self).mcv == old(self).mcv,
            fixed == (old(self).distinct_count > num_keys || old(self).null_count > num_keys || !unit_ratio_bits(
                old(self).multikey_ratio,
            ) || !unit_ratio_bits(old(self).sample_rate)),
    {
        let mut fixed = false;
        if self.distinct_count > num_keys {
            self.distinct_count = num_keys;
            fixed = true;
        }
        if self.null_count > num_keys {
            self.null_count = num_keys;
            fixed = true;
        }
        if !(self.multikey_ratio <= F32_ONE_BITS || self.multikey_ratio == F32_NEG_ZERO_BITS) {
            self.multikey_ratio = 0;
            fixed = true;
        }
        if !(self.sample_rate <= F32_ONE_BITS || self.sample_rate == F32_NEG_ZERO_BITS) {
            self.sample_rate = 0;
            fixed = true;
        }
        fixed
    }
}

/// Description and bookkeeping of one index.
#[derive(Debug)]
pub struct IndexMetadata {
    pub name: String,
    /// Primary field (the first field of a compound index).
    pub field: String,
    /// All indexed fields, in key order.
    pub fields: Vec<String>,
    pub unique: bool,
    pub sparse: bool,
    pub multikey: bool,
    /// String keys are stored lowercased.
    pub case_insensitive: bool,
    pub num_keys: u64,
    pub tree_height: u32,
    /// File offset of the persisted root (0 = in memory only).
    pub root_offset: u64,
    pub stats: IndexStats,
    /// Set while the index is being built; planners ignore it meanwhile.
    pub building: bool,
}

impl IndexMetadata {
    /// Whether the index covers several fields.
    pub fn is_compound(&self) -> (r: bool)
        ensures
            r == (self.fields@.len() > 1),
    {
        self.fields.len() > 1
    }
}

} // verus!

verus! {

// ---------------------------------------------------------------------------
// The tree
// ---------------------------------------------------------------------------

/// B+ tree index: (key, document id) entries in key order.
#[derive(Debug)]
pub struct BPlusTree {
    root: Box<BTreeNode>,
    pub metadata: IndexMetadata,
    /// Changes since statistics were last refreshed.
    counters: StatisticsCounters,
    /// Size of the file the tree was read from (0 when it was not).
    persisted_size: u64,
}

/// An empty leaf.
fn empty_leaf() -> (n: BTreeNode)
    ensures
        wf_node(n, None, None),
        node_entries(n) == Seq::<Entry>::empty(),
        n is Leaf,
        n->Leaf_0.keys@.len() == 0,
        n->Leaf_0.document_ids@.len() == 0,
        n->Leaf_0.next_leaf_offset == 0,
{
    let n = BTreeNode::Leaf(LeafNode { keys: Vec::new(), document_ids: Vec::new(), next_leaf_offset: 0 });
    assert(leaf_entries(n->Leaf_0) =~= Seq::<Entry>::empty());
    n
}

/// Message of a unique index refusing `k`.
pub open spec fn duplicate_message(k: KeyView) -> Seq<char> {
    "Duplicate key: "@ + crate::index::key::key_debug(k) + " (unique index)"@
}

/// Message of a unique-index violation, naming the key.
fn duplicate_key_message(key: &IndexKey) -> (s: String)
    ensures
        s@ == duplicate_message(key@),
{
    let t = crate::index::key::key_debug_text(key);
    crate::text::concat3("Duplicate key: ", t.as_str(), " (unique index)")
}

/// Current Unix time in seconds (0 if the clock is before the epoch).
#[verifier::external_body]
fn unix_time_secs() -> u64 {
    std::time::SystemTime::now().duration_since(std::time::UNIX_EPOCH).map(|d| d.as_secs()).unwrap_or(0)
}

impl BPlusTree {
    /// Well formed: the nodes are, and the key count is the number of entries.
    pub closed spec fn wf(&self) -> bool {
        &&& self.wf_shape()
        &&& node_entries(*self.root).len() == self.metadata.num_keys
    }

    /// The nodes are well formed (the key count may be stale).
    pub closed spec fn wf_shape(&self) -> bool {
        &&& wf_node(*self.root, None, None)
        &&& node_entries(*self.root).len() <= usize::MAX
    }

    /// The entries of the tree, in key order.
    pub closed spec fn entries(&self) -> Seq<Entry> {
        node_entries(*self.root)
    }

    /// What a point lookup of `k` finds.
    pub closed spec fn lookup(&self, k: KeyView) -> Option<DocIdView> {
        node_lookup(*self.root, k)
    }


    /// Size of the file the tree was read from (0 when it was not).
    pub closed spec fn persisted(&self) -> u64 {
        self.persisted_size
    }

    pub closed spec fn counters_spec(&self) -> StatisticsCounters {
        self.counters
    }

    /// A well-formed tree holds its entries in key order, and no more of
    /// them than a `usize` counts.
    pub proof fn lemma_entries_sorted(&self)
        requires
            self.wf(),
        ensures
            entries_sorted(self.entries()),
            self.entries().len() <= usize::MAX,
    {
        lemma_wf_entries(*self.root, None, None);
    }

    /// A search finds only what the tree holds: the document it finds for a
    /// key is an entry with that key, so a key no entry has is not found.
    pub proof fn lemma_search_finds_entry(&self, k: KeyView)
        requires
            self.wf(),
        ensures
            self.lookup(k) matches Some(d) ==> self.entries().contains((k, d)),
            key_absent(self.entries(), k) ==> self.lookup(k) is None,
    {
        if self.lookup(k) is Some {
            lemma_lookup_sound(*self.root, k);
            let es = self.entries();
            let d = self.lookup(k)->0;
            if key_absent(es, k) {
                let i = choose|i: int| 0 <= i < es.len() && es[i] == (k, d);
                assert(es[i].0 == k);
            }
        }
    }

    /// Counting a range gives the number of documents a full ascending
    /// scan of it returns.
    pub proof fn lemma_count_matches_scan(&self, r: crate::index::scan::KeyRange)
        requires
            self.wf(),
        ensures
            docs_of(scan_entries(range_entries(self.entries(), r), 0, None, ScanOrder::Asc)).len() == range_entries(
                self.entries(),
                r,
            ).len(),
    {
        let es = range_entries(self.entries(), r);
        lemma_wf_entries(*self.root, None, None);
        self.entries().lemma_filter_len(crate::index::scan::range_pred(r));
        if es.len() > 0 {
            assert(es.subrange(0, es.len() as int) =~= es);
        } else {
            assert(window(es, 0, usize::MAX as int) =~= es);
        }
    }

    /// The metadata (a public field; contracts read it through this).
    pub closed spec fn meta(&self) -> IndexMetadata {
        self.metadata
    }

    /// A tree with the given metadata and no entries.
    fn empty(metadata: IndexMetadata) -> (t: Self)
        requires
            metadata.num_keys == 0,
        ensures
            t.wf(),
            t.entries() == Seq::<Entry>::empty(),
            t.meta() == metadata,
            t.counters_spec() == (StatisticsCounters {
                writes_since_refresh: 0,
                deletes_since_refresh: 0,
                total_writes: 0,
                num_keys_at_last_refresh: 0,
            }),
    {
        BPlusTree { root: Box::new(empty_leaf()), metadata, counters: StatisticsCounters::default(), persisted_size: 0 }
    }

    /// New single-field index.
    pub fn new(name: String, field: String, unique: bool, sparse: bool) -> (t: Self)
        ensures
            t.wf(),
            t.entries() == Seq::<Entry>::empty(),
            t.meta().name == name,
            t.meta().field == field,
            t.meta().fields@ == seq![field],
            t.meta().unique == unique,
            t.meta().sparse == sparse,
            !t.meta().multikey,
            !t.meta().case_insensitive,
            t.meta().num_keys == 0,
            t.meta().tree_height == 1,
            t.meta().root_offset == 0,
            !t.meta().building,
            t.counters_spec().writes_since_refresh == 0,
    {
        let f2 = field.clone();
        let metadata = IndexMetadata {
            name,
            field,
            fields: vec![f2],
            unique,
            sparse,
            multikey: false,
            case_insensitive: false,
            num_keys: 0,
            tree_height: 1,
            root_offset: 0,
            stats: IndexStats::default(),
            building: false,
        };
        Self::empty(metadata)
    }

    /// New case-insensitive single-field index (always sparse).
    pub fn new_ci(name: String, field: String, unique: bool) -> (t: Self)
        ensures
            t.wf(),
            t.entries() == Seq::<Entry>::empty(),
            t.meta().name == name,
            t.meta().field == field,
            t.meta().fields@ == seq![field],
            t.meta().unique == unique,
            t.meta().sparse,
            !t.meta().multikey,
            t.meta().case_insensitive,
            t.meta().num_keys == 0,
            t.meta().tree_height == 1,
            !t.meta().building,
    {
        let f2 = field.clone();
        let metadata = IndexMetadata {
            name,
            field,
            fields: vec![f2],
            unique,
            sparse: true,
            multikey: false,
            case_insensitive: true,
            num_keys: 0,
            tree_height: 1,
            root_offset: 0,
            stats: IndexStats::default(),
            building: false,
        };
        Self::empty(metadata)
    }

    /// New compound index over `fields`, in order; the first is the primary field.
    pub fn new_compound(name: String, fields: Vec<String>, unique: bool, sparse: bool) -> (t: Self)
        requires
            fields@.len() > 0,
        ensures
            t.wf(),
            t.entries() == Seq::<Entry>::empty(),
            t.meta().name == name,
            t.meta().field == fields@[0],
            t.meta().fields == fields,
            t.meta().unique == unique,
            t.meta().sparse == sparse,
            !t.meta().case_insensitive,
            t.meta().num_keys == 0,
            t.meta().tree_height == 1,
            !t.meta().building,
    {
        let primary = fields[0].clone();
        let metadata = IndexMetadata {
            name,
            field: primary,
            fields,
            unique,
            sparse,
            multikey: false,
            case_insensitive: false,
            num_keys: 0,
            tree_height: 1,
            root_offset: 0,
            stats: IndexStats::default(),
            building: false,
        };
        Self::empty(metadata)
    }

    /// Whether the index is being built.
    pub fn is_building(&self) -> (r: bool)
        ensures
            r == self.meta().building,
    {
        self.metadata.building
    }

    /// Set the building flag.
    pub fn set_building(&mut self, building: bool)
        ensures
            final(self).meta() == (IndexMetadata { building, ..old(self).meta() }),
            final(self).entries() == old(self).entries(),
            final(self).wf() == old(self).wf(),
            final(self).counters_spec() == old(self).counters_spec(),
            final(self).persisted() == old(self).persisted(),
    {
        self.metadata.building = building;
    }

    /// The metadata, read through a reference.
    pub fn metadata_ref(&self) -> (m: &IndexMetadata)
        ensures
            *m == self.meta(),
    {
        &self.metadata
    }

    /// Record whether some indexed document has an array on an indexed path.
    pub fn set_multikey(&mut self, multikey: bool)
        ensures
            final(self).meta() == (IndexMetadata { multikey, ..old(self).meta() }),
            final(self).entries() == old(self).entries(),
            final(self).wf() == old(self).wf(),
            final(self).counters_spec() == old(self).counters_spec(),
            final(self).persisted() == old(self).persisted(),
            forall|k: KeyView| #[trigger] final(self).lookup(k) == old(self).lookup(k),
    {
        self.metadata.multikey = multikey;
    }

    /// The staleness counters.
    pub fn counters(&self) -> (c: &StatisticsCounters)
        ensures
            *c == self.counters_spec(),
    {
        &self.counters
    }

    /// Whether statistics should be refreshed.
    pub fn needs_stats_refresh(&self) -> (r: bool)
        requires
            self.counters_spec().writes_since_refresh + self.counters_spec().deletes_since_refresh <= u64::MAX,
        ensures
            r == self.counters_spec().stale(),
    {
        self.counters.needs_refresh(self.metadata.num_keys)
    }

    /// Number of keys.
    pub fn size(&self) -> (n: u64)
        ensures
            n == self.meta().num_keys,
    {
        self.metadata.num_keys
    }

    /// Whether some entry has key `key`.
    pub fn contains_key(&self, key: &IndexKey) -> (r: bool)
        requires
            self.wf(),
        ensures
            r == !key_absent(self.entries(), key@),
    {
        node_has_key(&self.root, key, Ghost(None), Ghost(None))
    }

    /// Document of the first entry with `key` in the leaf that a descent
    /// towards `key` reaches.
    pub fn search(&self, key: &IndexKey) -> (res: Option<DocumentId>)
        requires
            self.wf(),
        ensures
            match res {
                None => self.lookup(key@) is None,
                Some(d) => self.lookup(key@) == Some(d@),
            },
    {
        search_in_node(&self.root, key, Ghost(None), Ghost(None))
    }
}

} // verus!

verus! {

/// Two children separated by `sep` hold, in order, the entries of both.
proof fn lemma_new_root(left: Box<BTreeNode>, sep: KeyView, right: Box<BTreeNode>)
    ensures
        children_entries(seq![left, right]) == node_entries(*left) + node_entries(*right),
{
    assert(seq![left, right] =~= seq![left] + seq![right]);
    lemma_children_entries_append(seq![left], seq![right]);
    lemma_children_entries_single(left);
    lemma_children_entries_single(right);
}

impl BPlusTree {
    /// Insert without the unique check: the entry joins the tree in key
    /// order; a root split adds a level.
    fn insert_unchecked(&mut self, key: IndexKey, doc_id: DocumentId)
        requires
            old(self).wf(),
            old(self).meta().num_keys < usize::MAX,
            old(self).meta().tree_height < u32::MAX,
            old(self).counters_spec().writes_since_refresh < u64::MAX,
            old(self).counters_spec().total_writes < u64::MAX,
        ensures
            final(self).wf(),
            inserted_at(old(self).entries(), final(self).entries(), (key@, doc_id@)),
            final(self).meta().num_keys == old(self).meta().num_keys + 1,
            final(self).meta().tree_height == old(self).meta().tree_height
                || final(self).meta().tree_height == old(self).meta().tree_height + 1,
            final(self).meta() == (IndexMetadata {
                num_keys: final(self).meta().num_keys,
                tree_height: final(self).meta().tree_height,
                ..old(self).meta()
            }),
            final(self).counters_spec().writes_since_refresh == old(self).counters_spec().writes_since_refresh + 1,
            final(self).counters_spec().total_writes == old(self).counters_spec().total_writes + 1,
            final(self).counters_spec().deletes_since_refresh == old(self).counters_spec().deletes_since_refresh,
            final(self).counters_spec().num_keys_at_last_refresh == old(self).counters_spec().num_keys_at_last_refresh,
            final(self).persisted() == old(self).persisted(),
            final(self).lookup(key@) is Some,
            key_absent(old(self).entries(), key@) ==> final(self).lookup(key@) == Some(doc_id@),
    {
        let ghost kv = key@;
        let ghost dv = doc_id@;
        let ghost old_es = node_entries(*self.root);
        let split = insert_into_node(&mut self.root, key, doc_id, Ghost(None), Ghost(None));
        match split {
            None => {},
            Some((sep, right)) => {
                let mut old_root = Box::new(empty_leaf());
                std::mem::swap(&mut old_root, &mut self.root);
                let ghost sv = sep@;
                let ghost l = old_root;
                let ghost r = right;
                let new_root = BTreeNode::Internal(
                    InternalNode { keys: vec![sep], children: vec![old_root, right], children_offsets: Vec::new() },
                );
                proof {
                    let int_node = new_root->Internal_0;
                    assert(int_node.children@ =~= seq![l, r]);
                    assert(key_views(int_node.keys@) =~= seq![sv]);
                    lemma_new_root(l, sv, r);
                    assert forall|i: int| 0 <= i < int_node.children@.len() implies #[trigger] wf_node(
                        *int_node.children@[i],
                        child_lo(seq![sv], None, i),
                        child_hi(seq![sv], None, i),
                    ) by {
                        if i == 0 {
                            assert(int_node.children@[i] == l);
                        } else {
                            assert(int_node.children@[i] == r);
                        }
                    }
                    lemma_wf_children_index(int_node.children@, seq![sv], None, None);
                    assert(node_entries(new_root) == node_entries(*l) + node_entries(*r));
                    assert(seq![sv].drop_last() =~= Seq::<KeyView>::empty());
                    assert(count_le(Seq::<KeyView>::empty(), kv) == 0);
                    assert(seq![sv].last() == sv);
                    assert(count_le(seq![sv], kv) == if key_order(sv, kv) <= 0 { 1nat } else { 0nat });
                    lemma_lookup_child(int_node, kv);
                }
                self.root = Box::new(new_root);
                self.metadata.tree_height = self.metadata.tree_height + 1;
            },
        }
        proof {
            let p = choose|p: int| 0 <= p <= old_es.len() && node_entries(*self.root) == old_es.insert(p, (kv, dv));
            assert(node_entries(*self.root).len() == old_es.len() + 1);
        }
        self.metadata.num_keys = self.metadata.num_keys + 1;
        self.counters.record_write();
    }

    /// Insert an entry. On a unique index, a key that a lookup already finds
    /// is refused with an `IndexError` and the tree is left as it was.
    pub fn insert(&mut self, key: IndexKey, doc_id: DocumentId) -> (res: Result<(), IronBaseError>)
        requires
            old(self).wf(),
            old(self).meta().num_keys < usize::MAX,
            old(self).meta().tree_height < u32::MAX,
            old(self).counters_spec().writes_since_refresh < u64::MAX,
            old(self).counters_spec().total_writes < u64::MAX,
        ensures
            final(self).wf(),
            res is Err <==> (old(self).meta().unique && !key_absent(old(self).entries(), key@)),
            res is Err ==> res->Err_0 is IndexError && *final(self) == *old(self),
            res is Err ==> res->Err_0->IndexError_0@ == duplicate_message(key@),
            res is Ok ==> {
                &&& inserted_at(old(self).entries(), final(self).entries(), (key@, doc_id@))
                &&& final(self).meta().num_keys == old(self).meta().num_keys + 1
                &&& final(self).counters_spec().writes_since_refresh == old(self).counters_spec().writes_since_refresh + 1
                &&& final(self).counters_spec().total_writes == old(self).counters_spec().total_writes + 1
            },
            res is Ok ==> final(self).meta().tree_height == old(self).meta().tree_height
                || final(self).meta().tree_height == old(self).meta().tree_height + 1,
            res is Ok ==> final(self).lookup(key@) is Some,
            res is Ok && key_absent(old(self).entries(), key@) ==> final(self).lookup(key@) == Some(doc_id@),
            final(self).meta() == (IndexMetadata {
                num_keys: final(self).meta().num_keys,
                tree_height: final(self).meta().tree_height,
                ..old(self).meta()
            }),
            final(self).counters_spec().deletes_since_refresh == old(self).counters_spec().deletes_since_refresh,
            final(self).counters_spec().num_keys_at_last_refresh == old(self).counters_spec().num_keys_at_last_refresh,
            final(self).persisted() == old(self).persisted(),
    {
        if self.metadata.unique && self.contains_key(&key) {
            return Err(IronBaseError::IndexError(duplicate_key_message(&key)));
        }
        self.insert_unchecked(key, doc_id);
        Ok(())
    }

    /// Remove all entries: one empty leaf, no keys, height one.
    pub fn clear(&mut self)
        ensures
            final(self).wf(),
            final(self).entries() == Seq::<Entry>::empty(),
            final(self).meta().num_keys == 0,
            final(self).meta().tree_height == 1,
            final(self).meta().unique == old(self).meta().unique,
            final(self).meta().fields == old(self).meta().fields,
            final(self).meta().name == old(self).meta().name,
            final(self).meta().building == old(self).meta().building,
            final(self).counters_spec() == old(self).counters_spec(),
    {
        self.root = Box::new(empty_leaf());
        self.metadata.num_keys = 0;
        self.metadata.tree_height = 1;
    }

    /// Delete one entry `(key, doc_id)` from the tree, wherever it is among
    /// the entries with `key`; deleting what is not there changes nothing.
    pub fn delete(&mut self, key: &IndexKey, doc_id: &DocumentId) -> (res: Result<(), IronBaseError>)
        requires
            old(self).wf(),
            old(self).counters_spec().deletes_since_refresh < u64::MAX,
        ensures
            res is Ok,
            final(self).wf(),
            old(self).entries().contains((key@, doc_id@)) ==> {
                &&& removed_at(old(self).entries(), final(self).entries(), (key@, doc_id@))
                &&& final(self).meta().num_keys == old(self).meta().num_keys - 1
                &&& final(self).counters_spec().deletes_since_refresh == old(self).counters_spec().deletes_since_refresh + 1
            },
            !old(self).entries().contains((key@, doc_id@)) ==> {
                &&& final(self).entries() == old(self).entries()
                &&& final(self).meta() == old(self).meta()
                &&& final(self).counters_spec() == old(self).counters_spec()
            },
            final(self).meta() == (IndexMetadata { num_keys: final(self).meta().num_keys, ..old(self).meta() }),
            final(self).counters_spec().writes_since_refresh == old(self).counters_spec().writes_since_refresh,
            final(self).counters_spec().total_writes == old(self).counters_spec().total_writes,
            final(self).counters_spec().deletes_since_refresh <= old(self).counters_spec().deletes_since_refresh + 1,
            final(self).persisted() == old(self).persisted(),
    {
        let ghost old_es = node_entries(*self.root);
        let deleted = delete_in_node(&mut self.root, key, doc_id, Ghost(None), Ghost(None));
        if deleted {
            proof {
                let p = choose|p: int| 0 <= p < old_es.len() && old_es[p] == (key@, doc_id@) && node_entries(*self.root) == old_es.remove(p);
            }
            self.metadata.num_keys = self.metadata.num_keys - 1;
            self.counters.record_delete();
        }
        Ok(())
    }
}

} // verus!

verus! {

/// Entries a scan returns of the in-range entries `es`: in key order or
/// reversed, `skip` dropped, then at most `limit` (no limit: all) kept.
pub open spec fn scan_entries(es: Seq<Entry>, skip: usize, limit: Option<usize>, order: ScanOrder) -> Seq<Entry> {
    let lim: usize = match limit {
        Some(l) => l,
        None => usize::MAX,
    };
    match order {
        ScanOrder::Asc => window(es, skip as int, lim as int),
        ScanOrder::Desc => window(es.reverse(), skip as int, lim as int),
    }
}

/// Number of runs of equal keys (distinct keys of a sorted run).
pub open spec fn key_runs(ks: Seq<KeyView>) -> nat
    decreases ks.len(),
{
    if ks.len() == 0 {
        0
    } else {
        key_runs(ks.drop_last()) + if ks.len() == 1 || ks[ks.len() - 1] != ks[ks.len() - 2] {
            1nat
        } else {
            0nat
        }
    }
}

/// Number of null keys.
pub open spec fn null_keys(ks: Seq<KeyView>) -> nat
    decreases ks.len(),
{
    if ks.len() == 0 {
        0
    } else {
        null_keys(ks.drop_last()) + if ks.last() is Null {
            1nat
        } else {
            0nat
        }
    }
}

/// Keys of a sequence of entries.
pub open spec fn entry_keys(es: Seq<Entry>) -> Seq<KeyView> {
    Seq::new(es.len(), |i: int| es[i].0)
}

/// Append the entries below `node` to `out`, in order.
fn collect_entries(
    node: &BTreeNode,
    out: &mut Vec<(IndexKey, DocumentId)>,
    Ghost(lo): Ghost<Option<KeyView>>,
    Ghost(hi): Ghost<Option<KeyView>>,
)
    requires
        wf_node(*node, lo, hi),
    ensures
        pair_views(final(out)@) == pair_views(old(out)@) + node_entries(*node),
    decreases node,
{
    match node {
        BTreeNode::Leaf(leaf) => {
            let mut i: usize = 0;
            while i < leaf.keys.len()
                invariant
                    leaf.keys@.len() == leaf.document_ids@.len(),
                    i <= leaf.keys@.len(),
                    pair_views(out@) == pair_views(old(out)@) + leaf_entries(*leaf).subrange(0, i as int),
                decreases leaf.keys@.len() - i,
            {
                let k = leaf.keys[i].copy_key();
                let d = leaf.document_ids[i].copy_id();
                let ghost prev = out@;
                out.push((k, d));
                proof {
                    assert(pair_views(out@) =~= pair_views(prev).push((leaf.keys@[i as int]@, leaf.document_ids@[i as int]@)));
                    assert(leaf_entries(*leaf).subrange(0, i + 1) =~= leaf_entries(*leaf).subrange(0, i as int).push(
                        leaf_entries(*leaf)[i as int],
                    ));
                }
                i = i + 1;
            }
            proof {
                assert(leaf_entries(*leaf).subrange(0, i as int) =~= leaf_entries(*leaf));
                assert(node_entries(*node) == leaf_entries(*leaf));
            }
        },
        BTreeNode::Internal(internal) => {
            let ghost cs = internal.children@;
            let ghost ks = key_views(internal.keys@);
            proof {
                lemma_wf_children_index(cs, ks, lo, hi);
                assert(cs.subrange(0, 0) =~= Seq::<Box<BTreeNode>>::empty());
                assert(pair_views(out@) + Seq::<Entry>::empty() =~= pair_views(out@));
            }
            let mut i: usize = 0;
            while i < internal.children.len()
                invariant
                    cs == internal.children@,
                    *node == BTreeNode::Internal(*internal),
                    node_entries(*node) == children_entries(cs),
                    ks == key_views(internal.keys@),
                    forall|j: int| 0 <= j < cs.len() ==> #[trigger] wf_node(*cs[j], child_lo(ks, lo, j), child_hi(ks, hi, j)),
                    i <= cs.len(),
                    pair_views(out@) == pair_views(old(out)@) + children_entries(cs.subrange(0, i as int)),
                decreases cs.len() - i,
            {
                proof {
                    lemma_prefix_step(cs, i as int);
                    assert(decreases_to!(*node => node->Internal_0));
                    assert(decreases_to!(*internal => internal.children));
                    assert(decreases_to!(internal.children => internal.children@));
                    assert(decreases_to!(internal.children@ => internal.children@[i as int]));
                }
                collect_entries(&internal.children[i], out, Ghost(child_lo(ks, lo, i as int)), Ghost(child_hi(ks, hi, i as int)));
                proof {
                    assert(pair_views(old(out)@) + children_entries(cs.subrange(0, i as int)) + node_entries(*cs[i as int])
                        =~= pair_views(old(out)@) + children_entries(cs.subrange(0, i + 1)));
                }
                i = i + 1;
            }
            proof {
                assert(cs.subrange(0, cs.len() as int) =~= cs);
            }
        },
    }
}

} // verus!

verus! {

/// Number of entries below `node`.
fn count_keys_in_node(node: &BTreeNode, Ghost(lo): Ghost<Option<KeyView>>, Ghost(hi): Ghost<Option<KeyView>>) -> (n: u64)
    requires
        wf_node(*node, lo, hi),
        node_entries(*node).len() <= usize::MAX,
    ensures
        n == node_entries(*node).len(),
    decreases node,
{
    match node {
        BTreeNode::Leaf(leaf) => leaf.keys.len() as u64,
        BTreeNode::Internal(internal) => {
            let ghost cs = internal.children@;
            let ghost ks = key_views(internal.keys@);
            proof {
                lemma_wf_children_index(cs, ks, lo, hi);
                assert(cs.subrange(0, 0) =~= Seq::<Box<BTreeNode>>::empty());
            }
            let mut total: u64 = 0;
            let mut i: usize = 0;
            while i < internal.children.len()
                invariant
                    cs == internal.children@,
                    *node == BTreeNode::Internal(*internal),
                    node_entries(*node) == children_entries(cs),
                    children_entries(cs).len() <= usize::MAX,
                    ks == key_views(internal.keys@),
                    forall|j: int| 0 <= j < cs.len() ==> #[trigger] wf_node(*cs[j], child_lo(ks, lo, j), child_hi(ks, hi, j)),
                    i <= cs.len(),
                    total == children_entries(cs.subrange(0, i as int)).len(),
                decreases cs.len() - i,
            {
                proof {
                    lemma_prefix_step(cs, i as int);
                    assert(decreases_to!(*node => node->Internal_0));
                    assert(decreases_to!(*internal => internal.children));
                    assert(decreases_to!(internal.children => internal.children@));
                    assert(decreases_to!(internal.children@ => internal.children@[i as int]));
                }
                let c = count_keys_in_node(&internal.children[i], Ghost(child_lo(ks, lo, i as int)), Ghost(child_hi(ks, hi, i as int)));
                total = total + c;
                i = i + 1;
            }
            proof {
                assert(cs.subrange(0, cs.len() as int) =~= cs);
            }
            total
        },
    }
}

impl BPlusTree {
    /// Entries in the range, counted or scanned as `mode` says.
    pub fn range_query(
        &self,
        start: &IndexKey,
        end: &IndexKey,
        inclusive_start: bool,
        inclusive_end: bool,
        mode: RangeQueryMode,
    ) -> (res: RangeQueryResult)
        requires
            self.wf(),
        ensures
            ({
                let es = range_entries(self.entries(), key_range(start, end, inclusive_start, inclusive_end));
                match mode {
                    RangeQueryMode::Count => res is Count && res->Count_0 == es.len(),
                    RangeQueryMode::Scan { skip, limit, order } => res is Docs && id_views(res->Docs_0@)
                        == docs_of(scan_entries(es, skip, limit, order)),
                }
            }),
    {
        let ghost r = key_range(start, end, inclusive_start, inclusive_end);
        match mode {
            RangeQueryMode::Count => {
                let c = count_range(&self.root, start, end, inclusive_start, inclusive_end, Ghost(None), Ghost(None));
                RangeQueryResult::Count(c)
            },
            RangeQueryMode::Scan { skip, limit, order } => {
                let limit_count = match limit {
                    Some(l) => l,
                    None => usize::MAX,
                };
                let mut results: Vec<DocumentId> = Vec::new();
                let mut skipped: usize = 0;
                let ghost es = range_entries(node_entries(*self.root), r);
                proof {
                    assert(id_views(results@) =~= docs_of(window(Seq::<Entry>::empty(), skip as int, limit_count as int)));
                    assert(id_views(results@) =~= docs_of(window(Seq::<Entry>::empty(), skip as int, desc_cap(limit_count))));
                }
                match order {
                    ScanOrder::Asc => {
                        scan_asc(
                            &self.root,
                            start,
                            end,
                            inclusive_start,
                            inclusive_end,
                            &mut results,
                            &mut skipped,
                            skip,
                            limit_count,
                            Ghost(None),
                            Ghost(None),
                            Ghost(Seq::empty()),
                        );
                        assert(Seq::<Entry>::empty() + es =~= es);
                    },
                    ScanOrder::Desc => {
                        if limit_count == 0 {
                            assert(window(es.reverse(), skip as int, 0) =~= Seq::<Entry>::empty());
                            assert(id_views(results@) =~= docs_of(Seq::<Entry>::empty()));
                            return RangeQueryResult::Docs(results);
                        }
                        scan_desc(
                            &self.root,
                            start,
                            end,
                            inclusive_start,
                            inclusive_end,
                            &mut results,
                            &mut skipped,
                            skip,
                            limit_count,
                            Ghost(None),
                            Ghost(None),
                            Ghost(Seq::empty()),
                        );
                        assert(Seq::<Entry>::empty() + es.reverse() =~= es.reverse());
                    },
                }
                RangeQueryResult::Docs(results)
            },
        }
    }

    /// Range scan returning (key, document id) pairs, for resumable streaming.
    pub fn range_query_pairs(
        &self,
        start: &IndexKey,
        end: &IndexKey,
        inclusive_start: bool,
        inclusive_end: bool,
        skip: usize,
        limit: Option<usize>,
        order: ScanOrder,
    ) -> (res: Vec<(IndexKey, DocumentId)>)
        requires
            self.wf(),
        ensures
            pair_views(res@) == scan_entries(
                range_entries(self.entries(), key_range(start, end, inclusive_start, inclusive_end)),
                skip,
                limit,
                order,
            ),
    {
        let ghost r = key_range(start, end, inclusive_start, inclusive_end);
        let ghost es = range_entries(node_entries(*self.root), r);
        let limit_count = match limit {
            Some(l) => l,
            None => usize::MAX,
        };
        let mut results: Vec<(IndexKey, DocumentId)> = Vec::new();
        let mut skipped: usize = 0;
        proof {
            assert(pair_views(results@) =~= window(Seq::<Entry>::empty(), skip as int, limit_count as int));
            assert(pair_views(results@) =~= window(Seq::<Entry>::empty(), skip as int, desc_cap(limit_count)));
        }
        match order {
            ScanOrder::Asc => {
                scan_asc_pairs(
                    &self.root,
                    start,
                    end,
                    inclusive_start,
                    inclusive_end,
                    &mut results,
                    &mut skipped,
                    skip,
                    limit_count,
                    Ghost(None),
                    Ghost(None),
                    Ghost(Seq::empty()),
                );
                assert(Seq::<Entry>::empty() + es =~= es);
            },
            ScanOrder::Desc => {
                if limit_count == 0 {
                    assert(window(es.reverse(), skip as int, 0) =~= Seq::<Entry>::empty());
                    assert(pair_views(results@) =~= Seq::<Entry>::empty());
                    return results;
                }
                scan_desc_pairs(
                    &self.root,
                    start,
                    end,
                    inclusive_start,
                    inclusive_end,
                    &mut results,
                    &mut skipped,
                    skip,
                    limit_count,
                    Ghost(None),
                    Ghost(None),
                    Ghost(Seq::empty()),
                );
                assert(Seq::<Entry>::empty() + es.reverse() =~= es.reverse());
            },
        }
        results
    }

    /// Count of entries in the range whose documents the catalog lists
    /// (stale entries left out).
    pub fn count_range_validated(
        &self,
        start: &IndexKey,
        end: &IndexKey,
        inclusive_start: bool,
        inclusive_end: bool,
        catalog: &HashMap<DocumentId, u64>,
    ) -> (c: usize)
        requires
            self.wf(),
        ensures
            c == range_entries(self.entries(), key_range(start, end, inclusive_start, inclusive_end)).filter(
                listed_pred(catalog_ids(catalog@.dom())),
            ).len(),
    {
        let o = compare_keys(start, end);
        if !(o < 0 || (o == 0 && (inclusive_start || inclusive_end))) {
            proof {
                let r = key_range(start, end, inclusive_start, inclusive_end);
                lemma_empty_range(r);
                let es = range_entries(self.entries(), r);
                assert(es.len() == 0) by {
                    if es.len() > 0 {
                        self.entries().lemma_filter_pred(range_pred(r), 0);
                    }
                }
                es.lemma_filter_len(listed_pred(catalog_ids(catalog@.dom())));
            }
            return 0;
        }
        count_validated(&self.root, start, end, inclusive_start, inclusive_end, catalog, Ghost(None), Ghost(None))
    }

    /// All entries, in key order.
    pub fn get_all_entries(&self) -> (res: Vec<(IndexKey, DocumentId)>)
        requires
            self.wf_shape(),
        ensures
            pair_views(res@) == self.entries(),
    {
        let mut out: Vec<(IndexKey, DocumentId)> = Vec::new();
        collect_entries(&self.root, &mut out, Ghost(None), Ghost(None));
        assert(pair_views(Seq::<(IndexKey, DocumentId)>::empty()) + node_entries(*self.root) =~= node_entries(*self.root));
        out
    }

    /// Set the key count to the number of entries.
    pub fn sync_num_keys(&mut self)
        requires
            old(self).wf_shape(),
        ensures
            final(self).wf(),
            final(self).entries() == old(self).entries(),
            final(self).meta().num_keys == old(self).entries().len(),
            final(self).counters_spec() == old(self).counters_spec(),
    {
        let n = count_keys_in_node(&self.root, Ghost(None), Ghost(None));
        self.metadata.num_keys = n;
    }

    /// Range bounds of a compound-index query on the first field: the prefix
    /// followed by nulls, and by max keys, for the other fields. A
    /// single-field index uses the value itself for both bounds.
    pub fn build_prefix_range(&self, prefix_value: IndexKey) -> (res: (IndexKey, IndexKey))
        ensures
            self.meta().fields@.len() <= 1 ==> res.0@ == prefix_value@ && res.1@ == prefix_value@,
            self.meta().fields@.len() > 1 ==> {
                &&& res.0@ == KeyView::Compound(
                    seq![prefix_value@] + Seq::new((self.meta().fields@.len() - 1) as nat, |i: int| KeyView::Null),
                )
                &&& res.1@ == KeyView::Compound(
                    seq![prefix_value@] + Seq::new((self.meta().fields@.len() - 1) as nat, |i: int| KeyView::Max),
                )
            },
    {
        let num_fields = self.metadata.fields.len();
        if num_fields <= 1 {
            return (prefix_value.copy_key(), prefix_value);
        }
        let mut start_parts: Vec<IndexKey> = vec![prefix_value.copy_key()];
        let mut end_parts: Vec<IndexKey> = vec![prefix_value];
        let mut i: usize = 1;
        while i < num_fields
            invariant
                1 <= i <= num_fields,
                start_parts@.len() == i,
                end_parts@.len() == i,
                start_parts@[0]@ == prefix_value@,
                end_parts@[0]@ == prefix_value@,
                forall|j: int| 1 <= j < i ==> #[trigger] start_parts@[j]@ == KeyView::Null,
                forall|j: int| 1 <= j < i ==> #[trigger] end_parts@[j]@ == KeyView::Max,
            decreases num_fields - i,
        {
            start_parts.push(IndexKey::Null);
            end_parts.push(IndexKey::MaxKey);
            i = i + 1;
        }
        proof {
            lemma_keys_view(start_parts@);
            lemma_keys_view(end_parts@);
            let sn = seq![prefix_value@] + Seq::new((num_fields - 1) as nat, |i: int| KeyView::Null);
            let sm = seq![prefix_value@] + Seq::new((num_fields - 1) as nat, |i: int| KeyView::Max);
            assert forall|j: int| 0 <= j < num_fields implies keys_view(start_parts@)[j] == sn[j] && keys_view(end_parts@)[j] == sm[j] by {
                assert(keys_view(start_parts@)[j] == start_parts@[j]@);
                assert(keys_view(end_parts@)[j] == end_parts@[j]@);
                if j >= 1 {
                    assert(start_parts@[j]@ == KeyView::Null);
                    assert(end_parts@[j]@ == KeyView::Max);
                }
            }
            assert(keys_view(start_parts@) =~= sn);
            assert(keys_view(end_parts@) =~= sm);
        }
        (IndexKey::Compound(start_parts), IndexKey::Compound(end_parts))
    }
}

} // verus!

verus! {

/// Some key equals the one before it.
pub open spec fn has_adjacent_dup(ks: Seq<KeyView>) -> bool {
    exists|i: int| 0 < i < ks.len() && #[trigger] ks[i] == ks[i - 1]
}

proof fn lemma_runs_step(ks: Seq<KeyView>, i: int)
    requires
        0 <= i < ks.len(),
    ensures
        key_runs(ks.subrange(0, i + 1)) == key_runs(ks.subrange(0, i)) + if i == 0 || ks[i] != ks[i - 1] {
            1nat
        } else {
            0nat
        },
        null_keys(ks.subrange(0, i + 1)) == null_keys(ks.subrange(0, i)) + if ks[i] is Null {
            1nat
        } else {
            0nat
        },
{
    assert(ks.subrange(0, i + 1).drop_last() =~= ks.subrange(0, i));
}

/// `j` is the first position whose key equals the key before it.
pub open spec fn first_adjacent_dup(ks: Seq<KeyView>, j: int) -> bool {
    &&& 0 < j < ks.len()
    &&& ks[j] == ks[j - 1]
    &&& forall|i: int| 0 < i < j ==> #[trigger] ks[i] != ks[i - 1]
}

impl BPlusTree {
    /// Build from entries sorted by key: count distinct and null keys; on a
    /// unique build, a key equal to the one before it is refused before any
    /// insert; otherwise insert every entry and record the counts.
    pub fn build_from_sorted(&mut self, entries: Vec<(IndexKey, DocumentId)>, check_unique: bool) -> (res: Result<(), IronBaseError>)
        requires
            old(self).wf(),
            old(self).meta().num_keys + entries@.len() <= usize::MAX,
            old(self).meta().tree_height + entries@.len() < u32::MAX,
            old(self).counters_spec().writes_since_refresh + entries@.len() < u64::MAX,
            old(self).counters_spec().total_writes + entries@.len() < u64::MAX,
        ensures
            final(self).wf(),
            ({
                let ks = entry_keys(pair_views(entries@));
                &&& res is Err <==> (check_unique && has_adjacent_dup(ks))
                &&& res is Err ==> res->Err_0 is IndexError && *final(self) == *old(self)
                &&& res is Err ==> exists|j: int| #![trigger ks[j]] first_adjacent_dup(ks, j)
                    && res->Err_0->IndexError_0@ == duplicate_message(ks[j])
                &&& res is Ok ==> {
                    &&& final(self).entries().to_multiset() == old(self).entries().to_multiset().add(
                        pair_views(entries@).to_multiset(),
                    )
                    &&& final(self).meta().num_keys == old(self).meta().num_keys + entries@.len()
                    &&& final(self).meta().stats.distinct_count == key_runs(ks)
                    &&& final(self).meta().stats.null_count == null_keys(ks)
                    &&& final(self).meta().stats.sample_rate == F32_ONE_BITS
                }
            }),
            final(self).meta().unique == old(self).meta().unique,
            final(self).meta().fields == old(self).meta().fields,
            final(self).meta().name == old(self).meta().name,
    {
        let ghost ks = entry_keys(pair_views(entries@));
        let mut distinct_count: u64 = 0;
        let mut null_count: u64 = 0;
        let n = entries.len();
        let mut i: usize = 0;
        proof {
            assert(ks.subrange(0, 0) =~= Seq::<KeyView>::empty());
        }
        while i < n
            invariant
                n == entries@.len(),
                ks == entry_keys(pair_views(entries@)),
                *self == *old(self),
                old(self).wf(),
                i <= n,
                n <= usize::MAX,
                distinct_count == key_runs(ks.subrange(0, i as int)),
                null_count == null_keys(ks.subrange(0, i as int)),
                distinct_count <= i,
                null_count <= i,
                check_unique ==> forall|j: int| 0 < j < i ==> #[trigger] ks[j] != ks[j - 1],
            decreases n - i,
        {
            proof {
                lemma_runs_step(ks, i as int);
                assert(ks[i as int] == entries@[i as int].0@);
                if i > 0 {
                    assert(ks[i - 1] == entries@[i - 1].0@);
                }
            }
            let fresh = i == 0 || !crate::index::key::key_equal(&entries[i].0, &entries[i - 1].0);
            if fresh {
                distinct_count = distinct_count + 1;
            }
            if matches!(entries[i].0, IndexKey::Null) {
                null_count = null_count + 1;
            }
            if check_unique && i > 0 && !fresh {
                let msg = duplicate_key_message(&entries[i].0);
                proof {
                    assert(first_adjacent_dup(ks, i as int));
                }
                return Err(IronBaseError::IndexError(msg));
            }
            i = i + 1;
        }
        proof {
            assert(ks.subrange(0, n as int) =~= ks);
            if check_unique {
                assert(!has_adjacent_dup(ks));
            }
        }
        let ghost es0 = self.entries();
        let ghost pv = pair_views(entries@);
        let ghost h0 = self.metadata.tree_height;
        let ghost w0 = self.counters.writes_since_refresh;
        let ghost t0 = self.counters.total_writes;
        let ghost k0 = self.metadata.num_keys;
        let ghost md0 = self.metadata;
        proof {
            broadcast use vstd::multiset::group_multiset_axioms, vstd::seq_lib::group_to_multiset_ensures;
            assert(pv.subrange(0, 0) =~= Seq::<Entry>::empty());
            assert(Seq::<Entry>::empty().to_multiset() =~= vstd::multiset::Multiset::<Entry>::empty());
            assert(es0.to_multiset().add(Seq::<Entry>::empty().to_multiset()) =~= es0.to_multiset());
        }
        let mut j: usize = 0;
        while j < n
            invariant
                n == entries@.len(),
                pv == pair_views(entries@),
                j <= n,
                self.wf(),
                self.entries().to_multiset() == es0.to_multiset().add(pv.subrange(0, j as int).to_multiset()),
                self.meta().num_keys == k0 + j,
                k0 + n <= usize::MAX,
                self.meta().tree_height <= h0 + j,
                h0 + n < u32::MAX,
                self.counters_spec().writes_since_refresh == w0 + j,
                self.counters_spec().total_writes == t0 + j,
                w0 + n < u64::MAX,
                t0 + n < u64::MAX,
                self.meta().unique == md0.unique,
                self.meta().fields == md0.fields,
                self.meta().name == md0.name,
            decreases n - j,
        {
            let k = entries[j].0.copy_key();
            let d = entries[j].1.copy_id();
            let ghost before = self.entries();
            self.insert_unchecked(k, d);
            proof {
                broadcast use vstd::multiset::group_multiset_axioms;
                let e = pv[j as int];
                assert(e == (entries@[j as int].0@, entries@[j as int].1@));
                let p = choose|p: int| 0 <= p <= before.len() && self.entries() == before.insert(p, e);
                vstd::seq_lib::to_multiset_insert(before, p, e);
                assert(pv.subrange(0, j + 1) =~= pv.subrange(0, j as int).push(e));
                vstd::seq_lib::to_multiset_build(pv.subrange(0, j as int), e);
                assert(self.entries().to_multiset() =~= es0.to_multiset().add(pv.subrange(0, j + 1).to_multiset()));
            }
            j = j + 1;
        }
        proof {
            assert(pv.subrange(0, n as int) =~= pv);
        }
        self.metadata.stats.distinct_count = distinct_count;
        self.metadata.stats.null_count = null_count;
        self.metadata.stats.last_analyzed = unix_time_secs();
        self.metadata.stats.sample_rate = F32_ONE_BITS;
        Ok(())
    }
}

} // verus!

verus! {

/// A batch whose updates all leave their entry as it was changes nothing.
pub proof fn lemma_unchanged_batch_keeps_entries(before: Seq<Entry>, after: Seq<Entry>, u: Seq<(Entry, Entry)>)
    requires
        forall|i: int| 0 <= i < u.len() ==> (#[trigger] u[i]).0 == u[i].1,
        after.to_multiset() == before.to_multiset().sub(changed_updates(u).map_values(|p: (Entry, Entry)| p.0).to_multiset()).add(
            changed_updates(u).map_values(|p: (Entry, Entry)| p.1).to_multiset(),
        ),
    ensures
        after.to_multiset() == before.to_multiset(),
{
    broadcast use vstd::multiset::group_multiset_axioms, vstd::seq_lib::group_to_multiset_ensures;
    reveal(Seq::filter);
    let pred = |p: (Entry, Entry)| p.0 != p.1;
    assert forall|i: int| 0 <= i < u.len() implies !pred(#[trigger] u[i]) by {}
    u.lemma_all_neg_filter_empty(pred);
    assert(changed_updates(u) =~= Seq::<(Entry, Entry)>::empty());
    assert(changed_updates(u).map_values(|p: (Entry, Entry)| p.0) =~= Seq::<Entry>::empty());
    assert(changed_updates(u).map_values(|p: (Entry, Entry)| p.1) =~= Seq::<Entry>::empty());
    assert(before.to_multiset().sub(Seq::<Entry>::empty().to_multiset()).add(Seq::<Entry>::empty().to_multiset())
        =~= before.to_multiset());
}

/// A batch whose changed updates each replace an entry the tree holds (as
/// often as the batch names it) keeps the number of entries.
pub proof fn lemma_batch_keeps_size(before: Seq<Entry>, after: Seq<Entry>, u: Seq<(Entry, Entry)>)
    requires
        changed_updates(u).map_values(|p: (Entry, Entry)| p.0).to_multiset().subset_of(before.to_multiset()),
        after.to_multiset() == before.to_multiset().sub(changed_updates(u).map_values(|p: (Entry, Entry)| p.0).to_multiset()).add(
            changed_updates(u).map_values(|p: (Entry, Entry)| p.1).to_multiset(),
        ),
    ensures
        after.len() == before.len(),
{
    broadcast use vstd::multiset::group_multiset_axioms, vstd::seq_lib::group_to_multiset_ensures;
    let c = changed_updates(u);
    let olds = c.map_values(|p: (Entry, Entry)| p.0);
    let news = c.map_values(|p: (Entry, Entry)| p.1);
    assert(olds.len() == news.len());
    assert(olds.to_multiset().len() == olds.len());
    assert(news.to_multiset().len() == news.len());
    assert(before.to_multiset().len() == before.len());
    assert(after.to_multiset().len() == after.len());
    assert(before.to_multiset().sub(olds.to_multiset()).len() == before.len() - olds.len());
    assert(before.to_multiset().sub(olds.to_multiset()).add(news.to_multiset()).len() == before.len());
}

/// Entries of a batch of updates: (old entry, new entry) for each.
pub open spec fn update_views(u: Seq<(IndexKey, DocumentId, IndexKey, DocumentId)>) -> Seq<(Entry, Entry)> {
    Seq::new(u.len(), |i: int| ((u[i].0@, u[i].1@), (u[i].2@, u[i].3@)))
}

/// The updates that change something.
pub open spec fn changed_updates(u: Seq<(Entry, Entry)>) -> Seq<(Entry, Entry)> {
    u.filter(|p: (Entry, Entry)| p.0 != p.1)
}

/// Insert `e` into `v` before the first element that sorts after it.
fn insert_sorted(v: &mut Vec<(IndexKey, DocumentId)>, e: (IndexKey, DocumentId))
    ensures
        pair_views(final(v)@).to_multiset() == pair_views(old(v)@).to_multiset().insert((e.0@, e.1@)),
        final(v)@.len() == old(v)@.len() + 1,
{
    let mut i: usize = 0;
    while i < v.len()
        invariant
            i <= v@.len(),
            v@ == old(v)@,
        decreases v@.len() - i,
    {
        let ck = compare_keys(&v[i].0, &e.0);
        if ck > 0 || (ck == 0 && compare_ids(&v[i].1, &e.1) > 0) {
            break;
        }
        i = i + 1;
    }
    let ghost ev = (e.0@, e.1@);
    v.insert(i, e);
    proof {
        assert(pair_views(v@) =~= pair_views(old(v)@).insert(i as int, ev));
        vstd::seq_lib::to_multiset_insert(pair_views(old(v)@), i as int, ev);
    }
}

impl BPlusTree {
    /// Apply batched (old key, old id, new key, new id) updates: unchanged
    /// ones are skipped; the old entries are deleted, then the new ones
    /// inserted, each in (key, id) order. An insert refused by a unique
    /// index stops the batch.
    pub fn apply_batch_updates(&mut self, updates: Vec<(IndexKey, DocumentId, IndexKey, DocumentId)>) -> (res: Result<(), IronBaseError>)
        requires
            old(self).wf(),
            old(self).meta().num_keys + updates@.len() < usize::MAX,
            old(self).meta().tree_height + updates@.len() < u32::MAX,
            old(self).counters_spec().writes_since_refresh + updates@.len() < u64::MAX,
            old(self).counters_spec().total_writes + updates@.len() < u64::MAX,
            old(self).counters_spec().deletes_since_refresh + updates@.len() < u64::MAX,
        ensures
            final(self).wf(),
            final(self).meta().unique == old(self).meta().unique,
            updates@.len() == 0 ==> res is Ok && final(self).entries() == old(self).entries(),
            !old(self).meta().unique ==> res is Ok,
            res is Err ==> old(self).meta().unique && res->Err_0 is IndexError,
            res is Ok ==> final(self).entries().to_multiset() == old(self).entries().to_multiset().sub(
                changed_updates(update_views(updates@)).map_values(|p: (Entry, Entry)| p.0).to_multiset(),
            ).add(changed_updates(update_views(updates@)).map_values(|p: (Entry, Entry)| p.1).to_multiset()),
            final(self).meta().num_keys == final(self).entries().len(),
            final(self).meta() == (IndexMetadata {
                num_keys: final(self).meta().num_keys,
                tree_height: final(self).meta().tree_height,
                ..old(self).meta()
            }),
    {
        if updates.len() == 0 {
            proof {
                broadcast use vstd::multiset::group_multiset_axioms, vstd::seq_lib::group_to_multiset_ensures;
                reveal(Seq::filter);
                let es = self.entries().to_multiset();
                assert(update_views(updates@) =~= Seq::<(Entry, Entry)>::empty());
                assert(changed_updates(update_views(updates@)).map_values(|p: (Entry, Entry)| p.1) =~= Seq::<Entry>::empty());
                assert(changed_updates(update_views(updates@)).map_values(|p: (Entry, Entry)| p.0) =~= Seq::<Entry>::empty());
                assert(es.sub(Seq::<Entry>::empty().to_multiset()).add(Seq::<Entry>::empty().to_multiset()) =~= es);
            }
            return Ok(());
        }
        let ghost uv = update_views(updates@);
        let mut deletes: Vec<(IndexKey, DocumentId)> = Vec::new();
        let mut inserts: Vec<(IndexKey, DocumentId)> = Vec::new();
        let n = updates.len();
        let mut i: usize = 0;
        proof {
            broadcast use vstd::multiset::group_multiset_axioms, vstd::seq_lib::group_to_multiset_ensures;
            reveal(Seq::filter);
            assert(uv.subrange(0, 0) =~= Seq::<(Entry, Entry)>::empty());
            assert(pair_views(inserts@) =~= Seq::<Entry>::empty());
            assert(pair_views(deletes@) =~= Seq::<Entry>::empty());
            assert(changed_updates(Seq::<(Entry, Entry)>::empty()).map_values(|p: (Entry, Entry)| p.1) =~= Seq::<Entry>::empty());
            assert(changed_updates(Seq::<(Entry, Entry)>::empty()).map_values(|p: (Entry, Entry)| p.0) =~= Seq::<Entry>::empty());
        }
        while i < n
            invariant
                n == updates@.len(),
                uv == update_views(updates@),
                *self == *old(self),
                i <= n,
                deletes@.len() <= i,
                inserts@.len() <= i,
                pair_views(inserts@).to_multiset() == changed_updates(uv.subrange(0, i as int)).map_values(
                    |p: (Entry, Entry)| p.1,
                ).to_multiset(),
                pair_views(deletes@).to_multiset() == changed_updates(uv.subrange(0, i as int)).map_values(
                    |p: (Entry, Entry)| p.0,
                ).to_multiset(),
            decreases n - i,
        {
            let same = crate::index::key::key_equal(&updates[i].0, &updates[i].2) && updates[i].1.same_as(&updates[i].3);
            let ghost before = uv.subrange(0, i as int);
            proof {
                assert(uv.subrange(0, i + 1) =~= before.push(uv[i as int]));
                reveal(Seq::filter);
                assert(uv.subrange(0, i + 1).drop_last() =~= before);
            }
            if !same {
                let ghost nv = (updates@[i as int].2@, updates@[i as int].3@);
                let ghost ov = (updates@[i as int].0@, updates@[i as int].1@);
                insert_sorted(&mut deletes, (updates[i].0.copy_key(), updates[i].1.copy_id()));
                insert_sorted(&mut inserts, (updates[i].2.copy_key(), updates[i].3.copy_id()));
                proof {
                    broadcast use vstd::multiset::group_multiset_axioms, vstd::seq_lib::group_to_multiset_ensures;
                    let f = |p: (Entry, Entry)| p.1;
                    let g = |p: (Entry, Entry)| p.0;
                    assert(changed_updates(uv.subrange(0, i + 1)) == changed_updates(before).push(uv[i as int]));
                    assert(changed_updates(uv.subrange(0, i + 1)).map_values(f) =~= changed_updates(before).map_values(f).push(nv));
                    assert(changed_updates(uv.subrange(0, i + 1)).map_values(g) =~= changed_updates(before).map_values(g).push(ov));
                }
            } else {
                proof {
                    assert(changed_updates(uv.subrange(0, i + 1)) == changed_updates(before));
                }
            }
            i = i + 1;
        }
        proof {
            assert(uv.subrange(0, n as int) =~= uv);
        }
        let ghost es0 = self.entries().to_multiset();
        let ghost dels = pair_views(deletes@);
        let ghost md0 = self.metadata;
        let ghost h0 = self.metadata.tree_height;
        let ghost k0 = self.metadata.num_keys;
        let ghost w0 = self.counters.writes_since_refresh;
        let ghost t0 = self.counters.total_writes;
        let ghost d0 = self.counters.deletes_since_refresh;
        let mut j: usize = 0;
        proof {
            broadcast use vstd::multiset::group_multiset_axioms;
            assert(dels.subrange(0, 0) =~= Seq::<Entry>::empty());
            assert(es0.sub(Seq::<Entry>::empty().to_multiset()) =~= es0);
        }
        while j < deletes.len()
            invariant
                self.wf(),
                dels == pair_views(deletes@),
                j <= deletes@.len(),
                deletes@.len() <= n,
                n == updates@.len(),
                self.entries().to_multiset() == es0.sub(dels.subrange(0, j as int).to_multiset()),
                self.meta().num_keys <= k0,
                k0 + n < usize::MAX,
                self.meta().tree_height == h0,
                h0 + n < u32::MAX,
                self.counters_spec().writes_since_refresh == w0,
                self.counters_spec().total_writes == t0,
                self.counters_spec().deletes_since_refresh <= d0 + j,
                d0 + n < u64::MAX,
                w0 + n < u64::MAX,
                t0 + n < u64::MAX,
                md0 == old(self).meta(),
                self.meta() == (IndexMetadata { num_keys: self.meta().num_keys, tree_height: self.meta().tree_height, ..md0 }),
            decreases deletes@.len() - j,
        {
            let ghost before = self.entries();
            let ghost e = (deletes@[j as int].0@, deletes@[j as int].1@);
            let ghost dj = dels.subrange(0, j as int).to_multiset();
            let _ = self.delete(&deletes[j].0, &deletes[j].1);
            proof {
                broadcast use vstd::multiset::group_multiset_axioms, vstd::seq_lib::group_to_multiset_ensures;
                assert(dels.subrange(0, j + 1) =~= dels.subrange(0, j as int).push(e));
                vstd::seq_lib::to_multiset_build(dels.subrange(0, j as int), e);
                if before.contains(e) {
                    let p = choose|p: int| 0 <= p < before.len() && before[p] == e && self.entries() == before.remove(p);
                    vstd::seq_lib::to_multiset_remove(before, p);
                }
                assert(self.entries().to_multiset() =~= es0.sub(dj.insert(e)));
            }
            j = j + 1;
        }
        let ghost mid = self.entries().to_multiset();
        let ghost ins = pair_views(inserts@);
        let mut m: usize = 0;
        proof {
            broadcast use vstd::multiset::group_multiset_axioms, vstd::seq_lib::group_to_multiset_ensures;
            assert(ins.subrange(0, 0) =~= Seq::<Entry>::empty());
            assert(mid.add(Seq::<Entry>::empty().to_multiset()) =~= mid);
        }
        while m < inserts.len()
            invariant
                self.wf(),
                ins == pair_views(inserts@),
                m <= inserts@.len(),
                inserts@.len() <= n,
                n == updates@.len(),
                self.entries().to_multiset() == mid.add(ins.subrange(0, m as int).to_multiset()),
                self.meta().num_keys <= k0 + m,
                k0 + n < usize::MAX,
                self.meta().tree_height <= h0 + m,
                h0 + n < u32::MAX,
                self.counters_spec().writes_since_refresh == w0 + m,
                self.counters_spec().total_writes == t0 + m,
                w0 + n < u64::MAX,
                t0 + n < u64::MAX,
                md0 == old(self).meta(),
                self.meta() == (IndexMetadata { num_keys: self.meta().num_keys, tree_height: self.meta().tree_height, ..md0 }),
            decreases inserts@.len() - m,
        {
            let ghost before = self.entries();
            let k = inserts[m].0.copy_key();
            let d = inserts[m].1.copy_id();
            let r = self.insert(k, d);
            match r {
                Err(e) => {
                    return Err(e);
                },
                Ok(()) => {},
            }
            proof {
                broadcast use vstd::multiset::group_multiset_axioms;
                let e = ins[m as int];
                let p = choose|p: int| 0 <= p <= before.len() && self.entries() == before.insert(p, e);
                vstd::seq_lib::to_multiset_insert(before, p, e);
                assert(ins.subrange(0, m + 1) =~= ins.subrange(0, m as int).push(e));
                vstd::seq_lib::to_multiset_build(ins.subrange(0, m as int), e);
                assert(self.entries().to_multiset() =~= mid.add(ins.subrange(0, m + 1).to_multiset()));
            }
            m = m + 1;
        }
        proof {
            assert(ins.subrange(0, m as int) =~= ins);
            assert(dels.subrange(0, dels.len() as int) =~= dels);
            assert(self.entries().to_multiset() == es0.sub(dels.to_multiset()).add(
                changed_updates(update_views(updates@)).map_values(|p: (Entry, Entry)| p.1).to_multiset(),
            ));
        }
        Ok(())
    }
}

} // verus!

verus! {

proof fn lemma_runs_push(s: Seq<KeyView>, k: KeyView)
    ensures
        key_runs(s.push(k)) == key_runs(s) + if s.len() == 0 || s.last() != k {
            1nat
        } else {
            0nat
        },
        null_keys(s.push(k)) == null_keys(s) + if k is Null {
            1nat
        } else {
            0nat
        },
{
    assert(s.push(k).drop_last() =~= s);
}

/// Keys that are not null.
pub open spec fn non_null_keys(ks: Seq<KeyView>) -> Seq<KeyView> {
    ks.filter(|k: KeyView| !(k is Null))
}

pub open spec fn last_key_is(last: Option<IndexKey>, ks: Seq<KeyView>) -> bool {
    match last {
        None => ks.len() == 0,
        Some(k) => ks.len() > 0 && k@ == ks.last(),
    }
}

/// Count runs of equal keys and null keys below `node`, continuing a count
/// over the keys `before`.
fn walk_stats(
    node: &BTreeNode,
    distinct: &mut u64,
    nulls: &mut u64,
    last: &mut Option<IndexKey>,
    Ghost(lo): Ghost<Option<KeyView>>,
    Ghost(hi): Ghost<Option<KeyView>>,
    Ghost(before): Ghost<Seq<KeyView>>,
)
    requires
        wf_node(*node, lo, hi),
        before.len() + node_entries(*node).len() <= usize::MAX,
        *old(distinct) == key_runs(before),
        *old(nulls) == null_keys(before),
        key_runs(before) <= before.len(),
        null_keys(before) <= before.len(),
        last_key_is(*old(last), before),
    ensures
        ({
            let after = before + entry_keys(node_entries(*node));
            &&& *final(distinct) == key_runs(after)
            &&& *final(nulls) == null_keys(after)
            &&& key_runs(after) <= after.len()
            &&& null_keys(after) <= after.len()
            &&& last_key_is(*final(last), after)
        }),
    decreases node,
{
    match node {
        BTreeNode::Leaf(leaf) => {
            let ghost es = leaf_entries(*leaf);
            let mut i: usize = 0;
            proof {
                assert(entry_keys(es.subrange(0, 0)) =~= Seq::<KeyView>::empty());
                assert(before + Seq::<KeyView>::empty() =~= before);
            }
            while i < leaf.keys.len()
                invariant
                    es == leaf_entries(*leaf),
                    node_entries(*node) == es,
                    leaf.keys@.len() == leaf.document_ids@.len(),
                    i <= leaf.keys@.len(),
                    before.len() + es.len() <= usize::MAX,
                    *distinct == key_runs(before + entry_keys(es.subrange(0, i as int))),
                    *nulls == null_keys(before + entry_keys(es.subrange(0, i as int))),
                    key_runs(before + entry_keys(es.subrange(0, i as int))) <= before.len() + i,
                    null_keys(before + entry_keys(es.subrange(0, i as int))) <= before.len() + i,
                    last_key_is(*last, before + entry_keys(es.subrange(0, i as int))),
                decreases leaf.keys@.len() - i,
            {
                let ghost cur = before + entry_keys(es.subrange(0, i as int));
                let ghost k = leaf.keys@[i as int]@;
                proof {
                    assert(before + entry_keys(es.subrange(0, i + 1)) =~= cur.push(k));
                    lemma_runs_push(cur, k);
                }
                let fresh = match last {
                    None => true,
                    Some(lk) => !crate::index::key::key_equal(lk, &leaf.keys[i]),
                };
                if fresh {
                    *distinct = *distinct + 1;
                    *last = Some(leaf.keys[i].copy_key());
                }
                if matches!(leaf.keys[i], IndexKey::Null) {
                    *nulls = *nulls + 1;
                }
                i = i + 1;
            }
            proof {
                assert(es.subrange(0, i as int) =~= es);
            }
        },
        BTreeNode::Internal(internal) => {
            let ghost cs = internal.children@;
            let ghost ks = key_views(internal.keys@);
            proof {
                lemma_wf_children_index(cs, ks, lo, hi);
                assert(cs.subrange(0, 0) =~= Seq::<Box<BTreeNode>>::empty());
                assert(entry_keys(Seq::<Entry>::empty()) =~= Seq::<KeyView>::empty());
                assert(before + Seq::<KeyView>::empty() =~= before);
            }
            let mut i: usize = 0;
            while i < internal.children.len()
                invariant
                    cs == internal.children@,
                    ks == key_views(internal.keys@),
                    *node == BTreeNode::Internal(*internal),
                    node_entries(*node) == children_entries(cs),
                    forall|j: int| 0 <= j < cs.len() ==> #[trigger] wf_node(*cs[j], child_lo(ks, lo, j), child_hi(ks, hi, j)),
                    before.len() + children_entries(cs).len() <= usize::MAX,
                    i <= cs.len(),
                    *distinct == key_runs(before + entry_keys(children_entries(cs.subrange(0, i as int)))),
                    *nulls == null_keys(before + entry_keys(children_entries(cs.subrange(0, i as int)))),
                    key_runs(before + entry_keys(children_entries(cs.subrange(0, i as int)))) <= before.len()
                        + children_entries(cs.subrange(0, i as int)).len(),
                    null_keys(before + entry_keys(children_entries(cs.subrange(0, i as int)))) <= before.len()
                        + children_entries(cs.subrange(0, i as int)).len(),
                    last_key_is(*last, before + entry_keys(children_entries(cs.subrange(0, i as int)))),
                decreases cs.len() - i,
            {
                let ghost pre = children_entries(cs.subrange(0, i as int));
                let ghost ce = node_entries(*cs[i as int]);
                proof {
                    crate::index::scan::lemma_prefix_step(cs, i as int);
                    assert(entry_keys(pre + ce) =~= entry_keys(pre) + entry_keys(ce));
                    assert(before + entry_keys(pre) + entry_keys(ce) =~= before + entry_keys(pre + ce));
                    assert(decreases_to!(*node => node->Internal_0));
                    assert(decreases_to!(*internal => internal.children));
                    assert(decreases_to!(internal.children => internal.children@));
                    assert(decreases_to!(internal.children@ => internal.children@[i as int]));
                }
                walk_stats(
                    &internal.children[i],
                    distinct,
                    nulls,
                    last,
                    Ghost(child_lo(ks, lo, i as int)),
                    Ghost(child_hi(ks, hi, i as int)),
                    Ghost(before + entry_keys(pre)),
                );
                i = i + 1;
            }
            proof {
                assert(cs.subrange(0, cs.len() as int) =~= cs);
            }
        },
    }
}

impl BPlusTree {
    /// Recount distinct and null keys in one ordered pass; no histogram.
    fn refresh_stats_streaming(&mut self)
        requires
            old(self).wf(),
        ensures
            final(self).wf(),
            final(self).entries() == old(self).entries(),
            final(self).meta().stats.distinct_count == key_runs(entry_keys(old(self).entries())),
            final(self).meta().stats.null_count == null_keys(entry_keys(old(self).entries())),
            final(self).meta().stats.histogram is None,
            final(self).meta() == (IndexMetadata { stats: final(self).meta().stats, ..old(self).meta() }),
            final(self).meta().num_keys == old(self).meta().num_keys,
            final(self).meta().fields == old(self).meta().fields,
            final(self).meta().multikey == old(self).meta().multikey,
            final(self).counters_spec() == old(self).counters_spec(),
    {
        let mut distinct: u64 = 0;
        let mut nulls: u64 = 0;
        let mut last: Option<IndexKey> = None;
        proof {
            assert(Seq::<KeyView>::empty() + entry_keys(node_entries(*self.root)) =~= entry_keys(node_entries(*self.root)));
        }
        walk_stats(&self.root, &mut distinct, &mut nulls, &mut last, Ghost(None), Ghost(None), Ghost(Seq::empty()));
        self.metadata.stats.distinct_count = distinct;
        self.metadata.stats.null_count = nulls;
        self.metadata.stats.histogram = None;
    }
}

} // verus!

verus! {

/// Histogram of the sorted non-null keys `all`: 64 equal-count buckets,
/// bounded by every `len / 64`-th key, when there are enough keys.
pub open spec fn histogram_of(all: Seq<KeyView>, h: Option<Histogram>) -> bool {
    if all.len() < 100000 {
        h is None
    } else {
        h matches Some(hist) && {
            let bs = all.len() / 64;
            &&& hist.bucket_count == 64
            &&& key_views(hist.boundaries@) == Seq::new(63, |i: int| all[(i + 1) * bs])
            &&& hist.min_value matches Some(mn) && mn@ == all[0]
            &&& hist.max_value matches Some(mx) && mx@ == all[all.len() - 1]
        }
    }
}

proof fn lemma_filter_push_keys(s: Seq<KeyView>, k: KeyView)
    ensures
        non_null_keys(s.push(k)) == if k is Null {
            non_null_keys(s)
        } else {
            non_null_keys(s).push(k)
        },
{
    reveal(Seq::filter);
    assert(s.push(k).drop_last() =~= s);
}

/// Boundaries of the histogram of `all`: every `bs`-th key from the `bs`-th.
fn histogram_boundaries(all: &Vec<IndexKey>, bs: usize) -> (b: Vec<IndexKey>)
    requires
        bs == all@.len() / 64,
        all@.len() >= 64,
    ensures
        key_views(b@) == Seq::new(63, |i: int| key_views(all@)[(i + 1) * bs]),
{
    let mut b: Vec<IndexKey> = Vec::new();
    let n = all.len();
    let mut i: usize = 1;
    while i < 64
        invariant
            n == all@.len(),
            1 <= i <= 64,
            bs == all@.len() / 64,
            all@.len() >= 64,
            b@.len() == i - 1,
            forall|j: int| 0 <= j < b@.len() ==> (#[trigger] b@[j])@ == key_views(all@)[(j + 1) * bs],
        decreases 64 - i,
    {
        assert(i * bs < n) by (nonlinear_arith)
            requires
                1 <= i <= 63,
                bs == n / 64,
                n >= 64,
        ;
        let idx = i * bs;
        b.push(all[idx].copy_key());
        i = i + 1;
    }
    assert(key_views(b@) =~= Seq::new(63, |i: int| key_views(all@)[(i + 1) * bs]));
    b
}

impl BPlusTree {
    /// Recount null keys and distinct non-null keys, building the histogram
    /// of the non-null keys when there are enough of them.
    fn refresh_stats_with_histogram(&mut self)
        requires
            old(self).wf(),
        ensures
            final(self).wf(),
            final(self).entries() == old(self).entries(),
            final(self).meta().stats.distinct_count == key_runs(non_null_keys(entry_keys(old(self).entries()))),
            final(self).meta().stats.null_count == null_keys(entry_keys(old(self).entries())),
            histogram_of(non_null_keys(entry_keys(old(self).entries())), final(self).meta().stats.histogram),
            final(self).meta() == (IndexMetadata { stats: final(self).meta().stats, ..old(self).meta() }),
            final(self).meta().num_keys == old(self).meta().num_keys,
            final(self).meta().fields == old(self).meta().fields,
            final(self).meta().multikey == old(self).meta().multikey,
            final(self).counters_spec() == old(self).counters_spec(),
    {
        let entries = self.get_all_entries();
        let ghost ks = entry_keys(pair_views(entries@));
        let mut all_keys: Vec<IndexKey> = Vec::new();
        let mut null_count: u64 = 0;
        let mut i: usize = 0;
        proof {
            reveal(Seq::filter);
            assert(ks.subrange(0, 0) =~= Seq::<KeyView>::empty());
            assert(key_views(all_keys@) =~= non_null_keys(Seq::<KeyView>::empty()));
        }
        while i < entries.len()
            invariant
                ks == entry_keys(pair_views(entries@)),
                entries@.len() <= usize::MAX,
                i <= entries@.len(),
                key_views(all_keys@) == non_null_keys(ks.subrange(0, i as int)),
                null_count == null_keys(ks.subrange(0, i as int)),
                null_count <= i,
            decreases entries@.len() - i,
        {
            let ghost k = ks[i as int];
            proof {
                assert(ks.subrange(0, i + 1) =~= ks.subrange(0, i as int).push(k));
                lemma_filter_push_keys(ks.subrange(0, i as int), k);
                lemma_runs_push(ks.subrange(0, i as int), k);
                assert(k == entries@[i as int].0@);
            }
            if matches!(entries[i].0, IndexKey::Null) {
                null_count = null_count + 1;
            } else {
                let ghost prev = all_keys@;
                all_keys.push(entries[i].0.copy_key());
                assert(key_views(all_keys@) =~= key_views(prev).push(k));
            }
            i = i + 1;
        }
        proof {
            assert(ks.subrange(0, i as int) =~= ks);
        }
        let ghost av = key_views(all_keys@);
        let mut distinct: u64 = 0;
        let mut j: usize = 0;
        proof {
            assert(av.subrange(0, 0) =~= Seq::<KeyView>::empty());
        }
        while j < all_keys.len()
            invariant
                av == key_views(all_keys@),
                j <= all_keys@.len(),
                distinct == key_runs(av.subrange(0, j as int)),
                distinct <= j,
            decreases all_keys@.len() - j,
        {
            proof {
                assert(av.subrange(0, j + 1) =~= av.subrange(0, j as int).push(av[j as int]));
                lemma_runs_push(av.subrange(0, j as int), av[j as int]);
                if j > 0 {
                    assert(av.subrange(0, j as int).last() == av[j - 1]);
                }
            }
            if j == 0 || !crate::index::key::key_equal(&all_keys[j], &all_keys[j - 1]) {
                distinct = distinct + 1;
            }
            j = j + 1;
        }
        proof {
            assert(av.subrange(0, j as int) =~= av);
        }
        let n = all_keys.len();
        let histogram = if n >= 100000 {
            let bs = n / 64;
            let boundaries = histogram_boundaries(&all_keys, bs);
            let mn = all_keys[0].copy_key();
            let mx = all_keys[n - 1].copy_key();
            Some(Histogram { boundaries, min_value: Some(mn), max_value: Some(mx), bucket_count: default_bucket_count() })
        } else {
            None
        };
        proof {
            if n >= 100000 {
                assert(key_views(histogram->0.boundaries@) =~= Seq::new(63, |i: int| av[(i + 1) * (av.len() / 64)]));
            }
        }
        self.metadata.stats.distinct_count = distinct;
        self.metadata.stats.null_count = null_count;
        self.metadata.stats.histogram = histogram;
    }
}

} // verus!

verus! {

/// Runs of equal keys in order, each with its length.
pub open spec fn key_run_counts(ks: Seq<KeyView>) -> Seq<(KeyView, nat)>
    decreases ks.len(),
{
    if ks.len() == 0 {
        Seq::empty()
    } else {
        let r = key_run_counts(ks.drop_last());
        if r.len() > 0 && r.last().0 == ks.last() {
            r.drop_last().push((ks.last(), r.last().1 + 1))
        } else {
            r.push((ks.last(), 1nat))
        }
    }
}

/// Sum of the counts.
pub open spec fn count_sum(s: Seq<(KeyView, nat)>) -> nat
    decreases s.len(),
{
    if s.len() == 0 {
        0
    } else {
        count_sum(s.drop_last()) + s.last().1
    }
}

/// Counts in non-increasing order.
pub open spec fn counts_descending(s: Seq<(KeyView, nat)>) -> bool {
    forall|i: int, j: int| 0 <= i < j < s.len() ==> s[i].1 >= s[j].1
}

/// Views of (key, count) pairs.
pub open spec fn count_views(v: Seq<(IndexKey, u64)>) -> Seq<(KeyView, nat)> {
    Seq::new(v.len(), |i: int| (v[i].0@, v[i].1 as nat))
}

/// The runs a most-common-values list is chosen from: the first 100,000.
pub open spec fn tracked_runs(ks: Seq<KeyView>) -> Seq<(KeyView, nat)> {
    let r = key_run_counts(ks);
    if r.len() <= 100000 {
        r
    } else {
        r.subrange(0, 100000)
    }
}

proof fn lemma_count_sum_add(a: Seq<(KeyView, nat)>, b: Seq<(KeyView, nat)>)
    ensures
        count_sum(a + b) == count_sum(a) + count_sum(b),
    decreases b.len(),
{
    if b.len() == 0 {
        assert(a + b =~= a);
    } else {
        lemma_count_sum_add(a, b.drop_last());
        assert((a + b).drop_last() =~= a + b.drop_last());
    }
}

proof fn lemma_count_sum_insert(s: Seq<(KeyView, nat)>, p: int, x: (KeyView, nat))
    requires
        0 <= p <= s.len(),
    ensures
        count_sum(s.insert(p, x)) == count_sum(s) + x.1,
{
    let a = s.subrange(0, p);
    let b = s.subrange(p, s.len() as int);
    assert(s =~= a + b);
    assert(s.insert(p, x) =~= a.push(x) + b);
    lemma_count_sum_add(a, b);
    lemma_count_sum_add(a.push(x), b);
    assert(a.push(x).drop_last() =~= a);
}

proof fn lemma_count_sum_prefix(s: Seq<(KeyView, nat)>, k: int)
    requires
        0 <= k <= s.len(),
    ensures
        count_sum(s.subrange(0, k)) <= count_sum(s),
{
    assert(s =~= s.subrange(0, k) + s.subrange(k, s.len() as int));
    lemma_count_sum_add(s.subrange(0, k), s.subrange(k, s.len() as int));
}

proof fn lemma_run_counts_step(ks: Seq<KeyView>, k: KeyView)
    ensures
        key_run_counts(ks.push(k)) == {
            let r = key_run_counts(ks);
            if r.len() > 0 && r.last().0 == k {
                r.drop_last().push((k, r.last().1 + 1))
            } else {
                r.push((k, 1nat))
            }
        },
        count_sum(key_run_counts(ks.push(k))) == count_sum(key_run_counts(ks)) + 1,
        key_run_counts(ks.push(k)).len() >= key_run_counts(ks).len(),
{
    assert(ks.push(k).drop_last() =~= ks);
    let r = key_run_counts(ks);
    if r.len() > 0 && r.last().0 == k {
        assert(r.drop_last().push((k, r.last().1 + 1)).drop_last() =~= r.drop_last());
    } else {
        assert(r.push((k, 1nat)).drop_last() =~= r);
    }
}

proof fn lemma_runs_sum(ks: Seq<KeyView>)
    ensures
        count_sum(key_run_counts(ks)) == ks.len(),
        key_run_counts(ks).len() <= ks.len(),
    decreases ks.len(),
{
    if ks.len() > 0 {
        lemma_runs_sum(ks.drop_last());
        assert(ks.drop_last().push(ks.last()) =~= ks);
        lemma_run_counts_step(ks.drop_last(), ks.last());
    }
}

/// Insert `x` into `v` after every pair counted at least as often (stable, descending).
fn insert_by_count(v: &mut Vec<(IndexKey, u64)>, x: (IndexKey, u64))
    requires
        counts_descending(count_views(old(v)@)),
    ensures
        counts_descending(count_views(final(v)@)),
        count_views(final(v)@).to_multiset() == count_views(old(v)@).to_multiset().insert((x.0@, x.1 as nat)),
        count_sum(count_views(final(v)@)) == count_sum(count_views(old(v)@)) + x.1,
        final(v)@.len() == old(v)@.len() + 1,
{
    let mut p: usize = 0;
    while p < v.len() && v[p].1 >= x.1
        invariant
            p <= v@.len(),
            v@ == old(v)@,
            forall|i: int| 0 <= i < p ==> v@[i].1 >= x.1,
        decreases v@.len() - p,
    {
        p = p + 1;
    }
    let ghost xv = (x.0@, x.1 as nat);
    let ghost old_cv = count_views(v@);
    proof {
        assert forall|i: int| p <= i < old_cv.len() implies old_cv[i].1 < x.1 by {
            if i > p {
                assert(old_cv[p as int].1 >= old_cv[i].1);
            }
        }
    }
    v.insert(p, x);
    proof {
        assert(count_views(v@) =~= old_cv.insert(p as int, xv));
        vstd::seq_lib::to_multiset_insert(old_cv, p as int, xv);
        lemma_count_sum_insert(old_cv, p as int, xv);
        let nv = count_views(v@);
        assert forall|i: int, j: int| 0 <= i < j < nv.len() implies nv[i].1 >= nv[j].1 by {
            if j < p {
                assert(nv[i] == old_cv[i] && nv[j] == old_cv[j]);
            } else if j == p {
                assert(nv[i] == old_cv[i]);
            } else if i < p {
                assert(nv[i] == old_cv[i] && nv[j] == old_cv[j - 1]);
            } else if i == p {
                assert(nv[j] == old_cv[j - 1]);
            } else {
                assert(nv[i] == old_cv[i - 1] && nv[j] == old_cv[j - 1]);
            }
        }
    }
}

/// Most common values of an index whose keys are `ks`: the most frequent
/// of its first 100,000 runs (at most `mcv_size`, most frequent first), or
/// `None` when there are none.
pub open spec fn mcv_of(ks: Seq<KeyView>, mcv_size: nat, m: Option<MostCommonValues>) -> bool {
    let t = tracked_runs(ks);
    if t.len() == 0 {
        m is None
    } else {
        m matches Some(mcv) && {
            let vals = count_views(mcv.values@);
            &&& mcv.total_keys == ks.len()
            &&& mcv.mcv_frequency_sum == count_sum(vals)
            &&& exists|arr: Seq<(KeyView, nat)>|
                #![trigger arr.to_multiset()]
                arr.to_multiset() == t.to_multiset() && counts_descending(arr) && vals == arr.subrange(
                    0,
                    if arr.len() <= mcv_size {
                        arr.len() as int
                    } else {
                        mcv_size as int
                    },
                )
        }
    }
}

impl BPlusTree {
    /// Most common values: run lengths of the sorted keys, the most frequent
    /// first (ties in key order).
    fn build_mcv(&self, mcv_size: usize) -> (m: Option<MostCommonValues>)
        requires
            self.wf(),
        ensures
            mcv_of(entry_keys(self.entries()), mcv_size as nat, m),
    {
        let entries = self.get_all_entries();
        let ghost ks = entry_keys(pair_views(entries@));
        let mut runs: Vec<(IndexKey, u64)> = Vec::new();
        let mut total: u64 = 0;
        let mut i: usize = 0;
        proof {
            assert(ks.subrange(0, 0) =~= Seq::<KeyView>::empty());
            assert(count_views(runs@) =~= key_run_counts(Seq::<KeyView>::empty()));
        }
        while i < entries.len()
            invariant
                ks == entry_keys(pair_views(entries@)),
                i <= entries@.len(),
                total == i,
                count_views(runs@) == key_run_counts(ks.subrange(0, i as int)),
                count_sum(count_views(runs@)) == i,
                runs@.len() <= i,
            decreases entries@.len() - i,
        {
            let ghost pre = ks.subrange(0, i as int);
            let ghost k = ks[i as int];
            proof {
                assert(ks.subrange(0, i + 1) =~= pre.push(k));
                lemma_run_counts_step(pre, k);
                lemma_runs_sum(pre);
                assert(k == entries@[i as int].0@);
            }
            let n = runs.len();
            let same = n > 0 && crate::index::key::key_equal(&runs[n - 1].0, &entries[i].0);
            if same {
                let (rk, rc) = runs.pop().unwrap();
                proof {
                    lemma_count_sum_prefix(count_views(runs@.push((rk, rc))), n - 1);
                    assert(count_views(runs@.push((rk, rc))).subrange(0, n - 1) =~= count_views(runs@));
                    assert(count_views(runs@.push((rk, rc))).drop_last() =~= count_views(runs@));
                }
                runs.push((rk, rc + 1));
                proof {
                    assert(count_views(runs@) =~= key_run_counts(pre).drop_last().push((k, key_run_counts(pre).last().1 + 1)));
                }
            } else {
                runs.push((entries[i].0.copy_key(), 1));
                proof {
                    assert(count_views(runs@) =~= key_run_counts(pre).push((k, 1nat)));
                }
            }
            total = total + 1;
            i = i + 1;
        }
        proof {
            assert(ks.subrange(0, i as int) =~= ks);
        }
        let tracked_n = if runs.len() <= 100000 {
            runs.len()
        } else {
            100000
        };
        let ghost t = count_views(runs@).subrange(0, tracked_n as int);
        let mut sorted: Vec<(IndexKey, u64)> = Vec::new();
        let mut j: usize = 0;
        proof {
            broadcast use vstd::multiset::group_multiset_axioms, vstd::seq_lib::group_to_multiset_ensures;
            assert(t.subrange(0, 0) =~= Seq::<(KeyView, nat)>::empty());
            assert(count_views(sorted@) =~= Seq::<(KeyView, nat)>::empty());
            lemma_runs_sum(ks);
            lemma_count_sum_prefix(count_views(runs@), tracked_n as int);
        }
        while j < tracked_n
            invariant
                tracked_n <= runs@.len(),
                t == count_views(runs@).subrange(0, tracked_n as int),
                j <= tracked_n,
                counts_descending(count_views(sorted@)),
                count_views(sorted@).to_multiset() == t.subrange(0, j as int).to_multiset(),
                count_sum(count_views(sorted@)) == count_sum(t.subrange(0, j as int)),
                count_sum(t) <= ks.len(),
                ks.len() <= usize::MAX,
                sorted@.len() == j,
            decreases tracked_n - j,
        {
            let x = (runs[j].0.copy_key(), runs[j].1);
            let ghost xv = (x.0@, x.1 as nat);
            proof {
                broadcast use vstd::multiset::group_multiset_axioms, vstd::seq_lib::group_to_multiset_ensures;
                assert(t[j as int] == xv);
                assert(t.subrange(0, j + 1) =~= t.subrange(0, j as int).push(xv));
                assert(t.subrange(0, j + 1).drop_last() =~= t.subrange(0, j as int));
                lemma_count_sum_prefix(t, j + 1);
            }
            insert_by_count(&mut sorted, x);
            j = j + 1;
        }
        proof {
            assert(t.subrange(0, j as int) =~= t);
            assert(key_run_counts(ks) == count_views(runs@));
        }
        if sorted.len() == 0 {
            proof {
                assert(tracked_runs(ks) =~= t);
            }
            return None;
        }
        let ghost arr = count_views(sorted@);
        let keep = if sorted.len() <= mcv_size {
            sorted.len()
        } else {
            mcv_size
        };
        sorted.truncate(keep);
        let mut sum: u64 = 0;
        let mut q: usize = 0;
        proof {
            lemma_count_sum_prefix(arr, keep as int);
            assert(count_views(sorted@) =~= arr.subrange(0, keep as int));
            assert(count_views(sorted@).subrange(0, 0) =~= Seq::<(KeyView, nat)>::empty());
        }
        while q < sorted.len()
            invariant
                q <= sorted@.len(),
                sum == count_sum(count_views(sorted@).subrange(0, q as int)),
                count_sum(count_views(sorted@)) <= usize::MAX,
            decreases sorted@.len() - q,
        {
            proof {
                let cv = count_views(sorted@);
                assert(cv.subrange(0, q + 1).drop_last() =~= cv.subrange(0, q as int));
                lemma_count_sum_prefix(cv, q + 1);
            }
            sum = sum + sorted[q].1;
            q = q + 1;
        }
        proof {
            assert(count_views(sorted@).subrange(0, q as int) =~= count_views(sorted@));
            assert(tracked_runs(ks) =~= t);
        }
        Some(MostCommonValues { values: sorted, total_keys: total, mcv_frequency_sum: sum })
    }
}

} // verus!

verus! {

/// `t` is `o` with its statistics refreshed: the entries and key count
/// kept, the statistics recomputed from the keys, the change counters reset.
pub open spec fn stats_refreshed(t: BPlusTree, o: BPlusTree) -> bool {
    &&& t.wf()
    &&& t.entries() == o.entries()
    &&& t.meta() == (IndexMetadata { stats: t.meta().stats, ..o.meta() })
    &&& ({
                let ks = entry_keys(o.entries());
                let big = o.meta().num_keys >= 100000 && o.meta().fields@.len() <= 1
                    && !o.meta().multikey;
                let st = t.meta().stats;
                &&& big ==> st.distinct_count == key_runs(non_null_keys(ks)) && histogram_of(non_null_keys(ks), st.histogram)
                &&& !big ==> st.distinct_count == key_runs(ks) && st.histogram is None
                &&& st.null_count == null_keys(ks)
                &&& st.sample_rate == F32_ONE_BITS
                &&& st.multikey_ratio == if o.meta().multikey {
                    F32_QUARTER_BITS
                } else {
                    0
                }
                &&& o.meta().num_keys >= 1000 && o.meta().fields@.len() <= 1 ==> mcv_of(
                    ks,
                    20,
                    st.mcv,
                )
                &&& !(o.meta().num_keys >= 1000 && o.meta().fields@.len() <= 1) ==> st.mcv is None
            })
    &&& t.counters_spec().writes_since_refresh == 0
    &&& t.counters_spec().deletes_since_refresh == 0
    &&& t.counters_spec().num_keys_at_last_refresh == o.meta().num_keys
    &&& t.counters_spec().total_writes == o.counters_spec().total_writes
}

impl BPlusTree {
    /// Refresh the statistics: distinct and null counts in one ordered
    /// pass, with a histogram of the non-null keys for large single-field
    /// indexes that are not multikey, the most common values of large
    /// single-field indexes, the analysis time, and reset staleness counters.
    pub fn refresh_stats(&mut self)
        requires
            old(self).wf(),
        ensures
            stats_refreshed(*final(self), *old(self)),
    {
        let total_keys = self.metadata.num_keys;
        let build_histogram = total_keys >= 100000 && !self.metadata.is_compound() && !self.metadata.multikey;
        if build_histogram {
            self.refresh_stats_with_histogram();
        } else {
            self.refresh_stats_streaming();
        }
        self.metadata.stats.last_analyzed = unix_time_secs();
        self.metadata.stats.sample_rate = F32_ONE_BITS;
        if self.metadata.multikey {
            self.metadata.stats.multikey_ratio = F32_QUARTER_BITS;
        } else {
            self.metadata.stats.multikey_ratio = 0;
        }
        let n = self.metadata.num_keys;
        self.counters.mark_refreshed(n);
        if total_keys >= 1000 && !self.metadata.is_compound() {
            let m = self.build_mcv(MostCommonValues::DEFAULT_MCV_SIZE);
            self.metadata.stats.mcv = m;
        } else {
            self.metadata.stats.mcv = None;
        }
    }
}

} // verus!

verus! {

// ---------------------------------------------------------------------------
// Checking nodes read back from storage
// ---------------------------------------------------------------------------

/// View of an optional bound.
pub open spec fn opt_key_view(o: Option<&IndexKey>) -> Option<KeyView> {
    match o {
        Some(k) => Some(k@),
        None => None,
    }
}

/// Whether `k` lies within the optional bounds.
fn within_bounds(k: &IndexKey, lo: Option<&IndexKey>, hi: Option<&IndexKey>) -> (r: bool)
    ensures
        r == within(k@, opt_key_view(lo), opt_key_view(hi)),
{
    let above_ok = match lo {
        Some(l) => compare_keys(l, k) <= 0,
        None => true,
    };
    let below_ok = match hi {
        Some(h) => compare_keys(k, h) <= 0,
        None => true,
    };
    above_ok && below_ok
}

/// Whether the keys are in order and all within the bounds.
fn keys_in_order_within(keys: &Vec<IndexKey>, lo: Option<&IndexKey>, hi: Option<&IndexKey>) -> (r: bool)
    ensures
        r == (keys_sorted(key_views(keys@)) && forall|i: int|
            0 <= i < keys@.len() ==> #[trigger] within(keys@[i]@, opt_key_view(lo), opt_key_view(hi))),
{
    let ghost ks = key_views(keys@);
    let ghost l = opt_key_view(lo);
    let ghost h = opt_key_view(hi);
    let mut i: usize = 0;
    while i < keys.len()
        invariant
            ks == key_views(keys@),
            l == opt_key_view(lo),
            h == opt_key_view(hi),
            i <= keys@.len(),
            forall|p: int, q: int| 0 <= p < q < i ==> key_order(ks[p], ks[q]) <= 0,
            forall|j: int| 0 <= j < i ==> #[trigger] within(keys@[j]@, l, h),
        decreases keys@.len() - i,
    {
        if !within_bounds(&keys[i], lo, hi) {
            return false;
        }
        if i > 0 && compare_keys(&keys[i - 1], &keys[i]) > 0 {
            proof {
                assert(ks[i - 1] == keys@[i - 1]@ && ks[i as int] == keys@[i as int]@);
            }
            return false;
        }
        proof {
            assert forall|p: int, q: int| 0 <= p < q < i + 1 implies key_order(ks[p], ks[q]) <= 0 by {
                if q == i && p < i - 1 {
                    assert(ks[i - 1] == keys@[i - 1]@ && ks[i as int] == keys@[i as int]@);
                    lemma_key_order_trans(ks[p], ks[i - 1], ks[q]);
                } else if q == i {
                    assert(ks[i - 1] == keys@[i - 1]@ && ks[i as int] == keys@[i as int]@);
                }
            }
        }
        i = i + 1;
    }
    true
}

/// Whether a node is well formed within the bounds, and then how many
/// entries it holds; `None` also when they are more than a `usize` counts.
fn check_node(n: &BTreeNode, lo: Option<&IndexKey>, hi: Option<&IndexKey>) -> (r: Option<usize>)
    ensures
        match r {
            Some(c) => wf_node(*n, opt_key_view(lo), opt_key_view(hi)) && c == node_entries(*n).len(),
            None => !wf_node(*n, opt_key_view(lo), opt_key_view(hi)) || node_entries(*n).len() > usize::MAX,
        },
    decreases n,
{
    match n {
        BTreeNode::Leaf(l) => {
            if l.keys.len() != l.document_ids.len() {
                return None;
            }
            if !keys_in_order_within(&l.keys, lo, hi) {
                return None;
            }
            Some(l.keys.len())
        },
        BTreeNode::Internal(int_node) => {
            let ghost ks = key_views(int_node.keys@);
            let ghost cs = int_node.children@;
            let ghost l = opt_key_view(lo);
            let ghost h = opt_key_view(hi);
            if int_node.children.len() == 0 || int_node.children.len() - 1 != int_node.keys.len() {
                return None;
            }
            if !keys_in_order_within(&int_node.keys, lo, hi) {
                return None;
            }
            let nc = int_node.children.len();
            let mut total: usize = 0;
            let mut i: usize = 0;
            proof {
                assert(cs.take(0) =~= Seq::<Box<BTreeNode>>::empty());
            }
            while i < nc
                invariant
                    *n == BTreeNode::Internal(*int_node),
                    ks == key_views(int_node.keys@),
                    cs == int_node.children@,
                    l == opt_key_view(lo),
                    h == opt_key_view(hi),
                    nc == cs.len(),
                    nc == ks.len() + 1,
                    i <= nc,
                    forall|j: int| 0 <= j < i ==> #[trigger] wf_node(*cs[j], child_lo(ks, l, j), child_hi(ks, h, j)),
                    total == children_entries(cs.take(i as int)).len(),
                decreases nc - i,
            {
                let clo = if i == 0 {
                    lo
                } else {
                    Some(&int_node.keys[i - 1])
                };
                let chi = if i == int_node.keys.len() {
                    hi
                } else {
                    Some(&int_node.keys[i])
                };
                proof {
                    assert(opt_key_view(clo) == child_lo(ks, l, i as int));
                    assert(opt_key_view(chi) == child_hi(ks, h, i as int));
                    assert(decreases_to!(*n => n->Internal_0));
                    assert(decreases_to!(n->Internal_0 => n->Internal_0.children));
                    assert(decreases_to!(n->Internal_0.children => n->Internal_0.children@));
                    assert(decreases_to!(n->Internal_0.children@ => n->Internal_0.children@[i as int]));
                    assert(cs.take(i + 1).subrange(0, i as int) =~= cs.take(i as int));
                    assert(cs.take(i + 1)[i as int] == cs[i as int]);
                    lemma_children_entries_append(cs.take(i + 1), cs.subrange(i + 1, nc as int));
                    assert(cs.take(i + 1) + cs.subrange(i + 1, nc as int) =~= cs);
                }
                match check_node(&int_node.children[i], clo, chi) {
                    None => {
                        proof {
                            lemma_wf_children_index(cs, ks, l, h);
                            lemma_children_entries_split(cs, i as int);
                        }
                        return None;
                    },
                    Some(c) => {
                        match total.checked_add(c) {
                            None => {
                                return None;
                            },
                            Some(t) => {
                                total = t;
                            },
                        }
                    },
                }
                i = i + 1;
            }
            proof {
                lemma_wf_children_index(cs, ks, l, h);
                assert(cs.take(nc as int) =~= cs);
            }
            Some(total)
        },
    }
}

impl BPlusTree {
    /// The root node, for persisting the tree.
    pub fn root_node(&self) -> (r: &BTreeNode)
        requires
            self.wf(),
        ensures
            wf_node(*r, None, None),
            node_entries(*r) == self.entries(),
    {
        &self.root
    }

    /// A tree from a root node read back from storage (a file of
    /// `persisted_size` bytes, 0 when not told): refused as `Corruption`
    /// unless the nodes are well formed (and their entries countable); the
    /// key count becomes the number of entries and the statistics are
    /// clamped to it.
    pub fn from_loaded_root(root: BTreeNode, metadata: IndexMetadata, persisted_size: u64) -> (res: Result<
        Self,
        IronBaseError,
    >)
        ensures
            res is Ok <==> wf_node(root, None, None) && node_entries(root).len() <= usize::MAX,
            res matches Err(e) ==> e is Corruption,
            res matches Ok(t) ==> {
                &&& t.wf()
                &&& t.entries() == node_entries(root)
                &&& t.meta().num_keys == node_entries(root).len()
                &&& t.meta().name == metadata.name
                &&& t.meta().fields == metadata.fields
                &&& t.meta().unique == metadata.unique
                &&& t.meta().root_offset == metadata.root_offset
                &&& t.meta().stats.distinct_count <= node_entries(root).len()
                &&& t.meta().stats.null_count <= node_entries(root).len()
                &&& t.persisted() == persisted_size
            },
    {
        match check_node(&root, None, None) {
            None => Err(IronBaseError::Corruption("Index nodes read back are not a well-formed tree".to_string())),
            Some(n) => {
                let mut metadata = metadata;
                metadata.num_keys = n as u64;
                let num_keys = metadata.num_keys;
                metadata.stats.validate_and_fix(num_keys);
                Ok(BPlusTree { root: Box::new(root), metadata, counters: StatisticsCounters::default(), persisted_size })
            },
        }
    }
}

} // verus!

verus! {

impl crate::index::traits::IndexTrait for BPlusTree {
    fn name(&self) -> (r: &str)
        ensures
            r@ == self.meta().name@,
    {
        self.metadata.name.as_str()
    }

    fn fields(&self) -> (r: Vec<&str>)
        ensures
            r@.len() == self.meta().fields@.len(),
            forall|i: int| 0 <= i < r@.len() ==> #[trigger] r@[i]@ == self.meta().fields@[i]@,
    {
        let mut r: Vec<&str> = Vec::new();
        let mut i: usize = 0;
        while i < self.metadata.fields.len()
            invariant
                i <= self.metadata.fields@.len(),
                r@.len() == i,
                forall|j: int| 0 <= j < i ==> #[trigger] r@[j]@ == self.metadata.fields@[j]@,
            decreases self.metadata.fields@.len() - i,
        {
            r.push(self.metadata.fields[i].as_str());
            i = i + 1;
        }
        r
    }

    fn entry_count(&self) -> (n: usize)
        ensures
            n == self.meta().num_keys as usize,
    {
        self.metadata.num_keys as usize
    }

    /// The tree's own size plus about 100 bytes per entry (saturating).
    fn memory_usage_bytes(&self) -> (n: usize)
        ensures
            n == vstd::math::min(
                vstd::layout::size_of::<BPlusTree>() + vstd::math::min(
                    (self.meta().num_keys as usize) * 100,
                    usize::MAX as int,
                ),
                usize::MAX as int,
            ),
    {
        let n = self.metadata.num_keys as usize;
        let per_entry = if n <= usize::MAX / 100 {
            n * 100
        } else {
            usize::MAX
        };
        core::mem::size_of::<BPlusTree>().saturating_add(per_entry)
    }

    fn is_disk_backed(&self) -> (r: bool)
        ensures
            r == (self.persisted() > 0),
    {
        self.persisted_size > 0
    }

    /// Nothing to do: trees are written whole by `save_to_file`.
    fn flush(&mut self) -> (res: Result<(), IronBaseError>)
        ensures
            res is Ok,
            *final(self) == *old(self),
    {
        Ok(())
    }
}

} // verus!
