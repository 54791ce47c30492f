//! Name-keyed tables kept as parallel sequences of distinct names and values,
//! read as finite maps.
use vstd::prelude::*;

verus! {

/// The map of a table: each name to the value at its position (later
/// positions win, which only matters when names repeat).
pub open spec fn assoc<V>(ks: Seq<Seq<char>>, vs: Seq<V>) -> Map<Seq<char>, V>
    decreases ks.len(),
{
    if ks.len() == 0 || vs.len() == 0 {
        Map::empty()
    } else {
        assoc(ks.drop_last(), vs.drop_last()).insert(ks.last(), vs.last())
    }
}

/// Views of a sequence of strings.
pub open spec fn str_views(ss: Seq<String>) -> Seq<Seq<char>> {
    Seq::new(ss.len(), |i: int| ss[i]@)
}

/// No name occurs twice.
pub open spec fn distinct(ks: Seq<Seq<char>>) -> bool {
    forall|i: int, j: int| 0 <= i < ks.len() && 0 <= j < ks.len() && i != j ==> ks[i] != ks[j]
}

pub proof fn lemma_assoc_dom<V>(ks: Seq<Seq<char>>, vs: Seq<V>)
    requires
        ks.len() == vs.len(),
    ensures
        forall|k: Seq<char>| #[trigger] assoc(ks, vs).dom().contains(k) <==> ks.contains(k),
        assoc(ks, vs).dom().finite(),
    decreases ks.len(),
{
    if ks.len() > 0 {
        lemma_assoc_dom(ks.drop_last(), vs.drop_last());
        assert forall|k: Seq<char>| #[trigger] assoc(ks, vs).dom().contains(k) <==> ks.contains(k) by {
            if ks.contains(k) && k != ks.last() {
                let i = choose|i: int| 0 <= i < ks.len() && ks[i] == k;
                assert(ks.drop_last()[i] == k);
            }
            if ks.drop_last().contains(k) {
                let i = choose|i: int| 0 <= i < ks.drop_last().len() && ks.drop_last()[i] == k;
                assert(ks[i] == k);
            }
            if k == ks.last() {
                assert(ks[ks.len() - 1] == k);
            }
        }
    }
}

pub proof fn lemma_assoc_index<V>(ks: Seq<Seq<char>>, vs: Seq<V>, i: int)
    requires
        ks.len() == vs.len(),
        distinct(ks),
        0 <= i < ks.len(),
    ensures
        assoc(ks, vs).dom().contains(ks[i]),
        assoc(ks, vs)[ks[i]] == vs[i],
    decreases ks.len(),
{
    if i < ks.len() - 1 {
        lemma_assoc_index(ks.drop_last(), vs.drop_last(), i);
        assert(ks[i] != ks.last());
    }
}

pub proof fn lemma_assoc_update<V>(ks: Seq<Seq<char>>, vs: Seq<V>, i: int, v: V)
    requires
        ks.len() == vs.len(),
        distinct(ks),
        0 <= i < ks.len(),
    ensures
        assoc(ks, vs.update(i, v)) == assoc(ks, vs).insert(ks[i], v),
    decreases ks.len(),
{
    let n = ks.len() - 1;
    if i == n {
        assert(vs.update(i, v).drop_last() =~= vs.drop_last());
        assert(assoc(ks, vs.update(i, v)) =~= assoc(ks, vs).insert(ks[i], v));
    } else {
        lemma_assoc_update(ks.drop_last(), vs.drop_last(), i, v);
        assert(vs.update(i, v).drop_last() =~= vs.drop_last().update(i, v));
        assert(ks[i] != ks.last());
        assert(assoc(ks, vs.update(i, v)) =~= assoc(ks, vs).insert(ks[i], v));
    }
}

pub proof fn lemma_assoc_remove<V>(ks: Seq<Seq<char>>, vs: Seq<V>, i: int)
    requires
        ks.len() == vs.len(),
        distinct(ks),
        0 <= i < ks.len(),
    ensures
        assoc(ks.remove(i), vs.remove(i)) == assoc(ks, vs).remove(ks[i]),
        distinct(ks.remove(i)),
    decreases ks.len(),
{
    let n = ks.len() - 1;
    lemma_assoc_dom(ks.drop_last(), vs.drop_last());
    if i == n {
        assert(ks.remove(i) =~= ks.drop_last());
        assert(vs.remove(i) =~= vs.drop_last());
        assert(!ks.drop_last().contains(ks[i])) by {
            if ks.drop_last().contains(ks[i]) {
                let j = choose|j: int| 0 <= j < ks.drop_last().len() && ks.drop_last()[j] == ks[i];
                assert(ks[j] == ks[i]);
            }
        }
        assert(assoc(ks.remove(i), vs.remove(i)) =~= assoc(ks, vs).remove(ks[i]));
    } else {
        lemma_assoc_remove(ks.drop_last(), vs.drop_last(), i);
        assert(ks.remove(i).drop_last() =~= ks.drop_last().remove(i));
        assert(vs.remove(i).drop_last() =~= vs.drop_last().remove(i));
        assert(ks.remove(i).last() == ks.last());
        assert(vs.remove(i).last() == vs.last());
        assert(ks[i] != ks.last());
        assert(assoc(ks.remove(i), vs.remove(i)) =~= assoc(ks, vs).remove(ks[i]));
    }
    assert forall|a: int, b: int| 0 <= a < ks.remove(i).len() && 0 <= b < ks.remove(i).len() && a != b implies ks.remove(i)[a] != ks.remove(i)[b] by {
        let a2 = if a < i { a } else { a + 1 };
        let b2 = if b < i { b } else { b + 1 };
        assert(ks.remove(i)[a] == ks[a2]);
        assert(ks.remove(i)[b] == ks[b2]);
    }
}

pub proof fn lemma_assoc_push<V>(ks: Seq<Seq<char>>, vs: Seq<V>, k: Seq<char>, v: V)
    requires
        ks.len() == vs.len(),
        distinct(ks),
        !ks.contains(k),
    ensures
        assoc(ks.push(k), vs.push(v)) == assoc(ks, vs).insert(k, v),
        distinct(ks.push(k)),
{
    assert(ks.push(k).drop_last() =~= ks);
    assert(vs.push(v).drop_last() =~= vs);
    assert forall|a: int, b: int| 0 <= a < ks.push(k).len() && 0 <= b < ks.push(k).len() && a != b implies ks.push(k)[a] != ks.push(k)[b] by {
        if a == ks.len() {
            assert(ks.push(k)[b] == ks[b]);
        } else if b == ks.len() {
            assert(ks.push(k)[a] == ks[a]);
        }
    }
}

} // verus!

verus! {

pub proof fn lemma_push_to_set<A>(s: Seq<A>, x: A)
    ensures
        s.push(x).to_set() == s.to_set().insert(x),
{
    assert forall|k: A| #[trigger] s.push(x).contains(k) <==> (s.contains(k) || k == x) by {
        if s.contains(k) {
            let i = choose|i: int| 0 <= i < s.len() && s[i] == k;
            assert(s.push(x)[i] == k);
        }
        if k == x {
            assert(s.push(x)[s.len() as int] == k);
        }
        if s.push(x).contains(k) && k != x {
            let i = choose|i: int| 0 <= i < s.push(x).len() && s.push(x)[i] == k;
            assert(s[i] == k);
        }
    }
    assert(s.push(x).to_set() =~= s.to_set().insert(x));
}

/// A copy of the strings of `ss` before position `i`, with the one at `i` added.
pub proof fn lemma_str_views_push(ss: Seq<String>, out: Seq<String>, c: String, i: int)
    requires
        0 <= i < ss.len(),
        str_views(out) == str_views(ss).subrange(0, i),
        c@ == ss[i]@,
    ensures
        str_views(out.push(c)) == str_views(ss).subrange(0, i + 1),
{
    assert(str_views(out.push(c)) =~= str_views(ss).subrange(0, i + 1)) by {
        assert(str_views(out).len() == i);
    }
}

} // verus!

verus! {

/// Distinct names are as many as their set has members.
pub proof fn lemma_distinct_len(ks: Seq<Seq<char>>)
    requires
        distinct(ks),
    ensures
        ks.to_set().len() == ks.len(),
{
    ks.unique_seq_to_set();
}

} // verus!
