//! Document identifiers.
use vstd::prelude::*;

verus! {

/// Identifier of a stored document.
#[derive(Debug, PartialEq, Eq, PartialOrd, Ord, Hash)]
pub enum DocumentId {
    Int(i64),
    String(String),
    ObjectId(String),
}

/// Mathematical form of a [`DocumentId`].
pub enum DocIdView {
    Int(int),
    Str(Seq<char>),
    ObjectId(Seq<char>),
}

impl View for DocumentId {
    type V = DocIdView;

    open spec fn view(&self) -> DocIdView {
        match self {
            DocumentId::Int(i) => DocIdView::Int(*i as int),
            DocumentId::String(s) => DocIdView::Str(s@),
            DocumentId::ObjectId(s) => DocIdView::ObjectId(s@),
        }
    }
}

impl DocumentId {
    /// Copy of this identifier.
    pub fn copy_id(&self) -> (res: DocumentId)
        ensures
            res@ == self@,
    {
        match self {
            DocumentId::Int(i) => DocumentId::Int(*i),
            DocumentId::String(s) => DocumentId::String(s.clone()),
            DocumentId::ObjectId(s) => DocumentId::ObjectId(s.clone()),
        }
    }

    /// Whether two identifiers are the same.
    pub fn same_as(&self, other: &DocumentId) -> (r: bool)
        ensures
            r == (self@ == other@),
    {
        match (self, other) {
            (DocumentId::Int(a), DocumentId::Int(b)) => *a == *b,
            (DocumentId::String(a), DocumentId::String(b)) => *a == *b,
            (DocumentId::ObjectId(a), DocumentId::ObjectId(b)) => *a == *b,
            _ => false,
        }
    }
}

impl Clone for DocumentId {
    fn clone(&self) -> (res: Self)
        ensures
            res@ == self@,
    {
        self.copy_id()
    }
}

} // verus!

verus! {

/// Rank of an id's kind: integers, then strings, then object ids.
pub open spec fn id_kind_rank(d: DocIdView) -> int {
    match d {
        DocIdView::Int(_) => 0,
        DocIdView::Str(_) => 1,
        DocIdView::ObjectId(_) => 2,
    }
}

/// Three-way comparison of document ids: by kind, then by value.
pub open spec fn doc_order(a: DocIdView, b: DocIdView) -> int {
    if id_kind_rank(a) != id_kind_rank(b) {
        crate::index::key::int_order(id_kind_rank(a), id_kind_rank(b))
    } else {
        match (a, b) {
            (DocIdView::Int(x), DocIdView::Int(y)) => crate::index::key::int_order(x, y),
            (DocIdView::Str(x), DocIdView::Str(y)) => crate::index::key::chars_order(x, y),
            (DocIdView::ObjectId(x), DocIdView::ObjectId(y)) => crate::index::key::chars_order(x, y),
            _ => 0,
        }
    }
}

/// Three-way comparison of document ids: -1, 0 or 1.
pub fn compare_ids(a: &DocumentId, b: &DocumentId) -> (r: i8)
    ensures
        r as int == doc_order(a@, b@),
{
    match (a, b) {
        (DocumentId::Int(x), DocumentId::Int(y)) => {
            if *x < *y {
                -1
            } else if *x == *y {
                0
            } else {
                1
            }
        },
        (DocumentId::String(x), DocumentId::String(y)) => crate::text::compare_strs(x.as_str(), y.as_str()),
        (DocumentId::ObjectId(x), DocumentId::ObjectId(y)) => crate::text::compare_strs(x.as_str(), y.as_str()),
        (DocumentId::Int(_), _) => -1,
        (_, DocumentId::Int(_)) => 1,
        (DocumentId::String(_), _) => -1,
        (_, DocumentId::String(_)) => 1,
    }
}

/// Id order laws: antisymmetric, three-valued, zero only on equal ids.
pub proof fn lemma_doc_order_basic(a: DocIdView, b: DocIdView)
    ensures
        doc_order(a, b) == -doc_order(b, a),
        -1 <= doc_order(a, b) <= 1,
        doc_order(a, b) == 0 <==> a == b,
{
    match (a, b) {
        (DocIdView::Str(x), DocIdView::Str(y)) => crate::index::key::lemma_chars_order_basic(x, y),
        (DocIdView::ObjectId(x), DocIdView::ObjectId(y)) => crate::index::key::lemma_chars_order_basic(x, y),
        _ => {},
    }
}

/// The strict id order is transitive.
pub proof fn lemma_doc_order_lt_trans(a: DocIdView, b: DocIdView, c: DocIdView)
    requires
        doc_order(a, b) < 0,
        doc_order(b, c) < 0,
    ensures
        doc_order(a, c) < 0,
{
    lemma_doc_order_basic(a, b);
    lemma_doc_order_basic(b, c);
    lemma_doc_order_basic(a, c);
    match (a, b, c) {
        (DocIdView::Str(x), DocIdView::Str(y), DocIdView::Str(z)) => {
            crate::index::key::lemma_chars_order_trans(x, y, z);
            if doc_order(a, c) == 0 {
                crate::index::key::lemma_chars_order_basic(x, y);
            }
        },
        (DocIdView::ObjectId(x), DocIdView::ObjectId(y), DocIdView::ObjectId(z)) => {
            crate::index::key::lemma_chars_order_trans(x, y, z);
            if doc_order(a, c) == 0 {
                crate::index::key::lemma_chars_order_basic(x, y);
            }
        },
        _ => {},
    }
}

} // verus!
