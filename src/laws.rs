use vstd::prelude::*;
use crate::document::DocumentView;
use crate::indexer::{fold_view, index_view, merge_view};
use crate::inverted_index::{postings_of, IndexMap};
use crate::tokenize::{lemma_split_no_space, split_on_space};

verus! {

/// A document whose text holds no space is indexed as one term, the whole
/// text, mapped to the document's id.
pub proof fn lemma_index_single_term(d: DocumentView)
    requires
        !d.text.contains(' '),
    ensures
        index_view(d) == map![d.text => seq![d.id]],
{
    lemma_split_no_space(d.text);
    let m = map![d.text => seq![d.id]];
    assert forall|t: Seq<char>| split_on_space(d.text).contains(t) <==> t == d.text by {
        if t == d.text {
            assert(seq![d.text][0] == t);
        }
    }
    assert(index_view(d) =~= m);
}

/// Every term of a document gets exactly one posting, the document's id,
/// however many times the term occurs in its text.
pub proof fn lemma_index_one_posting_per_term(d: DocumentView, t: Seq<char>)
    requires
        split_on_space(d.text).contains(t),
    ensures
        index_view(d).contains_key(t),
        index_view(d)[t] == seq![d.id],
{
}

/// Merging with the empty index, on either side, gives the other index back.
pub proof fn lemma_merge_empty(m: IndexMap)
    ensures
        merge_view(m, Map::empty()) == m,
        merge_view(Map::empty(), m) == m,
{
    assert forall|t: Seq<char>| #[trigger] m.contains_key(t) implies postings_of(m, t)
        + postings_of(Map::empty(), t) == m[t] && postings_of(Map::empty(), t) + postings_of(
        m,
        t,
    ) == m[t] by {
        assert(postings_of(m, t) + Seq::empty() =~= m[t]);
        assert(Seq::empty() + postings_of(m, t) =~= m[t]);
    }
    assert(merge_view(m, Map::empty()) =~= m);
    assert(merge_view(Map::empty(), m) =~= m);
}

/// Merging is associative: the postings of every term come out the same,
/// in the same order, whichever pair is merged first.
pub proof fn lemma_merge_associative(a: IndexMap, b: IndexMap, c: IndexMap)
    ensures
        merge_view(merge_view(a, b), c) == merge_view(a, merge_view(b, c)),
{
    let l = merge_view(merge_view(a, b), c);
    let r = merge_view(a, merge_view(b, c));
    assert forall|t: Seq<char>| #[trigger] l.contains_key(t) implies l[t] == r[t] by {
        assert(postings_of(merge_view(a, b), t) =~= postings_of(a, t) + postings_of(b, t));
        assert(postings_of(merge_view(b, c), t) =~= postings_of(b, t) + postings_of(c, t));
        assert(l[t] =~= r[t]);
    }
    assert(l =~= r);
}

/// Folding a document sequence in one pass gives the same index as folding
/// any two consecutive parts of it and merging the results; by induction,
/// every bracketing that keeps the document order gives the same index.
pub proof fn lemma_fold_concat(s: Seq<DocumentView>, t: Seq<DocumentView>)
    ensures
        fold_view(s + t) == merge_view(fold_view(s), fold_view(t)),
    decreases t.len(),
{
    if t.len() == 0 {
        assert(s + t =~= s);
        lemma_merge_empty(fold_view(s));
    } else {
        lemma_fold_concat(s, t.drop_last());
        assert((s + t).drop_last() =~= s + t.drop_last());
        assert((s + t).last() == t.last());
        lemma_merge_associative(fold_view(s), fold_view(t.drop_last()), index_view(t.last()));
    }
}

/// The ids, in order, of the documents of `docs` that hold the term `t`.
pub open spec fn ids_with_term(docs: Seq<DocumentView>, t: Seq<char>) -> Seq<Seq<char>>
    decreases docs.len(),
{
    if docs.len() == 0 {
        Seq::empty()
    } else {
        let rest = ids_with_term(docs.drop_last(), t);
        if split_on_space(docs.last().text).contains(t) {
            rest.push(docs.last().id)
        } else {
            rest
        }
    }
}

/// After folding a document sequence, the postings of each term are the ids
/// of the documents that hold it, one per document, in document order.
pub proof fn lemma_fold_postings(docs: Seq<DocumentView>, t: Seq<char>)
    ensures
        postings_of(fold_view(docs), t) == ids_with_term(docs, t),
    decreases docs.len(),
{
    if docs.len() > 0 {
        lemma_fold_postings(docs.drop_last(), t);
        let f = fold_view(docs.drop_last());
        let d = docs.last();
        assert(postings_of(fold_view(docs), t) == postings_of(f, t) + postings_of(
            index_view(d),
            t,
        ));
        if split_on_space(d.text).contains(t) {
            assert(postings_of(fold_view(docs), t) =~= ids_with_term(docs, t));
        } else {
            assert(postings_of(fold_view(docs), t) =~= ids_with_term(docs, t));
        }
    }
}

} // verus!
