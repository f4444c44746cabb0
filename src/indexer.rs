use vstd::prelude::*;
use crate::document::{Document, DocumentView};
use crate::inverted_index::{
    entries_view, keys_unique, lemma_entries_view_dom, postings_of, postings_view, IndexMap, InvertedIndex,
};
use crate::tokenize::{split_on_space, tokenize};

verus! {

/// The index of one document: each of its terms mapped to its id, once,
/// however often the term occurs in the text.
pub open spec fn index_view(d: DocumentView) -> IndexMap {
    Map::new(|t: Seq<char>| split_on_space(d.text).contains(t), |t: Seq<char>| seq![d.id])
}

/// Two indices combined: every term of either, with the postings of `a`
/// followed by those of `b`.
pub open spec fn merge_view(a: IndexMap, b: IndexMap) -> IndexMap {
    Map::new(
        |t: Seq<char>| a.contains_key(t) || b.contains_key(t),
        |t: Seq<char>| postings_of(a, t) + postings_of(b, t),
    )
}

/// The index of a sequence of documents, merged from the left.
pub open spec fn fold_view(docs: Seq<DocumentView>) -> IndexMap
    decreases docs.len(),
{
    if docs.len() == 0 {
        Map::empty()
    } else {
        merge_view(fold_view(docs.drop_last()), index_view(docs.last()))
    }
}

/// Builds the index of one document: each space-separated term of its text
/// maps to a one-element postings list holding the document's id. A term
/// that occurs several times is recorded once: later occurrences replace
/// the earlier entry rather than adding to it.
pub fn index(document: Document) -> (r: InvertedIndex)
    ensures
        r@ == index_view(document@),
{
    let mut tokens = tokenize(document.text().as_str());
    let ghost toks = split_on_space(document@.text);
    let ghost n = toks.len();
    let id = document.id();
    let mut result = InvertedIndex::new();
    proof {
        assert(toks.subrange(n as int, n as int) =~= Seq::empty());
        assert(result@ =~= Map::new(
            |t: Seq<char>| toks.subrange(n as int, n as int).contains(t),
            |t: Seq<char>| seq![document@.id],
        ));
    }
    while tokens.len() > 0
        invariant
            tokens@.len() <= n,
            toks.len() == n,
            id@ == document@.id,
            tokens@.map_values(|t: String| t@) == toks.take(tokens@.len() as int),
            result@ == Map::new(
                |t: Seq<char>| toks.subrange(tokens@.len() as int, n as int).contains(t),
                |t: Seq<char>| seq![document@.id],
            ),
        decreases tokens@.len(),
    {
        let ghost m = tokens@.len() as int;
        let ghost before = tokens@;
        let term = tokens.pop().unwrap();
        assert(tokens@.map_values(|t: String| t@) =~= toks.take(m - 1));
        assert(term@ == toks[m - 1]) by {
            assert(before.map_values(|t: String| t@)[m - 1] == toks.take(m)[m - 1]);
        }
        let ghost old_map = result@;
        let ids = vec![id.clone()];
        assert(ids@.map_values(|s: String| s@) =~= seq![document@.id]);
        result.insert(term, ids);
        proof {
            let done = toks.subrange(m - 1, n as int);
            let prev = toks.subrange(m, n as int);
            assert forall|t: Seq<char>| done.contains(t) <==> (t == toks[m - 1] || prev.contains(
                t,
            )) by {
                if done.contains(t) {
                    let k = choose|k: int| 0 <= k < done.len() && done[k] == t;
                    if k > 0 {
                        assert(prev[k - 1] == t);
                    }
                }
                if prev.contains(t) {
                    let k = choose|k: int| 0 <= k < prev.len() && prev[k] == t;
                    assert(done[k + 1] == t);
                }
                if t == toks[m - 1] {
                    assert(done[0] == t);
                }
            }
            assert(result@ =~= Map::new(
                |t: Seq<char>| done.contains(t),
                |t: Seq<char>| seq![document@.id],
            ));
        }
    }
    proof {
        assert(toks.subrange(0, n as int) =~= toks);
    }
    result
}

/// Combines two indices. Terms of `incoming` that `base` lacks are added with
/// their postings; for a term that both hold, the postings of `incoming` are
/// appended after those of `base`. Terms that only `base` holds are kept.
pub fn merge(base: InvertedIndex, incoming: InvertedIndex) -> (r: InvertedIndex)
    ensures
        r@ == merge_view(base@, incoming@),
{
    let entries = incoming.into_entries();
    let ghost e = entries@;
    let ghost start = base@;
    let mut result = base;
    proof {
        assert(e.take(0) =~= Seq::empty());
        assert(result@ =~= merge_view(start, entries_view(e.take(0))));
    }
    for entry in it: entries.into_iter()
        invariant
            e.len() == it.seq().len(),
            forall|k: int| 0 <= k < e.len() ==> it.seq()[k] == e[k],
            keys_unique(e),
            result@ == merge_view(start, entries_view(e.take(it.index() as int))),
    {
        let ghost j = it.index() as int;
        let ghost acc = result@;
        let (term, ids) = entry;
        assert(e[j] == (term, ids));
        result.append(term, ids);
        proof {
            let done = e.take(j + 1);
            assert(done.drop_last() =~= e.take(j));
            assert(done.last() == e[j]);
            let prior = entries_view(e.take(j));
            assert(!prior.contains_key(term@)) by {
                lemma_entries_view_dom(e.take(j), term@);
                if prior.contains_key(term@) {
                    let i = choose|i: int| 0 <= i < j && e.take(j)[i].0@ == term@;
                    assert(e[i].0@ == e[j].0@);
                }
            }
            assert(result@ =~= merge_view(start, entries_view(done)));
        }
    }
    proof {
        assert(e.take(e.len() as int) =~= e);
    }
    result
}

/// Indexes each document in turn and merges the results from the left, so
/// that every term's postings follow the order of the documents.
pub fn index_all(documents: Vec<Document>) -> (r: InvertedIndex)
    ensures
        r@ == fold_view(documents@.map_values(|d: Document| d@)),
{
    let ghost docs = documents@.map_values(|d: Document| d@);
    let mut result = InvertedIndex::new();
    proof {
        assert(docs.take(0) =~= Seq::empty());
    }
    for document in it: documents.into_iter()
        invariant
            docs.len() == it.seq().len(),
            forall|k: int| 0 <= k < docs.len() ==> it.seq()[k]@ == docs[k],
            result@ == fold_view(docs.take(it.index() as int)),
    {
        let ghost j = it.index() as int;
        assert(document@ == docs[j]);
        let single = index(document);
        result = merge(result, single);
        proof {
            assert(docs.take(j + 1).drop_last() =~= docs.take(j));
        }
    }
    proof {
        assert(docs.take(docs.len() as int) =~= docs);
    }
    result
}

} // verus!
