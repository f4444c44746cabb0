use vstd::prelude::*;
use vstd::pervasive::VecAdditionalExecFns;
use vstd::std_specs::hash::{group_hash_axioms, DefaultHasherAdditionalSpecFns};
use vstd::string::StringSliceAdditionalSpecFns;
use vstd::utf8::encode_utf8;
use std::collections::hash_map::DefaultHasher;
use std::collections::HashMap;
use std::hash::Hasher;

verus! {

/// The mathematical value of an inverted index: each term to its postings.
pub type IndexMap = Map<Seq<char>, Seq<Seq<char>>>;

/// The document ids of a postings list.
pub open spec fn postings_view(v: Seq<String>) -> Seq<Seq<char>> {
    v.map_values(|s: String| s@)
}

/// The postings of `t` in `m`, empty where `m` has no entry for `t`.
pub open spec fn postings_of(m: IndexMap, t: Seq<char>) -> Seq<Seq<char>> {
    if m.contains_key(t) {
        m[t]
    } else {
        Seq::empty()
    }
}

/// The map that a list of entries stands for.
pub open spec fn entries_view(e: Seq<(String, Vec<String>)>) -> IndexMap
    decreases e.len(),
{
    if e.len() == 0 {
        Map::empty()
    } else {
        entries_view(e.drop_last()).insert(e.last().0@, postings_view(e.last().1@))
    }
}

/// No two entries hold the same term.
pub open spec fn keys_unique(e: Seq<(String, Vec<String>)>) -> bool {
    forall|i: int, j: int| 0 <= i < j < e.len() ==> e[i].0@ != e[j].0@
}

pub(crate) proof fn lemma_entries_view_dom(e: Seq<(String, Vec<String>)>, t: Seq<char>)
    ensures
        entries_view(e).contains_key(t) <==> exists|i: int| 0 <= i < e.len() && e[i].0@ == t,
    decreases e.len(),
{
    if e.len() > 0 {
        let p = e.drop_last();
        lemma_entries_view_dom(p, t);
        if exists|i: int| 0 <= i < p.len() && p[i].0@ == t {
            let i = choose|i: int| 0 <= i < p.len() && p[i].0@ == t;
            assert(e[i] == p[i]);
        }
        if exists|i: int| 0 <= i < e.len() && e[i].0@ == t {
            let i = choose|i: int| 0 <= i < e.len() && e[i].0@ == t;
            if i < e.len() - 1 {
                assert(p[i] == e[i]);
            }
        }
    }
}

proof fn lemma_entries_view_at(e: Seq<(String, Vec<String>)>, i: int)
    requires
        keys_unique(e),
        0 <= i < e.len(),
    ensures
        entries_view(e).contains_key(e[i].0@),
        entries_view(e)[e[i].0@] == postings_view(e[i].1@),
    decreases e.len(),
{
    if i < e.len() - 1 {
        let p = e.drop_last();
        assert(p[i] == e[i]);
        lemma_entries_view_at(p, i);
    }
}

proof fn lemma_entries_view_update(e: Seq<(String, Vec<String>)>, i: int, x: (String, Vec<String>))
    requires
        keys_unique(e),
        0 <= i < e.len(),
        x.0@ == e[i].0@,
    ensures
        keys_unique(e.update(i, x)),
        entries_view(e.update(i, x)) == entries_view(e).insert(x.0@, postings_view(x.1@)),
    decreases e.len(),
{
    let u = e.update(i, x);
    if i == e.len() - 1 {
        assert(u.drop_last() =~= e.drop_last());
        assert(entries_view(u) =~= entries_view(e).insert(x.0@, postings_view(x.1@)));
    } else {
        let p = e.drop_last();
        lemma_entries_view_update(p, i, x);
        assert(u.drop_last() =~= p.update(i, x));
        assert(e.last().0@ != x.0@) by {
            assert(e[e.len() - 1] == e.last());
        }
        assert(entries_view(u) =~= entries_view(e).insert(x.0@, postings_view(x.1@)));
    }
}

proof fn lemma_entries_view_len(e: Seq<(String, Vec<String>)>)
    requires
        keys_unique(e),
    ensures
        entries_view(e).dom().finite(),
        entries_view(e).dom().len() == e.len(),
    decreases e.len(),
{
    if e.len() > 0 {
        let p = e.drop_last();
        assert(keys_unique(p));
        lemma_entries_view_len(p);
        lemma_entries_view_dom(p, e.last().0@);
        if entries_view(p).contains_key(e.last().0@) {
            let i = choose|i: int| 0 <= i < p.len() && p[i].0@ == e.last().0@;
            assert(e[i] == p[i] && e[e.len() - 1] == e.last());
        }
    }
}

fn same_ids(a: &Vec<String>, b: &Vec<String>) -> (r: bool)
    ensures
        r == (postings_view(a@) == postings_view(b@)),
{
    if a.len() != b.len() {
        assert(postings_view(a@).len() != postings_view(b@).len());
        return false;
    }
    let mut i: usize = 0;
    while i < a.len()
        invariant
            a@.len() == b@.len(),
            i <= a@.len(),
            forall|k: int| 0 <= k < i ==> a@[k]@ == b@[k]@,
        decreases a@.len() - i,
    {
        if a[i] != b[i] {
            assert(postings_view(a@)[i as int] != postings_view(b@)[i as int]);
            return false;
        }
        i = i + 1;
    }
    assert(postings_view(a@) =~= postings_view(b@));
    true
}

/// The hash of a term: what `DefaultHasher` gives for its UTF-8 bytes.
pub open spec fn term_hash(t: Seq<char>) -> u64 {
    DefaultHasher::spec_finish(seq![encode_utf8(t)])
}

fn hash_of(term: &String) -> (h: u64)
    ensures
        h == term_hash(term@),
{
    let mut hasher = DefaultHasher::new();
    let bytes = term.as_str().as_bytes();
    assert(bytes@ == encode_utf8(term@));
    hasher.write(bytes);
    assert(hasher@ =~= seq![encode_utf8(term@)]);
    hasher.finish()
}

/// Each entry's position is listed under its term's hash, and every listed
/// position holds an entry with that hash.
spec fn buckets_cover(
    e: Seq<(String, Vec<String>)>,
    b: Map<u64, Vec<usize>>,
) -> bool {
    &&& forall|i: int|
        0 <= i < e.len() ==> #[trigger] b.contains_key(term_hash(e[i].0@)) && exists|q: int|
            0 <= q < b[term_hash(e[i].0@)]@.len() && b[term_hash(e[i].0@)]@[q] as int == i
    &&& forall|k: u64, q: int|
        b.contains_key(k) && 0 <= q < b[k]@.len() ==> (#[trigger] b[k]@[q] as int) < e.len()
            && term_hash(e[b[k]@[q] as int].0@) == k
}

proof fn lemma_cover_same_terms(
    e: Seq<(String, Vec<String>)>,
    f: Seq<(String, Vec<String>)>,
    b: Map<u64, Vec<usize>>,
)
    requires
        buckets_cover(e, b),
        e.len() == f.len(),
        forall|i: int| 0 <= i < e.len() ==> #[trigger] f[i].0@ == e[i].0@,
    ensures
        buckets_cover(f, b),
{
    assert forall|i: int| 0 <= i < f.len() implies #[trigger] b.contains_key(term_hash(f[i].0@))
        && exists|q: int|
        0 <= q < b[term_hash(f[i].0@)]@.len() && b[term_hash(f[i].0@)]@[q] as int == i by {
        assert(f[i].0@ == e[i].0@);
        assert(b.contains_key(term_hash(e[i].0@)));
    }
    assert forall|k: u64, q: int| b.contains_key(k) && 0 <= q < b[k]@.len() implies (
    #[trigger] b[k]@[q] as int) < f.len() && term_hash(f[b[k]@[q] as int].0@) == k by {
        assert(f[b[k]@[q] as int].0@ == e[b[k]@[q] as int].0@);
    }
}

/// A mapping from each term to the ordered list of ids of the documents
/// that hold it.
#[derive(Debug)]
pub struct InvertedIndex {
    entries: Vec<(String, Vec<String>)>,
    /// For each term hash, the positions in `entries` of the terms with it.
    buckets: HashMap<u64, Vec<usize>>,
}

impl View for InvertedIndex {
    type V = IndexMap;

    closed spec fn view(&self) -> IndexMap {
        entries_view(self.entries@)
    }
}

impl InvertedIndex {
    #[verifier::type_invariant]
    spec fn well_formed(&self) -> bool {
        &&& keys_unique(self.entries@)
        &&& buckets_cover(self.entries@, self.buckets@)
    }

    /// An index with no terms.
    pub fn new() -> (r: InvertedIndex)
        ensures
            r@ == IndexMap::empty(),
    {
        InvertedIndex { entries: Vec::new(), buckets: HashMap::new() }
    }

    fn position(&self, term: &String) -> (r: Option<usize>)
        ensures
            match r {
                Some(j) => j < self.entries@.len() && self.entries@[j as int].0@ == term@,
                None => forall|i: int|
                    0 <= i < self.entries@.len() ==> self.entries@[i].0@ != term@,
            },
    {
        broadcast use group_hash_axioms;

        proof {
            use_type_invariant(self);
        }
        let h = hash_of(term);
        match self.buckets.get(&h) {
            None => None,
            Some(bucket) => {
                let mut q: usize = 0;
                while q < bucket.len()
                    invariant
                        buckets_cover(self.entries@, self.buckets@),
                        self.buckets@.contains_key(h),
                        self.buckets@[h] == *bucket,
                        q <= bucket@.len(),
                        forall|k: int|
                            0 <= k < q ==> self.entries@[bucket@[k] as int].0@ != term@,
                    decreases bucket@.len() - q,
                {
                    let j = bucket[q];
                    assert(self.buckets@[h]@[q as int] == j);
                    if self.entries[j].0 == *term {
                        return Some(j);
                    }
                    q = q + 1;
                }
                proof {
                    assert forall|i: int| 0 <= i < self.entries@.len() implies self.entries@[i].0@
                        != term@ by {
                        if self.entries@[i].0@ == term@ {
                            assert(self.buckets@.contains_key(term_hash(self.entries@[i].0@)));
                            let k = choose|k: int| 0 <= k < bucket@.len() && bucket@[k] as int == i;
                            assert(self.entries@[bucket@[k] as int].0@ != term@);
                        }
                    }
                }
                None
            },
        }
    }

    /// Maps `term` to exactly `postings`, replacing what it was mapped to.
    pub fn insert(&mut self, term: String, postings: Vec<String>)
        ensures
            final(self)@ == old(self)@.insert(term@, postings_view(postings@)),
    {
        broadcast use group_hash_axioms;

        proof {
            use_type_invariant(&*self);
        }
        let pos = self.position(&term);
        let mut taken = InvertedIndex::new();
        std::mem::swap(self, &mut taken);
        proof {
            use_type_invariant(&taken);
        }
        let InvertedIndex { mut entries, mut buckets } = taken;
        let ghost e = entries@;
        match pos {
            Some(j) => {
                proof {
                    lemma_entries_view_update(entries@, j as int, (term, postings));
                }
                entries.set(j, (term, postings));
                proof {
                    lemma_cover_same_terms(e, entries@, buckets@);
                }
            },
            None => {
                let h = hash_of(&term);
                let n = entries.len();
                let ghost bb = buckets@;
                let mut bucket = match buckets.remove(&h) {
                    Some(b) => b,
                    None => Vec::new(),
                };
                let ghost old_bucket = bucket@;
                assert(bb.contains_key(h) ==> old_bucket == bb[h]@);
                bucket.push(n);
                let ghost b0 = buckets@;
                buckets.insert(h, bucket);
                entries.push((term, postings));
                assert(entries@.drop_last() =~= e);
                assert(keys_unique(entries@)) by {
                    assert forall|i: int, k: int| 0 <= i < k < entries@.len() implies entries@[i].0@
                        != entries@[k].0@ by {
                        if k < e.len() {
                            assert(entries@[i] == e[i] && entries@[k] == e[k]);
                        } else {
                            assert(entries@[i] == e[i]);
                        }
                    }
                }
                assert(buckets_cover(entries@, buckets@)) by {
                    assert forall|i: int| 0 <= i < entries@.len() implies #[trigger] buckets@.contains_key(
                        term_hash(entries@[i].0@),
                    ) && exists|q: int|
                        0 <= q < buckets@[term_hash(entries@[i].0@)]@.len() && buckets@[term_hash(
                            entries@[i].0@,
                        )]@[q] as int == i by {
                        if i < e.len() {
                            assert(entries@[i] == e[i]);
                            let th = term_hash(e[i].0@);
                            assert(bb.contains_key(th));
                            let k = choose|k: int| 0 <= k < bb[th]@.len() && bb[th]@[k] as int == i;
                            assert(buckets@.contains_key(th));
                            if th == h {
                                assert(old_bucket == bb[h]@);
                                assert(buckets@[h]@[k] == old_bucket[k]);
                            } else {
                                assert(buckets@[th] == bb[th]);
                            }
                        } else {
                            assert(entries@[i] == (term, postings));
                            assert(term_hash(entries@[i].0@) == h);
                            assert(buckets@[h]@ == old_bucket.push(n));
                            assert(buckets@[h]@[old_bucket.len() as int] == n);
                        }
                    }
                    assert forall|k: u64, q: int|
                        buckets@.contains_key(k) && 0 <= q < buckets@[k]@.len() implies (
                    #[trigger] buckets@[k]@[q] as int) < entries@.len() && term_hash(
                        entries@[buckets@[k]@[q] as int].0@,
                    ) == k by {
                        if k == h && q < old_bucket.len() {
                            assert(buckets@[k]@[q] == old_bucket[q]);
                            assert(entries@[old_bucket[q] as int] == e[old_bucket[q] as int]);
                        } else if k != h {
                            assert(buckets@[k] == b0[k]);
                            assert(entries@[b0[k]@[q] as int] == e[b0[k]@[q] as int]);
                        }
                    }
                }
            },
        }
        *self = InvertedIndex { entries, buckets };
    }

    /// Adds `postings` after the postings that `term` already has.
    pub fn append(&mut self, term: String, postings: Vec<String>)
        ensures
            final(self)@ == old(self)@.insert(
                term@,
                postings_of(old(self)@, term@) + postings_view(postings@),
            ),
    {
        proof {
            use_type_invariant(&*self);
        }
        match self.position(&term) {
            Some(j) => {
                let mut taken = InvertedIndex::new();
                std::mem::swap(self, &mut taken);
                proof {
                    use_type_invariant(&taken);
                }
                let InvertedIndex { mut entries, buckets } = taken;
                let ghost e = entries@;
                proof {
                    lemma_entries_view_at(entries@, j as int);
                }
                let mut slot: (String, Vec<String>) = (String::new(), Vec::new());
                entries.set_and_swap(j, &mut slot);
                let (key, mut ids) = slot;
                let ghost first = ids@;
                let mut more = postings;
                ids.append(&mut more);
                assert(postings_view(ids@) =~= postings_view(first) + postings_view(postings@));
                let ghost e0 = e.update(j as int, (key, ids));
                proof {
                    lemma_entries_view_update(e, j as int, (key, ids));
                }
                entries.set(j, (key, ids));
                assert(entries@ =~= e0);
                proof {
                    lemma_cover_same_terms(e, entries@, buckets@);
                }
                *self = InvertedIndex { entries, buckets };
            },
            None => {
                proof {
                    lemma_entries_view_dom(self.entries@, term@);
                    assert(postings_view(postings@) =~= Seq::empty() + postings_view(postings@));
                }
                self.insert(term, postings);
            },
        }
    }

    /// The entries of the index, one per term, in no particular order.
    pub fn into_entries(self) -> (r: Vec<(String, Vec<String>)>)
        ensures
            keys_unique(r@),
            entries_view(r@) == self@,
    {
        proof {
            use_type_invariant(&self);
        }
        let InvertedIndex { entries, .. } = self;
        entries
    }

    /// The postings of `term`, if the index holds it.
    pub fn get(&self, term: &String) -> (r: Option<&Vec<String>>)
        ensures
            match r {
                Some(ids) => self@.contains_key(term@) && postings_view(ids@) == self@[term@],
                None => !self@.contains_key(term@),
            },
    {
        proof {
            use_type_invariant(&*self);
            lemma_entries_view_dom(self.entries@, term@);
        }
        match self.position(term) {
            Some(j) => {
                proof {
                    lemma_entries_view_at(self.entries@, j as int);
                }
                Some(&self.entries[j].1)
            },
            None => None,
        }
    }

    /// The number of distinct terms.
    pub fn len(&self) -> (r: usize)
        ensures
            r == self@.dom().len(),
            self@.dom().finite(),
    {
        proof {
            use_type_invariant(&*self);
            lemma_entries_view_len(self.entries@);
        }
        self.entries.len()
    }
}

impl PartialEq for InvertedIndex {
    fn eq(&self, other: &InvertedIndex) -> (r: bool) {
        proof {
            use_type_invariant(self);
            use_type_invariant(other);
            lemma_entries_view_len(self.entries@);
            lemma_entries_view_len(other.entries@);
        }
        if self.entries.len() != other.entries.len() {
            return false;
        }
        let mut i: usize = 0;
        while i < self.entries.len()
            invariant
                keys_unique(self.entries@),
                keys_unique(other.entries@),
                i <= self.entries@.len(),
                forall|k: int|
                    0 <= k < i ==> other@.contains_key(#[trigger] self.entries@[k].0@) && other@[self.entries@[k].0@]
                        == postings_view(self.entries@[k].1@),
            decreases self.entries@.len() - i,
        {
            let term = &self.entries[i].0;
            proof {
                lemma_entries_view_at(self.entries@, i as int);
            }
            match other.get(term) {
                Some(ids) => {
                    if !same_ids(&self.entries[i].1, ids) {
                        return false;
                    }
                },
                None => {
                    return false;
                },
            }
            i = i + 1;
        }
        proof {
            assert forall|t: Seq<char>| #[trigger] self@.contains_key(t) implies other@.contains_key(t)
                && other@[t] == self@[t] by {
                lemma_entries_view_dom(self.entries@, t);
                let k = choose|k: int| 0 <= k < self.entries@.len() && self.entries@[k].0@ == t;
                lemma_entries_view_at(self.entries@, k);
            }
            vstd::set_lib::lemma_subset_equality(self@.dom(), other@.dom());
            assert(self@ =~= other@);
        }
        true
    }
}

impl vstd::std_specs::cmp::PartialEqSpecImpl for InvertedIndex {
    open spec fn obeys_eq_spec() -> bool {
        true
    }

    open spec fn eq_spec(&self, other: &InvertedIndex) -> bool {
        self@ == other@
    }
}

} // verus!
