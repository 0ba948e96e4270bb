//! An inverted index from token strings to the documents that hold them.
use vstd::prelude::*;

use crate::sorted::{insert_sorted_usize, lemma_push_contains, strictly_increasing_usize};

verus! {

/// The documents a term occurs in, or none when the term is not indexed.
pub open spec fn term_postings(m: Map<Seq<char>, Seq<usize>>, t: Seq<char>) -> Seq<usize> {
    if m.contains_key(t) {
        m[t]
    } else {
        Seq::empty()
    }
}

/// The postings after adding document `doc_id` for each distinct term in `terms`.
pub open spec fn term_postings_after_add(
    m: Map<Seq<char>, Seq<usize>>,
    doc_id: usize,
    terms: Seq<Seq<char>>,
) -> Map<Seq<char>, Seq<usize>> {
    Map::new(
        |t: Seq<char>| m.contains_key(t) || terms.contains(t),
        |t: Seq<char>|
            if terms.contains(t) {
                term_postings(m, t).push(doc_id)
            } else {
                m[t]
            },
    )
}

/// The string views of a slice of strings.
pub open spec fn string_views(s: Seq<String>) -> Seq<Seq<char>> {
    s.map_values(|x: String| x@)
}

/// One term and the documents it occurs in.
pub struct IndexEntry {
    pub term: String,
    pub docs: Vec<usize>,
}

/// An inverted index from token strings to the documents that hold them.
pub struct InvertedIndex {
    entries: Vec<IndexEntry>,
    total_docs: usize,
}

/// No two entries hold the same term.
pub open spec fn distinct_terms(es: Seq<IndexEntry>) -> bool {
    forall|i: int, j: int| 0 <= i < j < es.len() ==> #[trigger] es[i].term@ != #[trigger] es[j].term@
}

/// The map from each term of the entries to its documents.
pub open spec fn entries_map(es: Seq<IndexEntry>) -> Map<Seq<char>, Seq<usize>> {
    Map::new(
        |t: Seq<char>| exists|i: int| 0 <= i < es.len() && #[trigger] es[i].term@ == t,
        |t: Seq<char>| es[choose|i: int| 0 <= i < es.len() && #[trigger] es[i].term@ == t].docs@,
    )
}

proof fn lemma_entry_view(es: Seq<IndexEntry>, i: int)
    requires
        distinct_terms(es),
        0 <= i < es.len(),
    ensures
        entries_map(es).contains_key(es[i].term@),
        entries_map(es)[es[i].term@] == es[i].docs@,
{
    let t = es[i].term@;
    assert(entries_map(es).contains_key(t));
    let k = choose|k: int| 0 <= k < es.len() && #[trigger] es[k].term@ == t;
    if k != i {
        if k < i {
            assert(es[k].term@ != es[i].term@);
        } else {
            assert(es[i].term@ != es[k].term@);
        }
    }
}

impl InvertedIndex {
    /// No two entries hold the same term.
    pub closed spec fn wf(&self) -> bool {
        distinct_terms(self.entries@)
    }

    /// For each indexed term, the documents it occurs in, in the order they were added.
    pub closed spec fn postings_view(&self) -> Map<Seq<char>, Seq<usize>> {
        entries_map(self.entries@)
    }

    /// The number of documents the index was created for.
    pub closed spec fn total_docs_view(&self) -> usize {
        self.total_docs
    }

    /// The position of the entry for `term`, if there is one.
    fn find(&self, term: &String) -> (pos: Option<usize>)
        requires
            self.wf(),
        ensures
            match pos {
                Some(i) => i < self.entries.len() && self.entries@[i as int].term@ == term@,
                None => !entries_map(self.entries@).contains_key(term@),
            },
    {
        let mut i: usize = 0;
        while i < self.entries.len()
            invariant
                i <= self.entries.len(),
                forall|k: int| 0 <= k < i ==> #[trigger] self.entries@[k].term@ != term@,
            decreases self.entries.len() - i,
        {
            if self.entries[i].term == *term {
                return Some(i);
            }
            i += 1;
        }
        None
    }

    /// An empty index for a corpus of `total_docs` documents.
    pub fn new(total_docs: usize) -> (idx: Self)
        ensures
            idx.wf(),
            idx.postings_view() == Map::<Seq<char>, Seq<usize>>::empty(),
            idx.total_docs_view() == total_docs,
    {
        let idx = InvertedIndex { entries: Vec::new(), total_docs };
        proof {
            assert(idx.postings_view() =~= Map::<Seq<char>, Seq<usize>>::empty());
        }
        idx
    }

    /// Records that document `doc_id` holds each distinct token of `tokens`.
    pub fn add_doc(&mut self, doc_id: usize, tokens: &[String])
        requires
            old(self).wf(),
        ensures
            final(self).wf(),
            final(self).postings_view() == term_postings_after_add(
                old(self).postings_view(),
                doc_id,
                string_views(tokens@),
            ),
            final(self).total_docs_view() == old(self).total_docs_view(),
            is_added(*old(self), *final(self), doc_id, string_views(tokens@)),
    {
        let ghost start = self.postings_view();
        let ghost terms = string_views(tokens@);
        proof {
            assert(term_postings_after_add(start, doc_id, terms.take(0)) =~= start);
        }
        for k in 0..tokens.len()
            invariant
                terms == string_views(tokens@),
                self.wf(),
                self.total_docs_view() == old(self).total_docs_view(),
                start == old(self).postings_view(),
                self.postings_view() == term_postings_after_add(start, doc_id, terms.take(k as int)),
        {
            let token = &tokens[k];
            let mut seen = false;
            let mut j: usize = 0;
            while j < k
                invariant
                    j <= k,
                    k < tokens.len(),
                    terms == string_views(tokens@),
                    *token == tokens@[k as int],
                    seen == terms.take(j as int).contains(token@),
                decreases k - j,
            {
                proof {
                    assert(terms.take(j + 1) =~= terms.take(j as int).push(terms[j as int]));
                    lemma_push_contains(terms.take(j as int), terms[j as int]);
                }
                if tokens[j] == *token {
                    seen = true;
                }
                j += 1;
            }
            proof {
                assert(terms.take(k as int).take(k as int) =~= terms.take(k as int));
                assert(terms.take(k + 1) =~= terms.take(k as int).push(token@));
                lemma_push_contains(terms.take(k as int), token@);
            }
            if !seen {
                let ghost before = self.postings_view();
                let ghost entries_before = self.entries@;
                match self.find(token) {
                    Some(i) => {
                        proof {
                            lemma_entry_view(entries_before, i as int);
                        }
                        let mut entry = self.entries.remove(i);
                        entry.docs.push(doc_id);
                        self.entries.insert(i, entry);
                        proof {
                            let es = self.entries@;
                            assert(es =~= entries_before.update(i as int, es[i as int]));
                            assert forall|a: int, b: int|
                                0 <= a < b < es.len() implies #[trigger] es[a].term@
                                    != #[trigger] es[b].term@ by {
                                assert(entries_before[a].term@ != entries_before[b].term@);
                            }
                            let target = term_postings_after_add(start, doc_id, terms.take(k + 1));
                            assert forall|t: Seq<char>| #[trigger] entries_map(es).contains_key(t) <==> target.contains_key(t) by {
                                if entries_map(es).contains_key(t) {
                                    let m = choose|m: int| 0 <= m < es.len() && #[trigger] es[m].term@ == t;
                                    assert(entries_before[m].term@ == t);
                                }
                                if before.contains_key(t) {
                                    let m = choose|m: int| 0 <= m < entries_before.len() && #[trigger] entries_before[m].term@ == t;
                                    assert(es[m].term@ == t);
                                }
                            }
                            assert forall|t: Seq<char>| #[trigger] entries_map(es).contains_key(t) implies entries_map(es)[t] == target[t] by {
                                let m = choose|m: int| 0 <= m < es.len() && #[trigger] es[m].term@ == t;
                                lemma_entry_view(es, m);
                                if m != i {
                                    assert(entries_before[m] == es[m]);
                                    lemma_entry_view(entries_before, m);
                                }
                            }
                            assert(entries_map(es) =~= target);
                        }
                    },
                    None => {
                        self.entries.push(IndexEntry { term: token.clone(), docs: vec![doc_id] });
                        proof {
                            let es = self.entries@;
                            let n = entries_before.len() as int;
                            assert(es =~= entries_before.push(es[n]));
                            assert forall|a: int, b: int|
                                0 <= a < b < es.len() implies #[trigger] es[a].term@
                                    != #[trigger] es[b].term@ by {
                                if b < n {
                                    assert(entries_before[a].term@ != entries_before[b].term@);
                                } else {
                                    assert(entries_before[a].term@ == es[a].term@);
                                    if es[a].term@ == token@ {
                                        assert(before.contains_key(token@));
                                    }
                                }
                            }
                            let target = term_postings_after_add(start, doc_id, terms.take(k + 1));
                            assert(es[n].docs@ =~= seq![doc_id]);
                            assert forall|t: Seq<char>| #[trigger] entries_map(es).contains_key(t) <==> target.contains_key(t) by {
                                if entries_map(es).contains_key(t) {
                                    let m = choose|m: int| 0 <= m < es.len() && #[trigger] es[m].term@ == t;
                                    if m < n {
                                        assert(entries_before[m].term@ == t);
                                    }
                                }
                                if before.contains_key(t) {
                                    let m = choose|m: int| 0 <= m < entries_before.len() && #[trigger] entries_before[m].term@ == t;
                                    assert(es[m].term@ == t);
                                }
                                if t == token@ {
                                    assert(es[n].term@ == t);
                                }
                            }
                            assert forall|t: Seq<char>| #[trigger] entries_map(es).contains_key(t) implies entries_map(es)[t] == target[t] by {
                                let m = choose|m: int| 0 <= m < es.len() && #[trigger] es[m].term@ == t;
                                lemma_entry_view(es, m);
                                if m < n {
                                    assert(entries_before[m] == es[m]);
                                    lemma_entry_view(entries_before, m);
                                } else {
                                    assert(!before.contains_key(token@));
                                }
                            }
                            assert(entries_map(es) =~= target);
                        }
                    },
                }
            } else {
                proof {
                    assert(term_postings_after_add(start, doc_id, terms.take(k + 1))
                        =~= term_postings_after_add(start, doc_id, terms.take(k as int)));
                }
            }
        }
        proof {
            assert(terms.take(terms.len() as int) =~= terms);
        }
    }

    /// The documents that hold `term`, in the order they were added; empty
    /// when the term is not indexed.
    pub fn postings_for(&self, term: &str) -> (docs: &[usize])
        requires
            self.wf(),
        ensures
            docs@ == term_postings(self.postings_view(), term@),
    {
        let key = term.to_owned();
        match self.find(&key) {
            Some(i) => {
                proof {
                    lemma_entry_view(self.entries@, i as int);
                }
                self.entries[i].docs.as_slice()
            },
            None => {
                let empty: &[usize] = &[];
                proof {
                    assert(empty@ =~= Seq::<usize>::empty());
                }
                empty
            },
        }
    }

    /// The number of documents that hold `term`.
    pub fn doc_freq(&self, term: &str) -> (df: usize)
        requires
            self.wf(),
        ensures
            df == term_postings(self.postings_view(), term@).len(),
    {
        self.postings_for(term).len()
    }

    /// The number of documents the index was created for.
    pub fn total_docs(&self) -> (n: usize)
        ensures
            n == self.total_docs_view(),
    {
        self.total_docs
    }

    /// Every document that holds at least one of the query tokens, each once,
    /// in increasing order.
    pub fn candidate_lines(&self, query_tokens: &[String]) -> (candidates: Vec<usize>)
        requires
            self.wf(),
        ensures
            strictly_increasing_usize(candidates@),
            forall|d: usize|
                candidates@.contains(d) <==> exists|i: int|
                    0 <= i < query_tokens.len() && #[trigger] term_postings(
                        self.postings_view(),
                        query_tokens@[i]@,
                    ).contains(d),
    {
        let mut out: Vec<usize> = Vec::new();
        for i in 0..query_tokens.len()
            invariant
                self.wf(),
                strictly_increasing_usize(out@),
                forall|d: usize|
                    #![trigger out@.contains(d)]
                    out@.contains(d) <==> exists|k: int|
                        0 <= k < i && #[trigger] term_postings(
                            self.postings_view(),
                            query_tokens@[k]@,
                        ).contains(d),
        {
            let list = self.postings_for(query_tokens[i].as_str());
            let ghost out_before = out@;
            let mut j: usize = 0;
            while j < list.len()
                invariant
                    j <= list@.len(),
                    strictly_increasing_usize(out@),
                    forall|d: usize|
                        #![trigger out@.contains(d)]
                        out@.contains(d) <==> (out_before.contains(d) || list@.take(j as int).contains(
                            d,
                        )),
                decreases list@.len() - j,
            {
                let ghost out_prev = out@;
                insert_sorted_usize(&mut out, list[j]);
                proof {
                    lemma_push_contains(list@.take(j as int), list@[j as int]);
                    assert(list@.take(j + 1) =~= list@.take(j as int).push(list@[j as int]));
                    assert forall|d: usize|
                        #![trigger out@.contains(d)]
                        out@.contains(d) <==> (out_before.contains(d) || list@.take(j + 1).contains(
                            d,
                        )) by {
                        assert(out@.contains(d) <==> (out_prev.contains(d) || d == list@[j as int]));
                        assert(out_prev.contains(d) <==> (out_before.contains(d) || list@.take(
                            j as int,
                        ).contains(d)));
                    }
                }
                j += 1;
            }
            proof {
                assert(list@.take(list@.len() as int) =~= list@);
                assert forall|d: usize|
                    #![trigger out@.contains(d)]
                    out@.contains(d) <==> exists|k: int|
                        0 <= k < i + 1 && #[trigger] term_postings(
                            self.postings_view(),
                            query_tokens@[k]@,
                        ).contains(d) by {
                    if exists|k: int|
                        0 <= k < i + 1 && #[trigger] term_postings(
                            self.postings_view(),
                            query_tokens@[k]@,
                        ).contains(d) {
                        let k = choose|k: int|
                            0 <= k < i + 1 && #[trigger] term_postings(
                                self.postings_view(),
                                query_tokens@[k]@,
                            ).contains(d);
                        if k < i {
                            assert(out_before.contains(d));
                        }
                    }
                }
            }
        }
        out
    }
}


/// A document that was added is found by every query that shares one of its
/// tokens: after `add_doc(doc_id, tokens)`, the posting list of any of the
/// tokens holds `doc_id`, and the posting lists of the other terms are
/// unchanged.
pub proof fn lemma_added_document_found(m: Map<Seq<char>, Seq<usize>>, doc_id: usize, terms: Seq<Seq<char>>, t: Seq<char>)
    ensures
        terms.contains(t) ==> term_postings(term_postings_after_add(m, doc_id, terms), t).contains(doc_id),
        !terms.contains(t) ==> term_postings(term_postings_after_add(m, doc_id, terms), t) == term_postings(m, t),
{
    if terms.contains(t) {
        let p = term_postings(m, t).push(doc_id);
        assert(p[p.len() - 1] == doc_id);
    }
}


/// `after` is `before` with document `doc_id` added for the terms `terms`,
/// as `add_doc` leaves it: well formed, the postings extended, the
/// document count kept.
pub open spec fn is_added(before: InvertedIndex, after: InvertedIndex, doc_id: usize, terms: Seq<Seq<char>>) -> bool {
    &&& after.wf()
    &&& after.postings_view() == term_postings_after_add(before.postings_view(), doc_id, terms)
    &&& after.total_docs_view() == before.total_docs_view()
}

/// The postings after adding each document of `docs`, with its terms, in turn.
pub open spec fn postings_after_adds(m: Map<Seq<char>, Seq<usize>>, docs: Seq<(usize, Seq<Seq<char>>)>) -> Map<
    Seq<char>,
    Seq<usize>,
>
    decreases docs.len(),
{
    if docs.len() == 0 {
        m
    } else {
        term_postings_after_add(postings_after_adds(m, docs.drop_last()), docs.last().0, docs.last().1)
    }
}

/// Step `i` of a run of `add_doc` calls: `states[i + 1]` is `states[i]`
/// with document `docs[i]` added.
pub open spec fn added_at(states: Seq<InvertedIndex>, docs: Seq<(usize, Seq<Seq<char>>)>, i: int) -> bool {
    is_added(states[i], states[i + 1], docs[i].0, docs[i].1)
}

/// An index made by `new(n)` and then given documents one `add_doc` call
/// at a time: at every step it still counts `n` documents, and its
/// postings are those of the documents added so far, in order.
pub proof fn lemma_index_after_adds(states: Seq<InvertedIndex>, n: usize, docs: Seq<(usize, Seq<Seq<char>>)>)
    requires
        states.len() == docs.len() + 1,
        states[0].total_docs_view() == n,
        states[0].postings_view() == Map::<Seq<char>, Seq<usize>>::empty(),
        forall|i: int| 0 <= i < docs.len() ==> #[trigger] added_at(states, docs, i),
    ensures
        forall|i: int|
            0 <= i < states.len() ==> (#[trigger] states[i]).total_docs_view() == n
                && states[i].postings_view() == postings_after_adds(
                Map::<Seq<char>, Seq<usize>>::empty(),
                docs.take(i),
            ),
    decreases docs.len(),
{
    if docs.len() == 0 {
        assert(docs.take(0) =~= docs);
    } else {
        let k = docs.len() - 1;
        let s0 = states.drop_last();
        let d0 = docs.drop_last();
        assert forall|i: int| 0 <= i < d0.len() implies #[trigger] added_at(s0, d0, i) by {
            assert(added_at(states, docs, i));
        }
        lemma_index_after_adds(s0, n, d0);
        assert forall|i: int| 0 <= i < states.len() implies (#[trigger] states[i]).total_docs_view() == n
            && states[i].postings_view() == postings_after_adds(
            Map::<Seq<char>, Seq<usize>>::empty(),
            docs.take(i),
        ) by {
            if i < states.len() - 1 {
                assert(states[i] == s0[i]);
                assert(docs.take(i) =~= d0.take(i));
            } else {
                assert(states[k] == s0[k]);
                assert(added_at(states, docs, k));
                assert(d0.take(k) =~= d0);
                assert(docs.take(i) =~= docs);
            }
        }
    }
}

} // verus!
