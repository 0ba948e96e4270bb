//! Byte-level tokenization into 64-bit hashes, and the inverted index over
//! those hashes that the compression pipeline queries.
use std::collections::HashMap;
use vstd::prelude::*;

use crate::sorted::{insert_sorted_u32, lemma_push_contains, strictly_increasing_u32};
use crate::tokens::{
    byte_tokens, fnv_hash, hashed_tokens, is_token_byte, lemma_fnv_extend, lemma_tokens_skip_run,
    lemma_tokens_skip_separator, FNV_OFFSET, FNV_PRIME,
};

verus! {

broadcast use vstd::std_specs::hash::group_hash_axioms;

/// `true` for the bytes that make up tokens.
pub fn is_token_char(b: u8) -> (r: bool)
    ensures
        r == is_token_byte(b),
{
    (b >= 48 && b <= 57) || (b >= 65 && b <= 90) || (b >= 97 && b <= 122) || b == 95
}

/// The FNV-1a hash of the ASCII lowercase of `bytes`.
pub fn hash_token(bytes: &[u8]) -> (h: u64)
    ensures
        h == fnv_hash(bytes@),
{
    let mut h: u64 = FNV_OFFSET;
    proof {
        assert(bytes@.subrange(0, 0) =~= Seq::<u8>::empty());
    }
    for i in 0..bytes.len()
        invariant
            h == fnv_hash(bytes@.subrange(0, i as int)),
    {
        let raw = bytes[i];
        let b = if raw >= 65 && raw <= 90 {
            raw + 32
        } else {
            raw
        };
        h = h ^ (b as u64);
        h = h.wrapping_mul(FNV_PRIME);
        proof {
            lemma_fnv_extend(bytes@, 0, i as int);
        }
    }
    proof {
        assert(bytes@.subrange(0, bytes@.len() as int) =~= bytes@);
    }
    h
}

/// The hashes of the tokens of `text`, in order.
pub fn tokenize_hashed(text: &[u8]) -> (hashes: Vec<u64>)
    ensures
        hashes@ == hashed_tokens(text@),
{
    let n = text.len();
    let mut hashes: Vec<u64> = Vec::new();
    let ghost mut done: Seq<Seq<u8>> = Seq::empty();
    let mut i: usize = 0;
    proof {
        assert(text@.skip(0) =~= text@);
    }
    while i < n
        invariant
            n == text@.len(),
            i <= n,
            byte_tokens(text@) == done + byte_tokens(text@.skip(i as int)),
            hashes@ == done.map_values(|t: Seq<u8>| fnv_hash(t)),
        decreases n - i,
    {
        if !is_token_char(text[i]) {
            proof {
                lemma_tokens_skip_separator(text@, i as int);
            }
            i += 1;
        } else {
            let mut j = i;
            let mut h: u64 = FNV_OFFSET;
            proof {
                assert(text@.subrange(i as int, i as int) =~= Seq::<u8>::empty());
            }
            while j < n && is_token_char(text[j])
                invariant
                    n == text@.len(),
                    i <= j <= n,
                    forall|k: int| i <= k < j ==> is_token_byte(#[trigger] text@[k]),
                    h == fnv_hash(text@.subrange(i as int, j as int)),
                decreases n - j,
            {
                let raw = text[j];
                let b = if raw >= 65 && raw <= 90 {
                    raw + 32
                } else {
                    raw
                };
                h = h ^ (b as u64);
                h = h.wrapping_mul(FNV_PRIME);
                proof {
                    lemma_fnv_extend(text@, i as int, j as int);
                }
                j += 1;
            }
            proof {
                lemma_tokens_skip_run(text@, i as int, j as int);
            }
            if j - i >= 2 {
                hashes.push(h);
                proof {
                    let tok = text@.subrange(i as int, j as int);
                    assert(done.push(tok).map_values(|t: Seq<u8>| fnv_hash(t)) =~= done.map_values(
                        |t: Seq<u8>| fnv_hash(t),
                    ).push(h));
                    assert(done + seq![tok] =~= done.push(tok));
                    done = done.push(tok);
                }
            } else {
                proof {
                    assert(done + Seq::<Seq<u8>>::empty() =~= done);
                }
            }
            proof {
                assert(byte_tokens(text@) =~= done + byte_tokens(text@.skip(j as int)));
            }
            i = j;
        }
    }
    proof {
        assert(text@.skip(n as int) =~= Seq::<u8>::empty());
        assert(done + Seq::<Seq<u8>>::empty() =~= done);
    }
    hashes
}

/// The documents a term occurs in, or none when the term is not indexed.
pub open spec fn posting_list(m: Map<u64, Seq<u32>>, h: u64) -> Seq<u32> {
    if m.contains_key(h) {
        m[h]
    } else {
        Seq::empty()
    }
}

/// The postings after adding document `doc_id` for each distinct term in `terms`.
pub open spec fn postings_after_add(m: Map<u64, Seq<u32>>, doc_id: u32, terms: Seq<u64>) -> Map<
    u64,
    Seq<u32>,
> {
    Map::new(
        |h: u64| m.contains_key(h) || terms.contains(h),
        |h: u64|
            if terms.contains(h) {
                posting_list(m, h).push(doc_id)
            } else {
                m[h]
            },
    )
}

/// An inverted index from token hashes to the documents that hold them.
pub struct FastIndex {
    postings: HashMap<u64, Vec<u32>>,
    doc_freq: HashMap<u64, u32>,
    total_docs: u32,
}

impl FastIndex {
    /// For each indexed term, the documents it occurs in, in the order they were added.
    pub closed spec fn postings_view(&self) -> Map<u64, Seq<u32>> {
        Map::new(|h: u64| self.postings@.contains_key(h), |h: u64| self.postings@[h]@)
    }

    /// The number of documents the index was created for.
    pub closed spec fn total_docs_view(&self) -> u32 {
        self.total_docs
    }

    /// The document frequency of each term is the length of its posting list.
    pub closed spec fn wf(&self) -> bool {
        &&& self.doc_freq@.dom() =~= self.postings@.dom()
        &&& forall|h: u64| #[trigger]
            self.postings@.contains_key(h) ==> self.doc_freq@[h] as int == self.postings@[h]@.len()
    }

    /// An empty index for a corpus of `total_docs` documents.
    pub fn new(total_docs: u32) -> (idx: Self)
        ensures
            idx.wf(),
            idx.postings_view() == Map::<u64, Seq<u32>>::empty(),
            idx.total_docs_view() == total_docs,
    {
        let idx = FastIndex { postings: HashMap::new(), doc_freq: HashMap::new(), total_docs };
        proof {
            assert(idx.postings_view() =~= Map::<u64, Seq<u32>>::empty());
        }
        idx
    }

    /// Records that document `doc_id` holds each distinct hash of `token_hashes`.
    pub fn add_doc(&mut self, doc_id: u32, token_hashes: &[u64])
        requires
            old(self).wf(),
            forall|i: int|
                0 <= i < token_hashes.len() ==> posting_list(
                    old(self).postings_view(),
                    #[trigger] token_hashes[i],
                ).len() < u32::MAX,
        ensures
            final(self).wf(),
            final(self).postings_view() == postings_after_add(
                old(self).postings_view(),
                doc_id,
                token_hashes@,
            ),
            final(self).total_docs_view() == old(self).total_docs_view(),
            is_added(*old(self), *final(self), doc_id, token_hashes@),
    {
        let ghost start = self.postings_view();
        proof {
            assert(postings_after_add(start, doc_id, token_hashes@.take(0)) =~= start);
        }
        for k in 0..token_hashes.len()
            invariant
                self.wf(),
                self.total_docs_view() == old(self).total_docs_view(),
                start == old(self).postings_view(),
                self.postings_view() == postings_after_add(start, doc_id, token_hashes@.take(k as int)),
                forall|i: int|
                    0 <= i < token_hashes.len() ==> posting_list(
                        start,
                        #[trigger] token_hashes[i],
                    ).len() < u32::MAX,
        {
            let h = token_hashes[k];
            let mut seen = false;
            for j in 0..k
                invariant
                    k < token_hashes.len(),
                    h == token_hashes[k as int],
                    seen == token_hashes@.take(j as int).contains(h),
            {
                proof {
                    assert(token_hashes@.take(j + 1) =~= token_hashes@.take(j as int).push(
                        token_hashes@[j as int],
                    ));
                }
                if token_hashes[j] == h {
                    seen = true;
                }
                proof {
                    lemma_push_contains(token_hashes@.take(j as int), token_hashes@[j as int]);
                }
            }
            proof {
                assert(token_hashes@.take(k as int).take(k as int) =~= token_hashes@.take(k as int));
                assert(token_hashes@.take(k + 1) =~= token_hashes@.take(k as int).push(h));
            }
            if !seen {
                let ghost before = self.postings_view();
                let ghost raw_before = self.postings@;
                let mut list = match self.postings.remove(&h) {
                    Some(v) => v,
                    None => Vec::new(),
                };
                proof {
                    assert(list@ == posting_list(before, h));
                    assert(!token_hashes@.take(k as int).contains(h));
                    assert(posting_list(before, h) == posting_list(start, h));
                }
                list.push(doc_id);
                let ghost new_list = list@;
                let count = match self.doc_freq.get(&h) {
                    Some(c) => *c,
                    None => 0,
                };
                proof {
                    assert(count as int == posting_list(start, h).len());
                }
                self.postings.insert(h, list);
                self.doc_freq.insert(h, count + 1);
                proof {
                    assert(self.postings@ == raw_before.remove(h).insert(h, self.postings@[h]));
                    assert(self.postings@[h]@ == new_list);
                    let target = postings_after_add(start, doc_id, token_hashes@.take(k + 1));
                    let prev = postings_after_add(start, doc_id, token_hashes@.take(k as int));
                    assert(token_hashes@.take(k + 1).contains(h)) by {
                        assert(token_hashes@.take(k + 1)[k as int] == h);
                    }
                    assert(prev == before);
                    assert forall|g: u64| #[trigger] self.postings_view().contains_key(g) <==> target.contains_key(g) by {
                        lemma_push_contains(token_hashes@.take(k as int), h);
                        assert(self.postings@.contains_key(g) <==> (raw_before.contains_key(g) || g == h));
                        assert(before.contains_key(g) <==> raw_before.contains_key(g));
                        assert(prev.contains_key(g) <==> (start.contains_key(g) || token_hashes@.take(k as int).contains(g)));
                        assert(target.contains_key(g) <==> (start.contains_key(g) || token_hashes@.take(k + 1).contains(g)));
                    }
                    assert forall|g: u64| #[trigger] self.postings_view().contains_key(g) implies self.postings_view()[g] == target[g] by {
                        lemma_push_contains(token_hashes@.take(k as int), h);
                        if g != h {
                            assert(self.postings@[g] == raw_before[g]);
                            assert(before[g] == prev[g]);
                        }
                    }
                    assert(self.postings_view() =~= target);
                }
            } else {
                proof {
                    assert(postings_after_add(start, doc_id, token_hashes@.take(k + 1))
                        =~= postings_after_add(start, doc_id, token_hashes@.take(k as int)));
                }
            }
        }
        proof {
            assert(token_hashes@.take(token_hashes@.len() as int) =~= token_hashes@);
        }
    }

    /// The number of documents whose hashes include `term_hash`.
    pub fn doc_freq(&self, term_hash: u64) -> (df: u32)
        requires
            self.wf(),
        ensures
            df as int == posting_list(self.postings_view(), term_hash).len(),
    {
        match self.doc_freq.get(&term_hash) {
            Some(c) => *c,
            None => 0,
        }
    }

    /// The number of documents the index was created for.
    pub fn total_docs(&self) -> (n: u32)
        ensures
            n == self.total_docs_view(),
    {
        self.total_docs
    }

    /// Every document that holds at least one of the query hashes, each once,
    /// in increasing order.
    pub fn candidate_lines(&self, query_hashes: &[u64]) -> (candidates: Vec<u32>)
        ensures
            strictly_increasing_u32(candidates@),
            forall|d: u32|
                candidates@.contains(d) <==> exists|i: int|
                    0 <= i < query_hashes.len() && #[trigger] posting_list(
                        self.postings_view(),
                        query_hashes[i],
                    ).contains(d),
    {
        let mut out: Vec<u32> = Vec::new();
        for i in 0..query_hashes.len()
            invariant
                strictly_increasing_u32(out@),
                forall|d: u32|
                    out@.contains(d) <==> exists|k: int|
                        0 <= k < i && #[trigger] posting_list(
                            self.postings_view(),
                            query_hashes[k],
                        ).contains(d),
        {
            let q = query_hashes[i];
            match self.postings.get(&q) {
                Some(list) => {
                    proof {
                        assert(list@ == posting_list(self.postings_view(), q));
                    }
                    let ghost out_before = out@;
                    let mut j: usize = 0;
                    while j < list.len()
                        invariant
                            j <= list@.len(),
                            strictly_increasing_u32(out@),
                            forall|d: u32|
                                #![trigger out@.contains(d)]
                                out@.contains(d) <==> (out_before.contains(d) || list@.take(
                                    j as int,
                                ).contains(d)),
                        decreases list@.len() - j,
                    {
                        let ghost out_prev = out@;
                        insert_sorted_u32(&mut out, list[j]);
                        proof {
                            lemma_push_contains(list@.take(j as int), list@[j as int]);
                            assert(list@.take(j + 1) =~= list@.take(j as int).push(list@[j as int]));
                            assert forall|d: u32|
                                #![trigger out@.contains(d)]
                                out@.contains(d) <==> (out_before.contains(d) || list@.take(
                                    j + 1,
                                ).contains(d)) by {
                                assert(out@.contains(d) <==> (out_prev.contains(d) || d == list@[j as int]));
                                assert(out_prev.contains(d) <==> (out_before.contains(d) || list@.take(j as int).contains(d)));
                            }
                        }
                        j += 1;
                    }
                    proof {
                        assert(list@.take(list@.len() as int) =~= list@);
                        assert forall|d: u32|
                            out@.contains(d) <==> exists|k: int|
                                0 <= k < i + 1 && #[trigger] posting_list(
                                    self.postings_view(),
                                    query_hashes[k],
                                ).contains(d) by {
                            if list@.contains(d) {
                                assert(posting_list(self.postings_view(), query_hashes[i as int]).contains(d));
                            }
                            if exists|k: int|
                                0 <= k < i + 1 && #[trigger] posting_list(
                                    self.postings_view(),
                                    query_hashes[k],
                                ).contains(d) {
                                let k = choose|k: int|
                                    0 <= k < i + 1 && #[trigger] posting_list(
                                        self.postings_view(),
                                        query_hashes[k],
                                    ).contains(d);
                                if k < i {
                                    assert(out_before.contains(d));
                                }
                            }
                        }
                    }
                },
                None => {
                    proof {
                        assert(posting_list(self.postings_view(), q) =~= Seq::<u32>::empty());
                        assert forall|d: u32|
                            out@.contains(d) <==> exists|k: int|
                                0 <= k < i + 1 && #[trigger] posting_list(
                                    self.postings_view(),
                                    query_hashes[k],
                                ).contains(d) by {
                            if exists|k: int|
                                0 <= k < i + 1 && #[trigger] posting_list(
                                    self.postings_view(),
                                    query_hashes[k],
                                ).contains(d) {
                                let k = choose|k: int|
                                    0 <= k < i + 1 && #[trigger] posting_list(
                                        self.postings_view(),
                                        query_hashes[k],
                                    ).contains(d);
                                if k == i {
                                    assert(!Seq::<u32>::empty().contains(d));
                                }
                            }
                        }
                    }
                },
            }
        }
        out
    }
}


/// A document that was added is found by every query that shares one of its
/// hashes: after `add_doc(doc_id, terms)`, the posting list of any hash of
/// `terms` holds `doc_id`, and the posting lists of the other hashes are
/// unchanged.
pub proof fn lemma_added_document_found(m: Map<u64, Seq<u32>>, doc_id: u32, terms: Seq<u64>, h: u64)
    ensures
        terms.contains(h) ==> posting_list(postings_after_add(m, doc_id, terms), h).contains(doc_id),
        !terms.contains(h) ==> posting_list(postings_after_add(m, doc_id, terms), h) == posting_list(m, h),
{
    if terms.contains(h) {
        let p = posting_list(m, h).push(doc_id);
        assert(p[p.len() - 1] == doc_id);
    }
}


/// `after` is `before` with document `doc_id` added for the hashes
/// `terms`, as `add_doc` leaves it: well formed, the postings extended, the
/// document count kept.
pub open spec fn is_added(before: FastIndex, after: FastIndex, doc_id: u32, terms: Seq<u64>) -> bool {
    &&& after.wf()
    &&& after.postings_view() == postings_after_add(before.postings_view(), doc_id, terms)
    &&& after.total_docs_view() == before.total_docs_view()
}

/// The postings after adding each document of `docs`, with its hashes, in turn.
pub open spec fn postings_after_adds(m: Map<u64, Seq<u32>>, docs: Seq<(u32, Seq<u64>)>) -> Map<u64, Seq<u32>>
    decreases docs.len(),
{
    if docs.len() == 0 {
        m
    } else {
        postings_after_add(postings_after_adds(m, docs.drop_last()), docs.last().0, docs.last().1)
    }
}

/// Step `i` of a run of `add_doc` calls: `states[i + 1]` is `states[i]`
/// with document `docs[i]` added.
pub open spec fn added_at(states: Seq<FastIndex>, docs: Seq<(u32, Seq<u64>)>, i: int) -> bool {
    is_added(states[i], states[i + 1], docs[i].0, docs[i].1)
}

/// An index made by `new(n)` and then given documents one `add_doc` call
/// at a time: at every step it still counts `n` documents, and its
/// postings are those of the documents added so far, in order.
pub proof fn lemma_index_after_adds(states: Seq<FastIndex>, n: u32, docs: Seq<(u32, Seq<u64>)>)
    requires
        states.len() == docs.len() + 1,
        states[0].total_docs_view() == n,
        states[0].postings_view() == Map::<u64, Seq<u32>>::empty(),
        forall|i: int| 0 <= i < docs.len() ==> #[trigger] added_at(states, docs, i),
    ensures
        forall|i: int|
            0 <= i < states.len() ==> (#[trigger] states[i]).total_docs_view() == n
                && states[i].postings_view() == postings_after_adds(Map::<u64, Seq<u32>>::empty(), docs.take(i)),
    decreases docs.len(),
{
    if docs.len() == 0 {
        assert(docs.take(0) =~= docs);
    } else {
        let k = docs.len() - 1;
        let s0 = states.drop_last();
        let d0 = docs.drop_last();
        assert forall|i: int| 0 <= i < d0.len() implies #[trigger] added_at(s0, d0, i) by {
            assert(added_at(states, docs, i));
        }
        lemma_index_after_adds(s0, n, d0);
        assert forall|i: int| 0 <= i < states.len() implies (#[trigger] states[i]).total_docs_view() == n
            && states[i].postings_view() == postings_after_adds(Map::<u64, Seq<u32>>::empty(), docs.take(i)) by {
            if i < states.len() - 1 {
                assert(states[i] == s0[i]);
                assert(docs.take(i) =~= d0.take(i));
            } else {
                assert(states[k] == s0[k]);
                assert(added_at(states, docs, k));
                assert(d0.take(k) =~= d0);
                assert(docs.take(i) =~= docs);
            }
        }
    }
}

} // verus!
