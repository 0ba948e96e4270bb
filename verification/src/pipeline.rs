//! The selection steps of compression that involve no score arithmetic:
//! choosing the input format, counting query terms, indexing the lines,
//! deciding which boosted fields match, adding error lines, following
//! trace identifiers, and laying out the output lines with their context.
use vstd::prelude::*;
use vstd::string::StringSliceAdditionalSpecFns;
use vstd::utf8::encode_utf8;

use crate::config::InputFormat;
use crate::context::{
    context_window, covers, expand_context, is_window, lemma_merge_ranges_covers_same_lines,
    lemma_ranges_lines_cover, lemma_ranges_lines_increasing, lemma_sort_keeps_end_bound,
    merge_ranges, merged, ranges_lines, ranges_to_line_set, sort_by_start, views,
};
use crate::fast_index::{postings_after_add, posting_list, FastIndex};
use crate::index::string_views;
use crate::json::{entries_view, json_object_members, parse_json_object, JsonEntry, JsonScalar};
use crate::parser::{
    find_member, member_value, detect_format, fast_is_error_line, is_error_marked, looks_like_json, pairs_view, token_strings,
    tokenize, JsonFields,
};
use crate::sorted::lemma_push_contains;
use crate::text::{contains_chars, has_substring, str_chars, trim};

verus! {

/// Whether the input is read as JSON lines: as configured, or, for `Auto`,
/// when the first line looks like a JSON object.
pub open spec fn reads_as_json(format: InputFormat, lines: Seq<Seq<char>>) -> bool {
    match format {
        InputFormat::Auto => lines.len() > 0 && looks_like_json(trim(lines[0])),
        InputFormat::JsonLines => true,
        InputFormat::PlainText => false,
    }
}

/// The characters of each line.
pub open spec fn line_views(lines: Seq<&str>) -> Seq<Seq<char>> {
    lines.map_values(|l: &str| l@)
}

/// Whether the input is read as JSON lines.
pub fn is_json_input(format: InputFormat, lines: &[&str]) -> (json: bool)
    ensures
        json == reads_as_json(format, line_views(lines@)),
{
    match format {
        InputFormat::Auto => {
            if lines.len() > 0 {
                match detect_format(lines[0]) {
                    InputFormat::JsonLines => true,
                    _ => false,
                }
            } else {
                false
            }
        },
        InputFormat::JsonLines => true,
        InputFormat::PlainText => false,
    }
}

/// How many times `h` occurs in `s`.
pub open spec fn occurrences(s: Seq<u64>, h: u64) -> nat
    decreases s.len(),
{
    if s.len() == 0 {
        0
    } else {
        occurrences(s.drop_last(), h) + if s.last() == h {
            1nat
        } else {
            0nat
        }
    }
}

/// Each distinct query hash with the number of times it occurs, in
/// increasing order of hash.
pub fn query_term_counts(query_hashes: &[u64]) -> (terms: Vec<(u64, usize)>)
    ensures
        forall|i: int, j: int| 0 <= i < j < terms.len() ==> #[trigger] terms@[i].0 < #[trigger] terms@[j].0,
        forall|h: u64| #![trigger query_hashes@.contains(h)]
            query_hashes@.contains(h) <==> exists|i: int| 0 <= i < terms.len() && #[trigger] terms@[i].0 == h,
        forall|i: int| 0 <= i < terms.len() ==> #[trigger] terms@[i].1 == occurrences(query_hashes@, terms@[i].0),
{
    let mut terms: Vec<(u64, usize)> = Vec::new();
    let mut k: usize = 0;
    while k < query_hashes.len()
        invariant
            k <= query_hashes.len(),
            forall|i: int, j: int| 0 <= i < j < terms.len() ==> #[trigger] terms@[i].0 < #[trigger] terms@[j].0,
            forall|h: u64| #![trigger query_hashes@.take(k as int).contains(h)]
                query_hashes@.take(k as int).contains(h) <==> exists|i: int| 0 <= i < terms.len() && #[trigger] terms@[i].0 == h,
            forall|i: int| 0 <= i < terms.len() ==> #[trigger] terms@[i].1 == occurrences(query_hashes@.take(k as int), terms@[i].0),
            forall|i: int| 0 <= i < terms.len() ==> #[trigger] terms@[i].1 <= k,
        decreases query_hashes.len() - k,
    {
        let h = query_hashes[k];
        let ghost pre = query_hashes@.take(k as int);
        let ghost post = query_hashes@.take(k + 1);
        proof {
            assert(post.drop_last() =~= pre);
            assert(post =~= pre.push(h));
            lemma_push_contains(pre, h);
        }
        let mut p: usize = 0;
        while p < terms.len() && terms[p].0 < h
            invariant
                p <= terms.len(),
                forall|i: int| 0 <= i < p ==> #[trigger] terms@[i].0 < h,
            decreases terms.len() - p,
        {
            p += 1;
        }
        let ghost before = terms@;
        if p < terms.len() && terms[p].0 == h {
            let c = terms[p].1;
            terms.set(p, (h, c + 1));
            proof {
                assert forall|i: int| 0 <= i < terms.len() implies #[trigger] terms@[i].1 == occurrences(post, terms@[i].0) by {
                    assert(occurrences(post, terms@[i].0) == occurrences(pre, terms@[i].0) + if h == terms@[i].0 { 1nat } else { 0nat });
                    if i != p {
                        assert(before[i].0 != h) by {
                            if i < p {
                            } else {
                                assert(before[p as int].0 < before[i].0);
                            }
                        }
                    }
                }
                assert(terms@ == before.update(p as int, (h, (c + 1) as usize)));
                assert(before[p as int].0 == h);
                assert forall|g: u64| #![trigger post.contains(g)]
                    post.contains(g) <==> exists|i: int| 0 <= i < terms.len() && #[trigger] terms@[i].0 == g by {
                    assert(post.contains(g) <==> (pre.contains(g) || g == h));
                    if pre.contains(g) {
                        let i = choose|i: int| 0 <= i < before.len() && #[trigger] before[i].0 == g;
                        assert(terms@[i].0 == g);
                    }
                    if g == h {
                        assert(terms@[p as int].0 == g);
                    }
                    if exists|i: int| 0 <= i < terms.len() && #[trigger] terms@[i].0 == g {
                        let i = choose|i: int| 0 <= i < terms.len() && #[trigger] terms@[i].0 == g;
                        assert(before[i].0 == g);
                    }
                }
            }
        } else {
            terms.insert(p, (h, 1));
            proof {
                assert(!pre.contains(h)) by {
                    if pre.contains(h) {
                        let i = choose|i: int| 0 <= i < before.len() && #[trigger] before[i].0 == h;
                        if i < p {
                        } else if i == p {
                        } else {
                            assert(before[p as int].0 < before[i].0);
                        }
                    }
                }
                assert(occurrences(pre, h) == 0) by {
                    lemma_occurrences_absent(pre, h);
                }
                assert forall|i: int| 0 <= i < terms.len() implies #[trigger] terms@[i].1 == occurrences(post, terms@[i].0) by {
                    assert(occurrences(post, terms@[i].0) == occurrences(pre, terms@[i].0) + if h == terms@[i].0 { 1nat } else { 0nat });
                    if i < p {
                        assert(terms@[i] == before[i]);
                    } else if i > p {
                        assert(terms@[i] == before[i - 1]);
                        assert(before[p as int].0 > h);
                    }
                }
                assert forall|i: int, j: int| 0 <= i < j < terms.len() implies #[trigger] terms@[i].0 < #[trigger] terms@[j].0 by {
                    if j == p {
                        assert(terms@[i] == before[i]);
                    } else if i == p {
                        assert(terms@[j] == before[j - 1]);
                        assert(before[p as int].0 > h);
                        assert(before[p as int].0 <= before[j - 1].0);
                    } else if i < p && j > p {
                        assert(terms@[i] == before[i]);
                        assert(terms@[j] == before[j - 1]);
                    } else if j < p {
                        assert(terms@[i] == before[i]);
                        assert(terms@[j] == before[j]);
                    } else {
                        assert(terms@[i] == before[i - 1]);
                        assert(terms@[j] == before[j - 1]);
                    }
                }
                assert forall|g: u64| #![trigger post.contains(g)]
                    post.contains(g) <==> exists|i: int| 0 <= i < terms.len() && #[trigger] terms@[i].0 == g by {
                    assert(post.contains(g) <==> (pre.contains(g) || g == h));
                    if pre.contains(g) {
                        let i = choose|i: int| 0 <= i < before.len() && #[trigger] before[i].0 == g;
                        if i < p {
                            assert(terms@[i].0 == g);
                        } else {
                            assert(terms@[i + 1].0 == g);
                        }
                    }
                    if g == h {
                        assert(terms@[p as int].0 == g);
                    }
                    if exists|i: int| 0 <= i < terms.len() && #[trigger] terms@[i].0 == g {
                        let i = choose|i: int| 0 <= i < terms.len() && #[trigger] terms@[i].0 == g;
                        if i < p {
                            assert(before[i].0 == g);
                        } else if i > p {
                            assert(before[i - 1].0 == g);
                        }
                    }
                }
            }
        }
        k += 1;
    }
    proof {
        assert(query_hashes@.take(query_hashes@.len() as int) =~= query_hashes@);
    }
    terms
}

proof fn lemma_occurrences_absent(s: Seq<u64>, h: u64)
    requires
        !s.contains(h),
    ensures
        occurrences(s, h) == 0,
    decreases s.len(),
{
    if s.len() > 0 {
        assert(!s.drop_last().contains(h)) by {
            if s.drop_last().contains(h) {
                let i = choose|i: int| 0 <= i < s.drop_last().len() && s.drop_last()[i] == h;
                assert(s[i] == h);
            }
        }
        assert(s[s.len() - 1] != h);
        lemma_occurrences_absent(s.drop_last(), h);
    }
}


/// The postings after adding each line's hashes as the document numbered by
/// its position.
pub open spec fn indexed_postings(lh: Seq<Seq<u64>>) -> Map<u64, Seq<u32>>
    decreases lh.len(),
{
    if lh.len() == 0 {
        Map::empty()
    } else {
        postings_after_add(indexed_postings(lh.drop_last()), (lh.len() - 1) as u32, lh.last())
    }
}

/// The token hashes of each line, by their views.
pub open spec fn hash_views(lh: Seq<Vec<u64>>) -> Seq<Seq<u64>> {
    lh.map_values(|v: Vec<u64>| v@)
}

/// An index of the lines, each line the document numbered by its position.
pub fn index_lines(line_hashes: &[Vec<u64>]) -> (idx: FastIndex)
    requires
        line_hashes.len() <= u32::MAX,
    ensures
        idx.wf(),
        idx.postings_view() == indexed_postings(hash_views(line_hashes@)),
        idx.total_docs_view() == line_hashes.len() as u32,
{
    let total = line_hashes.len() as u32;
    let mut idx = FastIndex::new(total);
    let ghost lh = hash_views(line_hashes@);
    proof {
        assert(lh.take(0) =~= Seq::<Seq<u64>>::empty());
    }
    let mut i: usize = 0;
    while i < line_hashes.len()
        invariant
            i <= line_hashes.len(),
            line_hashes.len() <= u32::MAX,
            lh == hash_views(line_hashes@),
            idx.wf(),
            idx.total_docs_view() == total,
            total == line_hashes.len() as u32,
            idx.postings_view() == indexed_postings(lh.take(i as int)),
            forall|h: u64| #[trigger] posting_list(idx.postings_view(), h).len() <= i,
        decreases line_hashes.len() - i,
    {
        let ghost before = idx.postings_view();
        idx.add_doc(i as u32, line_hashes[i].as_slice());
        proof {
            assert(lh.take(i + 1).drop_last() =~= lh.take(i as int));
            assert(lh.take(i + 1).last() == line_hashes@[i as int]@);
            assert forall|h: u64| #[trigger] posting_list(idx.postings_view(), h).len() <= i + 1 by {
                assert(posting_list(before, h).len() <= i);
            }
        }
        i += 1;
    }
    proof {
        assert(lh.take(line_hashes.len() as int) =~= lh);
    }
    idx
}

/// The tokens of a field value.
pub open spec fn value_tokens(v: Seq<char>) -> Seq<Seq<char>> {
    token_strings(encode_utf8(v))
}

/// One of the tokens is among the query tokens.
pub open spec fn shares_token(tokens: Seq<Seq<char>>, query: Seq<Seq<char>>) -> bool {
    exists|i: int| 0 <= i < tokens.len() && query.contains(#[trigger] tokens[i])
}

/// The fields, in order, whose value shares a token with the query.
pub open spec fn matching_fields(pairs: Seq<(Seq<char>, Seq<char>)>, query: Seq<Seq<char>>) -> Seq<Seq<char>>
    decreases pairs.len(),
{
    if pairs.len() == 0 {
        Seq::empty()
    } else {
        matching_fields(pairs.drop_last(), query) + if shares_token(value_tokens(pairs.last().1), query) {
            seq![pairs.last().0]
        } else {
            Seq::empty()
        }
    }
}

/// Whether `token` is one of `query`.
fn is_query_token(token: &String, query: &[String]) -> (r: bool)
    ensures
        r == string_views(query@).contains(token@),
{
    let ghost qv = string_views(query@);
    let mut i: usize = 0;
    while i < query.len()
        invariant
            i <= query.len(),
            qv == string_views(query@),
            !qv.take(i as int).contains(token@),
        decreases query.len() - i,
    {
        proof {
            assert(qv.take(i + 1) =~= qv.take(i as int).push(qv[i as int]));
            lemma_push_contains(qv.take(i as int), qv[i as int]);
        }
        if query[i] == *token {
            proof {
                assert(qv[i as int] == token@);
            }
            return true;
        }
        i += 1;
    }
    proof {
        assert(qv.take(qv.len() as int) =~= qv);
    }
    false
}

/// The boosted fields, in order, whose value shares a token with the query.
pub fn matching_boost_fields(fields: &JsonFields, query_tokens: &[String]) -> (names: Vec<String>)
    ensures
        string_views(names@) == matching_fields(
            pairs_view(fields.field_values@),
            string_views(query_tokens@),
        ),
{
    let ghost pv = pairs_view(fields.field_values@);
    let ghost qv = string_views(query_tokens@);
    let mut names: Vec<String> = Vec::new();
    let mut j: usize = 0;
    proof {
        assert(pv.take(0) =~= Seq::<(Seq<char>, Seq<char>)>::empty());
    }
    while j < fields.field_values.len()
        invariant
            j <= fields.field_values.len(),
            pv == pairs_view(fields.field_values@),
            qv == string_views(query_tokens@),
            string_views(names@) == matching_fields(pv.take(j as int), qv),
        decreases fields.field_values.len() - j,
    {
        let pair = &fields.field_values[j];
        let toks = tokenize(pair.1.as_str());
        proof {
            assert(pv.take(j + 1).drop_last() =~= pv.take(j as int));
            assert(pv.take(j + 1).last() == (pair.0@, pair.1@));
            assert(string_views(toks@) == value_tokens(pair.1@));
        }
        let mut shared = false;
        let mut t: usize = 0;
        while t < toks.len()
            invariant
                t <= toks.len(),
                qv == string_views(query_tokens@),
                shared == exists|i: int| 0 <= i < t && qv.contains(#[trigger] string_views(toks@)[i]),
            decreases toks.len() - t,
        {
            if is_query_token(&toks[t], query_tokens) {
                shared = true;
            }
            proof {
                assert(string_views(toks@)[t as int] == toks@[t as int]@);
            }
            t += 1;
        }
        let ghost prev = string_views(names@);
        if shared {
            names.push(pair.0.clone());
            proof {
                assert(string_views(names@) =~= prev + seq![pair.0@]);
            }
        } else {
            proof {
                assert(prev + Seq::<Seq<char>>::empty() =~= prev);
            }
        }
        j += 1;
    }
    proof {
        assert(pv.take(pv.len() as int) =~= pv);
    }
    names
}

/// The error lines not in `already`, in increasing order.
pub open spec fn error_lines_missing(lines: Seq<Seq<char>>, already: Seq<usize>) -> Seq<usize>
    decreases lines.len(),
{
    if lines.len() == 0 {
        Seq::empty()
    } else {
        let i = (lines.len() - 1) as usize;
        error_lines_missing(lines.drop_last(), already) + if is_error_marked(lines.last())
            && !already.contains(i) {
            seq![i]
        } else {
            Seq::empty()
        }
    }
}

/// Whether `x` is one of `v`.
pub fn contains_index(v: &[usize], x: usize) -> (r: bool)
    ensures
        r == v@.contains(x),
{
    let mut i: usize = 0;
    while i < v.len()
        invariant
            i <= v.len(),
            forall|k: int| 0 <= k < i ==> v@[k] != x,
        decreases v.len() - i,
    {
        if v[i] == x {
            return true;
        }
        i += 1;
    }
    false
}

/// The positions of the error lines that are not already among `already`,
/// in increasing order.
pub fn error_lines_to_add(lines: &[&str], already: &[usize]) -> (added: Vec<usize>)
    ensures
        added@ == error_lines_missing(line_views(lines@), already@),
{
    let ghost lv = line_views(lines@);
    let mut added: Vec<usize> = Vec::new();
    let mut i: usize = 0;
    proof {
        assert(lv.take(0) =~= Seq::<Seq<char>>::empty());
    }
    while i < lines.len()
        invariant
            i <= lines.len(),
            lv == line_views(lines@),
            added@ == error_lines_missing(lv.take(i as int), already@),
        decreases lines.len() - i,
    {
        proof {
            assert(lv.take(i + 1).drop_last() =~= lv.take(i as int));
            assert(lv.take(i + 1).last() == lines@[i as int]@);
        }
        let ghost prev = added@;
        if fast_is_error_line(lines[i]) && !contains_index(already, i) {
            added.push(i);
        } else {
            proof {
                assert(prev + Seq::<usize>::empty() =~= prev);
            }
        }
        i += 1;
    }
    proof {
        assert(lv.take(lines.len() as int) =~= lv);
    }
    added
}


/// The needle `"field":` that marks a line as having the field.
pub open spec fn field_needle(f: Seq<char>) -> Seq<char> {
    seq!['"'] + f + seq!['"', ':']
}

/// The position of the first field whose needle occurs in the line.
pub open spec fn first_needle(line: Seq<char>, fields: Seq<Seq<char>>) -> Option<int>
    decreases fields.len(),
{
    if fields.len() == 0 {
        None
    } else if has_substring(line, field_needle(fields[0])) {
        Some(0)
    } else {
        match first_needle(line, fields.drop_first()) {
            Some(k) => Some(k + 1),
            None => None,
        }
    }
}

proof fn lemma_first_needle(line: Seq<char>, fields: Seq<Seq<char>>, k: int)
    requires
        0 <= k <= fields.len(),
        forall|j: int| 0 <= j < k ==> !has_substring(line, field_needle(#[trigger] fields[j])),
        k < fields.len() ==> has_substring(line, field_needle(fields[k])),
    ensures
        first_needle(line, fields) == if k < fields.len() {
            Some(k)
        } else {
            None::<int>
        },
    decreases k,
{
    if k > 0 {
        let d = fields.drop_first();
        assert forall|j: int| 0 <= j < k - 1 implies !has_substring(line, field_needle(#[trigger] d[j])) by {
            assert(d[j] == fields[j + 1]);
        }
        if k < fields.len() {
            assert(d[k - 1] == fields[k]);
        }
        lemma_first_needle(line, d, k - 1);
        assert(!has_substring(line, field_needle(fields[0])));
    }
}

/// The text of a member when it is a JSON string.
pub open spec fn string_member(members: Option<Seq<(Seq<char>, bool, Seq<char>)>>, key: Seq<char>) -> Option<
    Seq<char>,
> {
    match members {
        Some(m) => match member_value(m, key) {
            Some(v) => if v.0 {
                Some(v.1)
            } else {
                None
            },
            None => None,
        },
        None => None,
    }
}

/// `v` is the string value of one of the trace fields in one of the objects.
pub open spec fn is_trace_id(objects: Seq<Seq<(Seq<char>, bool, Seq<char>)>>, fields: Seq<Seq<char>>, v: Seq<char>) -> bool {
    exists|s: int, f: int|
        0 <= s < objects.len() && 0 <= f < fields.len() && #[trigger] string_member(Some(objects[s]), fields[f]) == Some(v)
}

/// The string value of the first trace field in `members`, if there is one.
pub fn string_value(members: &[JsonEntry], key: &[char]) -> (v: Option<String>)
    ensures
        opt_view(v) == string_member(Some(entries_view(members@)), key@),
{
    match find_member(members, key) {
        Some(i) => match &members[i].value {
            JsonScalar::Text(t) => Some(t.clone()),
            JsonScalar::Other(_) => None,
        },
        None => None,
    }
}

/// An optional string by its characters.
pub open spec fn opt_view(o: Option<String>) -> Option<Seq<char>> {
    match o {
        Some(s) => Some(s@),
        None => None,
    }
}

/// The characters of each trace field.
fn field_chars(fields: &[String]) -> (cs: Vec<Vec<char>>)
    ensures
        cs@.map_values(|c: Vec<char>| c@) == string_views(fields@),
{
    let mut cs: Vec<Vec<char>> = Vec::new();
    let mut i: usize = 0;
    while i < fields.len()
        invariant
            i <= fields.len(),
            cs@.map_values(|c: Vec<char>| c@) == string_views(fields@).take(i as int),
        decreases fields.len() - i,
    {
        let c = str_chars(fields[i].as_str());
        let ghost prev = cs@;
        cs.push(c);
        proof {
            assert(cs@ == prev.push(c));
            assert(c@ == fields@[i as int]@);
            assert(string_views(fields@).take(i + 1) =~= string_views(fields@).take(i as int).push(fields@[i as int]@));
            assert(cs@.map_values(|c: Vec<char>| c@) =~= string_views(fields@).take(i + 1));
        }
        i += 1;
    }
    proof {
        assert(string_views(fields@).take(fields.len() as int) =~= string_views(fields@));
    }
    cs
}

/// The trace identifiers of the given objects: the string values of the
/// trace fields, in the order met.
pub fn collect_trace_ids(objects: &[Vec<JsonEntry>], trace_fields: &[String]) -> (ids: Vec<String>)
    ensures
        forall|v: Seq<char>|
            #![trigger string_views(ids@).contains(v)]
            string_views(ids@).contains(v) <==> is_trace_id(
                objects@.map_values(|o: Vec<JsonEntry>| entries_view(o@)),
                string_views(trace_fields@),
                v,
            ),
{
    let ghost ov = objects@.map_values(|o: Vec<JsonEntry>| entries_view(o@));
    let ghost fv = string_views(trace_fields@);
    let fcs = field_chars(trace_fields);
    let mut ids: Vec<String> = Vec::new();
    let mut s: usize = 0;
    while s < objects.len()
        invariant
            s <= objects.len(),
            ov == objects@.map_values(|o: Vec<JsonEntry>| entries_view(o@)),
            fv == string_views(trace_fields@),
            fcs@.map_values(|c: Vec<char>| c@) == fv,
            forall|v: Seq<char>|
                #![trigger string_views(ids@).contains(v)]
                string_views(ids@).contains(v) <==> exists|a: int, f: int|
                    0 <= a < s && 0 <= f < fv.len() && #[trigger] string_member(Some(ov[a]), fv[f]) == Some(v),
        decreases objects.len() - s,
    {
        let mut f: usize = 0;
        while f < fcs.len()
            invariant
                s < objects.len(),
                f <= fcs.len(),
                ov == objects@.map_values(|o: Vec<JsonEntry>| entries_view(o@)),
                fcs@.map_values(|c: Vec<char>| c@) == fv,
                forall|v: Seq<char>|
                    #![trigger string_views(ids@).contains(v)]
                    string_views(ids@).contains(v) <==> exists|a: int, g: int|
                        0 <= a < objects.len() && 0 <= g < fv.len() && (a < s || (a == s && g < f))
                            && #[trigger] string_member(Some(ov[a]), fv[g]) == Some(v),
            decreases fcs.len() - f,
        {
            let found = string_value(objects[s].as_slice(), fcs[f].as_slice());
            proof {
                assert(ov[s as int] == entries_view(objects@[s as int]@));
                assert(fcs@[f as int]@ == fv[f as int]);
            }
            let ghost prev = string_views(ids@);
            match found {
                Some(t) => {
                    ids.push(t);
                    proof {
                        assert(string_views(ids@) =~= prev.push(t@));
                        lemma_push_contains(prev, t@);
                    }
                },
                None => {},
            }
            proof {
                assert forall|v: Seq<char>|
                    #![trigger string_views(ids@).contains(v)]
                    string_views(ids@).contains(v) <==> exists|a: int, g: int|
                        0 <= a < objects.len() && 0 <= g < fv.len() && (a < s || (a == s && g < f + 1))
                            && #[trigger] string_member(Some(ov[a]), fv[g]) == Some(v) by {
                    if string_member(Some(ov[s as int]), fv[f as int]) == Some(v) {
                        assert(0 <= s < objects.len() && 0 <= f < fv.len());
                    }
                    if exists|a: int, g: int|
                        0 <= a < objects.len() && 0 <= g < fv.len() && (a < s || (a == s && g < f + 1))
                            && #[trigger] string_member(Some(ov[a]), fv[g]) == Some(v) {
                        let (a, g) = choose|a: int, g: int|
                            0 <= a < objects.len() && 0 <= g < fv.len() && (a < s || (a == s && g < f + 1))
                                && #[trigger] string_member(Some(ov[a]), fv[g]) == Some(v);
                        if a == s && g == f {
                        } else {
                            assert(prev.contains(v));
                        }
                    }
                }
            }
            f += 1;
        }
        s += 1;
    }
    ids
}


/// The objects that the seed lines hold, for the seeds that are JSON objects.
pub open spec fn seed_objects(lines: Seq<Seq<char>>, seeds: Seq<usize>) -> Seq<Seq<(Seq<char>, bool, Seq<char>)>>
    decreases seeds.len(),
{
    if seeds.len() == 0 {
        Seq::empty()
    } else {
        seed_objects(lines, seeds.drop_last()) + match json_object_members(lines[seeds.last() as int]) {
            Some(m) => seq![m],
            None => Seq::empty(),
        }
    }
}

/// The trace identifier that pulls a line in: the string value of the first
/// trace field whose needle the line holds, when it is one of the seeds'
/// trace identifiers.
pub open spec fn trace_match(line: Seq<char>, fields: Seq<Seq<char>>, objects: Seq<Seq<(Seq<char>, bool, Seq<char>)>>) -> Option<Seq<char>> {
    match first_needle(line, fields) {
        Some(k) => match string_member(json_object_members(line), fields[k]) {
            Some(v) => if is_trace_id(objects, fields, v) {
                Some(v)
            } else {
                None
            },
            None => None,
        },
        None => None,
    }
}

/// The lines among the first `n` that are not scored and that a trace
/// identifier pulls in, in increasing order, each with that identifier.
pub open spec fn trace_matches(
    lines: Seq<Seq<char>>,
    scored: Seq<usize>,
    fields: Seq<Seq<char>>,
    objects: Seq<Seq<(Seq<char>, bool, Seq<char>)>>,
    n: int,
) -> Seq<(usize, Seq<char>)>
    decreases n,
{
    if n <= 0 {
        Seq::empty()
    } else {
        trace_matches(lines, scored, fields, objects, n - 1) + if !scored.contains((n - 1) as usize)
            && trace_match(lines[n - 1], fields, objects) is Some {
            seq![((n - 1) as usize, trace_match(lines[n - 1], fields, objects).unwrap())]
        } else {
            Seq::empty()
        }
    }
}

/// Pairs of a line position and a string, by their views.
pub open spec fn matches_view(v: Seq<(usize, String)>) -> Seq<(usize, Seq<char>)> {
    v.map_values(|p: (usize, String)| (p.0, p.1@))
}

/// The first trace field whose needle `"field":` occurs in the line.
fn first_field_needle(line: &[char], fields: &Vec<Vec<char>>) -> (k: Option<usize>)
    ensures
        match k {
            Some(j) => first_needle(line@, fields@.map_values(|c: Vec<char>| c@)) == Some(j as int)
                && j < fields.len(),
            None => first_needle(line@, fields@.map_values(|c: Vec<char>| c@)) is None,
        },
{
    let ghost fv = fields@.map_values(|c: Vec<char>| c@);
    let mut j: usize = 0;
    while j < fields.len()
        invariant
            j <= fields.len(),
            fv == fields@.map_values(|c: Vec<char>| c@),
            forall|i: int| 0 <= i < j ==> !has_substring(line@, field_needle(#[trigger] fv[i])),
        decreases fields.len() - j,
    {
        let mut needle: Vec<char> = vec!['"'];
        let mut c: usize = 0;
        while c < fields[j].len()
            invariant
                c <= fields@[j as int].len(),
                j < fields.len(),
                needle@ == seq!['"'] + fields@[j as int]@.take(c as int),
            decreases fields@[j as int].len() - c,
        {
            needle.push(fields[j][c]);
            proof {
                assert(fields@[j as int]@.take(c + 1) =~= fields@[j as int]@.take(c as int).push(fields@[j as int]@[c as int]));
            }
            c += 1;
        }
        needle.push('"');
        needle.push(':');
        proof {
            assert(fields@[j as int]@.take(c as int) =~= fv[j as int]);
            assert(needle@ =~= field_needle(fv[j as int]));
        }
        if contains_chars(line, needle.as_slice()) {
            proof {
                lemma_first_needle(line@, fv, j as int);
            }
            return Some(j);
        }
        j += 1;
    }
    proof {
        lemma_first_needle(line@, fv, j as int);
    }
    None
}

/// Whether `v` is one of `ids`.
fn contains_string(ids: &[String], v: &String) -> (r: bool)
    ensures
        r == string_views(ids@).contains(v@),
{
    let ghost iv = string_views(ids@);
    let mut i: usize = 0;
    while i < ids.len()
        invariant
            i <= ids.len(),
            iv == string_views(ids@),
            !iv.take(i as int).contains(v@),
        decreases ids.len() - i,
    {
        proof {
            assert(iv.take(i + 1) =~= iv.take(i as int).push(iv[i as int]));
            lemma_push_contains(iv.take(i as int), iv[i as int]);
        }
        if ids[i] == *v {
            proof {
                assert(iv[i as int] == v@);
            }
            return true;
        }
        i += 1;
    }
    proof {
        assert(iv.take(iv.len() as int) =~= iv);
    }
    false
}

/// Follows trace identifiers: collects the trace-field string values of the
/// seed lines, then returns, in increasing order, every line not in
/// `scored_lines` whose first trace field present as `"field":` holds one of
/// those identifiers, with that identifier.
pub fn trace_expansion(
    lines: &[&str],
    seed_lines: &[usize],
    scored_lines: &[usize],
    trace_fields: &[String],
) -> (found: Vec<(usize, String)>)
    requires
        forall|s: int| 0 <= s < seed_lines.len() ==> #[trigger] seed_lines@[s] < lines.len(),
    ensures
        matches_view(found@) == trace_matches(
            line_views(lines@),
            scored_lines@,
            string_views(trace_fields@),
            seed_objects(line_views(lines@), seed_lines@),
            lines.len() as int,
        ),
{
    let ghost lv = line_views(lines@);
    let ghost fv = string_views(trace_fields@);
    let mut objects: Vec<Vec<JsonEntry>> = Vec::new();
    let mut s: usize = 0;
    while s < seed_lines.len()
        invariant
            s <= seed_lines.len(),
            lv == line_views(lines@),
            forall|t: int| 0 <= t < seed_lines.len() ==> #[trigger] seed_lines@[t] < lines.len(),
            objects@.map_values(|o: Vec<JsonEntry>| entries_view(o@)) == seed_objects(lv, seed_lines@.take(s as int)),
        decreases seed_lines.len() - s,
    {
        let ghost prev = objects@.map_values(|o: Vec<JsonEntry>| entries_view(o@));
        proof {
            assert(seed_lines@.take(s + 1).drop_last() =~= seed_lines@.take(s as int));
            assert(seed_lines@.take(s + 1).last() == seed_lines@[s as int]);
            assert(lv[seed_lines@[s as int] as int] == lines@[seed_lines@[s as int] as int]@);
        }
        match parse_json_object(lines[seed_lines[s]]) {
            Some(m) => {
                let ghost mv = entries_view(m@);
                objects.push(m);
                proof {
                    assert(objects@.map_values(|o: Vec<JsonEntry>| entries_view(o@)) =~= prev + seq![mv]);
                }
            },
            None => {
                proof {
                    assert(prev + Seq::<Seq<(Seq<char>, bool, Seq<char>)>>::empty() =~= prev);
                }
            },
        }
        s += 1;
    }
    proof {
        assert(seed_lines@.take(seed_lines.len() as int) =~= seed_lines@);
    }
    let ghost objs = seed_objects(lv, seed_lines@);
    let ids = collect_trace_ids(objects.as_slice(), trace_fields);
    let fcs = field_chars(trace_fields);
    let mut found: Vec<(usize, String)> = Vec::new();
    let mut i: usize = 0;
    while i < lines.len()
        invariant
            i <= lines.len(),
            lv == line_views(lines@),
            fv == string_views(trace_fields@),
            fcs@.map_values(|c: Vec<char>| c@) == fv,
            objs == seed_objects(lv, seed_lines@),
            forall|v: Seq<char>|
                #![trigger string_views(ids@).contains(v)]
                string_views(ids@).contains(v) <==> is_trace_id(objs, fv, v),
            matches_view(found@) == trace_matches(lv, scored_lines@, fv, objs, i as int),
        decreases lines.len() - i,
    {
        let ghost prev = matches_view(found@);
        let ghost line = lv[i as int];
        proof {
            assert(line == lines@[i as int]@);
        }
        if !contains_index(scored_lines, i) {
            let cs = str_chars(lines[i]);
            match first_field_needle(cs.as_slice(), &fcs) {
                Some(k) => {
                    match parse_json_object(lines[i]) {
                        Some(m) => {
                            proof {
                                assert(fcs@[k as int]@ == fv[k as int]);
                            }
                            match string_value(m.as_slice(), fcs[k].as_slice()) {
                                Some(v) => {
                                    if contains_string(ids.as_slice(), &v) {
                                        found.push((i, v));
                                        proof {
                                            assert(matches_view(found@) =~= prev + seq![(i, v@)]);
                                        }
                                    } else {
                                        proof {
                                            assert(prev + Seq::<(usize, Seq<char>)>::empty() =~= prev);
                                        }
                                    }
                                },
                                None => {
                                    proof {
                                        assert(prev + Seq::<(usize, Seq<char>)>::empty() =~= prev);
                                    }
                                },
                            }
                        },
                        None => {
                            proof {
                                assert(prev + Seq::<(usize, Seq<char>)>::empty() =~= prev);
                            }
                        },
                    }
                },
                None => {
                    proof {
                        assert(prev + Seq::<(usize, Seq<char>)>::empty() =~= prev);
                    }
                },
            }
        } else {
            proof {
                assert(prev + Seq::<(usize, Seq<char>)>::empty() =~= prev);
            }
        }
        i += 1;
    }
    found
}


/// Where an output line's score and reason come from.
#[derive(Debug, Clone, Copy, PartialEq, Eq, Structural)]
pub enum SlotSource {
    /// The line is a hit: the position of its first occurrence among the hits.
    Hit(usize),
    /// The line is context around the nearest hit, given as a 1-based line number.
    Context(usize),
}

/// One line of the output: its 0-based position in the input and where its
/// score and reason come from.
#[derive(Debug, Clone, Copy, PartialEq, Eq, Structural)]
pub struct OutputSlot {
    pub line_index: usize,
    pub source: SlotSource,
}

/// The windows around the hits.
pub open spec fn hit_windows(hits: Seq<usize>, context_lines: usize, total: usize) -> Seq<
    vstd::std_specs::range::RangeInclusiveView<usize>,
> {
    if hits.len() == 0 || total == 0 {
        Seq::empty()
    } else {
        Seq::new(hits.len(), |i: int| context_window(hits[i], context_lines, total))
    }
}

/// The lines below `total`, in order.
pub open spec fn lines_below(s: Seq<usize>, total: usize) -> Seq<usize>
    decreases s.len(),
{
    if s.len() == 0 {
        Seq::empty()
    } else {
        lines_below(s.drop_last(), total) + if s.last() < total {
            seq![s.last()]
        } else {
            Seq::empty()
        }
    }
}

/// The position of the first occurrence of `x` in `s`.
pub open spec fn first_position(s: Seq<usize>, x: usize) -> int
    decreases s.len(),
{
    if s.len() == 0 {
        0
    } else if s[0] == x {
        0
    } else {
        1 + first_position(s.drop_first(), x)
    }
}

/// The distance between two line positions.
pub open spec fn distance(a: usize, b: usize) -> int {
    if a >= b {
        a - b
    } else {
        b - a
    }
}

/// The position of the hit nearest to `line`; among equally near hits, the first.
pub open spec fn nearest_position(hits: Seq<usize>, line: usize) -> int
    decreases hits.len(),
{
    if hits.len() <= 1 {
        0
    } else {
        let best = nearest_position(hits.drop_last(), line);
        if distance(hits.last(), line) < distance(hits[best], line) {
            hits.len() - 1
        } else {
            best
        }
    }
}

/// The slot of one output line.
pub open spec fn slot_for(hits: Seq<usize>, line: usize) -> OutputSlot {
    OutputSlot {
        line_index: line,
        source: if hits.contains(line) {
            SlotSource::Hit(first_position(hits, line) as usize)
        } else {
            SlotSource::Context((hits[nearest_position(hits, line)] + 1) as usize)
        },
    }
}

/// The planned output: the lines of the merged windows around the hits,
/// below `total`, each with its slot, at most `max_output_lines` of them.
pub open spec fn planned_output(hits: Seq<usize>, context_lines: usize, total: usize, max_output_lines: usize) -> Seq<
    OutputSlot,
> {
    let lines = lines_below(ranges_lines(merged(hit_windows(hits, context_lines, total))), total);
    let all = lines.map_values(|l: usize| slot_for(hits, l));
    if all.len() > max_output_lines {
        all.take(max_output_lines as int)
    } else {
        all
    }
}

proof fn lemma_first_position(s: Seq<usize>, x: usize, j: int)
    requires
        0 <= j < s.len(),
        s[j] == x,
        forall|k: int| 0 <= k < j ==> #[trigger] s[k] != x,
    ensures
        first_position(s, x) == j,
    decreases j,
{
    if j > 0 {
        assert forall|k: int| 0 <= k < j - 1 implies #[trigger] s.drop_first()[k] != x by {
            assert(s.drop_first()[k] == s[k + 1]);
        }
        lemma_first_position(s.drop_first(), x, j - 1);
    }
}

/// The position of the first occurrence of `x` among the hits.
pub(crate) fn find_first(hits: &[usize], x: usize) -> (r: Option<usize>)
    ensures
        match r {
            Some(j) => j < hits.len() && hits@.contains(x) && j == first_position(hits@, x),
            None => !hits@.contains(x),
        },
{
    let mut j: usize = 0;
    while j < hits.len()
        invariant
            j <= hits.len(),
            forall|k: int| 0 <= k < j ==> #[trigger] hits@[k] != x,
        decreases hits.len() - j,
    {
        if hits[j] == x {
            proof {
                lemma_first_position(hits@, x, j as int);
            }
            return Some(j);
        }
        j += 1;
    }
    None
}

/// The position of the nearest hit.
fn find_nearest(hits: &[usize], line: usize) -> (r: usize)
    requires
        hits.len() > 0,
    ensures
        r == nearest_position(hits@, line),
        r < hits.len(),
{
    let mut best: usize = 0;
    let mut best_d: usize = if hits[0] >= line {
        hits[0] - line
    } else {
        line - hits[0]
    };
    let mut j: usize = 1;
    proof {
        assert(hits@.take(1).len() == 1);
    }
    while j < hits.len()
        invariant
            1 <= j <= hits.len(),
            best < j,
            best == nearest_position(hits@.take(j as int), line),
            best_d == distance(hits@[best as int], line),
        decreases hits.len() - j,
    {
        let d = if hits[j] >= line {
            hits[j] - line
        } else {
            line - hits[j]
        };
        proof {
            let t = hits@.take(j + 1);
            assert(t.drop_last() =~= hits@.take(j as int));
            assert(t.last() == hits@[j as int]);
            assert(t[best as int] == hits@[best as int]);
        }
        if d < best_d {
            best = j;
            best_d = d;
        }
        j += 1;
    }
    proof {
        assert(hits@.take(hits.len() as int) =~= hits@);
    }
    best
}

/// Lays out the output: the windows of `±context_lines` around the hits
/// are merged, their lines below `total_lines` are listed in order, each
/// with its source (a hit, by the position of its first occurrence in
/// `hit_lines`; or context around the nearest hit), and the list is cut to
/// `max_output_lines`.
pub fn plan_output(hit_lines: &[usize], context_lines: usize, total_lines: usize, max_output_lines: usize) -> (slots: Vec<OutputSlot>)
    requires
        total_lines <= isize::MAX as usize,
        forall|i: int| 0 <= i < hit_lines.len() ==> #[trigger] hit_lines@[i] < total_lines,
        forall|i: int| 0 <= i < hit_lines.len() ==> #[trigger] hit_lines@[i] + context_lines <= usize::MAX,
    ensures
        slots@ == planned_output(hit_lines@, context_lines, total_lines, max_output_lines),
{
    let mut ranges = expand_context(hit_lines, context_lines, total_lines);
    proof {
        let w = hit_windows(hit_lines@, context_lines, total_lines);
        assert(views(ranges@) =~= w);
        assert forall|i: int| 0 <= i < w.len() implies #[trigger] w[i].end <= usize::MAX - 1 by {
        }
        lemma_sort_keeps_end_bound(w, usize::MAX - 1);
        assert forall|k: int| 0 <= k < w.len() - 1 implies #[trigger] sort_by_start(w)[k].end < usize::MAX by {
            crate::context::lemma_sort_len(w);
        }
    }
    let ghost before_merge = views(ranges@);
    merge_ranges(&mut ranges);
    proof {
        if hit_lines.len() == 0 {
            assert(before_merge =~= Seq::<vstd::std_specs::range::RangeInclusiveView<usize>>::empty());
            assert(sort_by_start(before_merge) =~= before_merge);
            assert(views(ranges@).len() == 0);
        }
    }
    let all = ranges_to_line_set(ranges.as_slice());
    proof {
        if hit_lines.len() == 0 {
            assert(views(ranges@) =~= Seq::<vstd::std_specs::range::RangeInclusiveView<usize>>::empty());
            assert(all@ =~= Seq::<usize>::empty());
        }
    }
    let ghost lines = lines_below(all@, total_lines);
    let mut slots: Vec<OutputSlot> = Vec::new();
    let mut k: usize = 0;
    proof {
        assert(all@.take(0) =~= Seq::<usize>::empty());
    }
    while k < all.len()
        invariant
            k <= all.len(),
            total_lines <= isize::MAX as usize,
            forall|i: int| 0 <= i < hit_lines.len() ==> #[trigger] hit_lines@[i] < total_lines,
            hit_lines.len() == 0 ==> all@.len() == 0,
            slots@ == lines_below(all@.take(k as int), total_lines).map_values(|l: usize| slot_for(hit_lines@, l)),
        decreases all.len() - k,
    {
        let line = all[k];
        let ghost prev = slots@;
        proof {
            assert(all@.take(k + 1).drop_last() =~= all@.take(k as int));
            assert(all@.take(k + 1).last() == line);
        }
        if line < total_lines {
            let source = match find_first(hit_lines, line) {
                Some(j) => SlotSource::Hit(j),
                None => {
                    let n = find_nearest(hit_lines, line);
                    SlotSource::Context(hit_lines[n] + 1)
                },
            };
            slots.push(OutputSlot { line_index: line, source });
            proof {
                assert(slots@ =~= lines_below(all@.take(k + 1), total_lines).map_values(|l: usize| slot_for(hit_lines@, l)));
            }
        } else {
            proof {
                assert(lines_below(all@.take(k + 1), total_lines) =~= lines_below(all@.take(k as int), total_lines));
            }
        }
        k += 1;
    }
    proof {
        assert(all@.take(all.len() as int) =~= all@);
    }
    if slots.len() > max_output_lines {
        slots.truncate(max_output_lines);
    }
    slots
}


/// Line `x` is a line of the input within `context_lines` of some hit.
pub open spec fn near_hit(hits: Seq<usize>, context_lines: usize, total: usize, x: usize) -> bool {
    x < total && exists|i: int| 0 <= i < hits.len() && #[trigger] distance(hits[i], x) <= context_lines
}

proof fn lemma_nearest_is_nearest(hits: Seq<usize>, line: usize)
    requires
        hits.len() > 0,
    ensures
        0 <= nearest_position(hits, line) < hits.len(),
        forall|i: int| 0 <= i < hits.len() ==> distance(hits[nearest_position(hits, line)], line) <= #[trigger] distance(hits[i], line),
    decreases hits.len(),
{
    if hits.len() > 1 {
        let d = hits.drop_last();
        lemma_nearest_is_nearest(d, line);
        let best = nearest_position(d, line);
        assert(hits[best] == d[best]);
        assert forall|i: int| 0 <= i < hits.len() implies distance(hits[nearest_position(hits, line)], line) <= #[trigger] distance(hits[i], line) by {
            if i < d.len() {
                assert(hits[i] == d[i]);
            }
        }
    }
}

proof fn lemma_lines_below_all(s: Seq<usize>, total: usize)
    requires
        forall|i: int| 0 <= i < s.len() ==> #[trigger] s[i] < total,
    ensures
        lines_below(s, total) == s,
    decreases s.len(),
{
    if s.len() > 0 {
        lemma_lines_below_all(s.drop_last(), total);
        assert(s.drop_last().push(s.last()) =~= s);
    }
}

proof fn lemma_position_found(s: Seq<usize>, x: usize)
    requires
        s.contains(x),
    ensures
        0 <= first_position(s, x) < s.len(),
        s[first_position(s, x)] == x,
    decreases s.len(),
{
    if s[0] != x {
        let i = choose|i: int| 0 <= i < s.len() && s[i] == x;
        assert(s.drop_first()[i - 1] == x);
        lemma_position_found(s.drop_first(), x);
    }
}

/// The planned output lists distinct input lines in increasing order; each
/// is within `context_lines` of a hit; a line comes from a hit exactly when
/// it is a hit line, and then names that hit; any other line names as its
/// anchor a hit that is as near as any and within `context_lines`; and every
/// line near a hit is listed unless the output was cut at
/// `max_output_lines`.
pub proof fn lemma_plan_output_lines(hits: Seq<usize>, context_lines: usize, total: usize, max_output_lines: usize)
    requires
        hits.len() <= usize::MAX,
        forall|i: int| 0 <= i < hits.len() ==> #[trigger] hits[i] < total,
        forall|i: int| 0 <= i < hits.len() ==> #[trigger] hits[i] + context_lines <= usize::MAX,
    ensures
        forall|i: int, j: int|
            0 <= i < j < planned_output(hits, context_lines, total, max_output_lines).len() ==> #[trigger] planned_output(
                hits,
                context_lines,
                total,
                max_output_lines,
            )[i].line_index < #[trigger] planned_output(hits, context_lines, total, max_output_lines)[j].line_index,
        forall|k: int|
            0 <= k < planned_output(hits, context_lines, total, max_output_lines).len() ==> near_hit(
                hits,
                context_lines,
                total,
                #[trigger] planned_output(hits, context_lines, total, max_output_lines)[k].line_index,
            ),
        forall|k: int|
            #![trigger planned_output(hits, context_lines, total, max_output_lines)[k]]
            0 <= k < planned_output(hits, context_lines, total, max_output_lines).len() ==> {
                let slot = planned_output(hits, context_lines, total, max_output_lines)[k];
                match slot.source {
                    SlotSource::Hit(p) => p < hits.len() && hits[p as int] == slot.line_index,
                    SlotSource::Context(n) => !hits.contains(slot.line_index) && n >= 1 && distance(
                        (n - 1) as usize,
                        slot.line_index,
                    ) <= context_lines && hits.contains((n - 1) as usize) && forall|i: int|
                        0 <= i < hits.len() ==> distance((n - 1) as usize, slot.line_index)
                            <= #[trigger] distance(hits[i], slot.line_index),
                }
            },
        forall|x: usize|
            near_hit(hits, context_lines, total, x) ==> (exists|k: int|
                0 <= k < planned_output(hits, context_lines, total, max_output_lines).len()
                    && #[trigger] planned_output(hits, context_lines, total, max_output_lines)[k].line_index
                    == x) || planned_output(hits, context_lines, total, max_output_lines).len()
                == max_output_lines,
{
    let w = hit_windows(hits, context_lines, total);
    assert forall|i: int| 0 <= i < w.len() implies is_window(#[trigger] w[i]) by {
    }
    lemma_merge_ranges_covers_same_lines(w);
    let m = merged(w);
    lemma_ranges_lines_cover(m);
    lemma_ranges_lines_increasing(m);
    let l = ranges_lines(m);
    assert forall|x: usize| #![trigger l.contains(x)] l.contains(x) <==> near_hit(hits, context_lines, total, x) by {
        if l.contains(x) {
            assert(covers(w, x as int));
            let i = choose|i: int| #![trigger w[i]] 0 <= i < w.len() && w[i].start <= x <= w[i].end;
            assert(distance(hits[i], x) <= context_lines);
        }
        if near_hit(hits, context_lines, total, x) {
            let i = choose|i: int| 0 <= i < hits.len() && #[trigger] distance(hits[i], x) <= context_lines;
            assert(w[i].start <= x <= w[i].end);
            assert(covers(w, x as int));
        }
    }
    assert forall|i: int| 0 <= i < l.len() implies #[trigger] l[i] < total by {
        assert(l.contains(l[i]));
    }
    lemma_lines_below_all(l, total);
    let all = l.map_values(|x: usize| slot_for(hits, x));
    let out = planned_output(hits, context_lines, total, max_output_lines);
    assert(out.len() <= all.len());
    assert forall|k: int| 0 <= k < out.len() implies #[trigger] out[k] == all[k] by {
    }
    assert forall|k: int| 0 <= k < out.len() implies near_hit(hits, context_lines, total, #[trigger] out[k].line_index) by {
        assert(out[k] == all[k]);
        assert(l.contains(l[k]));
    }
    assert forall|k: int|
        #![trigger out[k]]
        0 <= k < out.len() implies {
            let slot = out[k];
            match slot.source {
                SlotSource::Hit(p) => p < hits.len() && hits[p as int] == slot.line_index,
                SlotSource::Context(n) => !hits.contains(slot.line_index) && n >= 1 && distance(
                    (n - 1) as usize,
                    slot.line_index,
                ) <= context_lines && hits.contains((n - 1) as usize) && forall|i: int|
                    0 <= i < hits.len() ==> distance((n - 1) as usize, slot.line_index)
                        <= #[trigger] distance(hits[i], slot.line_index),
            }
        } by {
        let x = l[k];
        assert(out[k] == slot_for(hits, x));
        assert(l.contains(x));
        if hits.contains(x) {
            lemma_position_found(hits, x);
            let p = first_position(hits, x);
            assert(out[k].source == SlotSource::Hit(p as usize));
        } else {
            lemma_nearest_is_nearest(hits, x);
            let p = nearest_position(hits, x);
            let i = choose|i: int| 0 <= i < hits.len() && #[trigger] distance(hits[i], x) <= context_lines;
            assert(hits[p] + 1 <= usize::MAX);
            assert(((hits[p] + 1) as usize - 1) as usize == hits[p]);
            assert(hits.contains(hits[p]));
            assert(out[k].source == SlotSource::Context((hits[p] + 1) as usize));
            assert(distance(hits[p], x) <= context_lines);
        }
    }
    assert forall|x: usize|
        near_hit(hits, context_lines, total, x) implies (exists|k: int|
            0 <= k < out.len() && #[trigger] out[k].line_index == x) || out.len() == max_output_lines by {
        if out.len() != max_output_lines {
            assert(out.len() == all.len());
            assert(l.contains(x));
            let k = choose|k: int| 0 <= k < l.len() && l[k] == x;
            assert(out[k].line_index == x);
        }
    }
}


/// A boosted field is reported exactly when some token of its value, at any
/// position, is one of the query tokens: each field whose value has a token
/// among `query` is in the result, and each name in the result is such a
/// field.
pub proof fn lemma_matching_fields_share_a_token(pairs: Seq<(Seq<char>, Seq<char>)>, query: Seq<Seq<char>>)
    ensures
        forall|k: int, i: int|
            0 <= k < pairs.len() && 0 <= i < token_strings(encode_utf8(pairs[k].1)).len() && query.contains(
                #[trigger] token_strings(encode_utf8(pairs[k].1))[i],
            ) ==> matching_fields(pairs, query).contains(pairs[k].0),
        forall|x: Seq<char>|
            #[trigger] matching_fields(pairs, query).contains(x) ==> exists|k: int, i: int|
                0 <= k < pairs.len() && pairs[k].0 == x && 0 <= i < token_strings(encode_utf8(pairs[k].1)).len()
                    && query.contains(#[trigger] token_strings(encode_utf8(pairs[k].1))[i]),
    decreases pairs.len(),
{
    if pairs.len() > 0 {
        let d = pairs.drop_last();
        let last = pairs.last();
        lemma_matching_fields_share_a_token(d, query);
        let rest: Seq<Seq<char>> = if shares_token(value_tokens(last.1), query) {
            seq![last.0]
        } else {
            Seq::empty()
        };
        let m = matching_fields(pairs, query);
        assert(m == matching_fields(d, query) + rest);
        assert forall|k: int, i: int|
            0 <= k < pairs.len() && 0 <= i < token_strings(encode_utf8(pairs[k].1)).len() && query.contains(
                #[trigger] token_strings(encode_utf8(pairs[k].1))[i],
            ) implies m.contains(pairs[k].0) by {
            if k < d.len() {
                assert(d[k] == pairs[k]);
                let md = matching_fields(d, query);
                let w = choose|w: int| 0 <= w < md.len() && md[w] == pairs[k].0;
                assert(m[w] == md[w]);
            } else {
                assert(shares_token(value_tokens(last.1), query));
                assert(m[m.len() - 1] == last.0);
            }
        }
        assert forall|x: Seq<char>| #[trigger] m.contains(x) implies exists|k: int, i: int|
            0 <= k < pairs.len() && pairs[k].0 == x && 0 <= i < token_strings(encode_utf8(pairs[k].1)).len()
                && query.contains(#[trigger] token_strings(encode_utf8(pairs[k].1))[i]) by {
            let w = choose|w: int| 0 <= w < m.len() && m[w] == x;
            let md = matching_fields(d, query);
            if w < md.len() {
                assert(md[w] == x);
                assert(md.contains(x));
                let (k, i) = choose|k: int, i: int|
                    0 <= k < d.len() && d[k].0 == x && 0 <= i < token_strings(encode_utf8(d[k].1)).len()
                        && query.contains(#[trigger] token_strings(encode_utf8(d[k].1))[i]);
                assert(d[k] == pairs[k]);
            } else {
                assert(shares_token(value_tokens(last.1), query));
                let i = choose|i: int|
                    0 <= i < value_tokens(last.1).len() && query.contains(#[trigger] value_tokens(last.1)[i]);
                assert(pairs[pairs.len() - 1] == last);
            }
        }
    }
}


proof fn lemma_seed_objects_hold(lines: Seq<Seq<char>>, seeds: Seq<usize>, s: int)
    requires
        0 <= s < seeds.len(),
        json_object_members(lines[seeds[s] as int]) is Some,
    ensures
        seed_objects(lines, seeds).contains(json_object_members(lines[seeds[s] as int]).unwrap()),
    decreases seeds.len(),
{
    let d = seeds.drop_last();
    let tail: Seq<Seq<(Seq<char>, bool, Seq<char>)>> = match json_object_members(lines[seeds.last() as int]) {
        Some(m) => seq![m],
        None => Seq::empty(),
    };
    let all = seed_objects(lines, seeds);
    assert(all == seed_objects(lines, d) + tail);
    if s < d.len() {
        assert(d[s] == seeds[s]);
        lemma_seed_objects_hold(lines, d, s);
        let sd = seed_objects(lines, d);
        let w = choose|w: int| 0 <= w < sd.len() && sd[w] == json_object_members(lines[seeds[s] as int]).unwrap();
        assert(all[w] == sd[w]);
    } else {
        assert(all[all.len() - 1] == json_object_members(lines[seeds[s] as int]).unwrap());
    }
}

proof fn lemma_seed_objects_from_seeds(lines: Seq<Seq<char>>, seeds: Seq<usize>, w: int)
    requires
        0 <= w < seed_objects(lines, seeds).len(),
    ensures
        exists|s: int|
            0 <= s < seeds.len() && #[trigger] json_object_members(lines[seeds[s] as int]) == Some(
                seed_objects(lines, seeds)[w],
            ),
    decreases seeds.len(),
{
    let d = seeds.drop_last();
    let tail: Seq<Seq<(Seq<char>, bool, Seq<char>)>> = match json_object_members(lines[seeds.last() as int]) {
        Some(m) => seq![m],
        None => Seq::empty(),
    };
    let all = seed_objects(lines, seeds);
    let sd = seed_objects(lines, d);
    assert(all == sd + tail);
    if w < sd.len() {
        lemma_seed_objects_from_seeds(lines, d, w);
        let s = choose|s: int| 0 <= s < d.len() && #[trigger] json_object_members(lines[d[s] as int]) == Some(sd[w]);
        assert(d[s] == seeds[s]);
        assert(json_object_members(lines[seeds[s] as int]) == Some(all[w]));
    } else {
        assert(json_object_members(lines[seeds[seeds.len() - 1] as int]) == Some(all[w]));
    }
}

proof fn lemma_trace_matches_member(
    lines: Seq<Seq<char>>,
    scored: Seq<usize>,
    fields: Seq<Seq<char>>,
    objects: Seq<Seq<(Seq<char>, bool, Seq<char>)>>,
    n: int,
    j: usize,
    v: Seq<char>,
)
    requires
        n <= lines.len(),
        lines.len() <= usize::MAX,
    ensures
        trace_matches(lines, scored, fields, objects, n).contains((j, v)) <==> (j < n && !scored.contains(j)
            && trace_match(lines[j as int], fields, objects) == Some(v)),
    decreases n,
{
    if n <= 0 {
        assert(trace_matches(lines, scored, fields, objects, n) =~= Seq::<(usize, Seq<char>)>::empty());
    } else {
        lemma_trace_matches_member(lines, scored, fields, objects, n - 1, j, v);
        let prev = trace_matches(lines, scored, fields, objects, n - 1);
        let all = trace_matches(lines, scored, fields, objects, n);
        let l = (n - 1) as usize;
        let hit = !scored.contains(l) && trace_match(lines[n - 1], fields, objects) is Some;
        let tail: Seq<(usize, Seq<char>)> = if hit {
            seq![(l, trace_match(lines[n - 1], fields, objects).unwrap())]
        } else {
            Seq::empty()
        };
        assert(all == prev + tail);
        if all.contains((j, v)) {
            let w = choose|w: int| 0 <= w < all.len() && all[w] == (j, v);
            if w < prev.len() {
                assert(prev[w] == (j, v));
                assert(prev.contains((j, v)));
            } else {
                assert(hit);
                assert(all[w] == tail[0]);
                assert(j == l);
                assert(j as int == n - 1);
            }
        }
        if j < n && !scored.contains(j) && trace_match(lines[j as int], fields, objects) == Some(v) {
            if j < n - 1 {
                let w = choose|w: int| 0 <= w < prev.len() && prev[w] == (j, v);
                assert(all[w] == (j, v));
            } else {
                assert(all[all.len() - 1] == (j, v));
            }
        }
    }
}

/// Trace expansion follows the trace identifiers of every seed: when seed
/// line `seeds[s]` is a JSON object whose trace field `fields[f]` holds the
/// string `v`, every line `j` that is not scored and whose first trace
/// field present (by its `"field":` needle) holds the string `v` is
/// returned with `v`.
pub proof fn lemma_trace_expansion_follows_every_seed(
    lines: Seq<Seq<char>>,
    scored: Seq<usize>,
    fields: Seq<Seq<char>>,
    seeds: Seq<usize>,
    s: int,
    f: int,
    j: usize,
    k: int,
)
    requires
        lines.len() <= usize::MAX,
        forall|t: int| 0 <= t < seeds.len() ==> #[trigger] seeds[t] < lines.len(),
        0 <= s < seeds.len(),
        0 <= f < fields.len(),
        j < lines.len(),
        !scored.contains(j),
        string_member(json_object_members(lines[seeds[s] as int]), fields[f]) is Some,
        first_needle(lines[j as int], fields) == Some(k),
        string_member(json_object_members(lines[j as int]), fields[k]) == string_member(
            json_object_members(lines[seeds[s] as int]),
            fields[f],
        ),
    ensures
        trace_matches(lines, scored, fields, seed_objects(lines, seeds), lines.len() as int).contains(
            (j, string_member(json_object_members(lines[seeds[s] as int]), fields[f]).unwrap()),
        ),
{
    let objects = seed_objects(lines, seeds);
    let v = string_member(json_object_members(lines[seeds[s] as int]), fields[f]).unwrap();
    lemma_seed_objects_hold(lines, seeds, s);
    let m = json_object_members(lines[seeds[s] as int]).unwrap();
    let w = choose|w: int| 0 <= w < objects.len() && objects[w] == m;
    assert(string_member(Some(objects[w]), fields[f]) == Some(v));
    assert(is_trace_id(objects, fields, v));
    assert(trace_match(lines[j as int], fields, objects) == Some(v));
    lemma_trace_matches_member(lines, scored, fields, objects, lines.len() as int, j, v);
}

/// Everything trace expansion returns is a line `j` that is not scored,
/// whose first trace field present holds the string `v`, and `v` is the
/// string value of a trace field of one of the seed lines.
pub proof fn lemma_trace_expansion_sound(
    lines: Seq<Seq<char>>,
    scored: Seq<usize>,
    fields: Seq<Seq<char>>,
    seeds: Seq<usize>,
    j: usize,
    v: Seq<char>,
)
    requires
        lines.len() <= usize::MAX,
        forall|t: int| 0 <= t < seeds.len() ==> #[trigger] seeds[t] < lines.len(),
        trace_matches(lines, scored, fields, seed_objects(lines, seeds), lines.len() as int).contains((j, v)),
    ensures
        j < lines.len(),
        !scored.contains(j),
        first_needle(lines[j as int], fields) matches Some(k) && string_member(
            json_object_members(lines[j as int]),
            fields[k],
        ) == Some(v),
        exists|s: int, f: int|
            0 <= s < seeds.len() && 0 <= f < fields.len() && #[trigger] string_member(
                json_object_members(lines[seeds[s] as int]),
                fields[f],
            ) == Some(v),
{
    let objects = seed_objects(lines, seeds);
    lemma_trace_matches_member(lines, scored, fields, objects, lines.len() as int, j, v);
    assert(trace_match(lines[j as int], fields, objects) == Some(v));
    assert(is_trace_id(objects, fields, v));
    let (w, f) = choose|w: int, f: int|
        0 <= w < objects.len() && 0 <= f < fields.len() && #[trigger] string_member(Some(objects[w]), fields[f])
            == Some(v);
    lemma_seed_objects_from_seeds(lines, seeds, w);
    let s = choose|s: int| 0 <= s < seeds.len() && #[trigger] json_object_members(lines[seeds[s] as int]) == Some(objects[w]);
    assert(string_member(json_object_members(lines[seeds[s] as int]), fields[f]) == Some(v));
}

/// Adding seeds never removes a line from trace expansion: whatever the
/// seeds `seeds` pull in, any seeds `more` that include them pull in too.
pub proof fn lemma_trace_expansion_monotone(
    lines: Seq<Seq<char>>,
    scored: Seq<usize>,
    fields: Seq<Seq<char>>,
    seeds: Seq<usize>,
    more: Seq<usize>,
    j: usize,
    v: Seq<char>,
)
    requires
        lines.len() <= usize::MAX,
        forall|t: int| 0 <= t < seeds.len() ==> #[trigger] seeds[t] < lines.len(),
        forall|t: int| 0 <= t < more.len() ==> #[trigger] more[t] < lines.len(),
        forall|t: int| 0 <= t < seeds.len() ==> more.contains(#[trigger] seeds[t]),
        trace_matches(lines, scored, fields, seed_objects(lines, seeds), lines.len() as int).contains((j, v)),
    ensures
        trace_matches(lines, scored, fields, seed_objects(lines, more), lines.len() as int).contains((j, v)),
{
    lemma_trace_expansion_sound(lines, scored, fields, seeds, j, v);
    let (s, f) = choose|s: int, f: int|
        0 <= s < seeds.len() && 0 <= f < fields.len() && #[trigger] string_member(
            json_object_members(lines[seeds[s] as int]),
            fields[f],
        ) == Some(v);
    assert(more.contains(seeds[s]));
    let t = choose|t: int| 0 <= t < more.len() && more[t] == seeds[s];
    let k = first_needle(lines[j as int], fields).unwrap();
    lemma_trace_expansion_follows_every_seed(lines, scored, fields, more, t, f, j, k);
}

} // verus!
