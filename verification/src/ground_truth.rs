//! The ground truth of the benchmark dataset: one query per incident with
//! the lines it should find, and one aggregate query per kind with the
//! lines of all incidents of that kind, written as a JSON array.
use vstd::prelude::*;
use vstd::relations::{sorted_by, total_ordering};
use vstd::string::StringExecFns;

use crate::dataset::{kind_name, kind_text, text_field, number_field, Incident, IncidentKind};
use crate::planner::{incident_kind, kind_for};
use crate::render::{fields_view, object_text, render_object, Field, FieldValue, ValueView};

verus! {

broadcast use vstd::seq_lib::group_to_multiset_ensures;

/// The query for one incident: words of its error and its order.
pub open spec fn incident_query(inc: Incident) -> Seq<char> {
    match inc.kind {
        IncidentKind::Timeout => "payment gateway timeout "@ + inc.order_id@,
        IncidentKind::Oom => "OutOfMemoryError OOM heap exhausted "@ + inc.order_id@,
        IncidentKind::Deadlock => "deadlock circular wait blocked "@ + inc.order_id@,
        IncidentKind::AuthFailure => "authentication failure invalid token "@ + inc.order_id@,
        IncidentKind::RateLimit => "rate limit exceeded 429 "@ + inc.order_id@,
    }
}

/// The query that gathers all incidents of a kind.
pub open spec fn aggregate_query(k: IncidentKind) -> Seq<char> {
    match k {
        IncidentKind::Timeout => "timeout payment gateway connection timed out"@,
        IncidentKind::Oom => "OOM OutOfMemoryError heap memory killed"@,
        IncidentKind::Deadlock => "deadlock mutex circular wait threads blocked"@,
        IncidentKind::AuthFailure => "auth failure invalid token JWT credential"@,
        IncidentKind::RateLimit => "rate limit 429 Too Many Requests throttle"@,
    }
}

/// Line numbers counted from 1.
pub open spec fn line_numbers(ls: Seq<usize>) -> Seq<u64> {
    ls.map_values(|l: usize| (l + 1) as u64)
}

/// The order of line numbers.
pub open spec fn line_order() -> spec_fn(usize, usize) -> bool {
    |a: usize, b: usize| a <= b
}

/// The lines of the incidents of kind `k`, incident by incident.
pub open spec fn kind_lines(incs: Seq<Incident>, k: IncidentKind) -> Seq<usize>
    decreases incs.len(),
{
    if incs.len() == 0 {
        Seq::empty()
    } else if incs.last().kind == k {
        kind_lines(incs.drop_last(), k) + incs.last().lines@
    } else {
        kind_lines(incs.drop_last(), k)
    }
}

/// The numbers of the incidents of kind `k`, in order.
pub open spec fn kind_ids(incs: Seq<Incident>, k: IncidentKind) -> Seq<u64>
    decreases incs.len(),
{
    if incs.len() == 0 {
        Seq::empty()
    } else if incs.last().kind == k {
        kind_ids(incs.drop_last(), k).push(incs.last().id as u64)
    } else {
        kind_ids(incs.drop_last(), k)
    }
}

/// The fields of an incident's entry.
pub open spec fn incident_entry(inc: Incident) -> Seq<(Seq<char>, ValueView)> {
    seq![
        text_field("query"@, incident_query(inc)),
        number_field("incident_id"@, inc.id as nat),
        text_field("incident_kind"@, kind_text(inc.kind)),
        ("expected_lines"@, ValueView::Numbers(line_numbers(inc.lines@))),
        text_field("trace_id"@, inc.trace_id@),
        text_field("order_id"@, inc.order_id@),
    ]
}

/// The fields of the aggregate entry of kind `k`: its incidents, and all
/// their lines in ascending order.
pub open spec fn aggregate_entry(incs: Seq<Incident>, k: IncidentKind) -> Seq<(Seq<char>, ValueView)> {
    seq![
        text_field("query"@, aggregate_query(k)),
        ("aggregate"@, ValueView::Flag(true)),
        ("incident_ids"@, ValueView::Numbers(kind_ids(incs, k))),
        text_field("incident_kind"@, kind_text(k)),
        ("expected_lines"@, ValueView::Numbers(line_numbers(kind_lines(incs, k).sort_by(line_order())))),
    ]
}

/// An entry as it stands in the array: indented by four spaces.
pub open spec fn entry_text(fields: Seq<(Seq<char>, ValueView)>) -> Seq<char> {
    "    "@ + object_text(fields, true)
}

/// The entries: one per incident, then one per kind.
pub open spec fn ground_truth_entries(incs: Seq<Incident>) -> Seq<Seq<char>> {
    incs.map_values(|inc: Incident| entry_text(incident_entry(inc))) + Seq::new(
        5,
        |k: int| entry_text(aggregate_entry(incs, kind_for(k))),
    )
}

/// The entries, one per line, separated by commas.
pub open spec fn joined_entries(es: Seq<Seq<char>>) -> Seq<char>
    decreases es.len(),
{
    if es.len() == 0 {
        Seq::empty()
    } else if es.len() == 1 {
        es[0]
    } else {
        joined_entries(es.drop_last()) + ",\n"@ + es.last()
    }
}

/// The ground truth: a JSON array with one entry a line.
pub open spec fn ground_truth_text(incs: Seq<Incident>) -> Seq<char> {
    "[\n"@ + joined_entries(ground_truth_entries(incs)) + "\n]"@
}

proof fn lemma_line_order_total()
    ensures
        total_ordering(line_order()),
{
    let r = line_order();
    assert forall|x: usize| #[trigger] r(x, x) by {}
    assert forall|x: usize, y: usize| #[trigger] r(x, y) && #[trigger] r(y, x) implies x == y by {}
    assert forall|x: usize, y: usize, z: usize| #[trigger] r(x, y) && #[trigger] r(y, z) implies r(x, z) by {}
    assert forall|x: usize, y: usize| #[trigger] r(x, y) || #[trigger] r(y, x) by {}
}

/// `v` in ascending order.
fn sort_lines(v: &Vec<usize>) -> (r: Vec<usize>)
    ensures
        r@ == v@.sort_by(line_order()),
{
    let mut out: Vec<usize> = Vec::new();
    let mut i: usize = 0;
    while i < v.len()
        invariant
            i <= v.len(),
            sorted_by(out@, line_order()),
            out@.to_multiset() == v@.take(i as int).to_multiset(),
        decreases v.len() - i,
    {
        let x = v[i];
        let mut k: usize = 0;
        while k < out.len() && out[k] <= x
            invariant
                k <= out.len(),
                forall|j: int| 0 <= j < k ==> out@[j] <= x,
            decreases out.len() - k,
        {
            k += 1;
        }
        let ghost before = out@;
        out.insert(k, x);
        proof {
            assert(v@.take(i + 1) =~= v@.take(i as int).push(x));
            assert(out@ == before.insert(k as int, x));
            let r = line_order();
            assert forall|a: int, b: int| 0 <= a < b < out@.len() implies #[trigger] r(out@[a], out@[b]) by {
                if b < k {
                    assert(r(before[a], before[b]));
                } else if b == k {
                    assert(before[a] <= x);
                } else if a < k {
                    assert(before[a] <= x || r(before[a], before[b - 1]));
                    if k < before.len() {
                        assert(x < before[k as int]);
                        assert(r(before[a], before[b - 1]));
                    }
                } else if a == k {
                    assert(x < before[k as int]);
                    if k < b - 1 {
                        assert(r(before[k as int], before[b - 1]));
                    }
                } else {
                    assert(r(before[a - 1], before[b - 1]));
                }
            }
        }
        i += 1;
    }
    proof {
        assert(v@.take(v@.len() as int) =~= v@);
        lemma_line_order_total();
        v@.lemma_sort_by_ensures(line_order());
        vstd::seq_lib::lemma_sorted_unique(out@, v@.sort_by(line_order()), line_order());
    }
    out
}

/// The line numbers, counted from 1, of lines counted from 0.
fn numbered(ls: &Vec<usize>) -> (r: Vec<u64>)
    requires
        forall|k: int| 0 <= k < ls.len() ==> #[trigger] ls@[k] < usize::MAX,
    ensures
        r@ == line_numbers(ls@),
{
    let mut r: Vec<u64> = Vec::new();
    let mut k: usize = 0;
    while k < ls.len()
        invariant
            k <= ls.len(),
            forall|j: int| 0 <= j < ls.len() ==> #[trigger] ls@[j] < usize::MAX,
            r@ == line_numbers(ls@.take(k as int)),
        decreases ls.len() - k,
    {
        r.push((ls[k] + 1) as u64);
        k += 1;
        proof {
            assert(r@ =~= line_numbers(ls@.take(k as int)));
        }
    }
    proof {
        assert(ls@.take(ls@.len() as int) =~= ls@);
    }
    r
}

/// The query for one incident.
fn incident_query_string(inc: &Incident) -> (q: String)
    ensures
        q@ == incident_query(*inc),
{
    let mut q = match inc.kind {
        IncidentKind::Timeout => "payment gateway timeout ".to_owned(),
        IncidentKind::Oom => "OutOfMemoryError OOM heap exhausted ".to_owned(),
        IncidentKind::Deadlock => "deadlock circular wait blocked ".to_owned(),
        IncidentKind::AuthFailure => "authentication failure invalid token ".to_owned(),
        IncidentKind::RateLimit => "rate limit exceeded 429 ".to_owned(),
    };
    q.append(inc.order_id.as_str());
    q
}

/// The aggregate query of a kind.
fn aggregate_query_str(k: IncidentKind) -> (q: &'static str)
    ensures
        q@ == aggregate_query(k),
{
    match k {
        IncidentKind::Timeout => "timeout payment gateway connection timed out",
        IncidentKind::Oom => "OOM OutOfMemoryError heap memory killed",
        IncidentKind::Deadlock => "deadlock mutex circular wait threads blocked",
        IncidentKind::AuthFailure => "auth failure invalid token JWT credential",
        IncidentKind::RateLimit => "rate limit 429 Too Many Requests throttle",
    }
}

/// The fields of an incident's entry.
fn incident_entry_fields(inc: &Incident) -> (fs: Vec<Field>)
    requires
        forall|k: int| 0 <= k < inc.lines.len() ==> #[trigger] inc.lines@[k] < usize::MAX,
    ensures
        fields_view(fs@) == incident_entry(*inc),
{
    let mut fs: Vec<Field> = Vec::new();
    fs.push(Field { key: "query", value: FieldValue::Text(incident_query_string(inc)) });
    fs.push(Field { key: "incident_id", value: FieldValue::Number(inc.id as u64) });
    fs.push(Field { key: "incident_kind", value: FieldValue::Text(kind_name(inc.kind).to_owned()) });
    fs.push(Field { key: "expected_lines", value: FieldValue::Numbers(numbered(&inc.lines)) });
    fs.push(Field { key: "trace_id", value: FieldValue::Text(inc.trace_id.clone()) });
    fs.push(Field { key: "order_id", value: FieldValue::Text(inc.order_id.clone()) });
    proof {
        assert(fields_view(fs@) =~= incident_entry(*inc));
    }
    fs
}

/// The fields of the aggregate entry of kind `k`.
fn aggregate_entry_fields(incidents: &[Incident], k: IncidentKind) -> (fs: Vec<Field>)
    requires
        forall|i: int, j: int|
            0 <= i < incidents.len() && 0 <= j < incidents@[i].lines.len() ==> #[trigger] incidents@[i].lines@[j]
                < usize::MAX,
    ensures
        fields_view(fs@) == aggregate_entry(incidents@, k),
{
    let mut lines: Vec<usize> = Vec::new();
    let mut ids: Vec<u64> = Vec::new();
    let mut i: usize = 0;
    while i < incidents.len()
        invariant
            i <= incidents.len(),
            lines@ == kind_lines(incidents@.take(i as int), k),
            ids@ == kind_ids(incidents@.take(i as int), k),
            forall|a: int| 0 <= a < lines.len() ==> #[trigger] lines@[a] < usize::MAX,
            forall|a: int, j: int|
                0 <= a < incidents.len() && 0 <= j < incidents@[a].lines.len() ==> #[trigger] incidents@[a].lines@[j]
                    < usize::MAX,
        decreases incidents.len() - i,
    {
        let inc = &incidents[i];
        proof {
            assert(incidents@.take(i + 1).drop_last() =~= incidents@.take(i as int));
            assert(incidents@.take(i + 1).last() == incidents@[i as int]);
        }
        if inc.kind == k {
            let ghost before = lines@;
            let mut j: usize = 0;
            while j < inc.lines.len()
                invariant
                    j <= inc.lines.len(),
                    lines@ == before + inc.lines@.take(j as int),
                    forall|a: int| 0 <= a < before.len() ==> #[trigger] before[a] < usize::MAX,
                    forall|a: int| 0 <= a < inc.lines.len() ==> #[trigger] inc.lines@[a] < usize::MAX,
                decreases inc.lines.len() - j,
            {
                lines.push(inc.lines[j]);
                j += 1;
                proof {
                    assert(lines@ =~= before + inc.lines@.take(j as int));
                }
            }
            proof {
                assert(inc.lines@.take(inc.lines.len() as int) =~= inc.lines@);
                assert forall|a: int| 0 <= a < lines.len() implies #[trigger] lines@[a] < usize::MAX by {
                    if a >= before.len() {
                        assert(lines@[a] == inc.lines@[a - before.len()]);
                    }
                }
            }
            ids.push(inc.id as u64);
        }
        i += 1;
    }
    proof {
        assert(incidents@.take(incidents@.len() as int) =~= incidents@);
    }
    let sorted = sort_lines(&lines);
    proof {
        lemma_line_order_total();
        lines@.lemma_sort_by_ensures(line_order());
        assert forall|a: int| 0 <= a < sorted.len() implies #[trigger] sorted@[a] < usize::MAX by {
            assert(sorted@.contains(sorted@[a]));
            assert(lines@.contains(sorted@[a]));
        }
    }
    let mut fs: Vec<Field> = Vec::new();
    fs.push(Field { key: "query", value: FieldValue::Text(aggregate_query_str(k).to_owned()) });
    fs.push(Field { key: "aggregate", value: FieldValue::Flag(true) });
    fs.push(Field { key: "incident_ids", value: FieldValue::Numbers(ids) });
    fs.push(Field { key: "incident_kind", value: FieldValue::Text(kind_name(k).to_owned()) });
    fs.push(Field { key: "expected_lines", value: FieldValue::Numbers(numbered(&sorted)) });
    proof {
        assert(fields_view(fs@) =~= aggregate_entry(incidents@, k));
    }
    fs
}

/// Appends an entry to the array being written.
fn push_entry(out: &mut String, first: bool, entry: &str, Ghost(done): Ghost<Seq<Seq<char>>>)
    requires
        old(out)@ == "[\n"@ + joined_entries(done),
        first == (done.len() == 0),
    ensures
        final(out)@ == "[\n"@ + joined_entries(done.push(entry@)),
{
    if !first {
        out.append(",\n");
    }
    out.append(entry);
    proof {
        assert(done.push(entry@).drop_last() =~= done);
        if first {
            assert(joined_entries(done) =~= Seq::<char>::empty());
        }
        assert(out@ =~= "[\n"@ + joined_entries(done.push(entry@)));
    }
}

/// The ground truth of the incidents, as a JSON array with one entry a
/// line: an entry per incident, with its query (words of its error and
/// its order), number, kind, lines (counted from 1), trace and order;
/// then an entry per kind, with its query, its incidents and all their
/// lines in ascending order.
pub fn build_ground_truth(incidents: &[Incident]) -> (r: String)
    requires
        forall|i: int, j: int|
            0 <= i < incidents.len() && 0 <= j < incidents@[i].lines.len() ==> #[trigger] incidents@[i].lines@[j]
                < usize::MAX,
    ensures
        r@ == ground_truth_text(incidents@),
{
    let ghost entries = ground_truth_entries(incidents@);
    let ghost n = incidents@.len();
    let mut out = "[\n".to_owned();
    let mut count: usize = 0;
    proof {
        assert(joined_entries(entries.take(0)) =~= Seq::<char>::empty());
    }
    while count < incidents.len()
        invariant
            count <= incidents.len(),
            n == incidents@.len(),
            entries == ground_truth_entries(incidents@),
            out@ == "[\n"@ + joined_entries(entries.take(count as int)),
            forall|i: int, j: int|
                0 <= i < incidents.len() && 0 <= j < incidents@[i].lines.len() ==> #[trigger] incidents@[i].lines@[j]
                    < usize::MAX,
        decreases incidents.len() - count,
    {
        let fields = incident_entry_fields(&incidents[count]);
        let mut entry = "    ".to_owned();
        entry.append(render_object(&fields, true).as_str());
        proof {
            assert(entries[count as int] == entry_text(incident_entry(incidents@[count as int])));
            assert(entries.take(count + 1) =~= entries.take(count as int).push(entry@));
        }
        push_entry(&mut out, count == 0, entry.as_str(), Ghost(entries.take(count as int)));
        count += 1;
    }
    let ghost mut done = count as int;
    let mut k: usize = 0;
    while k < 5
        invariant
            k <= 5,
            done == n + k,
            n == incidents@.len(),
            count == incidents.len(),
            entries == ground_truth_entries(incidents@),
            out@ == "[\n"@ + joined_entries(entries.take(done)),
            forall|i: int, j: int|
                0 <= i < incidents.len() && 0 <= j < incidents@[i].lines.len() ==> #[trigger] incidents@[i].lines@[j]
                    < usize::MAX,
        decreases 5 - k,
    {
        let kind = incident_kind(k);
        let fields = aggregate_entry_fields(incidents, kind);
        let mut entry = "    ".to_owned();
        entry.append(render_object(&fields, true).as_str());
        proof {
            assert(entries[done] == entry_text(aggregate_entry(incidents@, kind_for(k as int))));
            assert(entries.take(done + 1) =~= entries.take(done).push(entry@));
        }
        push_entry(&mut out, count == 0 && k == 0, entry.as_str(), Ghost(entries.take(done)));
        k += 1;
        proof {
            done = done + 1;
        }
    }
    proof {
        assert(entries.take(done) =~= entries);
    }
    out.append("\n]");
    out
}

/// The ground truth as it is written to disk: the text unchanged.
pub fn serde_json_mini(s: &str) -> (r: String)
    ensures
        r@ == s@,
{
    s.to_owned()
}

} // verus!
