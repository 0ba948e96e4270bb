//! Placing the hidden incidents among the dataset's lines: each incident
//! draws a length of three to six lines and then start lines until one
//! lies clear of every line already taken.
use vstd::prelude::*;
use vstd::string::StringExecFns;

use crate::dataset::{service_name, service_text, Incident, IncidentKind};
use crate::numfmt::{number_text, push_number};
use crate::rng::{range_state, range_value, xorshift, SimpleRng};

verus! {

/// How many incidents the dataset hides.
pub const INCIDENT_COUNT: usize = 50;

/// The kind of incident number `id`: the five kinds in turn.
pub open spec fn kind_for(id: int) -> IncidentKind {
    let k = id % 5;
    if k == 0 {
        IncidentKind::Timeout
    } else if k == 1 {
        IncidentKind::Oom
    } else if k == 2 {
        IncidentKind::Deadlock
    } else if k == 3 {
        IncidentKind::AuthFailure
    } else {
        IncidentKind::RateLimit
    }
}

/// The kind of incident number `id`.
pub fn incident_kind(id: usize) -> (k: IncidentKind)
    ensures
        k == kind_for(id as int),
{
    let r = id % 5;
    if r == 0 {
        IncidentKind::Timeout
    } else if r == 1 {
        IncidentKind::Oom
    } else if r == 2 {
        IncidentKind::Deadlock
    } else if r == 3 {
        IncidentKind::AuthFailure
    } else {
        IncidentKind::RateLimit
    }
}

/// The `len` consecutive lines from `start`.
pub open spec fn block(start: int, len: int) -> Seq<usize> {
    Seq::new(len as nat, |k: int| (start + k) as usize)
}

/// `p - 10`, or `0` below 10.
pub open spec fn minus_ten(p: usize) -> int {
    if p >= 10 {
        p - 10
    } else {
        0
    }
}

/// Whether a taken line `p` rules out the run of lines from `start` to
/// `end`: the run starts at most ten lines after `p` and ends no earlier
/// than ten lines before it.
pub open spec fn clashes(p: usize, start: int, end: int) -> bool {
    start <= p + 10 && end >= minus_ten(p)
}

/// Whether any taken line rules out the run from `start` to `end`.
pub open spec fn conflicts(used: Seq<usize>, start: int, end: int) -> bool {
    exists|k: int| 0 <= k < used.len() && #[trigger] clashes(used[k], start, end)
}

/// Whether any taken line rules out the run from `start` to `end`.
pub fn has_conflict(used: &[usize], start: usize, end: usize) -> (r: bool)
    ensures
        r == conflicts(used@, start as int, end as int),
{
    let mut k: usize = 0;
    while k < used.len()
        invariant
            k <= used.len(),
            forall|j: int| 0 <= j < k ==> !#[trigger] clashes(used@[j], start as int, end as int),
        decreases used.len() - k,
    {
        let p = used[k];
        let low = if p >= 10 {
            p - 10
        } else {
            0
        };
        if start as u128 <= p as u128 + 10 && end >= low {
            assert(clashes(used@[k as int], start as int, end as int));
            return true;
        }
        k += 1;
    }
    false
}

/// The trace of incident `id` whose draw was `x`: `tr-inc-`, the number
/// in four digits, `-`, and the low 32 bits of `x` in eight hex digits.
pub open spec fn trace_text(id: nat, x: u64) -> Seq<char> {
    "tr-inc-"@ + number_text(id, 10, 4) + "-"@ + number_text((x & 0xFFFF_FFFFu64) as nat, 16, 8)
}

/// The order of incident `id`: `ord-` and `100000 + id` in six digits.
pub open spec fn order_text(id: nat) -> Seq<char> {
    "ord-"@ + number_text(100000 + id, 10, 6)
}

/// `inc` is incident number `id` over the `len` lines from `start`, its
/// trace drawn from state `s`.
pub open spec fn is_incident(inc: Incident, id: int, start: int, len: int, s: u64) -> bool {
    &&& inc.id == id
    &&& inc.kind == kind_for(id)
    &&& inc.lines@ == block(start, len)
    &&& inc.trace_id@ == trace_text(id as nat, xorshift(s))
    &&& inc.service@ == service_text(id % 5)
    &&& inc.order_id@ == order_text(id as nat)
}

/// Incident number `id` over the `len` lines from `start`; draws its trace.
pub fn new_incident(id: usize, start: usize, len: usize, rng: &mut SimpleRng) -> (inc: Incident)
    requires
        start + len <= usize::MAX,
        id + 100000 <= usize::MAX,
    ensures
        is_incident(inc, id as int, start as int, len as int, old(rng).state()),
        final(rng).state() == xorshift(old(rng).state()),
{
    let kind = incident_kind(id);
    let service = service_name((id % 5) as u64);
    let mut lines: Vec<usize> = Vec::new();
    let mut l = start;
    while l < start + len
        invariant
            start <= l <= start + len,
            start + len <= usize::MAX,
            lines@ == block(start as int, l - start),
        decreases start + len - l,
    {
        lines.push(l);
        l += 1;
        proof {
            assert(lines@ =~= block(start as int, l - start));
        }
    }
    let x = rng.next();
    let mut trace_id = "tr-inc-".to_owned();
    push_number(&mut trace_id, id as u64, 10, 4);
    trace_id.append("-");
    push_number(&mut trace_id, x & 0xFFFF_FFFFu64, 16, 8);
    let mut order_id = "ord-".to_owned();
    let order_number: usize = 100000 + id;
    push_number(&mut order_id, order_number as u64, 10, 6);
    Incident { id, kind, lines, trace_id, service, order_id }
}

/// Appends the lines `xs` to `v`.
fn append_lines(v: &mut Vec<usize>, xs: &Vec<usize>)
    ensures
        final(v)@ == old(v)@ + xs@,
{
    let mut k: usize = 0;
    while k < xs.len()
        invariant
            k <= xs.len(),
            v@ == old(v)@ + xs@.take(k as int),
        decreases xs.len() - k,
    {
        v.push(xs[k]);
        k += 1;
        proof {
            assert(v@ =~= old(v)@ + xs@.take(k as int));
        }
    }
    proof {
        assert(xs@.take(xs.len() as int) =~= xs@);
    }
}

/// The lines of all incidents, in order.
pub open spec fn all_lines(incs: Seq<Incident>) -> Seq<usize>
    decreases incs.len(),
{
    if incs.len() == 0 {
        Seq::empty()
    } else {
        all_lines(incs.drop_last()) + incs.last().lines@
    }
}

/// Two lines more than ten lines apart.
pub open spec fn apart(a: usize, b: usize) -> bool {
    a > b + 10 || b > a + 10
}

/// Any two lines of two different incidents are more than ten lines apart.
pub open spec fn incidents_apart(incs: Seq<Incident>) -> bool {
    forall|i: int, j: int, a: usize, b: usize|
        0 <= i < j < incs.len() && #[trigger] incs[i].lines@.contains(a) && #[trigger] incs[j].lines@.contains(
            b,
        ) ==> apart(a, b)
}

/// One past the last line an incident may start at.
pub open spec fn start_bound(total: usize) -> int {
    if total - 100 > 100 {
        total - 100
    } else {
        101
    }
}

/// Incident `i` of the plan: its number, its kind, its service, its order,
/// a trace made of its number and a drawn value, and three to six
/// consecutive lines starting between line 100 and the start bound.
pub open spec fn well_placed(inc: Incident, i: int, total: usize) -> bool {
    &&& inc.id == i
    &&& inc.kind == kind_for(i)
    &&& inc.service@ == service_text(i % 5)
    &&& inc.order_id@ == order_text(i as nat)
    &&& exists|x: u64| #[trigger] trace_text(i as nat, x) == inc.trace_id@
    &&& 3 <= inc.lines.len() < 7
    &&& 100 <= inc.lines@[0] < start_bound(total)
    &&& forall|k: int| 0 <= k < inc.lines.len() ==> #[trigger] inc.lines@[k] == inc.lines@[0] + k
}

/// The length an attempt uses: the one drawn before, or a fresh draw.
pub open spec fn attempt_length(pending: Option<usize>, s: u64) -> int {
    match pending {
        Some(l) => l as int,
        None => range_value(s, 3, 7) as int,
    }
}

/// The state after the length of an attempt is known.
pub open spec fn after_length(pending: Option<usize>, s: u64) -> u64 {
    match pending {
        Some(_) => s,
        None => range_state(s, 3, 7),
    }
}

/// The incidents placed so far, the lines they hold, and the length
/// drawn for the next incident while it still seeks a place.
pub struct IncidentPlanner {
    total_lines: usize,
    pending: Option<usize>,
    used: Vec<usize>,
    incidents: Vec<Incident>,
}

impl IncidentPlanner {
    pub closed spec fn total(&self) -> usize {
        self.total_lines
    }

    pub closed spec fn pending(&self) -> Option<usize> {
        self.pending
    }

    pub closed spec fn placed(&self) -> Seq<Incident> {
        self.incidents@
    }

    pub closed spec fn wf(&self) -> bool {
        &&& self.total_lines >= 100
        &&& self.incidents.len() <= INCIDENT_COUNT
        &&& (self.pending matches Some(l) ==> self.incidents.len() < INCIDENT_COUNT && 3 <= l < 7)
        &&& self.used@ == all_lines(self.incidents@)
        &&& forall|i: int|
            0 <= i < self.incidents.len() ==> well_placed(#[trigger] self.incidents@[i], i, self.total_lines)
        &&& incidents_apart(self.incidents@)
    }

    /// A plan for a dataset of `total_lines` lines, with nothing placed.
    pub fn new(total_lines: usize) -> (p: Self)
        requires
            total_lines >= 100,
        ensures
            p.wf(),
            p.total() == total_lines,
            p.placed().len() == 0,
            p.pending() is None,
    {
        let p = IncidentPlanner { total_lines, pending: None, used: Vec::new(), incidents: Vec::new() };
        proof {
            assert(p.used@ =~= all_lines(p.incidents@));
        }
        p
    }

    /// One attempt to place the next incident: draws its length if it has
    /// none yet, then a start line from 100 up to `total - 100`; the run
    /// is placed if no taken line rules it out, and the length is kept
    /// for the next attempt otherwise. Returns whether every incident is
    /// placed; with all placed it draws nothing.
    pub fn step(&mut self, rng: &mut SimpleRng) -> (done: bool)
        requires
            old(self).wf(),
        ensures
            final(self).wf(),
            final(self).total() == old(self).total(),
            done == (final(self).placed().len() == INCIDENT_COUNT),
            old(self).placed().len() == INCIDENT_COUNT ==> {
                &&& final(self).placed() == old(self).placed()
                &&& final(self).pending() == old(self).pending()
                &&& final(rng).state() == old(rng).state()
            },
            old(self).placed().len() < INCIDENT_COUNT ==> ({
                let s0 = old(rng).state();
                let len = attempt_length(old(self).pending(), s0);
                let s1 = after_length(old(self).pending(), s0);
                let limit = (old(self).total() - 100) as u64;
                let start = range_value(s1, 100, limit) as int;
                let s2 = range_state(s1, 100, limit);
                if conflicts(all_lines(old(self).placed()), start, start + len) {
                    &&& final(self).placed() == old(self).placed()
                    &&& final(self).pending() == Some(len as usize)
                    &&& final(rng).state() == s2
                } else {
                    let n = old(self).placed().len();
                    &&& final(self).placed().len() == n + 1
                    &&& final(self).placed().take(n as int) == old(self).placed()
                    &&& is_incident(final(self).placed()[n as int], n as int, start, len, s2)
                    &&& final(self).pending() is None
                    &&& final(rng).state() == xorshift(s2)
                }
            }),
    {
        let n = self.incidents.len();
        if n >= INCIDENT_COUNT {
            return true;
        }
        let ghost s0 = rng.state();
        let len: usize = match self.pending {
            Some(l) => l,
            None => rng.next_range(3, 7) as usize,
        };
        let limit = (self.total_lines - 100) as u64;
        let start = rng.next_range(100, limit) as usize;
        let ghost s2 = rng.state();
        let end = start + len;
        if has_conflict(self.used.as_slice(), start, end) {
            self.pending = Some(len);
            return false;
        }
        let inc = new_incident(n, start, len, rng);
        proof {
            self.lemma_place(&inc, start as int, len as int, s2);
        }
        append_lines(&mut self.used, &inc.lines);
        let ghost before = self.incidents@;
        self.incidents.push(inc);
        self.pending = None;
        proof {
            let after = self.incidents@;
            assert(after.drop_last() =~= before);
            assert(after.take(n as int) =~= before);
            assert(self.used@ == all_lines(after));
            assert forall|i: int| 0 <= i < after.len() implies well_placed(
                #[trigger] after[i],
                i,
                self.total_lines,
            ) by {
                if i < n {
                    assert(after[i] == before[i]);
                }
            }
        }
        self.incidents.len() == INCIDENT_COUNT
    }

    /// The facts that placing `inc` keeps: it is well placed, and its lines
    /// lie apart from every line of the earlier incidents.
    proof fn lemma_place(&self, inc: &Incident, start: int, len: int, s: u64)
        requires
            self.wf(),
            self.incidents.len() < INCIDENT_COUNT,
            3 <= len < 7,
            100 <= start < start_bound(self.total_lines),
            !conflicts(self.used@, start, start + len),
            is_incident(*inc, self.incidents.len() as int, start, len, s),
        ensures
            well_placed(*inc, self.incidents.len() as int, self.total_lines),
            incidents_apart(self.incidents@.push(*inc)),
            all_lines(self.incidents@.push(*inc)) == self.used@ + inc.lines@,
    {
        let n = self.incidents.len() as int;
        assert(trace_text(n as nat, xorshift(s)) == inc.trace_id@);
        let before = self.incidents@;
        let after = before.push(*inc);
        assert(after.drop_last() =~= before);
        lemma_all_lines_hold(before);
        assert forall|i: int, j: int, a: usize, b: usize|
            0 <= i < j < after.len() && #[trigger] after[i].lines@.contains(a)
                && #[trigger] after[j].lines@.contains(b) implies apart(a, b) by {
            if j < before.len() {
                assert(after[i] == before[i]);
                assert(after[j] == before[j]);
            } else {
                assert(after[i] == before[i]);
                let ka = choose|ka: int| 0 <= ka < before[i].lines@.len() && before[i].lines@[ka] == a;
                assert(all_lines(before).contains(before[i].lines@[ka]));
                let u = choose|u: int| 0 <= u < self.used@.len() && self.used@[u] == a;
                assert(!clashes(self.used@[u], start, start + len));
                let kb = choose|kb: int| 0 <= kb < inc.lines@.len() && inc.lines@[kb] == b;
                assert(b == start + kb);
            }
        }
    }

    /// The incidents placed so far, in order.
    pub fn into_incidents(self) -> (r: Vec<Incident>)
        ensures
            r@ == self.placed(),
    {
        self.incidents
    }
}

/// Every line of every incident is among the lines of all incidents.
proof fn lemma_all_lines_hold(incs: Seq<Incident>)
    ensures
        forall|i: int, k: int|
            0 <= i < incs.len() && 0 <= k < incs[i].lines@.len() ==> all_lines(incs).contains(
                #[trigger] incs[i].lines@[k],
            ),
    decreases incs.len(),
{
    if incs.len() > 0 {
        let d = incs.drop_last();
        lemma_all_lines_hold(d);
        assert forall|i: int, k: int|
            0 <= i < incs.len() && 0 <= k < incs[i].lines@.len() implies all_lines(incs).contains(
                #[trigger] incs[i].lines@[k],
            ) by {
            let all = all_lines(incs);
            if i < d.len() {
                assert(d[i] == incs[i]);
                let w = choose|w: int| 0 <= w < all_lines(d).len() && all_lines(d)[w] == incs[i].lines@[k];
                assert(all[w] == all_lines(d)[w]);
            } else {
                assert(all[all_lines(d).len() + k] == incs[i].lines@[k]);
            }
        }
    }
}

/// What a plan promises: incident `i` is number `i`, of the `i`-th kind
/// and the `i`-th service in turn, with order `ord-` and `100000 + i` in
/// six digits, and trace `tr-inc-`, `i` in four digits, `-` and eight hex
/// digits of a draw; it covers three to six consecutive lines that start
/// between line 100 and the start bound; and any two lines of two
/// different incidents are more than ten lines apart.
pub proof fn lemma_planned_incidents(p: &IncidentPlanner)
    requires
        p.wf(),
    ensures
        p.placed().len() <= INCIDENT_COUNT,
        forall|i: int| 0 <= i < p.placed().len() ==> well_placed(#[trigger] p.placed()[i], i, p.total()),
        incidents_apart(p.placed()),
{
}

} // verus!
