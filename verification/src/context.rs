//! Context windows around hit lines: expanding each hit to `±N` lines,
//! merging overlapping or adjacent windows, and listing the lines they cover.
use std::ops::RangeInclusive;
use vstd::prelude::*;
use vstd::std_specs::range::RangeInclusiveView;

verus! {

/// The views of a sequence of ranges.
pub open spec fn views(s: Seq<RangeInclusive<usize>>) -> Seq<RangeInclusiveView<usize>> {
    s.map_values(|r: RangeInclusive<usize>| r@)
}

/// The window of `±context_lines` lines around `line`, clamped to
/// `0 ..= total_lines - 1`.
pub open spec fn context_window(line: usize, context_lines: usize, total_lines: usize) -> RangeInclusiveView<
    usize,
> {
    RangeInclusiveView {
        start: if line >= context_lines {
            (line - context_lines) as usize
        } else {
            0
        },
        end: if line + context_lines <= total_lines - 1 {
            (line + context_lines) as usize
        } else {
            (total_lines - 1) as usize
        },
        exhausted: false,
    }
}

/// Inserts `x` after the last element whose start is not greater than its own
/// (a stable insertion by start).
pub open spec fn insert_by_start(s: Seq<RangeInclusiveView<usize>>, x: RangeInclusiveView<usize>) -> Seq<
    RangeInclusiveView<usize>,
>
    decreases s.len(),
{
    if s.len() == 0 {
        seq![x]
    } else if s.last().start <= x.start {
        s.push(x)
    } else {
        insert_by_start(s.drop_last(), x).push(s.last())
    }
}

/// The stable sort of the ranges by their start.
pub open spec fn sort_by_start(s: Seq<RangeInclusiveView<usize>>) -> Seq<RangeInclusiveView<usize>>
    decreases s.len(),
{
    if s.len() == 0 {
        s
    } else {
        insert_by_start(sort_by_start(s.drop_last()), s.last())
    }
}

/// Merging `cur` with the ranges that follow it: a range whose start is at
/// most one past the current end extends the current range; any other range
/// closes it and becomes the current one.
pub open spec fn merge_from(cur: RangeInclusiveView<usize>, rest: Seq<RangeInclusiveView<usize>>) -> Seq<
    RangeInclusiveView<usize>,
>
    decreases rest.len(),
{
    if rest.len() == 0 {
        seq![cur]
    } else if rest[0].start <= cur.end + 1 {
        merge_from(
            RangeInclusiveView {
                start: cur.start,
                end: if cur.end >= rest[0].end {
                    cur.end
                } else {
                    rest[0].end
                },
                exhausted: false,
            },
            rest.drop_first(),
        )
    } else {
        seq![cur] + merge_from(rest[0], rest.drop_first())
    }
}

/// What `merge_ranges` leaves: the ranges sorted by start, then merged.
pub open spec fn merged(s: Seq<RangeInclusiveView<usize>>) -> Seq<RangeInclusiveView<usize>> {
    let t = sort_by_start(s);
    if t.len() == 0 {
        t
    } else {
        merge_from(t[0], t.drop_first())
    }
}

/// The lines that iterating one range yields.
pub open spec fn range_lines(r: RangeInclusiveView<usize>) -> Seq<usize> {
    if r.exhausted || r.start > r.end {
        Seq::empty()
    } else {
        Seq::new((r.end - r.start + 1) as nat, |i: int| (r.start + i) as usize)
    }
}

/// The lines of all ranges, range after range.
pub open spec fn ranges_lines(s: Seq<RangeInclusiveView<usize>>) -> Seq<usize>
    decreases s.len(),
{
    if s.len() == 0 {
        Seq::empty()
    } else {
        ranges_lines(s.drop_last()) + range_lines(s.last())
    }
}

/// Expands every hit line to the window of `±context_lines` lines around it,
/// clamped to the valid line indices.
pub fn expand_context(hit_lines: &[usize], context_lines: usize, total_lines: usize) -> (ranges: Vec<
    RangeInclusive<usize>,
>)
    requires
        total_lines > 0 ==> forall|i: int|
            0 <= i < hit_lines.len() ==> hit_lines[i] + context_lines <= usize::MAX,
    ensures
        ranges.len() == (if hit_lines.len() == 0 || total_lines == 0 {
            0
        } else {
            hit_lines.len()
        }),
        forall|i: int|
            0 <= i < ranges.len() ==> #[trigger] ranges[i]@ == context_window(
                hit_lines[i],
                context_lines,
                total_lines,
            ),
{
    if hit_lines.len() == 0 || total_lines == 0 {
        return Vec::new();
    }
    let max_idx = total_lines - 1;
    let mut out: Vec<RangeInclusive<usize>> = Vec::new();
    for k in 0..hit_lines.len()
        invariant
            total_lines > 0,
            max_idx == total_lines - 1,
            forall|i: int| 0 <= i < hit_lines.len() ==> hit_lines[i] + context_lines <= usize::MAX,
            out.len() == k,
            forall|i: int|
                0 <= i < k ==> #[trigger] out[i]@ == context_window(
                    hit_lines[i],
                    context_lines,
                    total_lines,
                ),
    {
        let line = hit_lines[k];
        let start = if line >= context_lines {
            line - context_lines
        } else {
            0
        };
        let reach = line + context_lines;
        let end = if reach <= max_idx {
            reach
        } else {
            max_idx
        };
        out.push(RangeInclusive::new(start, end));
    }
    out
}

proof fn lemma_insert_position(s: Seq<RangeInclusiveView<usize>>, x: RangeInclusiveView<usize>, j: int)
    requires
        0 <= j <= s.len(),
        forall|k: int| j <= k < s.len() ==> s[k].start > x.start,
        j == 0 || s[j - 1].start <= x.start,
    ensures
        insert_by_start(s, x) == s.insert(j, x),
    decreases s.len(),
{
    if s.len() == 0 {
        assert(s.insert(j, x) =~= seq![x]);
    } else if j == s.len() {
        assert(s.insert(j, x) =~= s.push(x));
    } else {
        lemma_insert_position(s.drop_last(), x, j);
        assert(s.drop_last().insert(j, x).push(s.last()) =~= s.insert(j, x));
    }
}

proof fn lemma_insert_len(s: Seq<RangeInclusiveView<usize>>, x: RangeInclusiveView<usize>)
    ensures
        insert_by_start(s, x).len() == s.len() + 1,
    decreases s.len(),
{
    if s.len() > 0 && s.last().start > x.start {
        lemma_insert_len(s.drop_last(), x);
    }
}

pub proof fn lemma_sort_len(s: Seq<RangeInclusiveView<usize>>)
    ensures
        sort_by_start(s).len() == s.len(),
    decreases s.len(),
{
    if s.len() > 0 {
        lemma_sort_len(s.drop_last());
        lemma_insert_len(sort_by_start(s.drop_last()), s.last());
    }
}


/// A proper window: not exhausted by iteration, and its start not after its end.
pub open spec fn is_window(r: RangeInclusiveView<usize>) -> bool {
    !r.exhausted && r.start <= r.end
}

/// Line `x` lies in one of the ranges.
pub open spec fn covers(s: Seq<RangeInclusiveView<usize>>, x: int) -> bool {
    exists|i: int| #![trigger s[i]] 0 <= i < s.len() && s[i].start <= x <= s[i].end
}

/// Each range ends at least two lines before the next one starts.
pub open spec fn separated(s: Seq<RangeInclusiveView<usize>>) -> bool {
    forall|k: int| 0 <= k < s.len() - 1 ==> #[trigger] s[k].end + 1 < s[k + 1].start
}

/// The starts never decrease.
pub open spec fn sorted_by_start(s: Seq<RangeInclusiveView<usize>>) -> bool {
    forall|i: int, j: int| #![trigger s[i], s[j]] 0 <= i <= j < s.len() ==> s[i].start <= s[j].start
}

proof fn lemma_insert_props(s: Seq<RangeInclusiveView<usize>>, x: RangeInclusiveView<usize>)
    requires
        forall|i: int| 0 <= i < s.len() ==> is_window(#[trigger] s[i]),
        is_window(x),
        sorted_by_start(s),
    ensures
        forall|i: int|
            0 <= i < insert_by_start(s, x).len() ==> is_window(#[trigger] insert_by_start(s, x)[i]),
        sorted_by_start(insert_by_start(s, x)),
        forall|p: int|
            #![trigger covers(insert_by_start(s, x), p)]
            covers(insert_by_start(s, x), p) <==> (covers(s, p) || x.start <= p <= x.end),
    decreases s.len(),
{
    let r = insert_by_start(s, x);
    if s.len() == 0 {
        assert forall|p: int| covers(r, p) <==> (covers(s, p) || x.start <= p <= x.end) by {
            if x.start <= p <= x.end {
                assert(r[0] == x);
            }
        }
    } else if s.last().start <= x.start {
        assert forall|p: int| covers(r, p) <==> (covers(s, p) || x.start <= p <= x.end) by {
            if covers(r, p) {
                let i = choose|i: int| #![trigger r[i]] 0 <= i < r.len() && r[i].start <= p <= r[i].end;
                if i < s.len() {
                    assert(s[i] == r[i]);
                }
            }
            if covers(s, p) {
                let i = choose|i: int| #![trigger s[i]] 0 <= i < s.len() && s[i].start <= p <= s[i].end;
                assert(r[i] == s[i]);
            }
            if x.start <= p <= x.end {
                assert(r[s.len() as int] == x);
            }
        }
    } else {
        let d = s.drop_last();
        lemma_insert_props(d, x);
        let m = insert_by_start(d, x);
        lemma_insert_len(d, x);
        assert(r == m.push(s.last()));
        assert forall|i: int, j: int| 0 <= i <= j < r.len() implies r[i].start <= r[j].start by {
            if j == r.len() - 1 && i < j {
                if i < m.len() {
                    let q = m[i];
                    if q == x {
                    } else {
                        assert(covers(m, q.start as int));
                    }
                }
            }
        }
        assert forall|i: int| 0 <= i < m.len() implies m[i].start <= s.last().start by {
            lemma_insert_elements(d, x, i);
        }
        assert forall|p: int| covers(r, p) <==> (covers(s, p) || x.start <= p <= x.end) by {
            if covers(r, p) {
                let i = choose|i: int| #![trigger r[i]] 0 <= i < r.len() && r[i].start <= p <= r[i].end;
                if i < m.len() {
                    assert(m[i] == r[i]);
                    assert(covers(m, p));
                    if covers(d, p) {
                        let k = choose|k: int| #![trigger d[k]] 0 <= k < d.len() && d[k].start <= p <= d[k].end;
                        assert(s[k] == d[k]);
                    }
                } else {
                    assert(s[s.len() - 1] == r[i]);
                }
            }
            if covers(s, p) {
                let i = choose|i: int| #![trigger s[i]] 0 <= i < s.len() && s[i].start <= p <= s[i].end;
                if i < d.len() {
                    assert(d[i] == s[i]);
                    assert(covers(d, p));
                    assert(covers(m, p));
                    let k = choose|k: int| #![trigger m[k]] 0 <= k < m.len() && m[k].start <= p <= m[k].end;
                    assert(r[k] == m[k]);
                } else {
                    assert(r[r.len() - 1] == s[i]);
                }
            }
            if x.start <= p <= x.end {
                assert(covers(m, p));
                let k = choose|k: int| #![trigger m[k]] 0 <= k < m.len() && m[k].start <= p <= m[k].end;
                assert(r[k] == m[k]);
            }
        }
    }
}

proof fn lemma_insert_elements(s: Seq<RangeInclusiveView<usize>>, x: RangeInclusiveView<usize>, i: int)
    requires
        0 <= i < insert_by_start(s, x).len(),
    ensures
        insert_by_start(s, x)[i] == x || exists|k: int|
            0 <= k < s.len() && s[k] == #[trigger] insert_by_start(s, x)[i],
    decreases s.len(),
{
    lemma_insert_len(s, x);
    let r = insert_by_start(s, x);
    if s.len() == 0 {
    } else if s.last().start <= x.start {
        if i < s.len() {
            assert(s[i] == r[i]);
        }
    } else {
        let d = s.drop_last();
        lemma_insert_len(d, x);
        if i < d.len() + 1 {
            lemma_insert_elements(d, x, i);
            if r[i] != x {
                let k = choose|k: int| #![trigger d[k]] 0 <= k < d.len() && d[k] == insert_by_start(d, x)[i];
                assert(s[k] == d[k]);
            }
        } else {
            assert(s[s.len() - 1] == r[i]);
        }
    }
}


proof fn lemma_sort_props(s: Seq<RangeInclusiveView<usize>>)
    requires
        forall|i: int| 0 <= i < s.len() ==> is_window(#[trigger] s[i]),
    ensures
        forall|i: int|
            0 <= i < sort_by_start(s).len() ==> is_window(#[trigger] sort_by_start(s)[i]),
        sorted_by_start(sort_by_start(s)),
        forall|p: int| #![trigger covers(sort_by_start(s), p)] covers(sort_by_start(s), p) <==> covers(s, p),
    decreases s.len(),
{
    if s.len() > 0 {
        let d = s.drop_last();
        lemma_sort_props(d);
        lemma_insert_props(sort_by_start(d), s.last());
        assert forall|p: int| #![trigger covers(sort_by_start(s), p)] covers(sort_by_start(s), p) <==> covers(s, p) by {
            if covers(s, p) {
                let i = choose|i: int| #![trigger s[i]] 0 <= i < s.len() && s[i].start <= p <= s[i].end;
                if i < d.len() {
                    assert(d[i] == s[i]);
                    assert(covers(d, p));
                }
            }
            if covers(d, p) {
                let i = choose|i: int| #![trigger d[i]] 0 <= i < d.len() && d[i].start <= p <= d[i].end;
                assert(s[i] == d[i]);
            }
        }
    }
}

proof fn lemma_merge_from_props(cur: RangeInclusiveView<usize>, rest: Seq<RangeInclusiveView<usize>>)
    requires
        is_window(cur),
        forall|i: int| 0 <= i < rest.len() ==> is_window(#[trigger] rest[i]),
        sorted_by_start(rest),
        rest.len() > 0 ==> cur.start <= rest[0].start,
    ensures
        merge_from(cur, rest).len() >= 1,
        merge_from(cur, rest).len() <= rest.len() + 1,
        merge_from(cur, rest)[0].start == cur.start,
        forall|i: int|
            0 <= i < merge_from(cur, rest).len() ==> is_window(#[trigger] merge_from(cur, rest)[i]),
        separated(merge_from(cur, rest)),
        forall|p: int|
            #![trigger covers(merge_from(cur, rest), p)]
            covers(merge_from(cur, rest), p) <==> (cur.start <= p <= cur.end || covers(rest, p)),
    decreases rest.len(),
{
    let out = merge_from(cur, rest);
    if rest.len() == 0 {
        assert forall|p: int| #![trigger covers(out, p)] covers(out, p) <==> (cur.start <= p <= cur.end || covers(rest, p)) by {
            if cur.start <= p <= cur.end {
                assert(out[0] == cur);
            }
        }
    } else {
        let r0 = rest[0];
        let tail = rest.drop_first();
        if r0.start <= cur.end + 1 {
            let nc = RangeInclusiveView {
                start: cur.start,
                end: if cur.end >= r0.end {
                    cur.end
                } else {
                    r0.end
                },
                exhausted: false,
            };
            assert(tail.len() > 0 ==> tail[0] == rest[1]);
            lemma_merge_from_props(nc, tail);
            assert forall|p: int| #![trigger covers(out, p)] covers(out, p) <==> (cur.start <= p <= cur.end || covers(rest, p)) by {
                if covers(rest, p) {
                    let i = choose|i: int| #![trigger rest[i]] 0 <= i < rest.len() && rest[i].start <= p <= rest[i].end;
                    if i > 0 {
                        assert(tail[i - 1] == rest[i]);
                        assert(covers(tail, p));
                    }
                }
                if covers(tail, p) {
                    let i = choose|i: int| #![trigger tail[i]] 0 <= i < tail.len() && tail[i].start <= p <= tail[i].end;
                    assert(rest[i + 1] == tail[i]);
                }
                if cur.start <= p <= cur.end {
                    assert(nc.start <= p <= nc.end);
                }
                if r0.start <= p <= r0.end {
                    assert(rest[0] == r0);
                }
            }
        } else {
            assert(tail.len() > 0 ==> tail[0] == rest[1]);
            lemma_merge_from_props(r0, tail);
            let m = merge_from(r0, tail);
            assert(out == seq![cur] + m);
            assert forall|k: int| 0 <= k < out.len() - 1 implies #[trigger] out[k].end + 1 < out[k + 1].start by {
                if k == 0 {
                    assert(out[1] == m[0]);
                } else {
                    assert(out[k] == m[k - 1]);
                    assert(out[k + 1] == m[k]);
                }
            }
            assert forall|i: int| 0 <= i < out.len() implies is_window(#[trigger] out[i]) by {
                if i > 0 {
                    assert(out[i] == m[i - 1]);
                }
            }
            assert forall|p: int| #![trigger covers(out, p)] covers(out, p) <==> (cur.start <= p <= cur.end || covers(rest, p)) by {
                if covers(out, p) {
                    let i = choose|i: int| #![trigger out[i]] 0 <= i < out.len() && out[i].start <= p <= out[i].end;
                    if i > 0 {
                        assert(out[i] == m[i - 1]);
                        assert(covers(m, p));
                    }
                }
                if covers(rest, p) {
                    let i = choose|i: int| #![trigger rest[i]] 0 <= i < rest.len() && rest[i].start <= p <= rest[i].end;
                    if i > 0 {
                        assert(tail[i - 1] == rest[i]);
                        assert(covers(tail, p));
                    }
                }
                if covers(tail, p) {
                    let i = choose|i: int| #![trigger tail[i]] 0 <= i < tail.len() && tail[i].start <= p <= tail[i].end;
                    assert(rest[i + 1] == tail[i]);
                }
                if covers(m, p) {
                    let i = choose|i: int| #![trigger m[i]] 0 <= i < m.len() && m[i].start <= p <= m[i].end;
                    assert(out[i + 1] == m[i]);
                }
                if cur.start <= p <= cur.end {
                    assert(out[0] == cur);
                }
                if r0.start <= p <= r0.end {
                    assert(covers(m, p));
                }
            }
        }
    }
}

/// Merging windows neither loses nor adds a line: when every range is a
/// proper window, the merged ranges cover exactly the lines the input ranges
/// cover, are themselves proper windows, are no more numerous than the input,
/// and are sorted with at least one uncovered line between consecutive ones.
pub proof fn lemma_merge_ranges_covers_same_lines(s: Seq<RangeInclusiveView<usize>>)
    requires
        forall|i: int| 0 <= i < s.len() ==> is_window(#[trigger] s[i]),
    ensures
        forall|p: int| #![trigger covers(merged(s), p)] covers(merged(s), p) <==> covers(s, p),
        forall|i: int| 0 <= i < merged(s).len() ==> is_window(#[trigger] merged(s)[i]),
        separated(merged(s)),
        merged(s).len() <= s.len(),
        s.len() > 0 ==> merged(s).len() > 0,
{
    lemma_sort_props(s);
    lemma_sort_len(s);
    let t = sort_by_start(s);
    if t.len() > 0 {
        let tail = t.drop_first();
        assert(sorted_by_start(tail));
        assert(tail.len() > 0 ==> tail[0] == t[1]);
        lemma_merge_from_props(t[0], tail);
        assert forall|p: int| #![trigger covers(merged(s), p)] covers(merged(s), p) <==> covers(s, p) by {
            assert(covers(t, p) <==> covers(s, p));
            if covers(t, p) {
                let i = choose|i: int| #![trigger t[i]] 0 <= i < t.len() && t[i].start <= p <= t[i].end;
                if i > 0 {
                    assert(tail[i - 1] == t[i]);
                    assert(covers(tail, p));
                }
            }
            if covers(tail, p) {
                let i = choose|i: int| #![trigger tail[i]] 0 <= i < tail.len() && tail[i].start <= p <= tail[i].end;
                assert(t[i + 1] == tail[i]);
            }
        }
    }
}

/// Sorts the ranges by start and merges overlapping or adjacent ones.
pub fn merge_ranges(ranges: &mut Vec<RangeInclusive<usize>>)
    requires
        old(ranges).len() > 1 ==> forall|k: int|
            0 <= k < old(ranges).len() - 1 ==> #[trigger] sort_by_start(views(old(ranges)@))[k].end
                < usize::MAX,
    ensures
        views(final(ranges)@) == merged(views(old(ranges)@)),
{
    let ghost orig = views(ranges@);
    if ranges.len() <= 1 {
        proof {
            if orig.len() == 1 {
                assert(orig.drop_last() =~= Seq::<RangeInclusiveView<usize>>::empty());
                assert(sort_by_start(orig.drop_last()) =~= Seq::<RangeInclusiveView<usize>>::empty());
                assert(insert_by_start(Seq::<RangeInclusiveView<usize>>::empty(), orig.last()) =~= seq![orig.last()]);
                assert(sort_by_start(orig) =~= orig);
                assert(merge_from(orig[0], orig.drop_first()) =~= orig);
            }
        }
        return ;
    }
    let mut input: Vec<RangeInclusive<usize>> = Vec::new();
    std::mem::swap(&mut input, ranges);
    let n = input.len();
    let mut sorted: Vec<RangeInclusive<usize>> = Vec::new();
    let mut consumed: usize = 0;
    proof {
        assert(orig.take(0) =~= Seq::<RangeInclusiveView<usize>>::empty());
        assert(views(sorted@) =~= sort_by_start(orig.take(0)));
        assert(views(input@) =~= orig.skip(0));
    }
    while input.len() > 0
        invariant
            n == orig.len(),
            consumed + input.len() == n,
            views(sorted@) == sort_by_start(orig.take(consumed as int)),
            views(input@) == orig.skip(consumed as int),
        decreases input.len(),
    {
        let ghost input_before = views(input@);
        let r = input.remove(0);
        let ghost sorted_before = sorted@;
        let key = *r.start();
        let mut j = sorted.len();
        while j > 0 && *sorted[j - 1].start() > key
            invariant
                j <= sorted.len(),
                forall|k: int| j <= k < sorted.len() ==> sorted@[k]@.start > key,
            decreases j,
        {
            j -= 1;
        }
        proof {
            let s = views(sorted@);
            lemma_insert_position(s, r@, j as int);
            let t = orig.take(consumed + 1);
            assert(t.drop_last() =~= orig.take(consumed as int));
            assert(t.last() == orig[consumed as int]);
            assert(orig.skip(consumed as int)[0] == orig[consumed as int]);
        }
        sorted.insert(j, r);
        proof {
            assert(views(sorted@) =~= views(sorted_before).insert(j as int, r@));
        }
        consumed += 1;
        proof {
            assert(views(input@) =~= input_before.drop_first());
            assert(views(input@) =~= orig.skip(consumed as int));
        }
    }
    proof {
        assert(orig.take(n as int) =~= orig);
        lemma_sort_len(orig);
    }
    let ghost t = sort_by_start(orig);
    let mut merged_out: Vec<RangeInclusive<usize>> = Vec::new();
    let ghost sb = views(sorted@);
    let mut current = sorted.remove(0);
    proof {
        assert(current@ == sb[0]);
        assert(sb =~= t);
        assert(views(sorted@) =~= t.drop_first());
    }
    while sorted.len() > 0
        invariant
            t.len() == n,
            n > 1,
            forall|k: int| 0 <= k < n - 1 ==> #[trigger] t[k].end < usize::MAX,
            views(sorted@) == t.skip(n - sorted.len()),
            sorted.len() < n,
            sorted.len() > 0 ==> current@.end < usize::MAX,
            views(merged_out@) + merge_from(current@, views(sorted@)) == merge_from(
                t[0],
                t.drop_first(),
            ),
        decreases sorted.len(),
    {
        let ghost before = views(sorted@);
        let ghost cur_before = current@;
        let r = sorted.remove(0);
        proof {
            assert(before[0] == r@);
            assert(views(sorted@) =~= before.drop_first());
            assert(t.skip(n - sorted.len()) =~= before.drop_first());
            if sorted.len() > 0 {
                assert(t[n - before.len()] == r@);
            }
        }
        let cs = *current.start();
        let ce = *current.end();
        let rs = *r.start();
        let re = *r.end();
        if rs <= ce + 1 {
            let ne = if ce >= re {
                ce
            } else {
                re
            };
            current = RangeInclusive::new(cs, ne);
        } else {
            let ghost prev = views(merged_out@);
            merged_out.push(current);
            proof {
                assert(views(merged_out@) =~= prev.push(cur_before));
                assert(seq![cur_before] + merge_from(r@, before.drop_first()) == merge_from(
                    cur_before,
                    before,
                ));
                assert(prev + merge_from(cur_before, before) =~= views(
                    merged_out@,
                ) + merge_from(r@, before.drop_first()));
            }
            current = r;
        }
    }
    let ghost prev = views(merged_out@);
    merged_out.push(current);
    proof {
        assert(views(merged_out@) =~= prev.push(current@));
        assert(views(sorted@) =~= Seq::<RangeInclusiveView<usize>>::empty());
    }
    *ranges = merged_out;
}

/// Lists the lines of the ranges, range after range.
pub fn ranges_to_line_set(ranges: &[RangeInclusive<usize>]) -> (lines: Vec<usize>)
    ensures
        lines@ == ranges_lines(views(ranges@)),
{
    let mut lines: Vec<usize> = Vec::new();
    for k in 0..ranges.len()
        invariant
            lines@ == ranges_lines(views(ranges@).take(k as int)),
    {
        let r = &ranges[k];
        proof {
            let v = views(ranges@);
            assert(v.take(k + 1).drop_last() =~= v.take(k as int));
            assert(v.take(k + 1).last() == r@);
        }
        if !r.is_empty() {
            let start = *r.start();
            let end = *r.end();
            assert(!r@.exhausted && r@.start <= r@.end);
            let ghost base = lines@;
            let mut i = start;
            loop
                invariant_except_break
                    start <= i <= end,
                    lines@ == base + range_lines(r@).take(i - start),
                invariant
                    r@.start == start,
                    r@.end == end,
                    !r@.exhausted,
                    start <= end,
                ensures
                    lines@ == base + range_lines(r@),
                decreases end - i,
            {
                lines.push(i);
                proof {
                    assert(range_lines(r@).take(i - start + 1) =~= range_lines(r@).take(
                        i - start,
                    ).push(i));
                }
                if i == end {
                    proof {
                        assert(range_lines(r@).take(end - start + 1) =~= range_lines(r@));
                    }
                    break ;
                }
                i += 1;
            }
        } else {
            proof {
                assert(range_lines(r@) =~= Seq::<usize>::empty());
            }
        }
        proof {
            assert(lines@ =~= ranges_lines(views(ranges@).take(k + 1)));
        }
    }
    proof {
        assert(views(ranges@).take(ranges@.len() as int) =~= views(ranges@));
    }
    lines
}


/// Sorting keeps a bound on the ends of the ranges.
pub proof fn lemma_sort_keeps_end_bound(s: Seq<RangeInclusiveView<usize>>, bound: int)
    requires
        forall|i: int| 0 <= i < s.len() ==> #[trigger] s[i].end <= bound,
    ensures
        forall|i: int| 0 <= i < sort_by_start(s).len() ==> #[trigger] sort_by_start(s)[i].end <= bound,
    decreases s.len(),
{
    if s.len() > 0 {
        let d = s.drop_last();
        lemma_sort_keeps_end_bound(d, bound);
        let t = sort_by_start(d);
        assert forall|i: int| 0 <= i < sort_by_start(s).len() implies #[trigger] sort_by_start(s)[i].end <= bound by {
            lemma_insert_elements(t, s.last(), i);
            if insert_by_start(t, s.last())[i] != s.last() {
                let k = choose|k: int| 0 <= k < t.len() && t[k] == #[trigger] insert_by_start(t, s.last())[i];
            }
        }
    }
}


/// The lines of proper windows are exactly the lines they cover.
pub proof fn lemma_ranges_lines_cover(s: Seq<RangeInclusiveView<usize>>)
    requires
        forall|i: int| 0 <= i < s.len() ==> is_window(#[trigger] s[i]),
    ensures
        forall|x: usize| #![trigger ranges_lines(s).contains(x)] ranges_lines(s).contains(x) <==> covers(s, x as int),
    decreases s.len(),
{
    if s.len() > 0 {
        let d = s.drop_last();
        lemma_ranges_lines_cover(d);
        let r = s.last();
        let a = ranges_lines(d);
        let b = range_lines(r);
        assert forall|x: usize| #![trigger ranges_lines(s).contains(x)] ranges_lines(s).contains(x) <==> covers(s, x as int) by {
            assert(ranges_lines(s) == a + b);
            if ranges_lines(s).contains(x) {
                let i = choose|i: int| 0 <= i < (a + b).len() && (a + b)[i] == x;
                if i < a.len() {
                    assert(a[i] == x);
                    assert(a.contains(x));
                    let k = choose|k: int| #![trigger d[k]] 0 <= k < d.len() && d[k].start <= x <= d[k].end;
                    assert(s[k] == d[k]);
                } else {
                    assert(b[i - a.len()] == x);
                    assert(s[s.len() - 1] == r);
                }
            }
            if covers(s, x as int) {
                let k = choose|k: int| #![trigger s[k]] 0 <= k < s.len() && s[k].start <= x <= s[k].end;
                if k < d.len() {
                    assert(d[k] == s[k]);
                    assert(covers(d, x as int));
                    assert(ranges_lines(d).contains(x));
                    assert(a.contains(x));
                    let i = choose|i: int| 0 <= i < a.len() && a[i] == x;
                    assert((a + b)[i] == x);
                } else {
                    let i = x - r.start;
                    assert(b[i] == x);
                    assert((a + b)[a.len() + i] == x);
                }
            }
        }
    }
}

/// The lines of sorted, separated windows come in strictly increasing order,
/// none after the end of the last window.
pub proof fn lemma_ranges_lines_increasing(s: Seq<RangeInclusiveView<usize>>)
    requires
        forall|i: int| 0 <= i < s.len() ==> is_window(#[trigger] s[i]),
        separated(s),
    ensures
        forall|i: int, j: int|
            0 <= i < j < ranges_lines(s).len() ==> #[trigger] ranges_lines(s)[i] < #[trigger] ranges_lines(s)[j],
        s.len() > 0 ==> forall|i: int| 0 <= i < ranges_lines(s).len() ==> #[trigger] ranges_lines(s)[i] <= s.last().end,
    decreases s.len(),
{
    if s.len() > 0 {
        let d = s.drop_last();
        assert forall|k: int| 0 <= k < d.len() - 1 implies #[trigger] d[k].end + 1 < d[k + 1].start by {
            assert(s[k].end + 1 < s[k + 1].start);
        }
        lemma_ranges_lines_increasing(d);
        let r = s.last();
        let a = ranges_lines(d);
        let b = range_lines(r);
        if d.len() > 0 {
            assert(s[d.len() - 1].end + 1 < s[d.len() as int].start);
        }
        assert forall|i: int, j: int| 0 <= i < j < (a + b).len() implies #[trigger] (a + b)[i] < #[trigger] (a + b)[j] by {
            if j < a.len() {
            } else if i >= a.len() {
            } else {
                assert(a[i] <= d.last().end);
            }
        }
        assert forall|i: int| 0 <= i < (a + b).len() implies #[trigger] (a + b)[i] <= r.end by {
            if i < a.len() {
                assert(a[i] <= d.last().end);
            }
        }
    }
}

} // verus!
