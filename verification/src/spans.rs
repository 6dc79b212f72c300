//! Merging spans of time.

use vstd::prelude::*;

use crate::graph;

verus! {

/// Spans are ordered by their start, then by their end.
pub open spec fn not_after(a: (int, int), b: (int, int)) -> bool {
    a.0 < b.0 || (a.0 == b.0 && a.1 <= b.1)
}

/// A span put in its place among ordered spans, after those equal to it.
pub open spec fn placed(sorted: Seq<(int, int)>, span: (int, int)) -> Seq<(int, int)>
    decreases sorted.len(),
{
    if sorted.len() == 0 || not_after(sorted.last(), span) {
        sorted.push(span)
    } else {
        placed(sorted.drop_last(), span).push(sorted.last())
    }
}

/// Spans in order.
pub open spec fn ordered(spans: Seq<(int, int)>) -> Seq<(int, int)>
    decreases spans.len(),
{
    if spans.len() == 0 {
        Seq::empty()
    } else {
        placed(ordered(spans.drop_last()), spans.last())
    }
}

/// Ordered spans with those that overlap, touch, or lie within `slack` of one
/// another joined.
pub open spec fn fused(sorted: Seq<(int, int)>, slack: int) -> Seq<(int, int)>
    decreases sorted.len(),
{
    if sorted.len() == 0 {
        Seq::empty()
    } else {
        let before = fused(sorted.drop_last(), slack);
        let (s, e) = sorted.last();
        if before.len() > 0 && s <= before.last().1 + slack {
            before.update(
                before.len() - 1,
                (before.last().0, if e > before.last().1 {
                    e
                } else {
                    before.last().1
                }),
            )
        } else {
            before.push((s, e))
        }
    }
}

/// Spans merged, bridging gaps up to `slack`.
pub open spec fn merged(spans: Seq<(int, int)>, slack: int) -> Seq<(int, int)> {
    fused(ordered(spans), slack)
}

/// Whether some span holds a moment.
pub open spec fn any_holds(spans: Seq<(int, int)>, t: int) -> bool {
    exists|i: int| 0 <= i < spans.len() && (#[trigger] spans[i]).0 <= t <= spans[i].1
}

/// No span ends before it starts.
pub open spec fn forward(spans: Seq<(int, int)>) -> bool {
    forall|i: int| 0 <= i < spans.len() ==> (#[trigger] spans[i]).0 <= spans[i].1
}

fn comes_first(a: (i64, i64), b: (i64, i64)) -> (r: bool)
    ensures
        r == not_after((a.0 as int, a.1 as int), (b.0 as int, b.1 as int)),
{
    a.0 < b.0 || (a.0 == b.0 && a.1 <= b.1)
}

/// Put a span in its place.
fn place(sorted: &mut Vec<(i64, i64)>, span: (i64, i64))
    ensures
        graph::span_views(final(sorted)@) == placed(
            graph::span_views(old(sorted)@),
            (span.0 as int, span.1 as int),
        ),
{
    let ghost start = graph::span_views(sorted@);
    let ghost key = (span.0 as int, span.1 as int);
    let n: usize = sorted.len();
    let mut at: usize = n;
    assert(start.take(n as int) =~= start);
    assert(start.skip(n as int) =~= Seq::empty());
    while at > 0 && !comes_first(sorted[at - 1], span)
        invariant
            at <= n,
            n == sorted@.len(),
            start == graph::span_views(sorted@),
            key == (span.0 as int, span.1 as int),
            placed(start, key) =~= placed(start.take(at as int), key) + start.skip(at as int),
        decreases at,
    {
        proof {
            let head = start.take(at as int);
            assert(head.last() == start[at - 1]);
            assert(head.drop_last() =~= start.take(at - 1));
            assert(start.skip(at - 1) =~= seq![start[at - 1]] + start.skip(at as int));
        }
        at -= 1;
    }
    proof {
        let head = start.take(at as int);
        if at > 0 {
            assert(head.last() == start[at - 1]);
        }
        assert(placed(head, key) == head.push(key));
    }
    sorted.insert(at, span);
    assert(graph::span_views(sorted@) =~= start.take(at as int).push(key) + start.skip(at as int));
}

/// Merge spans, bridging gaps up to `slack`.
pub fn merge_within(runs: &[(i64, i64)], slack: i64) -> (out: Vec<(i64, i64)>)
    requires
        forall|i: int|
            0 <= i < runs@.len() ==> (#[trigger] runs@[i]).1 + slack <= i64::MAX && runs@[i].1
                + slack >= i64::MIN,
    ensures
        graph::span_views(out@) == merged(graph::span_views(runs@), slack as int),
{
    let ghost all = graph::span_views(runs@);
    let mut sorted: Vec<(i64, i64)> = Vec::new();
    let n: usize = runs.len();
    let mut i: usize = 0;
    assert(all.take(0) =~= Seq::empty());
    assert(graph::span_views(sorted@) =~= Seq::empty());
    while i < n
        invariant
            i <= n,
            n == runs@.len(),
            all == graph::span_views(runs@),
            graph::span_views(sorted@) == ordered(all.take(i as int)),
        decreases n - i,
    {
        assert(all.take(i + 1).drop_last() =~= all.take(i as int));
        assert(all.take(i + 1).last() == all[i as int]);
        place(&mut sorted, runs[i]);
        i += 1;
    }
    assert(all.take(n as int) =~= all);
    let ghost seq = graph::span_views(sorted@);
    proof {
        lemma_ordered_ends(all, slack as int);
    }
    let mut out: Vec<(i64, i64)> = Vec::new();
    let m: usize = sorted.len();
    let mut j: usize = 0;
    assert(seq.take(0) =~= Seq::empty());
    assert(graph::span_views(out@) =~= Seq::empty());
    while j < m
        invariant
            j <= m,
            m == sorted@.len(),
            seq == graph::span_views(sorted@),
            graph::span_views(out@) == fused(seq.take(j as int), slack as int),
            forall|k: int|
                0 <= k < seq.len() ==> i64::MIN <= (#[trigger] seq[k]).1 + slack <= i64::MAX,
            forall|k: int|
                0 <= k < out@.len() ==> i64::MIN <= (#[trigger] out@[k]).1 + slack <= i64::MAX,
        decreases m - j,
    {
        assert(seq.take(j + 1).drop_last() =~= seq.take(j as int));
        assert(seq.take(j + 1).last() == seq[j as int]);
        let (s, e): (i64, i64) = sorted[j];
        let ghost before = graph::span_views(out@);
        let k: usize = out.len();
        if k > 0 && s <= out[k - 1].1 + slack {
            let last: (i64, i64) = out[k - 1];
            let end: i64 = if e > last.1 { e } else { last.1 };
            out.set(k - 1, (last.0, end));
            assert(graph::span_views(out@) =~= before.update(
                before.len() - 1,
                (last.0 as int, end as int),
            ));
        } else {
            out.push((s, e));
            assert(graph::span_views(out@) =~= before.push((s as int, e as int)));
        }
        j += 1;
    }
    assert(seq.take(m as int) =~= seq);
    out
}

/// Merge overlapping or touching spans.
pub fn merge_overlaps(runs: &[(i64, i64)]) -> (out: Vec<(i64, i64)>)
    ensures
        graph::span_views(out@) == merged(graph::span_views(runs@), 0),
{
    merge_within(runs, 0)
}

// ---------------------------------------------------------------------------
// Ordering keeps the spans
// ---------------------------------------------------------------------------

proof fn lemma_placed_members(sorted: Seq<(int, int)>, span: (int, int))
    ensures
        placed(sorted, span).len() == sorted.len() + 1,
        forall|i: int|
            0 <= i < placed(sorted, span).len() ==> (#[trigger] placed(sorted, span)[i]) == span
                || sorted.contains(placed(sorted, span)[i]),
        placed(sorted, span).contains(span),
        forall|i: int|
            0 <= i < sorted.len() ==> placed(sorted, span).contains(#[trigger] sorted[i]),
    decreases sorted.len(),
{
    let all = placed(sorted, span);
    if sorted.len() == 0 || not_after(sorted.last(), span) {
        assert(all[all.len() - 1] == span);
        assert forall|i: int| 0 <= i < sorted.len() implies all.contains(#[trigger] sorted[i]) by {
            assert(all[i] == sorted[i]);
        }
    } else {
        let prev = sorted.drop_last();
        lemma_placed_members(prev, span);
        let inner = placed(prev, span);
        let at = choose|i: int| 0 <= i < inner.len() && inner[i] == span;
        assert(all[at] == span);
        assert forall|i: int| 0 <= i < sorted.len() implies all.contains(#[trigger] sorted[i]) by {
            if i < prev.len() {
                assert(prev[i] == sorted[i]);
                let k = choose|k: int| 0 <= k < inner.len() && inner[k] == prev[i];
                assert(all[k] == sorted[i]);
            } else {
                assert(all[all.len() - 1] == sorted[i]);
            }
        }
        assert forall|i: int| 0 <= i < all.len() implies (#[trigger] all[i]) == span
            || sorted.contains(all[i]) by {
            if i < inner.len() {
                assert(all[i] == inner[i]);
                if inner[i] != span {
                    let k = choose|k: int| 0 <= k < prev.len() && prev[k] == inner[i];
                    assert(sorted[k] == all[i]);
                }
            } else {
                assert(sorted[sorted.len() - 1] == all[i]);
            }
        }
    }
}

pub proof fn lemma_ordered_members(spans: Seq<(int, int)>)
    ensures
        ordered(spans).len() == spans.len(),
        forall|i: int|
            0 <= i < ordered(spans).len() ==> spans.contains(#[trigger] ordered(spans)[i]),
        forall|i: int| 0 <= i < spans.len() ==> ordered(spans).contains(#[trigger] spans[i]),
    decreases spans.len(),
{
    if spans.len() > 0 {
        let prev = spans.drop_last();
        lemma_ordered_members(prev);
        lemma_placed_members(ordered(prev), spans.last());
        let all = ordered(spans);
        assert forall|i: int| 0 <= i < all.len() implies spans.contains(#[trigger] all[i]) by {
            if all[i] == spans.last() {
                assert(spans[spans.len() - 1] == all[i]);
            } else {
                let k = choose|k: int| 0 <= k < ordered(prev).len() && ordered(prev)[k] == all[i];
                let m = choose|m: int| 0 <= m < prev.len() && prev[m] == ordered(prev)[k];
                assert(spans[m] == all[i]);
            }
        }
        assert forall|i: int| 0 <= i < spans.len() implies all.contains(#[trigger] spans[i]) by {
            if i < prev.len() {
                assert(prev[i] == spans[i]);
                let k = choose|k: int| 0 <= k < ordered(prev).len() && ordered(prev)[k] == prev[i];
                assert(all.contains(ordered(prev)[k]));
            }
        }
    }
}

proof fn lemma_ordered_ends(spans: Seq<(int, int)>, slack: int)
    requires
        forall|i: int|
            0 <= i < spans.len() ==> i64::MIN <= (#[trigger] spans[i]).1 + slack <= i64::MAX,
    ensures
        forall|i: int|
            0 <= i < ordered(spans).len() ==> i64::MIN <= (#[trigger] ordered(spans)[i]).1 + slack
                <= i64::MAX,
{
    lemma_ordered_members(spans);
    assert forall|i: int| 0 <= i < ordered(spans).len() implies i64::MIN <= (
    #[trigger] ordered(spans)[i]).1 + slack <= i64::MAX by {
        let k = choose|k: int| 0 <= k < spans.len() && spans[k] == ordered(spans)[i];
        assert(spans[k].1 + slack == ordered(spans)[i].1 + slack);
    }
}

/// Starts come in order.
spec fn starts_ascend(spans: Seq<(int, int)>) -> bool {
    forall|i: int, j: int|
        0 <= i <= j < spans.len() ==> (#[trigger] spans[i]).0 <= (#[trigger] spans[j]).0
}

proof fn lemma_placed_ascends(sorted: Seq<(int, int)>, span: (int, int))
    requires
        starts_ascend(sorted),
    ensures
        starts_ascend(placed(sorted, span)),
    decreases sorted.len(),
{
    let all = placed(sorted, span);
    if sorted.len() == 0 {
    } else if not_after(sorted.last(), span) {
        assert forall|i: int, j: int| 0 <= i <= j < all.len() implies (#[trigger] all[i]).0 <= (
        #[trigger] all[j]).0 by {
            if i < sorted.len() {
                assert(sorted[i].0 <= sorted[sorted.len() - 1].0);
            }
        }
    } else {
        let prev = sorted.drop_last();
        lemma_placed_ascends(prev, span);
        lemma_placed_members(prev, span);
        let inner = placed(prev, span);
        assert forall|i: int, j: int| 0 <= i <= j < all.len() implies (#[trigger] all[i]).0 <= (
        #[trigger] all[j]).0 by {
            if j < inner.len() {
                assert(inner[i].0 <= inner[j].0);
            } else if i < inner.len() {
                assert(all[i] == inner[i]);
                if inner[i] != span {
                    let k = choose|k: int| 0 <= k < prev.len() && prev[k] == inner[i];
                    assert(sorted[k].0 <= sorted[sorted.len() - 1].0);
                }
            }
        }
    }
}

proof fn lemma_ordered_ascends(spans: Seq<(int, int)>)
    ensures
        starts_ascend(ordered(spans)),
    decreases spans.len(),
{
    if spans.len() > 0 {
        lemma_ordered_ascends(spans.drop_last());
        lemma_placed_ascends(ordered(spans.drop_last()), spans.last());
    }
}

// ---------------------------------------------------------------------------
// Fusing keeps the moments
// ---------------------------------------------------------------------------

proof fn lemma_fused(sorted: Seq<(int, int)>, slack: int)
    requires
        starts_ascend(sorted),
        forward(sorted),
        slack >= 0,
    ensures
        forward(fused(sorted, slack)),
        fused(sorted, slack).len() <= sorted.len(),
        sorted.len() > 0 ==> fused(sorted, slack).len() > 0 && fused(sorted, slack).last().0
            <= sorted.last().0,
        forall|t: int| #[trigger] any_holds(sorted, t) ==> any_holds(fused(sorted, slack), t),
        slack == 0 ==> forall|t: int| #[trigger]
            any_holds(fused(sorted, slack), t) ==> any_holds(sorted, t),
        forall|i: int, j: int|
            0 <= i < j < fused(sorted, slack).len() ==> (#[trigger] fused(sorted, slack)[i]).1
                + slack < (#[trigger] fused(sorted, slack)[j]).0,
        forall|i: int|
            0 <= i < fused(sorted, slack).len() ==> (exists|k: int|
                0 <= k < sorted.len() && (#[trigger] sorted[k]).0 == fused(sorted, slack)[i].0)
                && (exists|k: int|
                0 <= k < sorted.len() && (#[trigger] sorted[k]).1 == (#[trigger] fused(
                    sorted,
                    slack,
                )[i]).1),
    decreases sorted.len(),
{
    if sorted.len() > 0 {
        let prev = sorted.drop_last();
        lemma_fused(prev, slack);
        let before = fused(prev, slack);
        let all = fused(sorted, slack);
        let (s, e) = sorted.last();
        let n = before.len() as int;
        if prev.len() > 0 {
            assert(prev.last().0 == sorted[prev.len() - 1].0);
            assert(prev.last().0 <= s);
        }
        let joins = before.len() > 0 && s <= before.last().1 + slack;
        assert forall|t: int| #[trigger] any_holds(sorted, t) implies any_holds(all, t) by {
            let i = choose|i: int| 0 <= i < sorted.len() && (#[trigger] sorted[i]).0 <= t <= sorted[i].1;
            if i < prev.len() {
                assert(prev[i] == sorted[i]);
                assert(any_holds(prev, t));
                let k = choose|k: int| 0 <= k < before.len() && (#[trigger] before[k]).0 <= t <= before[k].1;
                assert(all[k].0 <= t <= all[k].1);
            } else {
                if joins {
                    assert(all[n - 1].0 <= t <= all[n - 1].1);
                } else {
                    assert(all[n] == (s, e));
                }
            }
        }
        if slack == 0 {
            assert forall|t: int| #[trigger] any_holds(all, t) implies any_holds(sorted, t) by {
                let i = choose|i: int| 0 <= i < all.len() && (#[trigger] all[i]).0 <= t <= all[i].1;
                if i < n && before[i].0 <= t <= before[i].1 {
                    assert(any_holds(before, t));
                    let k = choose|k: int|
                        0 <= k < prev.len() && (#[trigger] prev[k]).0 <= t <= prev[k].1;
                    assert(sorted[k].0 <= t <= sorted[k].1);
                } else {
                    let last = sorted.len() - 1;
                    assert(sorted[last].0 <= t <= sorted[last].1);
                }
            }
        }
        assert forall|i: int| 0 <= i < all.len() implies (exists|k: int|
            0 <= k < sorted.len() && (#[trigger] sorted[k]).0 == all[i].0) && (exists|k: int|
            0 <= k < sorted.len() && (#[trigger] sorted[k]).1 == (#[trigger] all[i]).1) by {
            let last = sorted.len() - 1;
            if i < n {
                let a = choose|k: int| 0 <= k < prev.len() && (#[trigger] prev[k]).0 == before[i].0;
                let b = choose|k: int| 0 <= k < prev.len() && (#[trigger] prev[k]).1 == before[i].1;
                assert(sorted[a].0 == all[i].0);
                assert(sorted[b] == prev[b]);
                if all[i].1 != before[i].1 {
                    assert(sorted[last].1 == all[i].1);
                } else {
                    assert(sorted[b].1 == all[i].1);
                }
            } else {
                assert(sorted[last].0 == all[i].0);
                assert(sorted[last].1 == all[i].1);
            }
        }
        assert forall|i: int, j: int| 0 <= i < j < all.len() implies (#[trigger] all[i]).1 + slack
            < (#[trigger] all[j]).0 by {
            if j < n {
                assert(before[i].1 + slack < before[j].0);
            } else {
                if i < n - 1 {
                    assert(before[i].1 + slack < before[n - 1].0);
                }
            }
        }
    }
}

/// Merging loses no moment: whatever a span held, a merged span holds.
pub proof fn law_merging_keeps_every_moment(spans: Seq<(int, int)>, slack: int, t: int)
    requires
        forward(spans),
        slack >= 0,
        any_holds(spans, t),
    ensures
        any_holds(merged(spans, slack), t),
{
    lemma_ordered_members(spans);
    lemma_ordered_ascends(spans);
    let sorted = ordered(spans);
    assert(forward(sorted)) by {
        assert forall|i: int| 0 <= i < sorted.len() implies (#[trigger] sorted[i]).0
            <= sorted[i].1 by {
            let k = choose|k: int| 0 <= k < spans.len() && spans[k] == sorted[i];
            assert(spans[k].0 <= spans[k].1);
        }
    }
    lemma_fused(sorted, slack);
    let i = choose|i: int| 0 <= i < spans.len() && (#[trigger] spans[i]).0 <= t <= spans[i].1;
    let k = choose|k: int| 0 <= k < sorted.len() && sorted[k] == spans[i];
    assert(sorted[k].0 <= t <= sorted[k].1);
    assert(any_holds(sorted, t));
}

/// Merging only what overlaps or touches adds no moment either.
pub proof fn law_merging_overlaps_adds_no_moment(spans: Seq<(int, int)>, t: int)
    requires
        forward(spans),
        any_holds(merged(spans, 0), t),
    ensures
        any_holds(spans, t),
{
    lemma_ordered_members(spans);
    lemma_ordered_ascends(spans);
    let sorted = ordered(spans);
    assert(forward(sorted)) by {
        assert forall|i: int| 0 <= i < sorted.len() implies (#[trigger] sorted[i]).0
            <= sorted[i].1 by {
            let k = choose|k: int| 0 <= k < spans.len() && spans[k] == sorted[i];
            assert(spans[k].0 <= spans[k].1);
        }
    }
    lemma_fused(sorted, 0);
    assert(any_holds(sorted, t));
    let i = choose|i: int| 0 <= i < sorted.len() && (#[trigger] sorted[i]).0 <= t <= sorted[i].1;
    let k = choose|k: int| 0 <= k < spans.len() && spans[k] == sorted[i];
    assert(spans[k].0 <= t <= spans[k].1);
}

/// Merged spans stand in order and apart: more than the slack lies between one
/// and the next. Every start and every end is that of one of the spans merged.
pub proof fn law_merged_spans_stand_apart(spans: Seq<(int, int)>, slack: int)
    requires
        forward(spans),
        slack >= 0,
    ensures
        forward(merged(spans, slack)),
        merged(spans, slack).len() <= spans.len(),
        forall|i: int, j: int|
            0 <= i < j < merged(spans, slack).len() ==> (#[trigger] merged(spans, slack)[i]).1
                + slack < (#[trigger] merged(spans, slack)[j]).0,
        forall|i: int|
            0 <= i < merged(spans, slack).len() ==> (exists|k: int|
                0 <= k < spans.len() && (#[trigger] spans[k]).0 == merged(spans, slack)[i].0) && (
            exists|k: int|
                0 <= k < spans.len() && (#[trigger] spans[k]).1 == (#[trigger] merged(
                    spans,
                    slack,
                )[i]).1),
{
    lemma_ordered_members(spans);
    lemma_ordered_ascends(spans);
    let sorted = ordered(spans);
    assert(forward(sorted)) by {
        assert forall|i: int| 0 <= i < sorted.len() implies (#[trigger] sorted[i]).0
            <= sorted[i].1 by {
            let k = choose|k: int| 0 <= k < spans.len() && spans[k] == sorted[i];
            assert(spans[k].0 <= spans[k].1);
        }
    }
    lemma_fused(sorted, slack);
    let all = merged(spans, slack);
    assert forall|i: int| 0 <= i < all.len() implies (exists|k: int|
        0 <= k < spans.len() && (#[trigger] spans[k]).0 == all[i].0) && (exists|k: int|
        0 <= k < spans.len() && (#[trigger] spans[k]).1 == (#[trigger] all[i]).1) by {
        let a = choose|k: int| 0 <= k < sorted.len() && (#[trigger] sorted[k]).0 == all[i].0;
        let b = choose|k: int| 0 <= k < sorted.len() && (#[trigger] sorted[k]).1 == all[i].1;
        assert(spans.contains(sorted[a]));
        assert(spans.contains(sorted[b]));
        let c = choose|k: int| 0 <= k < spans.len() && spans[k] == sorted[a];
        let d = choose|k: int| 0 <= k < spans.len() && spans[k] == sorted[b];
        assert(spans[c].0 == all[i].0);
        assert(spans[d].1 == all[i].1);
    }
}

} // verus!
