//! What holds of every coverage.

use vstd::prelude::*;

use crate::coverage;
use crate::coverage::Coverage;
use crate::graph;
use crate::graph_laws;
use crate::merging_laws;
use crate::plan::{Detection, Plan, Source};
use crate::spans;
use crate::window;
use crate::window::WindowParams;
use crate::window_laws;

verus! {

/// A run without a usable box is among the boxless spans.
proof fn lemma_boxless_among(
    fs: Seq<Detection>,
    rs: Seq<(int, int)>,
    n: int,
    r: int,
    src: Source,
    p: WindowParams,
)
    requires
        0 <= r < n <= rs.len(),
        ({
            let run = fs.subrange(rs[r].0, rs[r].1);
            &&& window::patch_of(run, None, p.threshold as int) is None
            &&& window::run_start(run, p) < window::run_end(run, p, src.duration as int)
        }),
    ensures
        ({
            let run = fs.subrange(rs[r].0, rs[r].1);
            coverage::boxless_of_runs(fs, rs, n, src, p).contains(
                (window::run_start(run, p), window::run_end(run, p, src.duration as int)),
            )
        }),
    decreases n,
{
    let run = fs.subrange(rs[r].0, rs[r].1);
    let span = (window::run_start(run, p), window::run_end(run, p, src.duration as int));
    let before = coverage::boxless_of_runs(fs, rs, n - 1, src, p);
    let all = coverage::boxless_of_runs(fs, rs, n, src, p);
    if r == n - 1 {
        assert(all[all.len() - 1] == span);
    } else {
        lemma_boxless_among(fs, rs, n - 1, r, src, p);
        let k = choose|k: int| 0 <= k < before.len() && before[k] == span;
        assert(all[k] == span);
    }
}

proof fn lemma_boxless_in_movie(
    fs: Seq<Detection>,
    rs: Seq<(int, int)>,
    n: int,
    src: Source,
    p: WindowParams,
)
    ensures
        coverage::in_movie(coverage::boxless_of_runs(fs, rs, n, src, p), src.duration as int),
    decreases n,
{
    if n > 0 {
        lemma_boxless_in_movie(fs, rs, n - 1, src, p);
    }
}

proof fn lemma_spans_in_movie(plan: Plan, p: WindowParams)
    ensures
        coverage::in_movie(coverage::boxless_spans(plan, p), plan.source.duration as int),
        spans::forward(coverage::boxless_spans(plan, p)),
{
    let fs = window::frames(plan.detections@, p.threshold as int);
    let rs = window::runs(fs, p.gap_merge as int);
    lemma_boxless_in_movie(fs, rs, rs.len() as int, plan.source, p);
}

proof fn lemma_settled_slack(list: Seq<(int, int)>, cap: int, duration: int, slack: int)
    requires
        slack >= 0,
    ensures
        coverage::settled_slack(list, cap, duration, slack) >= 0,
        coverage::settled_slack(list, cap, duration, slack) > duration || spans::merged(
            list,
            coverage::settled_slack(list, cap, duration, slack),
        ).len() <= cap,
    decreases window::imax(duration - slack + 1, 0),
{
    if slack <= duration && spans::merged(list, slack).len() > cap {
        lemma_settled_slack(list, cap, duration, 2 * slack + 1000);
    }
}

/// From the lead before a flagged frame to the hold after it, as far as the
/// movie goes, something is covered at every moment, by a window or edge to
/// edge.
pub proof fn law_every_detection_is_covered(plan: Plan, p: WindowParams, i: int, t: int)
    requires
        p.pad_before + p.pad_after > 0,
        p.window_max > 0,
        plan.source.duration > 0,
        0 <= i < plan.detections@.len(),
        window::flagged(plan.detections@[i], p.threshold as int),
        plan.detections@[i].t + p.pad_after > 0,
        plan.detections@[i].t - p.pad_before < plan.source.duration,
        0 <= t <= plan.source.duration,
        plan.detections@[i].t - p.pad_before <= t <= plan.detections@[i].t + p.pad_after,
    ensures
        (exists|k: int|
            0 <= k < coverage::covering_windows(plan, p).len() && (
            #[trigger] coverage::covering_windows(plan, p)[k]).contains(t)) || spans::any_holds(
            coverage::covering_spans(plan, p),
            t,
        ),
{
    let threshold = p.threshold as int;
    let dets = plan.detections@;
    let fs = window::frames(dets, threshold);
    let rs = window::runs(fs, p.gap_merge as int);
    window_laws::lemma_frames(dets, threshold);
    let f = choose|f: int| 0 <= f < fs.len() && fs[f] == dets[i];
    let r = window_laws::lemma_run_around(plan, p, f, t);
    let run = fs.subrange(rs[r].0, rs[r].1);
    let s = window::run_start(run, p);
    let e = window::run_end(run, p, plan.source.duration as int);
    assert(s <= t <= e);
    if window::patch_of(run, None, threshold) is None {
        let list = coverage::boxless_spans(plan, p);
        let slack = coverage::settled_slack(
            list,
            p.max_windows as int,
            plan.source.duration as int,
            0,
        );
        lemma_settled_slack(list, p.max_windows as int, plan.source.duration as int, 0);
        lemma_spans_in_movie(plan, p);
        lemma_boxless_among(fs, rs, rs.len() as int, r, plan.source, p);
        let k = choose|k: int| 0 <= k < list.len() && list[k] == (s, e);
        assert(list[k].0 <= t <= list[k].1);
        assert(spans::any_holds(list, t));
        spans::law_merging_keeps_every_moment(list, slack, t);
    } else {
        window_laws::lemma_patch_holds(run, None, threshold);
        let (g, j) = choose|g: int, j: int|
            0 <= g < run.len() && window::near(run[g].t as int, None) && 0 <= j
                < run[g].boxes@.len() && window::counts(#[trigger] run[g].boxes@[j], threshold);
        assert(window_laws::has_box(run[g], threshold));
        let len = p.window_max as int;
        let q = window_laws::lemma_run_windows_reach(run, s, e, len, plan.source, p, t);
        let m = window_laws::lemma_run_among(
            fs,
            rs,
            rs.len() as int,
            r,
            len,
            plan.source,
            p,
            q,
        );
        let short = window::short_windows(plan, p);
        let list = window::merged_windows(plan, p);
        let ws = coverage::covering_windows(plan, p);
        let duration = plan.source.duration as int;
        merging_laws::law_merging_leaves_nothing_out(short, p.max_windows as int, duration);
        reveal(merging_laws::replaces);
        assert(merging_laws::has_over(list, short[m].w));
        let k = choose|k: int|
            0 <= k < list.len() && merging_laws::engulfs((#[trigger] list[k]).w, short[m].w);
        window_laws::lemma_merged_windows(plan, p);
        merging_laws::law_sharing_only_adds(list, k, duration, 0, 0);
        assert(ws[k].contains(t));
    }
}

/// The graph stays within its budget: never more windows than the cap, or than
/// one, and never more full-frame spans.
pub proof fn law_coverage_fits_a_graph(plan: Plan, p: WindowParams)
    ensures
        coverage::covering_windows(plan, p).len() <= window::imax(p.max_windows as int, 1),
        coverage::covering_spans(plan, p).len() <= window::imax(p.max_windows as int, 1),
{
    window_laws::lemma_merged_windows(plan, p);
    let list = coverage::boxless_spans(plan, p);
    let duration = plan.source.duration as int;
    let slack = coverage::settled_slack(list, p.max_windows as int, duration, 0);
    let all = spans::merged(list, slack);
    lemma_settled_slack(list, p.max_windows as int, duration, 0);
    lemma_spans_in_movie(plan, p);
    spans::law_merged_spans_stand_apart(list, slack);
    if slack > duration && all.len() > 1 {
        assert(all[0].1 + slack < all[1].0);
        let j = choose|j: int| 0 <= j < list.len() && (#[trigger] list[j]).1 == all[0].1;
        let k = choose|k: int| 0 <= k < list.len() && (#[trigger] list[k]).0 == all[1].0;
        assert(list[j].1 > 0 && list[k].0 < duration);
    }
}

/// However much is covered, ffmpeg is never handed an expression that nests
/// deeper than the cap allows.
pub proof fn law_graph_nests_within_the_cap(plan: Plan, p: WindowParams, fw: int, fh: int)
    ensures
        graph::x_expr(coverage::covering_windows(plan, p), fw, fh).depth() <= window::imax(
            p.max_windows as int,
            1,
        ),
        graph::y_expr(coverage::covering_windows(plan, p), fw, fh).depth() <= window::imax(
            p.max_windows as int,
            1,
        ),
{
    law_coverage_fits_a_graph(plan, p);
    graph_laws::law_nesting_is_the_window_count(coverage::covering_windows(plan, p), fw, fh);
}

/// A movie with nothing to cover is left alone: no windows, no full-frame
/// spans, and so no filter.
pub proof fn law_clean_movie_is_left_alone(plan: Plan, p: WindowParams)
    requires
        forall|i: int|
            0 <= i < plan.detections@.len() ==> !window::flagged(
                #[trigger] plan.detections@[i],
                p.threshold as int,
            ),
    ensures
        coverage::covering_windows(plan, p).len() == 0,
        coverage::covering_spans(plan, p).len() == 0,
{
    window_laws::law_clean_movie_has_no_windows(plan, p);
    let fs = window::frames(plan.detections@, p.threshold as int);
    window_laws::lemma_frames(plan.detections@, p.threshold as int);
    if fs.len() > 0 {
        let i = choose|i: int| 0 <= i < plan.detections@.len() && plan.detections@[i] == fs[0];
        assert(window::flagged(plan.detections@[i], p.threshold as int));
    }
    window::lemma_runs_tile(fs, p.gap_merge as int);
    let list = coverage::boxless_spans(plan, p);
    assert(list.len() == 0);
    let slack = coverage::settled_slack(
        list,
        p.max_windows as int,
        plan.source.duration as int,
        0,
    );
    lemma_settled_slack(list, p.max_windows as int, plan.source.duration as int, 0);
    spans::law_merged_spans_stand_apart(list, slack);
}

proof fn lemma_with_length(list: Seq<(int, int)>, t: int)
    ensures
        spans::forward(coverage::with_length(list)),
        spans::any_holds(coverage::with_length(list), t) <==> exists|i: int|
            0 <= i < list.len() && (#[trigger] list[i]).0 < list[i].1 && list[i].0 <= t
                <= list[i].1,
    decreases list.len(),
{
    if list.len() > 0 {
        let prev = list.drop_last();
        let before = coverage::with_length(prev);
        let all = coverage::with_length(list);
        let n = list.len() - 1;
        lemma_with_length(prev, t);
        assert forall|i: int| 0 <= i < all.len() implies (#[trigger] all[i]).0 <= all[i].1 by {
            if i < before.len() {
                assert(all[i] == before[i]);
            }
        }
        if spans::any_holds(before, t) {
            let k = choose|k: int|
                0 <= k < before.len() && (#[trigger] before[k]).0 <= t <= before[k].1;
            assert(all[k].0 <= t <= all[k].1);
            let i = choose|i: int|
                0 <= i < prev.len() && (#[trigger] prev[i]).0 < prev[i].1 && prev[i].0 <= t
                    <= prev[i].1;
            assert(list[i].0 < list[i].1 && list[i].0 <= t <= list[i].1);
        }
        if list[n].0 < list[n].1 && list[n].0 <= t <= list[n].1 {
            assert(all[all.len() - 1].0 <= t <= all[all.len() - 1].1);
        }
        if spans::any_holds(all, t) {
            let k = choose|k: int| 0 <= k < all.len() && (#[trigger] all[k]).0 <= t <= all[k].1;
            if k < before.len() {
                assert(before[k].0 <= t <= before[k].1);
            } else {
                assert(list[n].0 < list[n].1 && list[n].0 <= t <= list[n].1);
            }
        }
        if exists|i: int|
            0 <= i < list.len() && (#[trigger] list[i]).0 < list[i].1 && list[i].0 <= t
                <= list[i].1 {
            let i = choose|i: int|
                0 <= i < list.len() && (#[trigger] list[i]).0 < list[i].1 && list[i].0 <= t
                    <= list[i].1;
            if i < n {
                assert(prev[i].0 < prev[i].1 && prev[i].0 <= t <= prev[i].1);
            }
        }
    }
}

/// What is counted as covered is just what is covered, and nothing is counted
/// twice: the spans whose lengths are added up stand apart, and hold exactly
/// the moments of the windows and full-frame spans that have a length.
pub proof fn law_covered_time_is_that_of_the_union(c: Coverage, t: int)
    ensures
        ({
            let all = graph::spans_of(window::window_views(c.windows@)) + graph::span_views(
                c.full_runs@,
            );
            spans::any_holds(c.covered_spans(), t) <==> exists|i: int|
                0 <= i < all.len() && (#[trigger] all[i]).0 < all[i].1 && all[i].0 <= t
                    <= all[i].1
        }),
        forall|i: int, j: int|
            0 <= i < j < c.covered_spans().len() ==> (#[trigger] c.covered_spans()[i]).1 < (
            #[trigger] c.covered_spans()[j]).0,
{
    let all = graph::spans_of(window::window_views(c.windows@)) + graph::span_views(c.full_runs@);
    let list = coverage::with_length(all);
    lemma_with_length(all, t);
    spans::law_merged_spans_stand_apart(list, 0);
    if spans::any_holds(list, t) {
        spans::law_merging_keeps_every_moment(list, 0, t);
    }
    if spans::any_holds(c.covered_spans(), t) {
        spans::law_merging_overlaps_adds_no_moment(list, t);
    }
}

/// The reason given for a moment is that of the very window whose place the
/// box takes then.
pub proof fn law_reason_is_of_the_window_shown(
    c: Coverage,
    fw: int,
    fh: int,
    t: int,
    k: int,
)
    requires
        graph::last_open(window::window_views(c.windows@), t, k),
    ensures
        ({
            let ws = window::window_views(c.windows@);
            &&& graph::x_expr(ws, fw, fh).at(t) == graph::spots_for(ws, fw, fh)[k].x
            &&& graph::y_expr(ws, fw, fh).at(t) == graph::spots_for(ws, fw, fh)[k].y
            &&& forall|j: int| #[trigger] graph::last_open(ws, t, j) ==> j == k
        }),
{
    let ws = window::window_views(c.windows@);
    graph_laws::law_latest_window_wins(ws, fw, fh, t, k);
    assert forall|j: int| #[trigger] graph::last_open(ws, t, j) implies j == k by {
        if j < k {
            assert(!ws[k].contains(t));
        } else if k < j {
            assert(!ws[j].contains(t));
        }
    }
}

} // verus!
