//! Everything the player needs to start a movie, derived from a plan.

use vstd::prelude::*;

use crate::graph;
use crate::graph::CensorStyle;
use crate::merging;
use crate::merging::Marked;
use crate::plan::{Detection, Plan, Source};
use crate::spans;
use crate::window;
use crate::window::{CensorWindow, Reason, WindowParams, WindowView};

verus! {

/// What gets covered, and when.
#[derive(Debug, Clone)]
pub struct Coverage {
    pub windows: Vec<CensorWindow>,
    /// Spans covered edge to edge rather than by a moving box.
    pub full_runs: Vec<(i64, i64)>,
}

/// The spans of the first `k` runs that were flagged without a usable box.
pub open spec fn boxless_of_runs(
    fs: Seq<Detection>,
    rs: Seq<(int, int)>,
    k: int,
    src: Source,
    p: WindowParams,
) -> Seq<(int, int)>
    decreases k,
{
    if k <= 0 {
        Seq::empty()
    } else {
        let before = boxless_of_runs(fs, rs, k - 1, src, p);
        let run = fs.subrange(rs[k - 1].0, rs[k - 1].1);
        let s = window::run_start(run, p);
        let e = window::run_end(run, p, src.duration as int);
        if window::patch_of(run, None, p.threshold as int) is None && s < e {
            before.push((s, e))
        } else {
            before
        }
    }
}

/// The spans of a plan that were flagged without a usable box.
pub open spec fn boxless_spans(plan: Plan, p: WindowParams) -> Seq<(int, int)> {
    let fs = window::frames(plan.detections@, p.threshold as int);
    let rs = window::runs(fs, p.gap_merge as int);
    boxless_of_runs(fs, rs, rs.len() as int, plan.source, p)
}

/// The windows of the coverage: those of the plan, each covering what other
/// runs cover at the same time.
pub open spec fn covering_windows(plan: Plan, p: WindowParams) -> Seq<WindowView> {
    merging::shared(window::merged_windows(plan, p))
}

/// The gap to bridge between spans, starting from `slack`: widened until the
/// spans are few enough for a graph, or nothing is left to bridge.
pub open spec fn settled_slack(
    list: Seq<(int, int)>,
    cap: int,
    duration: int,
    slack: int,
) -> int
    decreases window::imax(duration - slack + 1, 0),
{
    if slack < 0 || slack > duration || spans::merged(list, slack).len() <= cap {
        slack
    } else {
        settled_slack(list, cap, duration, 2 * slack + 1000)
    }
}

/// The full-frame spans of the coverage.
pub open spec fn covering_spans(plan: Plan, p: WindowParams) -> Seq<(int, int)> {
    let list = boxless_spans(plan, p);
    spans::merged(list, settled_slack(list, p.max_windows as int, plan.source.duration as int, 0))
}

/// The spans that have a length.
pub open spec fn with_length(list: Seq<(int, int)>) -> Seq<(int, int)>
    decreases list.len(),
{
    if list.len() == 0 {
        Seq::empty()
    } else if list.last().0 < list.last().1 {
        with_length(list.drop_last()).push(list.last())
    } else {
        with_length(list.drop_last())
    }
}

/// The sum of the lengths of spans.
pub open spec fn span_time(list: Seq<(int, int)>) -> int
    decreases list.len(),
{
    if list.len() == 0 {
        0
    } else {
        span_time(list.drop_last()) + window::imax(list.last().1 - list.last().0, 0)
    }
}

impl Coverage {
    /// Whether anything is covered at a moment.
    pub open spec fn covers(self, t: int) -> bool {
        ||| exists|k: int| 0 <= k < self.windows@.len() && (#[trigger] self.windows@[k])@.contains(t)
        ||| spans::any_holds(graph::span_views(self.full_runs@), t)
    }

    /// All spans in which something is covered, one after another: where they
    /// overlap or touch they are one.
    pub open spec fn covered_spans(self) -> Seq<(int, int)> {
        spans::merged(
            with_length(
                graph::spans_of(window::window_views(self.windows@)) + graph::span_views(
                    self.full_runs@,
                ),
            ),
            0,
        )
    }

    /// Derive what to cover from what was found.
    ///
    /// A stretch flagged without a usable box is covered edge to edge. Where
    /// windows of two runs show together, each covers what both cover: there is
    /// one moving box, and it must not leave either bare.
    pub fn from_plan(plan: &Plan, params: &WindowParams) -> (c: Coverage)
        requires
            window::fits(*plan, *params),
            params.window_max > 0 || window::frames(
                plan.detections@,
                params.threshold as int,
            ).len() == 0,
        ensures
            window::window_views(c.windows@) == covering_windows(*plan, *params),
            graph::span_views(c.full_runs@) == covering_spans(*plan, *params),
            window::all_fit(c.windows@),
    {
        let marked: Vec<Marked> = window::marked_windows(plan, params);
        let list: Vec<(i64, i64)> = boxless(plan, params);
        Coverage {
            windows: merging::share(&marked),
            full_runs: within_budget(&list, params.max_windows, plan.source.duration),
        }
    }

    pub fn is_empty(&self) -> (r: bool)
        ensures
            r == (self.windows@.len() == 0 && self.full_runs@.len() == 0),
    {
        self.windows.len() == 0 && self.full_runs.len() == 0
    }

    /// How much of playback carries a cover, in thousandths of a second. Shown
    /// in the library card so a viewer knows what they are in for. A moment
    /// that is covered twice counts once.
    pub fn covered_seconds(&self) -> (total: u128)
        ensures
            total == span_time(self.covered_spans()),
    {
        let ghost first = graph::spans_of(window::window_views(self.windows@));
        let ghost views = first + graph::span_views(self.full_runs@);
        let n: usize = self.windows.len();
        let mut list: Vec<(i64, i64)> = Vec::new();
        let mut i: usize = 0;
        assert(views.take(0) =~= Seq::empty());
        assert(graph::span_views(list@) =~= Seq::empty());
        while i < n
            invariant
                i <= n,
                n == self.windows@.len(),
                first == graph::spans_of(window::window_views(self.windows@)),
                views == first + graph::span_views(self.full_runs@),
                graph::span_views(list@) == with_length(views.take(i as int)),
            decreases n - i,
        {
            let span: (i64, i64) = (self.windows[i].start, self.windows[i].end);
            proof {
                assert(views.take(i + 1).drop_last() =~= views.take(i as int));
                assert(views.take(i + 1).last() == (span.0 as int, span.1 as int));
            }
            push_span(&mut list, span);
            i += 1;
        }
        let m: usize = self.full_runs.len();
        let mut j: usize = 0;
        while j < m
            invariant
                j <= m,
                m == self.full_runs@.len(),
                n == self.windows@.len(),
                first == graph::spans_of(window::window_views(self.windows@)),
                views == first + graph::span_views(self.full_runs@),
                graph::span_views(list@) == with_length(views.take(n + j)),
            decreases m - j,
        {
            let span: (i64, i64) = self.full_runs[j];
            proof {
                assert(views.take(n + j + 1).drop_last() =~= views.take(n + j));
                assert(views.take(n + j + 1).last() == (span.0 as int, span.1 as int));
            }
            push_span(&mut list, span);
            j += 1;
        }
        assert(views.take((n + m) as int) =~= views);
        let merged: Vec<(i64, i64)> = spans::merge_overlaps(list.as_slice());
        let ghost all = graph::span_views(merged@);
        let c: usize = merged.len();
        let mut total: u128 = 0;
        let mut k: usize = 0;
        assert(all.take(0) =~= Seq::empty());
        while k < c
            invariant
                k <= c,
                c == merged@.len(),
                all == graph::span_views(merged@),
                total == span_time(all.take(k as int)),
                total <= k * 0xffff_ffff_ffff_ffff,
            decreases c - k,
        {
            assert(all.take(k + 1).drop_last() =~= all.take(k as int));
            let (s, e): (i64, i64) = merged[k];
            if e > s {
                total = total + (e as i128 - s as i128) as u128;
            }
            k += 1;
        }
        assert(all.take(c as int) =~= all);
        total
    }

    /// The filtergraph of this coverage on a frame.
    pub fn graph(&self, fw: i64, fh: i64, style: CensorStyle) -> (out: String)
        requires
            window::coordinate(fw as int),
            window::coordinate(fh as int),
            window::all_fit(self.windows@),
        ensures
            out@ == graph::graph_text(
                graph::span_views(self.full_runs@),
                window::window_views(self.windows@),
                fw as int,
                fh as int,
                style,
            ),
    {
        graph::build_graph(
            self.full_runs.as_slice(),
            self.windows.as_slice(),
            fw,
            fh,
            style,
        )
    }

    /// Why the picture is covered by a box at this moment, if it is.
    ///
    /// Windows can overlap where a hold runs into a fresh detection. The graph
    /// gives the later one priority, so this does too.
    pub fn reason_at(&self, t: i64) -> (r: Option<&Reason>)
        ensures
            r is None <==> forall|k: int|
                0 <= k < self.windows@.len() ==> !(#[trigger] self.windows@[k])@.contains(t as int),
            r matches Some(reason) ==> exists|k: int|
                #[trigger] graph::last_open(window::window_views(self.windows@), t as int, k)
                    && *reason == self.windows@[k].reason,
    {
        let mut i: usize = self.windows.len();
        while i > 0
            invariant
                i <= self.windows@.len(),
                forall|k: int|
                    i <= k < self.windows@.len() ==> !(#[trigger] self.windows@[k])@.contains(
                        t as int,
                    ),
            decreases i,
        {
            i -= 1;
            if self.windows[i].contains(t) {
                proof {
                    let ws = window::window_views(self.windows@);
                    assert(ws[i as int] == self.windows@[i as int]@);
                    assert forall|j: int| i < j < ws.len() implies !(#[trigger] ws[j]).contains(
                        t as int,
                    ) by {
                        assert(ws[j] == self.windows@[j]@);
                    }
                    assert(graph::last_open(ws, t as int, i as int));
                }
                return Some(&self.windows[i].reason);
            }
        }
        None
    }
}

/// Add a span to a list, if it has a length.
fn push_span(list: &mut Vec<(i64, i64)>, span: (i64, i64))
    ensures
        graph::span_views(final(list)@) == if span.0 < span.1 {
            graph::span_views(old(list)@).push((span.0 as int, span.1 as int))
        } else {
            graph::span_views(old(list)@)
        },
{
    if span.0 < span.1 {
        list.push(span);
        assert(graph::span_views(list@) =~= graph::span_views(old(list)@).push(
            (span.0 as int, span.1 as int),
        ));
    }
}

/// Spans that lie in the movie and have a length.
pub open spec fn in_movie(list: Seq<(int, int)>, duration: int) -> bool {
    forall|i: int| 0 <= i < list.len() ==> 0 <= (#[trigger] list[i]).0 < list[i].1 <= duration
}

/// The spans flagged without a usable box.
fn boxless(plan: &Plan, p: &WindowParams) -> (list: Vec<(i64, i64)>)
    requires
        window::fits(*plan, *p),
    ensures
        graph::span_views(list@) == boxless_spans(*plan, *p),
        in_movie(graph::span_views(list@), plan.source.duration as int),
{
    let at: Vec<usize> = window::flagged_places(&plan.detections, p.threshold);
    let rs: Vec<(usize, usize)> = window::group(&plan.detections, &at, p.gap_merge);
    let ghost fs = window::picked(plan.detections@, at@);
    let mut list: Vec<(i64, i64)> = Vec::new();
    let n: usize = rs.len();
    let mut k: usize = 0;
    assert(graph::span_views(list@) =~= Seq::empty());
    while k < n
        invariant
            k <= n,
            n == rs@.len(),
            window::fits(*plan, *p),
            forall|i: int| 0 <= i < at@.len() ==> (#[trigger] at@[i]) < plan.detections@.len(),
            fs == window::picked(plan.detections@, at@),
            window::runs_tile(window::ranges(rs@), at@.len() as int),
            graph::span_views(list@) == boxless_of_runs(
                fs,
                window::ranges(rs@),
                k as int,
                plan.source,
                *p,
            ),
            in_movie(graph::span_views(list@), plan.source.duration as int),
        decreases n - k,
    {
        assert(window::ranges(rs@)[k as int] == (rs@[k as int].0 as int, rs@[k as int].1 as int));
        let (s, e): (i64, i64) = window::run_span(plan, &at, rs[k], p);
        let bare: bool = window::run_is_boxless(&plan.detections, &at, rs[k], p.threshold);
        if bare && s < e {
            let ghost before = graph::span_views(list@);
            list.push((s, e));
            assert(graph::span_views(list@) =~= before.push((s as int, e as int)));
        }
        k += 1;
    }
    list
}

/// Merge spans until they are few enough for a graph.
fn within_budget(list: &Vec<(i64, i64)>, cap: usize, duration: i64) -> (out: Vec<(i64, i64)>)
    requires
        window::within(duration as int),
        in_movie(graph::span_views(list@), duration as int),
    ensures
        ({
            let views = graph::span_views(list@);
            graph::span_views(out@) == spans::merged(
                views,
                settled_slack(views, cap as int, duration as int, 0),
            )
        }),
{
    let ghost views = graph::span_views(list@);
    let mut slack: i64 = 0;
    loop
        invariant
            window::within(duration as int),
            views == graph::span_views(list@),
            in_movie(views, duration as int),
            0 <= slack <= 2 * window::LIMIT + 1000,
            settled_slack(views, cap as int, duration as int, 0) == settled_slack(
                views,
                cap as int,
                duration as int,
                slack as int,
            ),
        decreases window::imax(duration - slack + 1, 0),
    {
        assert forall|i: int| 0 <= i < list@.len() implies (#[trigger] list@[i]).1 + slack
            <= i64::MAX && list@[i].1 + slack >= i64::MIN by {
            assert(views[i] == (list@[i].0 as int, list@[i].1 as int));
        }
        let out: Vec<(i64, i64)> = spans::merge_within(list.as_slice(), slack);
        assert(out@.len() == spans::merged(views, slack as int).len());
        if out.len() <= cap || slack > duration {
            return out;
        }
        slack = 2 * slack + 1000;
    }
}

} // verus!
