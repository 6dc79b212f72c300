//! From a plan to what the player or a cast runs with.

use vstd::prelude::*;

use crate::cast;
use crate::cast::{CastConfig, Window};
use crate::cast_laws;
use crate::coverage;
use crate::coverage::Coverage;
use crate::graph;
use crate::graph::CensorStyle;
use crate::plan::{Plan, PlanError};
use crate::spans;
use crate::window;
use crate::window::{CensorWindow, Reason, WindowParams, WindowView};

verus! {

/// The style that a setting names. Anything unknown is the black box, which
/// covers most.
pub open spec fn style_named(name: Seq<char>) -> CensorStyle {
    if name == "white_box"@ {
        CensorStyle::WhiteBox
    } else if name == "blur_strong"@ {
        CensorStyle::BlurStrong
    } else if name == "blur_medium"@ {
        CensorStyle::BlurMedium
    } else if name == "blur_light"@ {
        CensorStyle::BlurLight
    } else {
        CensorStyle::BlackBox
    }
}

/// The style that a setting names.
pub fn style_from_name(name: &str) -> (style: CensorStyle)
    ensures
        style == style_named(name@),
{
    let name: String = name.to_owned();
    if name == "white_box".to_owned() {
        CensorStyle::WhiteBox
    } else if name == "blur_strong".to_owned() {
        CensorStyle::BlurStrong
    } else if name == "blur_medium".to_owned() {
        CensorStyle::BlurMedium
    } else if name == "blur_light".to_owned() {
        CensorStyle::BlurLight
    } else {
        CensorStyle::BlackBox
    }
}

/// The filtergraph of a plan.
pub open spec fn plan_graph(plan: Plan, p: WindowParams, style: CensorStyle) -> Seq<char> {
    graph::graph_text(
        coverage::covering_spans(plan, p),
        coverage::covering_windows(plan, p),
        plan.source.width as int,
        plan.source.height as int,
        style,
    )
}

/// Why a movie is neither played as a scanned one nor cast.
#[derive(Debug, Clone, Copy, PartialEq, Eq, Structural)]
pub enum Refusal {
    Unsound(PlanError),
    /// Part of the movie has not been looked at.
    Unfinished,
}

impl Refusal {
    /// The message of a refusal, as shown to the viewer.
    pub open spec fn message_text(self) -> Seq<char> {
        match self {
            Refusal::Unsound(e) => e.message_text(),
            Refusal::Unfinished => "the scan of this movie is not finished"@,
        }
    }

    /// The message of this refusal, as shown to the viewer.
    pub fn message(&self) -> (out: String)
        ensures
            out@ == self.message_text(),
    {
        match self {
            Refusal::Unsound(e) => e.message(),
            Refusal::Unfinished => "the scan of this movie is not finished".to_owned(),
        }
    }
}

/// The reason to refuse a plan, if there is one.
pub open spec fn refused(plan: Plan) -> Option<Refusal> {
    match plan.fault() {
        Some(e) => Some(Refusal::Unsound(e)),
        None => if plan.complete {
            None
        } else {
            Some(Refusal::Unfinished)
        },
    }
}

/// Look for a reason to refuse a plan.
pub fn refusal(plan: &Plan) -> (r: Option<Refusal>)
    ensures
        r == refused(*plan),
{
    match plan.validate() {
        Err(e) => Some(Refusal::Unsound(e)),
        Ok(_) => {
            if plan.complete {
                None
            } else {
                Some(Refusal::Unfinished)
            }
        },
    }
}

/// Build a filtergraph from a plan. Fail closed: a plan that does not hold
/// together, or does not cover the whole movie, gets none. It does not play
/// uncovered with a warning.
pub fn graph_for_plan(plan: &Plan, p: &WindowParams, style: CensorStyle) -> (r: Result<
    String,
    Refusal,
>)
    requires
        window::fits(*plan, *p),
        p.window_max > 0,
    ensures
        match refused(*plan) {
            Some(e) => r == Err::<String, Refusal>(e),
            None => r matches Ok(out) && out@ == plan_graph(*plan, *p, style),
        },
{
    match refusal(plan) {
        Some(e) => Err(e),
        None => {
            let c: Coverage = Coverage::from_plan(plan, p);
            Ok(c.graph(plan.source.width, plan.source.height, style))
        },
    }
}

// ---------------------------------------------------------------------------
// Casting
// ---------------------------------------------------------------------------

/// Windows without their reasons.
pub open spec fn bare_windows(ws: Seq<WindowView>) -> Seq<Window> {
    Seq::new(
        ws.len(),
        |i: int|
            Window {
                start: ws[i].start as i64,
                end: ws[i].end as i64,
                x: ws[i].x as i64,
                y: ws[i].y as i64,
                w: ws[i].w as i64,
                h: ws[i].h as i64,
            },
    )
}

/// Spans as windows of no size.
pub open spec fn bare_spans(list: Seq<(int, int)>) -> Seq<Window> {
    Seq::new(
        list.len(),
        |i: int|
            Window { start: list[i].0 as i64, end: list[i].1 as i64, x: 0, y: 0, w: 0, h: 0 },
    )
}

/// Windows without reasons, as the graph takes them.
pub open spec fn graph_windows(ws: Seq<Window>) -> Seq<WindowView> {
    Seq::new(
        ws.len(),
        |i: int|
            WindowView {
                start: ws[i].start as int,
                end: ws[i].end as int,
                x: ws[i].x as int,
                y: ws[i].y as int,
                w: ws[i].w as int,
                h: ws[i].h as int,
                label: Seq::empty(),
                score: 0,
                t: 0,
            },
    )
}

/// Windows as spans, as the graph takes them.
pub open spec fn graph_spans(ws: Seq<Window>) -> Seq<(int, int)> {
    Seq::new(ws.len(), |i: int| (ws[i].start as int, ws[i].end as int))
}

/// The windows of a cast that starts at `start`.
pub open spec fn cast_windows_of(ws: Seq<WindowView>, start: int) -> Seq<WindowView> {
    graph_windows(cast::shifted(bare_windows(ws), cast::seek_time(start)))
}

/// The full-frame spans of a cast that starts at `start`.
pub open spec fn cast_spans_of(list: Seq<(int, int)>, start: int) -> Seq<(int, int)> {
    graph_spans(cast::shifted(bare_spans(list), cast::seek_time(start)))
}

/// The filtergraph of a cast that starts at `start`.
pub open spec fn cast_graph_text(
    full: Seq<(int, int)>,
    ws: Seq<WindowView>,
    start: int,
    fw: int,
    fh: int,
    style: CensorStyle,
) -> Seq<char> {
    graph::graph_text(cast_spans_of(full, start), cast_windows_of(ws, start), fw, fh, style)
}

proof fn lemma_shifted_rectangles(ws: Seq<Window>, offset: int)
    requires
        0 <= offset,
        forall|i: int|
            0 <= i < ws.len() ==> {
                let w = #[trigger] ws[i];
                window::coordinate(w.x as int) && window::coordinate(w.y as int)
                    && window::coordinate(w.w as int) && window::coordinate(w.h as int)
            },
    ensures
        forall|i: int|
            0 <= i < cast::shifted(ws, offset).len() ==> {
                let w = #[trigger] cast::shifted(ws, offset)[i];
                window::coordinate(w.x as int) && window::coordinate(w.y as int)
                    && window::coordinate(w.w as int) && window::coordinate(w.h as int)
            },
    decreases ws.len(),
{
    if offset > 0 && ws.len() > 0 {
        let prev = ws.drop_last();
        assert forall|i: int| 0 <= i < prev.len() implies {
            let w = #[trigger] prev[i];
            window::coordinate(w.x as int) && window::coordinate(w.y as int) && window::coordinate(
                w.w as int,
            ) && window::coordinate(w.h as int)
        } by {
            assert(prev[i] == ws[i]);
        }
        lemma_shifted_rectangles(prev, offset);
        let before = cast::shifted(prev, offset);
        let all = cast::shifted(ws, offset);
        let last = ws[ws.len() - 1];
        assert forall|i: int| 0 <= i < all.len() implies {
            let w = #[trigger] all[i];
            window::coordinate(w.x as int) && window::coordinate(w.y as int) && window::coordinate(
                w.w as int,
            ) && window::coordinate(w.h as int)
        } by {
            if i < before.len() {
                assert(all[i] == before[i]);
            }
        }
    }
}

/// The windows of a coverage, counted from where a cast starts.
fn cast_windows(windows: &Vec<CensorWindow>, offset: i64) -> (out: Vec<CensorWindow>)
    requires
        offset >= 0,
        window::all_fit(windows@),
    ensures
        window::window_views(out@) == graph_windows(
            cast::shifted(bare_windows(window::window_views(windows@)), offset as int),
        ),
        window::all_fit(out@),
{
    let n: usize = windows.len();
    let mut bare: Vec<Window> = Vec::new();
    let mut i: usize = 0;
    while i < n
        invariant
            i <= n,
            n == windows@.len(),
            bare@ =~= bare_windows(window::window_views(windows@)).take(i as int),
        decreases n - i,
    {
        let w: &CensorWindow = &windows[i];
        bare.push(Window { start: w.start, end: w.end, x: w.x, y: w.y, w: w.w, h: w.h });
        i += 1;
    }
    assert(bare@ =~= bare_windows(window::window_views(windows@)));
    proof {
        assert forall|i: int| 0 <= i < bare@.len() implies {
            let w = #[trigger] bare@[i];
            window::coordinate(w.x as int) && window::coordinate(w.y as int) && window::coordinate(
                w.w as int,
            ) && window::coordinate(w.h as int)
        } by {
            assert(window::window_fits(windows@[i]@));
        }
        lemma_shifted_rectangles(bare@, offset as int);
    }
    let moved: Vec<Window> = cast::shift_windows(bare.as_slice(), offset);
    let m: usize = moved.len();
    let mut out: Vec<CensorWindow> = Vec::new();
    let mut j: usize = 0;
    while j < m
        invariant
            j <= m,
            m == moved@.len(),
            window::window_views(out@) =~= graph_windows(moved@).take(j as int),
        decreases m - j,
    {
        let w: Window = moved[j];
        let reason: Reason = Reason { label: String::new(), score: 0, t: 0 };
        let ghost before = window::window_views(out@);
        out.push(
            CensorWindow { start: w.start, end: w.end, x: w.x, y: w.y, w: w.w, h: w.h, reason },
        );
        assert(reason.label@ =~= Seq::empty());
        assert(window::window_views(out@) =~= before.push(graph_windows(moved@)[j as int]));
        j += 1;
    }
    assert(window::window_views(out@) =~= graph_windows(moved@));
    assert forall|k: int| 0 <= k < out@.len() implies window::window_fits((#[trigger] out@[k])@) by {
        assert(window::window_views(out@)[k] == graph_windows(moved@)[k]);
        let w = moved@[k];
        assert(window::coordinate(w.x as int));
    }
    out
}

/// The spans of a coverage, counted from where a cast starts.
fn cast_spans(list: &Vec<(i64, i64)>, offset: i64) -> (out: Vec<(i64, i64)>)
    ensures
        graph::span_views(out@) == graph_spans(
            cast::shifted(bare_spans(graph::span_views(list@)), offset as int),
        ),
{
    let n: usize = list.len();
    let mut bare: Vec<Window> = Vec::new();
    let mut i: usize = 0;
    while i < n
        invariant
            i <= n,
            n == list@.len(),
            bare@ =~= bare_spans(graph::span_views(list@)).take(i as int),
        decreases n - i,
    {
        bare.push(Window { start: list[i].0, end: list[i].1, x: 0, y: 0, w: 0, h: 0 });
        i += 1;
    }
    assert(bare@ =~= bare_spans(graph::span_views(list@)));
    let moved: Vec<Window> = cast::shift_windows(bare.as_slice(), offset);
    let m: usize = moved.len();
    let mut out: Vec<(i64, i64)> = Vec::new();
    let mut j: usize = 0;
    while j < m
        invariant
            j <= m,
            m == moved@.len(),
            graph::span_views(out@) =~= graph_spans(moved@).take(j as int),
        decreases m - j,
    {
        let ghost before = graph::span_views(out@);
        out.push((moved[j].start, moved[j].end));
        assert(graph::span_views(out@) =~= before.push(graph_spans(moved@)[j as int]));
        j += 1;
    }
    assert(graph::span_views(out@) =~= graph_spans(moved@));
    out
}

/// The filtergraph of a coverage on a cast that starts at `start`.
pub fn cast_graph(c: &Coverage, start: i64, fw: i64, fh: i64, style: CensorStyle) -> (out: String)
    requires
        window::coordinate(fw as int),
        window::coordinate(fh as int),
        window::all_fit(c.windows@),
    ensures
        out@ == cast_graph_text(
            graph::span_views(c.full_runs@),
            window::window_views(c.windows@),
            start as int,
            fw as int,
            fh as int,
            style,
        ),
{
    let offset: i64 = cast::seek_offset(start);
    proof {
        let time = cast::seek_time(start as int);
        cast_laws::lemma_shifted_past_all(bare_windows(window::window_views(c.windows@)), time);
        cast_laws::lemma_shifted_past_all(
            bare_windows(window::window_views(c.windows@)),
            offset as int,
        );
        cast_laws::lemma_shifted_past_all(bare_spans(graph::span_views(c.full_runs@)), time);
        cast_laws::lemma_shifted_past_all(
            bare_spans(graph::span_views(c.full_runs@)),
            offset as int,
        );
    }
    let windows: Vec<CensorWindow> = cast_windows(&c.windows, offset);
    let full_runs: Vec<(i64, i64)> = cast_spans(&c.full_runs, offset);
    graph::build_graph(full_runs.as_slice(), windows.as_slice(), fw, fh, style)
}

/// What to cast of a movie, from `start` on. Fail closed: a plan that does not
/// hold together, or does not cover the whole movie, is not cast.
pub fn cast_config(plan: &Plan, p: &WindowParams, start: i64, style: CensorStyle) -> (r: Result<
    CastConfig,
    Refusal,
>)
    requires
        window::fits(*plan, *p),
        p.window_max > 0,
    ensures
        match refused(*plan) {
            Some(e) => r == Err::<CastConfig, Refusal>(e),
            None => r matches Ok(cfg) && cfg.start == start && cfg.graph@ == cast_graph_text(
                coverage::covering_spans(*plan, *p),
                coverage::covering_windows(*plan, *p),
                start as int,
                plan.source.width as int,
                plan.source.height as int,
                style,
            ),
        },
{
    match refusal(plan) {
        Some(e) => Err(e),
        None => {
            let c: Coverage = Coverage::from_plan(plan, p);
            let graph: String = cast_graph(&c, start, plan.source.width, plan.source.height, style);
            Ok(CastConfig { graph, start })
        },
    }
}

/// A cast covers what the movie covers: after its first instant, something is
/// covered in the cast exactly when something is covered in the movie at the
/// moment being cast.
pub proof fn law_cast_covers_what_the_movie_covers(c: Coverage, start: int, t: int)
    requires
        t > 0,
    ensures
        ({
            let windows = cast_windows_of(window::window_views(c.windows@), start);
            let list = cast_spans_of(graph::span_views(c.full_runs@), start);
            c.covers(t + cast::seek_time(start)) <==> (exists|k: int|
                0 <= k < windows.len() && (#[trigger] windows[k]).contains(t)) || spans::any_holds(
                list,
                t,
            )
        }),
{
    let offset = cast::seek_time(start);
    let at = t + offset;
    let plain = bare_windows(window::window_views(c.windows@));
    let moved = cast::shifted(plain, offset);
    let windows = graph_windows(moved);
    cast_laws::law_shifting_keeps_every_moment(plain, offset, t);
    let views = graph::span_views(c.full_runs@);
    let plain_spans = bare_spans(views);
    let moved_spans = cast::shifted(plain_spans, offset);
    let list = graph_spans(moved_spans);
    cast_laws::law_shifting_keeps_every_moment(plain_spans, offset, t);
    if exists|k: int| 0 <= k < c.windows@.len() && (#[trigger] c.windows@[k])@.contains(at) {
        let k = choose|k: int| 0 <= k < c.windows@.len() && (#[trigger] c.windows@[k])@.contains(at);
        assert(cast_laws::shows(plain[k], at));
    }
    if cast_laws::some_shows(plain, at) {
        let k = choose|k: int|
            0 <= k < plain.len() && cast_laws::shows(#[trigger] plain[k], at);
        assert(c.windows@[k]@.contains(at));
    }
    if cast_laws::some_shows(moved, t) {
        let k = choose|k: int|
            0 <= k < moved.len() && cast_laws::shows(#[trigger] moved[k], t);
        assert(windows[k].contains(t));
    }
    if exists|k: int| 0 <= k < windows.len() && (#[trigger] windows[k]).contains(t) {
        let k = choose|k: int| 0 <= k < windows.len() && (#[trigger] windows[k]).contains(t);
        assert(cast_laws::shows(moved[k], t));
    }
    if spans::any_holds(views, at) {
        let k = choose|k: int|
            0 <= k < views.len() && (#[trigger] views[k]).0 <= at <= views[k].1;
        assert(cast_laws::shows(plain_spans[k], at));
    }
    if cast_laws::some_shows(plain_spans, at) {
        let k = choose|k: int|
            0 <= k < plain_spans.len() && cast_laws::shows(#[trigger] plain_spans[k], at);
        assert(views[k].0 <= at <= views[k].1);
    }
    if cast_laws::some_shows(moved_spans, t) {
        let k = choose|k: int|
            0 <= k < moved_spans.len() && cast_laws::shows(#[trigger] moved_spans[k], t);
        assert(list[k].0 <= t <= list[k].1);
    }
    if spans::any_holds(list, t) {
        let k = choose|k: int| 0 <= k < list.len() && (#[trigger] list[k]).0 <= t <= list[k].1;
        assert(cast_laws::shows(moved_spans[k], t));
    }
    assert(c.covers(at) == (cast_laws::some_shows(plain, at) || cast_laws::some_shows(
        plain_spans,
        at,
    )));
    assert(windows == cast_windows_of(window::window_views(c.windows@), start));
    assert(list == cast_spans_of(views, start));
}

} // verus!
