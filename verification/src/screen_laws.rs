//! What the viewer gets to see, from the plan to the picture.

use vstd::prelude::*;

use crate::cast;
use crate::cast::Window;
use crate::cast_laws;
use crate::coverage;
use crate::coverage::Coverage;
use crate::coverage_laws;
use crate::graph;
use crate::graph_laws;
use crate::merging_laws;
use crate::plan::{DetBox, Detection, Plan, Source};
use crate::playback;
use crate::window;
use crate::window::{WindowParams, WindowView};
use crate::window_laws;

verus! {

/// Whether a frame of a run is to be covered at a moment: within the merge gap
/// of it, and all through the lead of the run's first frame and the hold of its
/// last.
pub open spec fn due_in_run(run: Seq<Detection>, g: int, gap: int, t: int) -> bool {
    ||| run[g].t - gap <= t <= run[g].t + gap
    ||| gap >= 0 && run[g].t == run.first().t && t <= run[g].t
    ||| gap >= 0 && run[g].t == run.last().t && run[g].t <= t
}

/// Whether a flagged frame is to be covered at a moment.
pub open spec fn due(plan: Plan, p: WindowParams, f: int, t: int) -> bool {
    let fs = window::frames(plan.detections@, p.threshold as int);
    let rs = window::runs(fs, p.gap_merge as int);
    &&& fs[f].t - p.pad_before <= t <= fs[f].t + p.pad_after
    &&& forall|r: int|
        0 <= r < rs.len() && (#[trigger] rs[r]).0 <= f < rs[r].1 ==> due_in_run(
            fs.subrange(rs[r].0, rs[r].1),
            f - rs[r].0,
            p.gap_merge as int,
            t,
        )
}

/// Whether a box of a rectangle's size, standing at a place, leaves out no
/// pixel of a detected box that is in the frame, but for the last column or row
/// of a frame with an odd side.
pub open spec fn hides(
    x: int,
    y: int,
    size: (int, int),
    b: DetBox,
    fw: int,
    fh: int,
) -> bool {
    &&& 0 <= x <= b.bounds@[0]
    &&& 0 <= y <= b.bounds@[1]
    &&& window::imin(b.bounds@[2] as int, window::even_floor(fw)) <= x + size.0 <= fw
    &&& window::imin(b.bounds@[3] as int, window::even_floor(fh)) <= y + size.1 <= fh
}

/// Whether the graph of some windows hides a detected box at a moment: the
/// overlay is switched on, and the moving box stands over it.
pub open spec fn hidden_by(ws: Seq<WindowView>, b: DetBox, fw: int, fh: int, t: int) -> bool {
    &&& graph::gate_sum(graph::spans_of(ws)).at(t) > 0
    &&& hides(
        graph::x_expr(ws, fw, fh).at(t),
        graph::y_expr(ws, fw, fh).at(t),
        graph::box_size(ws, fw, fh),
        b,
        fw,
        fh,
    )
}

/// What a detection on screen takes for granted: a sound plan, a lead or a
/// hold, and a margin of a pixel at least; and that a box of the detection
/// counts and is due.
pub open spec fn on_screen(plan: Plan, p: WindowParams, f: int, j: int, t: int) -> bool {
    let fs = window::frames(plan.detections@, p.threshold as int);
    &&& plan.sound()
    &&& p.pad_before + p.pad_after > 0
    &&& p.window_max > 0
    &&& window::margin_pixels(plan.source.width as int, p.margin as int) >= 1
    &&& window::margin_pixels(plan.source.height as int, p.margin as int) >= 1
    &&& 0 <= f < fs.len()
    &&& 0 <= j < fs[f].boxes@.len()
    &&& window::counts(fs[f].boxes@[j], p.threshold as int)
    &&& fs[f].t + p.pad_after > 0
    &&& fs[f].t - p.pad_before < plan.source.duration
    &&& 0 <= t <= plan.source.duration
    &&& due(plan, p, f, t)
}

/// Every window of a run that shows at a moment lies over the boxes that are
/// due then.
proof fn lemma_open_windows_lie_over(
    run: Seq<Detection>,
    s: int,
    end: int,
    len: int,
    src: Source,
    p: WindowParams,
    t: int,
    k: int,
    f: int,
    j: int,
)
    requires
        window_laws::in_time_order(run),
        0 <= k < window::run_windows(run, s, end, len, src, p).len(),
        window::run_windows(run, s, end, len, src, p)[k].contains(t),
        0 <= f < run.len(),
        0 <= j < run[f].boxes@.len(),
        window::counts(run[f].boxes@[j], p.threshold as int),
        due_in_run(run, f, p.gap_merge as int, t),
    ensures
        window_laws::lies_over(
            window::run_windows(run, s, end, len, src, p)[k],
            run[f].boxes@[j],
            src,
            p.margin as int,
        ),
    decreases end - s,
{
    let e = window::imin(s + len, end);
    let rest = window::run_windows(run, e, end, len, src, p);
    let all = window::run_windows(run, s, end, len, src, p);
    match window::window_patch(run, s, e, p) {
        Some(patch) => {
            let first = window::window_over(patch, s, e, src, p.margin as int);
            assert(all == seq![first] + rest);
            if k == 0 {
                let span = Some((s - p.gap_merge, e + p.gap_merge));
                let threshold = p.threshold as int;
                assert(all[0] == first);
                window_laws::lemma_patch_holds(run, span, threshold);
                window_laws::lemma_patch_holds(run, None, threshold);
                if !window::near(run[f].t as int, span) {
                    if window::patch_of(run, span, threshold) is Some {
                        let (g, h) = choose|g: int, h: int|
                            0 <= g < run.len() && window::near(run[g].t as int, span) && 0 <= h
                                < run[g].boxes@.len() && window::counts(
                                #[trigger] run[g].boxes@[h],
                                threshold,
                            );
                        assert(run[0].t <= run[g].t && run[g].t <= run[run.len() - 1].t);
                        assert(false);
                    }
                    assert(window::near(run[f].t as int, None));
                }
                window_laws::lemma_window_over(
                    patch,
                    s,
                    e,
                    src,
                    p.margin as int,
                    run[f].boxes@[j],
                );
            } else {
                assert(all[k] == rest[k - 1]);
                lemma_open_windows_lie_over(run, e, end, len, src, p, t, k - 1, f, j);
            }
        },
        None => {
            assert(all == rest);
            lemma_open_windows_lie_over(run, e, end, len, src, p, t, k, f, j);
        },
    }
}

/// Among windows that show at a moment there is a last one.
proof fn lemma_last_open(ws: Seq<WindowView>, t: int, m: int) -> (k: int)
    requires
        0 <= m < ws.len(),
        ws[m].contains(t),
    ensures
        graph::last_open(ws, t, k),
    decreases ws.len() - m,
{
    if exists|j: int| m < j < ws.len() && (#[trigger] ws[j]).contains(t) {
        let j = choose|j: int| m < j < ws.len() && (#[trigger] ws[j]).contains(t);
        lemma_last_open(ws, t, j)
    } else {
        m
    }
}

/// The window that the graph shows lies over every box that is due.
proof fn lemma_shown_window_lies_over(plan: Plan, p: WindowParams, f: int, j: int, t: int) -> (k:
    int)
    requires
        on_screen(plan, p, f, j, t),
    ensures
        graph::last_open(coverage::covering_windows(plan, p), t, k),
        window_laws::lies_over(
            coverage::covering_windows(plan, p)[k],
            window::frames(plan.detections@, p.threshold as int)[f].boxes@[j],
            plan.source,
            p.margin as int,
        ),
{
    let threshold = p.threshold as int;
    let fs = window::frames(plan.detections@, threshold);
    let rs = window::runs(fs, p.gap_merge as int);
    let n = rs.len() as int;
    let len = p.window_max as int;
    let duration = plan.source.duration as int;
    let r = window_laws::lemma_run_around(plan, p, f, t);
    let run = fs.subrange(rs[r].0, rs[r].1);
    let g = f - rs[r].0;
    let s = window::run_start(run, p);
    let e = window::run_end(run, p, duration);
    assert(s <= t <= e);
    assert(window::counts(run[g].boxes@[j], threshold));
    assert(window_laws::has_box(run[g], threshold));
    let short = window::short_windows(plan, p);
    let list = window::merged_windows(plan, p);
    let ws = coverage::covering_windows(plan, p);
    let q = window_laws::lemma_run_windows_reach(run, s, e, len, plan.source, p, t);
    let m = window_laws::lemma_run_among(fs, rs, n, r, len, plan.source, p, q);
    window_laws::lemma_short_windows(plan, p);
    window_laws::lemma_merged_windows(plan, p);
    merging_laws::lemma_settled_legible(short, p.max_windows as int, duration);
    merging_laws::law_merging_leaves_nothing_out(short, p.max_windows as int, duration);
    reveal(merging_laws::replaces);
    assert(merging_laws::has_over(list, short[m].w));
    let k0 = choose|k: int|
        0 <= k < list.len() && merging_laws::engulfs((#[trigger] list[k]).w, short[m].w);
    merging_laws::law_sharing_only_adds(list, k0, duration, 0, 0);
    assert(ws[k0].contains(t));
    let k = lemma_last_open(ws, t, k0);
    merging_laws::law_sharing_only_adds(list, k, duration, 0, 0);
    assert(list[k].w.contains(t));
    merging_laws::law_the_shown_window_covers_every_run(list, short, k, m, t);
    let b = choose|b: int|
        0 <= b < short.len() && (#[trigger] short[b]).run == r && short[b].w.contains(t)
            && window_laws::inside(short[b].w, ws[k]);
    let q2 = window_laws::lemma_window_of_run(fs, rs, n, len, plan.source, p, b);
    assert(due_in_run(run, g, p.gap_merge as int, t));
    lemma_open_windows_lie_over(run, s, e, len, plan.source, p, t, q2, g, j);
    window_laws::lemma_larger_lies_over(
        ws[k],
        short[b].w,
        fs[f].boxes@[j],
        plan.source,
        p.margin as int,
    );
    k
}

proof fn lemma_shown_box(
    ws: Seq<WindowView>,
    duration: int,
    src: Source,
    margin: int,
    b: DetBox,
    t: int,
    k: int,
)
    requires
        forall|i: int| 0 <= i < ws.len() ==> window_laws::well_placed(#[trigger] ws[i], duration),
        graph::last_open(ws, t, k),
        window_laws::lies_over(ws[k], b, src, margin),
        b.well_shaped(),
        src.width > 0,
        src.height > 0,
        window::margin_pixels(src.width as int, margin) >= 1,
        window::margin_pixels(src.height as int, margin) >= 1,
    ensures
        hidden_by(ws, b, src.width as int, src.height as int, t),
{
    let fw = src.width as int;
    let fh = src.height as int;
    graph_laws::law_moving_box_covers_what_shows(ws, duration, fw, fh, t, k);
    window_laws::law_margin_absorbs_rounding(ws[k], b, src, margin);
    let list = graph::spans_of(ws);
    assert(list[k].0 <= t <= list[k].1);
    graph_laws::law_filter_is_on_during_its_spans(list, t);
}

proof fn lemma_frame_is_sound(plan: Plan, p: WindowParams, f: int, j: int)
    requires
        plan.sound(),
        0 <= f < window::frames(plan.detections@, p.threshold as int).len(),
        0 <= j < window::frames(plan.detections@, p.threshold as int)[f].boxes@.len(),
    ensures
        window::frames(plan.detections@, p.threshold as int)[f].boxes@[j].well_shaped(),
{
    let dets = plan.detections@;
    let fs = window::frames(dets, p.threshold as int);
    window_laws::lemma_frames(dets, p.threshold as int);
    assert(dets.contains(fs[f]));
    let i = choose|i: int| 0 <= i < dets.len() && dets[i] == fs[f];
    assert(dets[i].boxes_well_shaped());
}

/// An uncovered picture never reaches the screen. While a detection is within
/// the merge gap, all through the lead of the first of its run and all through
/// the hold of the last, the overlay is on and the moving box leaves out no
/// pixel of any box of it, whatever other runs are open. Only the last column
/// or row of a frame with an odd side is out of reach.
pub proof fn law_detections_are_covered_on_screen(
    plan: Plan,
    p: WindowParams,
    f: int,
    j: int,
    t: int,
)
    requires
        on_screen(plan, p, f, j, t),
    ensures
        hidden_by(
            coverage::covering_windows(plan, p),
            window::frames(plan.detections@, p.threshold as int)[f].boxes@[j],
            plan.source.width as int,
            plan.source.height as int,
            t,
        ),
{
    let ws = coverage::covering_windows(plan, p);
    let duration = plan.source.duration as int;
    let k = lemma_shown_window_lies_over(plan, p, f, j, t);
    lemma_covering_windows_placed(plan, p);
    lemma_frame_is_sound(plan, p, f, j);
    lemma_shown_box(
        ws,
        duration,
        plan.source,
        p.margin as int,
        window::frames(plan.detections@, p.threshold as int)[f].boxes@[j],
        t,
        k,
    );
}

proof fn lemma_covering_windows_placed(plan: Plan, p: WindowParams)
    ensures
        forall|i: int|
            0 <= i < coverage::covering_windows(plan, p).len() ==> window_laws::well_placed(
                #[trigger] coverage::covering_windows(plan, p)[i],
                plan.source.duration as int,
            ),
{
    let ws = coverage::covering_windows(plan, p);
    let duration = plan.source.duration as int;
    window_laws::lemma_merged_windows(plan, p);
    assert forall|i: int| 0 <= i < ws.len() implies window_laws::well_placed(
        #[trigger] ws[i],
        duration,
    ) by {
        merging_laws::law_sharing_only_adds(window::merged_windows(plan, p), i, duration, 0, 0);
    }
}

// ---------------------------------------------------------------------------
// A cast
// ---------------------------------------------------------------------------

/// The window that shows in the movie shows in the cast, and last of all.
proof fn lemma_shifted_last(ws: Seq<Window>, offset: int, t: int, k: int) -> (m: int)
    requires
        0 <= offset,
        t > 0,
        0 <= k < ws.len(),
        cast_laws::shows(ws[k], t + offset),
        forall|j: int| k < j < ws.len() ==> !cast_laws::shows(#[trigger] ws[j], t + offset),
    ensures
        0 <= m < cast::shifted(ws, offset).len(),
        cast_laws::shows(cast::shifted(ws, offset)[m], t),
        cast_laws::same_rectangle(ws[k], cast::shifted(ws, offset)[m]),
        forall|j: int|
            m < j < cast::shifted(ws, offset).len() ==> !cast_laws::shows(
                #[trigger] cast::shifted(ws, offset)[j],
                t,
            ),
    decreases ws.len(),
{
    if offset <= 0 {
        k
    } else {
        let prev = ws.drop_last();
        let last = ws.last();
        let before = cast::shifted(prev, offset);
        let all = cast::shifted(ws, offset);
        if last.end > offset {
            assert(all.last().start == cast::moved_start(last.start as int, offset));
            assert(cast_laws::shows(last, t + offset) == cast_laws::shows(all.last(), t));
        }
        if k == ws.len() - 1 {
            before.len() as int
        } else {
            assert(!cast_laws::shows(ws[ws.len() - 1], t + offset));
            assert forall|j: int| k < j < prev.len() implies !cast_laws::shows(
                #[trigger] prev[j],
                t + offset,
            ) by {
                assert(prev[j] == ws[j]);
            }
            let m = lemma_shifted_last(prev, offset, t, k);
            assert(all[m] == before[m]);
            assert forall|j: int| m < j < all.len() implies !cast_laws::shows(
                #[trigger] all[j],
                t,
            ) by {
                if j < before.len() {
                    assert(all[j] == before[j]);
                }
            }
            m
        }
    }
}

proof fn lemma_shifted_placed(ws: Seq<WindowView>, start: int, duration: int)
    requires
        duration <= i64::MAX,
        forall|i: int| 0 <= i < ws.len() ==> window_laws::well_placed(#[trigger] ws[i], duration),
        forall|i: int| 0 <= i < ws.len() ==> representable(#[trigger] ws[i]),
    ensures
        forall|i: int|
            0 <= i < playback::cast_windows_of(ws, start).len() ==> window_laws::well_placed(
                #[trigger] playback::cast_windows_of(ws, start)[i],
                duration,
            ),
{
    let offset = cast::seek_time(start);
    let plain = playback::bare_windows(ws);
    let moved = cast::shifted(plain, offset);
    let all = playback::cast_windows_of(ws, start);
    assert forall|i: int| 0 <= i < plain.len() implies (#[trigger] plain[i]).start
        < plain[i].end by {
        assert(window_laws::well_placed(ws[i], duration) && representable(ws[i]));
    }
    assert forall|k: int| 0 <= k < all.len() implies window_laws::well_placed(
        #[trigger] all[k],
        duration,
    ) by {
        if offset > 0 {
            cast_laws::law_shifting_moves_only_time(plain, offset, k);
            let i = choose|i: int|
                0 <= i < plain.len() && cast_laws::moved_only_in_time(
                    #[trigger] plain[i],
                    moved[k],
                );
            assert(window_laws::well_placed(ws[i], duration) && representable(ws[i]));
        } else {
            assert(moved[k] == plain[k]);
            assert(window_laws::well_placed(ws[k], duration) && representable(ws[k]));
        }
    }
}

/// A window whose numbers are machine integers.
spec fn representable(w: WindowView) -> bool {
    &&& i64::MIN <= w.start <= i64::MAX
    &&& i64::MIN <= w.end <= i64::MAX
    &&& i64::MIN <= w.x <= i64::MAX
    &&& i64::MIN <= w.y <= i64::MAX
    &&& i64::MIN <= w.w <= i64::MAX
    &&& i64::MIN <= w.h <= i64::MAX
}

/// A cast's graph nests no deeper than the screen's.
pub proof fn law_cast_nests_within_the_cap(
    plan: Plan,
    p: WindowParams,
    start: int,
    fw: int,
    fh: int,
)
    ensures
        ({
            let ws = playback::cast_windows_of(coverage::covering_windows(plan, p), start);
            let cap = window::imax(p.max_windows as int, 1);
            &&& graph::x_expr(ws, fw, fh).depth() <= cap
            &&& graph::y_expr(ws, fw, fh).depth() <= cap
        }),
{
    let ws = coverage::covering_windows(plan, p);
    coverage_laws::law_coverage_fits_a_graph(plan, p);
    cast_laws::law_shifting_adds_no_window(playback::bare_windows(ws), cast::seek_time(start));
    graph_laws::law_nesting_is_the_window_count(
        playback::cast_windows_of(ws, start),
        fw,
        fh,
    );
}

/// A cast shows every detection covered, pixel by pixel, as the screen does:
/// after the first instant, what is due in the movie at the moment being cast
/// is hidden in the cast.
pub proof fn law_detections_are_covered_in_a_cast(
    plan: Plan,
    p: WindowParams,
    c: Coverage,
    start: int,
    f: int,
    j: int,
    t: int,
)
    requires
        window::window_views(c.windows@) == coverage::covering_windows(plan, p),
        t > 0,
        on_screen(plan, p, f, j, t + cast::seek_time(start)),
    ensures
        hidden_by(
            playback::cast_windows_of(window::window_views(c.windows@), start),
            window::frames(plan.detections@, p.threshold as int)[f].boxes@[j],
            plan.source.width as int,
            plan.source.height as int,
            t,
        ),
{
    let offset = cast::seek_time(start);
    let at = t + offset;
    let ws = window::window_views(c.windows@);
    let duration = plan.source.duration as int;
    let k = lemma_shown_window_lies_over(plan, p, f, j, at);
    lemma_covering_windows_placed(plan, p);
    lemma_frame_is_sound(plan, p, f, j);
    assert forall|i: int| 0 <= i < ws.len() implies representable(#[trigger] ws[i]) by {
        assert(ws[i] == c.windows@[i]@);
    }
    let plain = playback::bare_windows(ws);
    let moved = cast::shifted(plain, offset);
    let all = playback::cast_windows_of(ws, start);
    assert(representable(ws[k]));
    assert forall|i: int| k < i < plain.len() implies !cast_laws::shows(#[trigger] plain[i], at) by {
        assert(!ws[i].contains(at) && representable(ws[i]));
    }
    let m = lemma_shifted_last(plain, offset, t, k);
    lemma_shifted_placed(ws, start, duration);
    assert(all[m].contains(t));
    assert forall|i: int| m < i < all.len() implies !(#[trigger] all[i]).contains(t) by {
        assert(!cast_laws::shows(moved[i], t));
    }
    lemma_shown_box(
        all,
        duration,
        plan.source,
        p.margin as int,
        window::frames(plan.detections@, p.threshold as int)[f].boxes@[j],
        t,
        m,
    );
}

proof fn lemma_runs_follow(rs: Seq<(int, int)>, n: int, a: int, b: int)
    requires
        window::runs_tile(rs, n),
        0 <= a < b < rs.len(),
    ensures
        rs[a].1 <= rs[b].0,
    decreases b - a,
{
    if a + 1 < b {
        lemma_runs_follow(rs, n, a, b - 1);
        assert(rs[b - 1].1 == rs[b].0);
    }
}

/// Frames that follow one another belong to one run exactly when no more than
/// the merge gap lies between them.
pub proof fn law_close_frames_share_a_run(fs: Seq<Detection>, gap: int, f: int)
    requires
        0 <= f,
        f + 1 < fs.len(),
    ensures
        fs[f + 1].t - fs[f].t <= gap <==> exists|r: int|
            0 <= r < window::runs(fs, gap).len() && (#[trigger] window::runs(fs, gap)[r]).0 <= f
                && f + 1 < window::runs(fs, gap)[r].1,
    decreases fs.len(),
{
    let rs = window::runs(fs, gap);
    let n = fs.len() as int;
    let prev = fs.drop_last();
    let before = window::runs(prev, gap);
    window::lemma_runs_tile(fs, gap);
    window::lemma_runs_tile(prev, gap);
    if f + 1 < n - 1 {
        law_close_frames_share_a_run(prev, gap, f);
        if exists|r: int| 0 <= r < before.len() && (#[trigger] before[r]).0 <= f && f + 1
            < before[r].1 {
            let r = choose|r: int|
                0 <= r < before.len() && (#[trigger] before[r]).0 <= f && f + 1 < before[r].1;
            assert(rs[r].0 <= f && f + 1 < rs[r].1);
        }
        if exists|r: int| 0 <= r < rs.len() && (#[trigger] rs[r]).0 <= f && f + 1 < rs[r].1 {
            let r = choose|r: int|
                0 <= r < rs.len() && (#[trigger] rs[r]).0 <= f && f + 1 < rs[r].1;
            assert(r < before.len());
            assert(before[r].0 <= f && f + 1 < before[r].1);
        }
    } else {
        let last = rs.len() - 1;
        if fs[f + 1].t - fs[f].t <= gap {
            assert(rs[last].0 <= f && f + 1 < rs[last].1);
        } else {
            assert(rs[last] == (n - 1, n));
            assert forall|r: int| 0 <= r < rs.len() implies !((#[trigger] rs[r]).0 <= f && f + 1
                < rs[r].1) by {
                if r < last {
                    lemma_runs_follow(rs, n, r, last);
                }
            }
        }
    }
}

} // verus!
