//! What holds of the windows of every plan.

use vstd::prelude::*;

use crate::merging::Tagged;
use crate::merging_laws;
use crate::plan::{DetBox, Detection, Plan, Source};
use crate::window;
use crate::window::{Patch, WindowParams, WindowView};

verus! {

/// Detections are listed in the order they were seen.
pub open spec fn in_time_order(dets: Seq<Detection>) -> bool {
    forall|i: int, j: int| 0 <= i <= j < dets.len() ==> (#[trigger] dets[i]).t <= (#[trigger] dets[j]).t
}

/// Whether a detection has a box that is covered.
pub open spec fn has_box(d: Detection, threshold: int) -> bool {
    exists|j: int| 0 <= j < d.boxes@.len() && window::counts(#[trigger] d.boxes@[j], threshold)
}

/// A rectangle, as the edges of what it covers.
pub open spec fn patch_holds(p: Patch, b: DetBox) -> bool {
    &&& p.x1 <= b.bounds@[0]
    &&& p.y1 <= b.bounds@[1]
    &&& b.bounds@[2] <= p.x2
    &&& b.bounds@[3] <= p.y2
}

/// Whether a patch stays inside another.
spec fn patch_within(p: Patch, q: Patch) -> bool {
    &&& q.x1 <= p.x1
    &&& q.y1 <= p.y1
    &&& p.x2 <= q.x2
    &&& p.y2 <= q.y2
}

/// The cover lies over a box and its margin, as far as the frame has even
/// columns and rows to cover.
pub open spec fn lies_over(w: WindowView, b: DetBox, src: Source, margin: int) -> bool {
    let mx = window::margin_pixels(src.width as int, margin);
    let my = window::margin_pixels(src.height as int, margin);
    &&& w.x <= window::imax(b.bounds@[0] - mx, 0)
    &&& w.y <= window::imax(b.bounds@[1] - my, 0)
    &&& window::even_floor(window::imin(b.bounds@[2] + mx, src.width as int)) <= w.x + w.w
    &&& window::even_floor(window::imin(b.bounds@[3] + my, src.height as int)) <= w.y + w.h
}

/// The rectangle of one window is inside that of another.
pub open spec fn inside(v: WindowView, w: WindowView) -> bool {
    &&& w.x <= v.x
    &&& w.y <= v.y
    &&& v.x + v.w <= w.x + w.w
    &&& v.y + v.h <= w.y + w.h
}

/// What the arithmetic of a window always gives: whole even pixels, a span
/// inside the movie, and never a sliver.
pub open spec fn well_placed(w: WindowView, duration: int) -> bool {
    &&& 0 <= w.start < w.end <= duration
    &&& 0 <= w.x && w.x % 2 == 0
    &&& 0 <= w.y && w.y % 2 == 0
    &&& 4 <= w.w && w.w % 2 == 0
    &&& 4 <= w.h && w.h % 2 == 0
}

/// The rectangle of a window does not stick out of the frame.
pub open spec fn in_frame(w: WindowView, width: int, height: int) -> bool {
    w.x + w.w <= width && w.y + w.h <= height
}

/// Every covered box starts at least four pixels before the far edges.
pub open spec fn boxes_start_in_frame(plan: Plan, threshold: int) -> bool {
    &&& 4 <= plan.source.width
    &&& 4 <= plan.source.height
    &&& forall|i: int, j: int|
        0 <= i < plan.detections@.len() && 0 <= j < plan.detections@[i].boxes@.len()
            && window::counts(#[trigger] plan.detections@[i].boxes@[j], threshold) ==> {
            &&& plan.detections@[i].boxes@[j].bounds@[0] <= plan.source.width - 4
            &&& plan.detections@[i].boxes@[j].bounds@[1] <= plan.source.height - 4
        }
}

// ---------------------------------------------------------------------------
// Frames and runs
// ---------------------------------------------------------------------------

/// A frame put in its place is there, with all the others and no more.
proof fn lemma_put(fs: Seq<Detection>, d: Detection)
    ensures
        window::put(fs, d).contains(d),
        forall|k: int| 0 <= k < fs.len() ==> window::put(fs, d).contains(#[trigger] fs[k]),
        forall|k: int|
            0 <= k < window::put(fs, d).len() ==> (#[trigger] window::put(fs, d)[k]) == d
                || fs.contains(window::put(fs, d)[k]),
        in_time_order(fs) ==> in_time_order(window::put(fs, d)),
    decreases fs.len(),
{
    let all = window::put(fs, d);
    if fs.len() == 0 || fs.last().t <= d.t {
        assert(all[all.len() - 1] == d);
        assert forall|k: int| 0 <= k < fs.len() implies all.contains(#[trigger] fs[k]) by {
            assert(all[k] == fs[k]);
        }
        if in_time_order(fs) {
            assert forall|i: int, j: int| 0 <= i <= j < all.len() implies (#[trigger] all[i]).t <= (
            #[trigger] all[j]).t by {
                if j == fs.len() && i < j {
                    assert(fs[i].t <= fs[fs.len() - 1].t);
                }
            }
        }
    } else {
        let prev = fs.drop_last();
        let head = window::put(prev, d);
        lemma_put(prev, d);
        let at = choose|k: int| 0 <= k < head.len() && head[k] == d;
        assert(all[at] == d);
        assert forall|k: int| 0 <= k < fs.len() implies all.contains(#[trigger] fs[k]) by {
            if k < prev.len() {
                assert(prev[k] == fs[k]);
                let m = choose|m: int| 0 <= m < head.len() && head[m] == fs[k];
                assert(all[m] == fs[k]);
            } else {
                assert(all[all.len() - 1] == fs[k]);
            }
        }
        assert forall|k: int| 0 <= k < all.len() implies (#[trigger] all[k]) == d || fs.contains(
            all[k],
        ) by {
            if k < head.len() {
                assert(all[k] == head[k]);
                if head[k] != d {
                    let m = choose|m: int| 0 <= m < prev.len() && prev[m] == head[k];
                    assert(fs[m] == all[k]);
                }
            } else {
                assert(all[k] == fs[fs.len() - 1]);
            }
        }
        if in_time_order(fs) {
            assert(in_time_order(prev));
            assert forall|i: int, j: int| 0 <= i <= j < all.len() implies (#[trigger] all[i]).t <= (
            #[trigger] all[j]).t by {
                if j < head.len() {
                    assert(all[i] == head[i] && all[j] == head[j]);
                } else if i < head.len() {
                    assert(all[i] == head[i]);
                    if head[i] != d {
                        let m = choose|m: int| 0 <= m < prev.len() && prev[m] == head[i];
                        assert(fs[m].t <= fs[fs.len() - 1].t);
                    }
                }
            }
        }
    }
}

/// The frames are the flagged detections of a plan, in the order of time.
pub(crate) proof fn lemma_frames(dets: Seq<Detection>, threshold: int)
    ensures
        forall|f: int|
            0 <= f < window::frames(dets, threshold).len() ==> dets.contains(
                #[trigger] window::frames(dets, threshold)[f],
            ) && window::flagged(window::frames(dets, threshold)[f], threshold),
        forall|i: int|
            0 <= i < dets.len() && window::flagged(#[trigger] dets[i], threshold)
                ==> window::frames(dets, threshold).contains(dets[i]),
        in_time_order(window::frames(dets, threshold)),
    decreases dets.len(),
{
    if dets.len() > 0 {
        let prev = dets.drop_last();
        lemma_frames(prev, threshold);
        let old_fs = window::frames(prev, threshold);
        let fs = window::frames(dets, threshold);
        lemma_put(old_fs, dets.last());
        assert forall|f: int| 0 <= f < fs.len() implies dets.contains(#[trigger] fs[f])
            && window::flagged(fs[f], threshold) by {
            if fs[f] == dets.last() && window::flagged(dets.last(), threshold) {
                assert(dets[dets.len() - 1] == fs[f]);
            } else {
                assert(old_fs.contains(fs[f]));
                let g = choose|g: int| 0 <= g < old_fs.len() && old_fs[g] == fs[f];
                assert(prev.contains(old_fs[g]));
                let i = choose|i: int| 0 <= i < prev.len() && prev[i] == old_fs[g];
                assert(dets[i] == fs[f]);
            }
        }
        assert forall|i: int|
            0 <= i < dets.len() && window::flagged(#[trigger] dets[i], threshold) implies fs.contains(
            dets[i],
        ) by {
            if i < prev.len() {
                assert(prev[i] == dets[i]);
                let f = choose|f: int| 0 <= f < old_fs.len() && old_fs[f] == dets[i];
                if window::flagged(dets.last(), threshold) {
                    assert(window::put(old_fs, dets.last()).contains(old_fs[f]));
                }
            }
        }
    }
}

/// Every frame is in a run.
pub(crate) proof fn lemma_run_of(fs: Seq<Detection>, gap: int, f: int) -> (r: int)
    requires
        0 <= f < fs.len(),
    ensures
        0 <= r < window::runs(fs, gap).len(),
        window::runs(fs, gap)[r].0 <= f < window::runs(fs, gap)[r].1,
{
    window::lemma_runs_tile(fs, gap);
    let rs = window::runs(fs, gap);
    lemma_range_of(rs, fs.len() as int, f, rs.len() - 1)
}

proof fn lemma_range_of(rs: Seq<(int, int)>, n: int, f: int, k: int) -> (r: int)
    requires
        window::runs_tile(rs, n),
        0 <= k < rs.len(),
        0 <= f < rs[k].1,
    ensures
        0 <= r <= k,
        rs[r].0 <= f < rs[r].1,
    decreases k,
{
    if rs[k].0 <= f {
        k
    } else {
        assert(rs[k - 1].1 == rs[k].0);
        lemma_range_of(rs, n, f, k - 1)
    }
}

// ---------------------------------------------------------------------------
// Patches
// ---------------------------------------------------------------------------

proof fn lemma_with_boxes(acc: Option<Patch>, t: int, boxes: Seq<DetBox>, threshold: int)
    ensures
        acc is Some ==> window::with_boxes(acc, t, boxes, threshold) is Some && patch_within(
            acc->0,
            window::with_boxes(acc, t, boxes, threshold)->0,
        ),
        forall|j: int|
            0 <= j < boxes.len() && window::counts(#[trigger] boxes[j], threshold)
                ==> window::with_boxes(acc, t, boxes, threshold) is Some && patch_holds(
                window::with_boxes(acc, t, boxes, threshold)->0,
                boxes[j],
            ),
        window::with_boxes(acc, t, boxes, threshold) is Some ==> acc is Some || exists|j: int|
            0 <= j < boxes.len() && window::counts(#[trigger] boxes[j], threshold),
    decreases boxes.len(),
{
    if boxes.len() > 0 {
        let prev = boxes.drop_last();
        lemma_with_boxes(acc, t, prev, threshold);
        assert forall|j: int|
            0 <= j < boxes.len() && window::counts(#[trigger] boxes[j], threshold) implies
            window::with_boxes(acc, t, boxes, threshold) is Some && patch_holds(
            window::with_boxes(acc, t, boxes, threshold)->0,
            boxes[j],
        ) by {
            if j < prev.len() {
                assert(prev[j] == boxes[j]);
            }
        }
        let all = window::with_boxes(acc, t, boxes, threshold);
        if all is Some && acc is None {
            if window::counts(boxes.last(), threshold) {
                assert(window::counts(boxes[boxes.len() - 1], threshold));
            } else {
                let j = choose|j: int| 0 <= j < prev.len() && window::counts(#[trigger] prev[j], threshold);
                assert(window::counts(boxes[j], threshold));
            }
        }
    }
}

/// A patch holds every counting box of every frame it is made of.
pub(crate) proof fn lemma_patch_holds(run: Seq<Detection>, span: Option<(int, int)>, threshold: int)
    ensures
        forall|f: int, j: int|
            0 <= f < run.len() && window::near(run[f].t as int, span) && 0 <= j
                < run[f].boxes@.len() && window::counts(
                #[trigger] run[f].boxes@[j],
                threshold,
            ) ==> window::patch_of(run, span, threshold) is Some && patch_holds(
                window::patch_of(run, span, threshold)->0,
                run[f].boxes@[j],
            ),
        window::patch_of(run, span, threshold) is Some ==> exists|f: int, j: int|
            0 <= f < run.len() && window::near(run[f].t as int, span) && 0 <= j
                < run[f].boxes@.len() && window::counts(#[trigger] run[f].boxes@[j], threshold),
    decreases run.len(),
{
    if run.len() > 0 {
        let prev = run.drop_last();
        lemma_patch_holds(prev, span, threshold);
        let before = window::patch_of(prev, span, threshold);
        let t = run.last().t as int;
        lemma_with_boxes(before, t, run.last().boxes@, threshold);
        let all = window::patch_of(run, span, threshold);
        assert forall|f: int, j: int|
            0 <= f < run.len() && window::near(run[f].t as int, span) && 0 <= j
                < run[f].boxes@.len() && window::counts(
                #[trigger] run[f].boxes@[j],
                threshold,
            ) implies all is Some && patch_holds(all->0, run[f].boxes@[j]) by {
            if f < prev.len() {
                assert(prev[f] == run[f]);
                assert(window::counts(prev[f].boxes@[j], threshold));
                assert(before is Some && patch_holds(before->0, prev[f].boxes@[j]));
            } else {
                assert(run[f] == run.last());
            }
        }
        if all is Some {
            if before is Some {
                let (f, j) = choose|f: int, j: int|
                    0 <= f < prev.len() && window::near(prev[f].t as int, span) && 0 <= j
                        < prev[f].boxes@.len() && window::counts(
                        #[trigger] prev[f].boxes@[j],
                        threshold,
                    );
                assert(prev[f] == run[f]);
                assert(window::counts(run[f].boxes@[j], threshold));
            } else {
                let f = run.len() - 1;
                let j = choose|j: int|
                    0 <= j < run.last().boxes@.len() && window::counts(
                        #[trigger] run.last().boxes@[j],
                        threshold,
                    );
                assert(window::counts(run[f].boxes@[j], threshold));
            }
        }
    }
}

/// A patch is made of boxes: each of its edges is the edge of one of them.
proof fn lemma_with_boxes_tight(
    acc: Option<Patch>,
    t: int,
    boxes: Seq<DetBox>,
    threshold: int,
    right: int,
    bottom: int,
)
    requires
        acc is Some ==> acc->0.x1 <= right && acc->0.y1 <= bottom,
        forall|j: int|
            0 <= j < boxes.len() && window::counts(#[trigger] boxes[j], threshold)
                ==> boxes[j].bounds@[0] <= right && boxes[j].bounds@[1] <= bottom,
    ensures
        window::with_boxes(acc, t, boxes, threshold) matches Some(p) ==> p.x1 <= right && p.y1
            <= bottom,
    decreases boxes.len(),
{
    if boxes.len() > 0 {
        let prev = boxes.drop_last();
        assert forall|j: int|
            0 <= j < prev.len() && window::counts(#[trigger] prev[j], threshold) implies
            prev[j].bounds@[0] <= right && prev[j].bounds@[1] <= bottom by {
            assert(prev[j] == boxes[j]);
        }
        lemma_with_boxes_tight(acc, t, prev, threshold, right, bottom);
        assert(boxes.last() == boxes[boxes.len() - 1]);
    }
}

proof fn lemma_patch_tight(
    run: Seq<Detection>,
    span: Option<(int, int)>,
    threshold: int,
    right: int,
    bottom: int,
)
    requires
        forall|f: int, j: int|
            0 <= f < run.len() && 0 <= j < run[f].boxes@.len() && window::counts(
                #[trigger] run[f].boxes@[j],
                threshold,
            ) ==> run[f].boxes@[j].bounds@[0] <= right && run[f].boxes@[j].bounds@[1] <= bottom,
    ensures
        window::patch_of(run, span, threshold) matches Some(p) ==> p.x1 <= right && p.y1 <= bottom,
    decreases run.len(),
{
    if run.len() > 0 {
        let prev = run.drop_last();
        assert forall|f: int, j: int|
            0 <= f < prev.len() && 0 <= j < prev[f].boxes@.len() && window::counts(
                #[trigger] prev[f].boxes@[j],
                threshold,
            ) implies prev[f].boxes@[j].bounds@[0] <= right && prev[f].boxes@[j].bounds@[1]
            <= bottom by {
            assert(prev[f] == run[f]);
            assert(window::counts(run[f].boxes@[j], threshold));
        }
        lemma_patch_tight(prev, span, threshold, right, bottom);
        let last = run.last();
        assert forall|j: int|
            0 <= j < last.boxes@.len() && window::counts(#[trigger] last.boxes@[j], threshold) implies
            last.boxes@[j].bounds@[0] <= right && last.boxes@[j].bounds@[1] <= bottom by {
            assert(window::counts(run[run.len() - 1].boxes@[j], threshold));
        }
        lemma_with_boxes_tight(
            window::patch_of(prev, span, threshold),
            last.t as int,
            last.boxes@,
            threshold,
            right,
            bottom,
        );
    }
}

// ---------------------------------------------------------------------------
// Windows of a run
// ---------------------------------------------------------------------------

pub(crate) proof fn lemma_window_over(patch: Patch, s: int, e: int, src: Source, margin: int, b: DetBox)
    requires
        patch_holds(patch, b),
    ensures
        lies_over(window::window_over(patch, s, e, src, margin), b, src, margin),
{
}

/// In a run with a box, every moment of the run's span is in a window, and
/// that window lies over every box seen close enough to that moment.
pub(crate) proof fn lemma_run_windows_reach(
    run: Seq<Detection>,
    s: int,
    end: int,
    len: int,
    src: Source,
    p: WindowParams,
    t: int,
) -> (k: int)
    requires
        len > 0,
        s <= t <= end,
        s < end,
        exists|f: int| 0 <= f < run.len() && has_box(#[trigger] run[f], p.threshold as int),
    ensures
        0 <= k < window::run_windows(run, s, end, len, src, p).len(),
        window::run_windows(run, s, end, len, src, p)[k].contains(t),
        forall|f: int, j: int|
            0 <= f < run.len() && 0 <= j < run[f].boxes@.len() && window::counts(
                #[trigger] run[f].boxes@[j],
                p.threshold as int,
            ) && t - p.gap_merge <= run[f].t <= t + p.gap_merge ==> lies_over(
                window::run_windows(run, s, end, len, src, p)[k],
                run[f].boxes@[j],
                src,
                p.margin as int,
            ),
    decreases end - s,
{
    let e = window::imin(s + len, end);
    let rest = window::run_windows(run, e, end, len, src, p);
    let all = window::run_windows(run, s, end, len, src, p);
    let threshold = p.threshold as int;
    let near_span = Some((s - p.gap_merge, e + p.gap_merge));
    lemma_patch_holds(run, near_span, threshold);
    lemma_patch_holds(run, None, threshold);
    let g = choose|f: int| 0 <= f < run.len() && has_box(#[trigger] run[f], threshold);
    let h = choose|j: int| 0 <= j < run[g].boxes@.len() && window::counts(#[trigger] run[g].boxes@[j], threshold);
    assert(window::counts(run[g].boxes@[h], threshold));
    assert(window::patch_of(run, None, threshold) is Some);
    let patch = window::window_patch(run, s, e, p)->0;
    let first = window::window_over(patch, s, e, src, p.margin as int);
    assert(all == seq![first] + rest);
    if t <= e {
        assert(all[0] == first);
        assert forall|f: int, j: int|
            0 <= f < run.len() && 0 <= j < run[f].boxes@.len() && window::counts(
                #[trigger] run[f].boxes@[j],
                threshold,
            ) && t - p.gap_merge <= run[f].t <= t + p.gap_merge implies lies_over(
            all[0],
            run[f].boxes@[j],
            src,
            p.margin as int,
        ) by {
            assert(window::near(run[f].t as int, near_span));
            assert(patch_holds(patch, run[f].boxes@[j]));
            lemma_window_over(patch, s, e, src, p.margin as int, run[f].boxes@[j]);
        }
        0
    } else {
        let k = lemma_run_windows_reach(run, e, end, len, src, p, t);
        assert(all[k + 1] == rest[k]);
        k + 1
    }
}

/// Windows of a run are well placed, and in the frame if their boxes start in
/// it.
proof fn lemma_run_windows_placed(
    run: Seq<Detection>,
    s: int,
    end: int,
    len: int,
    src: Source,
    p: WindowParams,
)
    requires
        0 <= s,
        end <= src.duration,
    ensures
        forall|k: int|
            0 <= k < window::run_windows(run, s, end, len, src, p).len() ==> well_placed(
                #[trigger] window::run_windows(run, s, end, len, src, p)[k],
                src.duration as int,
            ),
        (4 <= src.width && 4 <= src.height && window::margin_pixels(
            src.width as int,
            p.margin as int,
        ) >= 0 && window::margin_pixels(src.height as int, p.margin as int) >= 0 && forall|
            f: int,
            j: int,
        |
            0 <= f < run.len() && 0 <= j < run[f].boxes@.len() && window::counts(
                #[trigger] run[f].boxes@[j],
                p.threshold as int,
            ) ==> run[f].boxes@[j].bounds@[0] <= src.width - 4 && run[f].boxes@[j].bounds@[1]
                <= src.height - 4) ==> forall|k: int|
            0 <= k < window::run_windows(run, s, end, len, src, p).len() ==> in_frame(
                #[trigger] window::run_windows(run, s, end, len, src, p)[k],
                src.width as int,
                src.height as int,
            ),
    decreases end - s,
{
    if s < end && len > 0 {
        let e = window::imin(s + len, end);
        lemma_run_windows_placed(run, e, end, len, src, p);
        let rest = window::run_windows(run, e, end, len, src, p);
        let all = window::run_windows(run, s, end, len, src, p);
        let threshold = p.threshold as int;
        let near_span = Some((s - p.gap_merge, e + p.gap_merge));
        if let Some(patch) = window::window_patch(run, s, e, p) {
            let first = window::window_over(patch, s, e, src, p.margin as int);
            assert(all == seq![first] + rest);
            assert(well_placed(first, src.duration as int));
            if 4 <= src.width && 4 <= src.height && window::margin_pixels(
                src.width as int,
                p.margin as int,
            ) >= 0 && window::margin_pixels(src.height as int, p.margin as int) >= 0 && forall|
                f: int,
                j: int,
            |
                0 <= f < run.len() && 0 <= j < run[f].boxes@.len() && window::counts(
                    #[trigger] run[f].boxes@[j],
                    threshold,
                ) ==> run[f].boxes@[j].bounds@[0] <= src.width - 4 && run[f].boxes@[j].bounds@[1]
                    <= src.height - 4 {
                lemma_patch_tight(run, near_span, threshold, src.width - 4, src.height - 4);
                lemma_patch_tight(run, None, threshold, src.width - 4, src.height - 4);
                assert(patch.x1 <= src.width - 4 && patch.y1 <= src.height - 4);
                assert(in_frame(first, src.width as int, src.height as int));
            }
            assert forall|k: int| 0 <= k < all.len() implies all[k] == if k == 0 {
                first
            } else {
                rest[k - 1]
            } by {}
        } else {
            assert(all == rest);
        }
    }
}

/// The windows of a run with a box follow one another without a gap.
proof fn lemma_run_windows_follow(
    run: Seq<Detection>,
    s: int,
    end: int,
    len: int,
    src: Source,
    p: WindowParams,
)
    ensures
        ({
            let ws = window::run_windows(run, s, end, len, src, p);
            &&& forall|k: int| 0 <= k < ws.len() ==> (#[trigger] ws[k]).start < ws[k].end
            &&& forall|k: int| 0 < k < ws.len() ==> ws[k - 1].end == (#[trigger] ws[k]).start
            &&& window::patch_of(run, None, p.threshold as int) is None ==> ws.len() == 0
            &&& ws.len() > 0 && window::patch_of(run, None, p.threshold as int) is Some
                ==> ws[0].start == s
        }),
    decreases end - s,
{
    if s < end && len > 0 {
        let e = window::imin(s + len, end);
        let rest = window::run_windows(run, e, end, len, src, p);
        let all = window::run_windows(run, s, end, len, src, p);
        let threshold = p.threshold as int;
        lemma_run_windows_follow(run, e, end, len, src, p);
        lemma_patch_holds(run, None, threshold);
        lemma_patch_holds(run, Some((s - p.gap_merge, e + p.gap_merge)), threshold);
        match window::window_patch(run, s, e, p) {
            Some(patch) => {
                let first = window::window_over(patch, s, e, src, p.margin as int);
                assert(all == seq![first] + rest);
                assert(window::patch_of(run, None, threshold) is Some);
                assert forall|k: int| 0 <= k < all.len() implies (#[trigger] all[k]).start
                    < all[k].end by {
                    if k > 0 {
                        assert(all[k] == rest[k - 1]);
                    }
                }
                assert forall|k: int| 0 < k < all.len() implies all[k - 1].end == (
                #[trigger] all[k]).start by {
                    assert(all[k] == rest[k - 1]);
                    if k > 1 {
                        assert(all[k - 1] == rest[k - 2]);
                    }
                }
            },
            None => {
                assert(all == rest);
            },
        }
    }
}

// ---------------------------------------------------------------------------
// Windows of a movie
// ---------------------------------------------------------------------------

/// The windows of a run are among the windows of the movie.
pub(crate) proof fn lemma_run_among(
    fs: Seq<Detection>,
    rs: Seq<(int, int)>,
    n: int,
    r: int,
    len: int,
    src: Source,
    p: WindowParams,
    k: int,
) -> (m: int)
    requires
        0 <= r < n <= rs.len(),
        0 <= k < window::windows_of_run(fs.subrange(rs[r].0, rs[r].1), len, src, p).len(),
    ensures
        0 <= m < window::windows_of_runs(fs, rs, n, len, src, p).len(),
        window::windows_of_runs(fs, rs, n, len, src, p)[m] == (Tagged {
            run: r,
            w: window::windows_of_run(fs.subrange(rs[r].0, rs[r].1), len, src, p)[k],
        }),
    decreases n,
{
    let before = window::windows_of_runs(fs, rs, n - 1, len, src, p);
    if r == n - 1 {
        before.len() + k
    } else {
        lemma_run_among(fs, rs, n - 1, r, len, src, p, k)
    }
}

/// Every window of the movie is one of a run.
pub(crate) proof fn lemma_window_of_run(
    fs: Seq<Detection>,
    rs: Seq<(int, int)>,
    n: int,
    len: int,
    src: Source,
    p: WindowParams,
    k: int,
) -> (q: int)
    requires
        0 <= n <= rs.len(),
        0 <= k < window::windows_of_runs(fs, rs, n, len, src, p).len(),
    ensures
        ({
            let all = window::windows_of_runs(fs, rs, n, len, src, p);
            let r = all[k].run;
            let ws = window::windows_of_run(fs.subrange(rs[r].0, rs[r].1), len, src, p);
            &&& 0 <= r < n
            &&& 0 <= q < ws.len()
            &&& all[k].w == ws[q]
        }),
    decreases n,
{
    let before = window::windows_of_runs(fs, rs, n - 1, len, src, p);
    if k >= before.len() {
        k - before.len()
    } else {
        lemma_window_of_run(fs, rs, n - 1, len, src, p, k)
    }
}

/// Before any merging, windows stand by run and without gaps.
proof fn lemma_short_windows_orderly(
    fs: Seq<Detection>,
    rs: Seq<(int, int)>,
    n: int,
    len: int,
    src: Source,
    p: WindowParams,
)
    requires
        0 <= n <= rs.len(),
    ensures
        merging_laws::orderly(window::windows_of_runs(fs, rs, n, len, src, p)),
    decreases n,
{
    if n > 0 {
        lemma_short_windows_orderly(fs, rs, n - 1, len, src, p);
        let run = fs.subrange(rs[n - 1].0, rs[n - 1].1);
        let before = window::windows_of_runs(fs, rs, n - 1, len, src, p);
        let ws = window::windows_of_run(run, len, src, p);
        let here = window::of_run(ws, n - 1);
        let all = window::windows_of_runs(fs, rs, n, len, src, p);
        lemma_run_windows_follow(
            run,
            window::run_start(run, p),
            window::run_end(run, p, src.duration as int),
            len,
            src,
            p,
        );
        assert(all == before + here);
        assert forall|i: int| 0 <= i < all.len() implies (#[trigger] all[i]).w.start
            < all[i].w.end by {
            if i < before.len() {
                assert(all[i] == before[i]);
            } else {
                assert(all[i].w == ws[i - before.len()]);
            }
        }
        assert forall|i: int| 0 < i < all.len() implies all[i - 1].run <= (#[trigger] all[i]).run && (
        all[i - 1].run == all[i].run ==> all[i - 1].w.end == all[i].w.start) by {
            if i < before.len() {
                assert(all[i] == before[i] && all[i - 1] == before[i - 1]);
            } else if i == before.len() {
                let q = lemma_window_of_run(fs, rs, n - 1, len, src, p, i - 1);
                assert(all[i - 1] == before[i - 1]);
                assert(all[i].run == n - 1);
            } else {
                assert(all[i].w == ws[i - before.len()] && all[i - 1].w == ws[i - 1
                    - before.len()]);
                assert(all[i].run == n - 1 && all[i - 1].run == n - 1);
            }
        }
    }
}

proof fn lemma_windows_placed(
    plan: Plan,
    p: WindowParams,
    rs: Seq<(int, int)>,
    n: int,
    len: int,
)
    requires
        ({
            let fs = window::frames(plan.detections@, p.threshold as int);
            &&& 0 <= n <= rs.len()
            &&& window::runs_tile(rs, fs.len() as int)
        }),
    ensures
        ({
            let fs = window::frames(plan.detections@, p.threshold as int);
            let ws = window::windows_of_runs(fs, rs, n, len, plan.source, p);
            &&& merging_laws::all_well_placed(ws, plan.source.duration as int)
            &&& p.margin >= 0 && boxes_start_in_frame(plan, p.threshold as int)
                ==> merging_laws::all_in_frame(
                ws,
                plan.source.width as int,
                plan.source.height as int,
            )
        }),
    decreases n,
{
    let threshold = p.threshold as int;
    let src = plan.source;
    let fs = window::frames(plan.detections@, threshold);
    if n > 0 {
        lemma_windows_placed(plan, p, rs, n - 1, len);
        let run = fs.subrange(rs[n - 1].0, rs[n - 1].1);
        let s = window::run_start(run, p);
        let e = window::run_end(run, p, src.duration as int);
        lemma_run_windows_placed(run, s, e, len, src, p);
        let before = window::windows_of_runs(fs, rs, n - 1, len, src, p);
        let here = window::windows_of_run(run, len, src, p);
        let ws = window::windows_of_runs(fs, rs, n, len, src, p);
        assert forall|k: int| 0 <= k < ws.len() implies well_placed(
            (#[trigger] ws[k]).w,
            src.duration as int,
        ) by {
            if k < before.len() {
                assert(ws[k] == before[k]);
            } else {
                assert(ws[k].w == here[k - before.len()]);
            }
        }
        if p.margin >= 0 && boxes_start_in_frame(plan, threshold) {
            lemma_frames(plan.detections@, threshold);
            assert forall|f: int, j: int|
                0 <= f < run.len() && 0 <= j < run[f].boxes@.len() && window::counts(
                    #[trigger] run[f].boxes@[j],
                    threshold,
                ) implies run[f].boxes@[j].bounds@[0] <= src.width - 4
                && run[f].boxes@[j].bounds@[1] <= src.height - 4 by {
                assert(run[f] == fs[rs[n - 1].0 + f]);
                let i = choose|i: int|
                    0 <= i < plan.detections@.len() && plan.detections@[i] == run[f];
                assert(window::counts(plan.detections@[i].boxes@[j], threshold));
            }
            assert(src.width * p.margin >= 0 && src.height * p.margin >= 0) by (nonlinear_arith)
                requires
                    src.width >= 4,
                    src.height >= 4,
                    p.margin >= 0,
            ;
            assert forall|k: int| 0 <= k < ws.len() implies in_frame(
                (#[trigger] ws[k]).w,
                src.width as int,
                src.height as int,
            ) by {
                if k < before.len() {
                    assert(ws[k] == before[k]);
                } else {
                    assert(ws[k].w == here[k - before.len()]);
                }
            }
        }
    }
}

/// The short windows of a plan are well placed and orderly.
pub(crate) proof fn lemma_short_windows(plan: Plan, p: WindowParams)
    ensures
        merging_laws::orderly(window::short_windows(plan, p)),
        merging_laws::all_well_placed(
            window::short_windows(plan, p),
            plan.source.duration as int,
        ),
        p.margin >= 0 && boxes_start_in_frame(plan, p.threshold as int)
            ==> merging_laws::all_in_frame(
            window::short_windows(plan, p),
            plan.source.width as int,
            plan.source.height as int,
        ),
{
    let fs = window::frames(plan.detections@, p.threshold as int);
    let rs = window::runs(fs, p.gap_merge as int);
    window::lemma_runs_tile(fs, p.gap_merge as int);
    lemma_windows_placed(plan, p, rs, rs.len() as int, p.window_max as int);
    lemma_short_windows_orderly(
        fs,
        rs,
        rs.len() as int,
        p.window_max as int,
        plan.source,
        p,
    );
}

/// The merged windows of a plan are well placed, and as many as the cap allows.
pub(crate) proof fn lemma_merged_windows(plan: Plan, p: WindowParams)
    ensures
        merging_laws::all_well_placed(
            window::merged_windows(plan, p),
            plan.source.duration as int,
        ),
        p.margin >= 0 && boxes_start_in_frame(plan, p.threshold as int)
            ==> merging_laws::all_in_frame(
            window::merged_windows(plan, p),
            plan.source.width as int,
            plan.source.height as int,
        ),
        window::merged_windows(plan, p).len() <= window::imax(p.max_windows as int, 1),
{
    lemma_short_windows(plan, p);
    merging_laws::law_merging_reaches_the_cap(
        window::short_windows(plan, p),
        p.max_windows as int,
        plan.source.duration as int,
        plan.source.width as int,
        plan.source.height as int,
    );
}

/// A window that engulfs another lies over whatever that one lies over.
pub(crate) proof fn lemma_larger_lies_over(
    w: WindowView,
    v: WindowView,
    b: DetBox,
    src: Source,
    margin: int,
)
    requires
        inside(v, w),
        lies_over(v, b, src, margin),
    ensures
        lies_over(w, b, src, margin),
{
}

/// Where a flagged frame is: its place among the frames, and its run.
pub(crate) proof fn lemma_run_around(plan: Plan, p: WindowParams, f: int, t: int) -> (r: int)
    requires
        0 <= f < window::frames(plan.detections@, p.threshold as int).len(),
        p.pad_before + p.pad_after > 0,
        plan.source.duration > 0,
        window::frames(plan.detections@, p.threshold as int)[f].t + p.pad_after > 0,
        window::frames(plan.detections@, p.threshold as int)[f].t - p.pad_before
            < plan.source.duration,
    ensures
        ({
            let fs = window::frames(plan.detections@, p.threshold as int);
            let rs = window::runs(fs, p.gap_merge as int);
            let run = fs.subrange(rs[r].0, rs[r].1);
            let s = window::run_start(run, p);
            let e = window::run_end(run, p, plan.source.duration as int);
            &&& 0 <= r < rs.len()
            &&& 0 <= rs[r].0 <= f < rs[r].1 <= fs.len()
            &&& run[f - rs[r].0] == fs[f]
            &&& in_time_order(run)
            &&& s < e
            &&& 0 <= t <= plan.source.duration && fs[f].t - p.pad_before <= t <= fs[f].t
                + p.pad_after ==> s <= t <= e
        }),
{
    let threshold = p.threshold as int;
    let fs = window::frames(plan.detections@, threshold);
    let rs = window::runs(fs, p.gap_merge as int);
    lemma_frames(plan.detections@, threshold);
    window::lemma_runs_tile(fs, p.gap_merge as int);
    let r = lemma_run_of(fs, p.gap_merge as int, f);
    let run = fs.subrange(rs[r].0, rs[r].1);
    assert(run.first() == fs[rs[r].0]);
    assert(run.last() == fs[rs[r].1 - 1]);
    assert(run.first().t <= fs[f].t <= run.last().t);
    assert forall|i: int, j: int| 0 <= i <= j < run.len() implies (#[trigger] run[i]).t <= (
    #[trigger] run[j]).t by {
        assert(run[i] == fs[rs[r].0 + i] && run[j] == fs[rs[r].0 + j]);
    }
    r
}

// ---------------------------------------------------------------------------
// The laws
// ---------------------------------------------------------------------------

/// Lead and hold: from the lead before a detection to the hold after it, as
/// far as the movie goes, there is a window at every moment. The window lies
/// over every box of the detection while the moment is within the merge gap
/// of it.
pub proof fn law_lead_and_hold(plan: Plan, p: WindowParams, i: int, t: int)
    requires
        p.pad_before + p.pad_after > 0,
        p.window_max > 0,
        plan.source.duration > 0,
        0 <= i < plan.detections@.len(),
        has_box(plan.detections@[i], p.threshold as int),
        plan.detections@[i].t + p.pad_after > 0,
        plan.detections@[i].t - p.pad_before < plan.source.duration,
        0 <= t <= plan.source.duration,
        plan.detections@[i].t - p.pad_before <= t <= plan.detections@[i].t + p.pad_after,
    ensures
        exists|k: int|
            0 <= k < window::plan_windows(plan, p).len() && (#[trigger] window::plan_windows(
                plan,
                p,
            )[k]).contains(t) && forall|j: int|
                0 <= j < plan.detections@[i].boxes@.len() && window::counts(
                    #[trigger] plan.detections@[i].boxes@[j],
                    p.threshold as int,
                ) && plan.detections@[i].t - p.gap_merge <= t <= plan.detections@[i].t
                    + p.gap_merge ==> lies_over(
                    window::plan_windows(plan, p)[k],
                    plan.detections@[i].boxes@[j],
                    plan.source,
                    p.margin as int,
                ),
{
    let threshold = p.threshold as int;
    let dets = plan.detections@;
    let fs = window::frames(dets, threshold);
    let rs = window::runs(fs, p.gap_merge as int);
    let len = p.window_max as int;
    lemma_frames(dets, threshold);
    assert(window::flagged(dets[i], threshold));
    let f = choose|f: int| 0 <= f < fs.len() && fs[f] == dets[i];
    let r = lemma_run_around(plan, p, f, t);
    let run = fs.subrange(rs[r].0, rs[r].1);
    let g = f - rs[r].0;
    let s = window::run_start(run, p);
    let e = window::run_end(run, p, plan.source.duration as int);
    assert(has_box(run[g], threshold));
    let q = lemma_run_windows_reach(run, s, e, len, plan.source, p, t);
    let m = lemma_run_among(fs, rs, rs.len() as int, r, len, plan.source, p, q);
    let short = window::short_windows(plan, p);
    let list = window::merged_windows(plan, p);
    let ws = window::plan_windows(plan, p);
    merging_laws::law_merging_leaves_nothing_out(
        short,
        p.max_windows as int,
        plan.source.duration as int,
    );
    reveal(merging_laws::replaces);
    assert(merging_laws::has_over(list, short[m].w));
    let k = choose|k: int|
        0 <= k < list.len() && merging_laws::engulfs((#[trigger] list[k]).w, short[m].w);
    assert(ws[k] == list[k].w);
    assert(ws[k].contains(t));
    assert forall|j: int|
        0 <= j < dets[i].boxes@.len() && window::counts(#[trigger] dets[i].boxes@[j], threshold)
            && dets[i].t - p.gap_merge <= t <= dets[i].t + p.gap_merge implies lies_over(
        ws[k],
        dets[i].boxes@[j],
        plan.source,
        p.margin as int,
    ) by {
        assert(window::counts(run[g].boxes@[j], threshold));
        lemma_larger_lies_over(
            ws[k],
            short[m].w,
            dets[i].boxes@[j],
            plan.source,
            p.margin as int,
        );
    }
}

/// With a margin of at least a pixel, lying over a box means that no pixel of
/// the box inside the frame is left out, but for the last column or row of a
/// frame with an odd side.
pub proof fn law_margin_absorbs_rounding(w: WindowView, b: DetBox, src: Source, margin: int)
    requires
        lies_over(w, b, src, margin),
        b.well_shaped(),
        window::margin_pixels(src.width as int, margin) >= 1,
        window::margin_pixels(src.height as int, margin) >= 1,
    ensures
        w.x <= b.bounds@[0],
        w.y <= b.bounds@[1],
        window::imin(b.bounds@[2] as int, window::even_floor(src.width as int)) <= w.x + w.w,
        window::imin(b.bounds@[3] as int, window::even_floor(src.height as int)) <= w.y + w.h,
{
}

/// Windows stand on even pixels, have a size, and span some of the movie.
pub proof fn law_windows_well_placed(plan: Plan, p: WindowParams, k: int)
    requires
        0 <= k < window::plan_windows(plan, p).len(),
    ensures
        well_placed(window::plan_windows(plan, p)[k], plan.source.duration as int),
{
    lemma_merged_windows(plan, p);
    assert(well_placed(window::merged_windows(plan, p)[k].w, plan.source.duration as int));
}

/// Windows stay inside the frame when their boxes start inside it.
pub proof fn law_windows_in_frame(plan: Plan, p: WindowParams, k: int)
    requires
        p.margin >= 0,
        boxes_start_in_frame(plan, p.threshold as int),
        0 <= k < window::plan_windows(plan, p).len(),
    ensures
        in_frame(
            window::plan_windows(plan, p)[k],
            plan.source.width as int,
            plan.source.height as int,
        ),
{
    lemma_merged_windows(plan, p);
    assert(in_frame(
        window::merged_windows(plan, p)[k].w,
        plan.source.width as int,
        plan.source.height as int,
    ));
}

/// The windows of a plan are never more than the cap, or than one.
pub proof fn law_windows_fit_the_cap(plan: Plan, p: WindowParams)
    ensures
        window::plan_windows(plan, p).len() <= window::imax(p.max_windows as int, 1),
{
    lemma_merged_windows(plan, p);
}

/// Whether a window covers a pixel at a moment.
pub open spec fn covers_pixel(w: WindowView, t: int, x: int, y: int) -> bool {
    w.contains(t) && w.x <= x < w.x + w.w && w.y <= y < w.y + w.h
}

/// Merging harder covers more of the picture, never less: whatever pixel is
/// covered at whatever moment stays covered under a lower cap.
pub proof fn law_merging_harder_never_covers_less(
    plan: Plan,
    p: WindowParams,
    lower: usize,
    k: int,
    t: int,
    x: int,
    y: int,
)
    requires
        lower <= p.max_windows,
        0 <= k < window::plan_windows(plan, p).len(),
        covers_pixel(window::plan_windows(plan, p)[k], t, x, y),
    ensures
        ({
            let ws = window::plan_windows(plan, WindowParams { max_windows: lower, ..p });
            exists|m: int| 0 <= m < ws.len() && covers_pixel(#[trigger] ws[m], t, x, y)
        }),
{
    let q = WindowParams { max_windows: lower, ..p };
    let short = window::short_windows(plan, p);
    let duration = plan.source.duration as int;
    lemma_cap_aside(plan, p, q);
    let list = window::merged_windows(plan, p);
    let fewer = window::merged_windows(plan, q);
    merging_laws::law_merging_harder_leaves_nothing_out(
        short,
        p.max_windows as int,
        lower as int,
        duration,
    );
    reveal(merging_laws::replaces);
    assert(merging_laws::has_over(fewer, list[k].w));
    let m = choose|m: int|
        0 <= m < fewer.len() && merging_laws::engulfs((#[trigger] fewer[m]).w, list[k].w);
    let ws = window::plan_windows(plan, q);
    assert(ws[m] == fewer[m].w);
    assert(covers_pixel(ws[m], t, x, y));
}

/// The cap makes no difference to the windows that are merged.
proof fn lemma_cap_aside(plan: Plan, p: WindowParams, q: WindowParams)
    requires
        q == (WindowParams { max_windows: q.max_windows, ..p }),
    ensures
        window::short_windows(plan, p) == window::short_windows(plan, q),
{
    let fs = window::frames(plan.detections@, p.threshold as int);
    let rs = window::runs(fs, p.gap_merge as int);
    lemma_cap_aside_runs(fs, rs, rs.len() as int, p.window_max as int, plan.source, p, q);
}

proof fn lemma_cap_aside_runs(
    fs: Seq<Detection>,
    rs: Seq<(int, int)>,
    n: int,
    len: int,
    src: Source,
    p: WindowParams,
    q: WindowParams,
)
    requires
        q == (WindowParams { max_windows: q.max_windows, ..p }),
    ensures
        window::windows_of_runs(fs, rs, n, len, src, p) == window::windows_of_runs(
            fs,
            rs,
            n,
            len,
            src,
            q,
        ),
    decreases n,
{
    if n > 0 {
        let run = fs.subrange(rs[n - 1].0, rs[n - 1].1);
        lemma_cap_aside_runs(fs, rs, n - 1, len, src, p, q);
        lemma_cap_aside_run(
            run,
            window::run_start(run, p),
            window::run_end(run, p, src.duration as int),
            len,
            src,
            p,
            q,
        );
    }
}

proof fn lemma_cap_aside_run(
    run: Seq<Detection>,
    s: int,
    end: int,
    len: int,
    src: Source,
    p: WindowParams,
    q: WindowParams,
)
    requires
        q == (WindowParams { max_windows: q.max_windows, ..p }),
    ensures
        window::run_windows(run, s, end, len, src, p) == window::run_windows(
            run,
            s,
            end,
            len,
            src,
            q,
        ),
    decreases end - s,
{
    if s < end && len > 0 {
        lemma_cap_aside_run(run, window::imin(s + len, end), end, len, src, p, q);
    }
}

/// The smallest box around two: it holds both, any box that holds both holds
/// it, and it does not matter which comes first.
pub proof fn law_union_is_the_least_box(a: Seq<i64>, b: Seq<i64>, c: Seq<i64>)
    requires
        a.len() == 4,
        b.len() == 4,
        c.len() == 4,
    ensures
        box_within(a, window::around(a, b)),
        box_within(b, window::around(a, b)),
        box_within(a, c) && box_within(b, c) ==> box_within(window::around(a, b), c),
        window::around(a, b) == window::around(b, a),
        window::around(a, a) == a,
{
    assert(window::around(a, b) =~= window::around(b, a));
    assert(window::around(a, a) =~= a);
}

/// Whether a box, as its four edges, is inside another.
pub open spec fn box_within(a: Seq<i64>, b: Seq<i64>) -> bool {
    b[0] <= a[0] && b[1] <= a[1] && a[2] <= b[2] && a[3] <= b[3]
}

/// A movie with nothing to cover has no windows.
pub proof fn law_clean_movie_has_no_windows(plan: Plan, p: WindowParams)
    requires
        forall|i: int|
            0 <= i < plan.detections@.len() ==> !window::flagged(
                #[trigger] plan.detections@[i],
                p.threshold as int,
            ),
    ensures
        window::plan_windows(plan, p).len() == 0,
{
    let fs = window::frames(plan.detections@, p.threshold as int);
    lemma_frames(plan.detections@, p.threshold as int);
    if fs.len() > 0 {
        let i = choose|i: int| 0 <= i < plan.detections@.len() && plan.detections@[i] == fs[0];
        assert(window::flagged(plan.detections@[i], p.threshold as int));
    }
}

} // verus!
