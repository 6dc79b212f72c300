//! What a window covers and when, in terms of the boxes that were seen.

use vstd::prelude::*;

use crate::coverage::Coverage;
use crate::graph;
use crate::merging::Tagged;
use crate::plan::{DetBox, Detection, Plan, Source};
use crate::spans;
use crate::window;
use crate::window::{Patch, WindowParams, WindowView};

verus! {

// ---------------------------------------------------------------------------
// Which frames count
// ---------------------------------------------------------------------------

/// Whether a box is strong enough to be covered, or says nothing of its
/// strength.
pub open spec fn strong(b: DetBox, threshold: int) -> bool {
    b.label@ == Seq::<char>::empty() || b.score >= threshold
}

/// Whether a frame was recorded without a box, or with a strong one.
pub open spec fn covered(d: Detection, threshold: int) -> bool {
    ||| d.boxes@.len() == 0
    ||| exists|j: int| 0 <= j < d.boxes@.len() && strong(#[trigger] d.boxes@[j], threshold)
}

proof fn lemma_strong(b: DetBox, threshold: int)
    ensures
        window::counts(b, threshold) == strong(b, threshold),
{
    if b.label@.len() == 0 {
        assert(b.label@ =~= Seq::<char>::empty());
    }
}

proof fn lemma_covered(d: Detection, threshold: int)
    ensures
        window::flagged(d, threshold) == covered(d, threshold),
{
    assert forall|j: int| 0 <= j < d.boxes@.len() implies window::counts(
        #[trigger] d.boxes@[j],
        threshold,
    ) == strong(d.boxes@[j], threshold) by {
        lemma_strong(d.boxes@[j], threshold);
    }
}

proof fn lemma_put(fs: Seq<Detection>, d: Detection, t: int)
    requires
        forall|i: int, j: int| 0 <= i <= j < fs.len() ==> (#[trigger] fs[i]).t <= (#[trigger] fs[j]).t,
    ensures
        ({
            let gs = window::put(fs, d);
            &&& gs.len() == fs.len() + 1
            &&& forall|i: int, j: int|
                0 <= i <= j < gs.len() ==> (#[trigger] gs[i]).t <= (#[trigger] gs[j]).t
            &&& gs.filter(|e: Detection| e.t == t) == if d.t == t {
                fs.filter(|e: Detection| e.t == t).push(d)
            } else {
                fs.filter(|e: Detection| e.t == t)
            }
            &&& forall|i: int|
                0 <= i < gs.len() ==> (#[trigger] gs[i]).t == d.t || exists|j: int|
                    0 <= j < fs.len() && gs[i] == #[trigger] fs[j]
        }),
    decreases fs.len(),
{
    reveal(Seq::filter);
    let gs = window::put(fs, d);
    if fs.len() == 0 || fs.last().t <= d.t {
        assert(gs.drop_last() =~= fs);
        assert forall|i: int| 0 <= i < gs.len() implies (#[trigger] gs[i]).t == d.t || exists|j: int|
            0 <= j < fs.len() && gs[i] == #[trigger] fs[j] by {
            if i < fs.len() {
                assert(gs[i] == fs[i]);
            }
        }
    } else {
        let less = fs.drop_last();
        lemma_put(less, d, t);
        let hs = window::put(less, d);
        assert(gs.drop_last() =~= hs);
        assert(gs.last() == fs.last());
        assert forall|i: int| 0 <= i < hs.len() implies (#[trigger] hs[i]).t <= fs.last().t by {
            if hs[i].t != d.t {
                let j = choose|j: int| 0 <= j < less.len() && hs[i] == #[trigger] less[j];
                assert(fs[j].t <= fs[fs.len() - 1].t);
            }
        }
        assert forall|i: int| 0 <= i < gs.len() implies (#[trigger] gs[i]).t == d.t || exists|j: int|
            0 <= j < fs.len() && gs[i] == #[trigger] fs[j] by {
            if i < hs.len() {
                assert(gs[i] == hs[i]);
                if hs[i].t != d.t {
                    let j = choose|j: int| 0 <= j < less.len() && hs[i] == #[trigger] less[j];
                    assert(fs[j] == hs[i]);
                }
            } else {
                assert(gs[i] == fs[fs.len() - 1]);
            }
        }
    }
}

/// The frames that are covered are exactly the plan's that have a strong box or
/// none at all, each as often as it is listed, in the order of time, and those
/// of one time in the order of the plan.
pub proof fn law_frames_are_those_covered(dets: Seq<Detection>, threshold: int, t: int)
    ensures
        ({
            let fs = window::frames(dets, threshold);
            &&& forall|i: int, j: int|
                0 <= i <= j < fs.len() ==> (#[trigger] fs[i]).t <= (#[trigger] fs[j]).t
            &&& fs.filter(|e: Detection| e.t == t) == dets.filter(
                |e: Detection| covered(e, threshold) && e.t == t,
            )
        }),
    decreases dets.len(),
{
    reveal(Seq::filter);
    if dets.len() > 0 {
        let prev = dets.drop_last();
        law_frames_are_those_covered(prev, threshold, t);
        lemma_covered(dets.last(), threshold);
        if window::flagged(dets.last(), threshold) {
            lemma_put(window::frames(prev, threshold), dets.last(), t);
        }
    }
}

/// Runs follow one another and use up all frames. Inside a run no two frames in
/// a row lie further apart than the gap, and between two runs they do.
pub proof fn law_runs_break_at_gaps(fs: Seq<Detection>, gap: int)
    ensures
        ({
            let rs = window::runs(fs, gap);
            &&& (rs.len() == 0) == (fs.len() == 0)
            &&& rs.len() > 0 ==> rs[0].0 == 0 && rs[rs.len() - 1].1 == fs.len()
            &&& forall|r: int|
                0 <= r < rs.len() ==> 0 <= (#[trigger] rs[r]).0 < rs[r].1 <= fs.len()
            &&& forall|r: int, i: int|
                0 <= r < rs.len() && rs[r].0 < i < rs[r].1 ==> (#[trigger] fs[i]).t - fs[i - 1].t
                    <= gap && #[trigger] rs[r] == rs[r]
            &&& forall|r: int|
                0 < r < rs.len() ==> rs[r - 1].1 == (#[trigger] rs[r]).0 && fs[rs[r].0].t
                    - fs[rs[r].0 - 1].t > gap
        }),
    decreases fs.len(),
{
    if fs.len() > 0 {
        let less = fs.drop_last();
        let n = fs.len() as int;
        law_runs_break_at_gaps(less, gap);
        let before = window::runs(less, gap);
        let rs = window::runs(fs, gap);
        assert forall|r: int, i: int|
            0 <= r < rs.len() && rs[r].0 < i < rs[r].1 implies (#[trigger] fs[i]).t - fs[i - 1].t
            <= gap && #[trigger] rs[r] == rs[r] by {
            if i < n - 1 {
                assert(less[i] == fs[i] && less[i - 1] == fs[i - 1]);
                assert(before[r] == before[r]);
            }
        }
        assert forall|r: int| 0 < r < rs.len() implies rs[r - 1].1 == (#[trigger] rs[r]).0
            && fs[rs[r].0].t - fs[rs[r].0 - 1].t > gap by {
            if r < before.len() {
                assert(before[r].0 == rs[r].0);
                assert(before[r - 1].1 == before[r].0);
                let i = before[r].0;
                assert(0 <= before[r - 1].0 < before[r - 1].1);
                assert(less[i] == fs[i] && less[i - 1] == fs[i - 1]);
            }
        }
    }
}

// ---------------------------------------------------------------------------
// Which boxes a window is over
// ---------------------------------------------------------------------------

/// Whether frame `i` of a run has a strong box `j` and was seen from `lo` to
/// `hi`.
pub open spec fn seen(
    run: Seq<Detection>,
    i: int,
    j: int,
    lo: int,
    hi: int,
    threshold: int,
) -> bool {
    &&& 0 <= i < run.len()
    &&& 0 <= j < run[i].boxes@.len()
    &&& lo <= run[i].t <= hi
    &&& strong(run[i].boxes@[j], threshold)
}

/// Whether a patch is the smallest rectangle around the boxes seen in a span,
/// and its reason the first of the strongest among them.
pub open spec fn hugs(run: Seq<Detection>, lo: int, hi: int, threshold: int, q: Patch) -> bool {
    &&& forall|i: int, j: int|
        #[trigger]
        seen(run, i, j, lo, hi, threshold) ==> {
            let b = run[i].boxes@[j];
            &&& q.x1 <= b.bounds@[0] && q.y1 <= b.bounds@[1]
            &&& b.bounds@[2] <= q.x2 && b.bounds@[3] <= q.y2
            &&& b.score <= q.score
        }
    &&& exists|i: int, j: int| #[trigger]
        seen(run, i, j, lo, hi, threshold) && run[i].boxes@[j].bounds@[0] == q.x1
    &&& exists|i: int, j: int| #[trigger]
        seen(run, i, j, lo, hi, threshold) && run[i].boxes@[j].bounds@[1] == q.y1
    &&& exists|i: int, j: int| #[trigger]
        seen(run, i, j, lo, hi, threshold) && run[i].boxes@[j].bounds@[2] == q.x2
    &&& exists|i: int, j: int| #[trigger]
        seen(run, i, j, lo, hi, threshold) && run[i].boxes@[j].bounds@[3] == q.y2
    &&& exists|i: int, j: int| #[trigger]
        seen(run, i, j, lo, hi, threshold) && reason_at(run, i, j, q) && forall|k: int, l: int|
            #[trigger]
            seen(run, k, l, lo, hi, threshold) && (k < i || (k == i && l < j))
                ==> run[k].boxes@[l].score < q.score
}

/// Whether the reason of a patch is box `j` of frame `i`.
pub open spec fn reason_at(run: Seq<Detection>, i: int, j: int, q: Patch) -> bool {
    &&& q.label == run[i].boxes@[j].label@
    &&& q.score == run[i].boxes@[j].score
    &&& q.t == run[i].t
}

/// Whether nothing is seen in a span.
pub open spec fn unseen(run: Seq<Detection>, lo: int, hi: int, threshold: int) -> bool {
    forall|i: int, j: int| !#[trigger] seen(run, i, j, lo, hi, threshold)
}

/// Whether an answer is the patch around what is seen in a span, if anything
/// is.
spec fn right(
    run: Seq<Detection>,
    lo: int,
    hi: int,
    threshold: int,
    acc: Option<Patch>,
) -> bool {
    match acc {
        Some(q) => hugs(run, lo, hi, threshold, q),
        None => unseen(run, lo, hi, threshold),
    }
}

/// Which boxes give a patch its edges and its reason.
struct Marks {
    left: (int, int),
    top: (int, int),
    right: (int, int),
    bottom: (int, int),
    reason: (int, int),
}

/// What is seen up to some box of the last frame.
spec fn seen_upto(
    run: Seq<Detection>,
    n: int,
    i: int,
    j: int,
    lo: int,
    hi: int,
    threshold: int,
) -> bool {
    seen(run, i, j, lo, hi, threshold) && (i < run.len() - 1 || j < n)
}

spec fn hugs_upto(
    run: Seq<Detection>,
    n: int,
    lo: int,
    hi: int,
    threshold: int,
    q: Patch,
    m: Marks,
) -> bool {
    &&& forall|i: int, j: int|
        #[trigger]
        seen_upto(run, n, i, j, lo, hi, threshold) ==> {
            let b = run[i].boxes@[j];
            &&& q.x1 <= b.bounds@[0] && q.y1 <= b.bounds@[1]
            &&& b.bounds@[2] <= q.x2 && b.bounds@[3] <= q.y2
            &&& b.score <= q.score
        }
    &&& seen_upto(run, n, m.left.0, m.left.1, lo, hi, threshold)
    &&& run[m.left.0].boxes@[m.left.1].bounds@[0] == q.x1
    &&& seen_upto(run, n, m.top.0, m.top.1, lo, hi, threshold)
    &&& run[m.top.0].boxes@[m.top.1].bounds@[1] == q.y1
    &&& seen_upto(run, n, m.right.0, m.right.1, lo, hi, threshold)
    &&& run[m.right.0].boxes@[m.right.1].bounds@[2] == q.x2
    &&& seen_upto(run, n, m.bottom.0, m.bottom.1, lo, hi, threshold)
    &&& run[m.bottom.0].boxes@[m.bottom.1].bounds@[3] == q.y2
    &&& seen_upto(run, n, m.reason.0, m.reason.1, lo, hi, threshold)
    &&& reason_at(run, m.reason.0, m.reason.1, q)
    &&& forall|k: int, l: int|
        #[trigger]
        seen_upto(run, n, k, l, lo, hi, threshold) && (k < m.reason.0 || (k == m.reason.0 && l
            < m.reason.1)) ==> run[k].boxes@[l].score < q.score
}

spec fn marked(run: Seq<Detection>, n: int, lo: int, hi: int, threshold: int, q: Patch) -> bool {
    exists|m: Marks| #[trigger] hugs_upto(run, n, lo, hi, threshold, q, m)
}

spec fn right_upto(
    run: Seq<Detection>,
    n: int,
    lo: int,
    hi: int,
    threshold: int,
    acc: Option<Patch>,
) -> bool {
    match acc {
        Some(q) => marked(run, n, lo, hi, threshold, q),
        None => forall|i: int, j: int| !#[trigger] seen_upto(run, n, i, j, lo, hi, threshold),
    }
}

proof fn lemma_with_boxes(
    run: Seq<Detection>,
    n: int,
    lo: int,
    hi: int,
    threshold: int,
    acc: Option<Patch>,
)
    requires
        run.len() > 0,
        0 <= n <= run.last().boxes@.len(),
        lo <= run.last().t <= hi,
        right_upto(run, 0, lo, hi, threshold, acc),
    ensures
        right_upto(
            run,
            n,
            lo,
            hi,
            threshold,
            window::with_boxes(acc, run.last().t as int, run.last().boxes@.take(n), threshold),
        ),
    decreases n,
{
    let t = run.last().t as int;
    let boxes = run.last().boxes@;
    let now = boxes.take(n);
    if n > 0 {
        let r = run.len() - 1;
        let j = n - 1;
        let before = window::with_boxes(acc, t, boxes.take(j), threshold);
        lemma_with_boxes(run, j, lo, hi, threshold, acc);
        assert(now.drop_last() =~= boxes.take(j));
        assert(now.last() == boxes[j]);
        lemma_strong(boxes[j], threshold);
        assert forall|i: int, k: int|
            #[trigger] seen_upto(run, n, i, k, lo, hi, threshold) implies seen_upto(
            run,
            j,
            i,
            k,
            lo,
            hi,
            threshold,
        ) || (i == r && k == j) by {}
        assert forall|i: int, k: int|
            #[trigger] seen_upto(run, j, i, k, lo, hi, threshold) implies seen_upto(
            run,
            n,
            i,
            k,
            lo,
            hi,
            threshold,
        ) by {}
        if window::counts(boxes[j], threshold) {
            assert(seen_upto(run, n, r, j, lo, hi, threshold));
            let q = window::grown(before, t, boxes[j]);
            let here = (r, j);
            match before {
                None => {
                    assert forall|i: int, k: int|
                        #[trigger] seen_upto(run, n, i, k, lo, hi, threshold) implies i == r && k
                        == j by {
                        assert(!seen_upto(run, j, i, k, lo, hi, threshold));
                    }
                    let m = Marks {
                        left: here,
                        top: here,
                        right: here,
                        bottom: here,
                        reason: here,
                    };
                    assert(hugs_upto(run, n, lo, hi, threshold, q, m));
                    assert(marked(run, n, lo, hi, threshold, q));
                },
                Some(o) => {
                    let m = choose|m: Marks| hugs_upto(run, j, lo, hi, threshold, o, m);
                    let x = boxes[j];
                    let a2 = if x.bounds@[0] < o.x1 {
                        here
                    } else {
                        m.left
                    };
                    let b2 = if x.bounds@[1] < o.y1 {
                        here
                    } else {
                        m.top
                    };
                    let c2 = if x.bounds@[2] > o.x2 {
                        here
                    } else {
                        m.right
                    };
                    let d2 = if x.bounds@[3] > o.y2 {
                        here
                    } else {
                        m.bottom
                    };
                    let e2 = if x.score > o.score {
                        here
                    } else {
                        m.reason
                    };
                    let now = Marks { left: a2, top: b2, right: c2, bottom: d2, reason: e2 };
                    assert(hugs_upto(run, n, lo, hi, threshold, q, now));
                    assert(marked(run, n, lo, hi, threshold, q));
                },
            }
        } else {
            match before {
                None => {
                    assert forall|i: int, k: int|
                        !#[trigger] seen_upto(run, n, i, k, lo, hi, threshold) by {
                        assert(!seen_upto(run, j, i, k, lo, hi, threshold));
                    }
                },
                Some(o) => {
                    let m = choose|m: Marks| hugs_upto(run, j, lo, hi, threshold, o, m);
                    assert(hugs_upto(run, n, lo, hi, threshold, o, m));
                },
            }
        }
    } else {
        assert(now.len() == 0);
    }
}

proof fn lemma_patch(
    run: Seq<Detection>,
    span: Option<(int, int)>,
    lo: int,
    hi: int,
    threshold: int,
)
    requires
        forall|i: int| 0 <= i < run.len() ==> window::near((#[trigger] run[i]).t as int, span) == (
        lo <= run[i].t <= hi),
    ensures
        right(run, lo, hi, threshold, window::patch_of(run, span, threshold)),
    decreases run.len(),
{
    let result = window::patch_of(run, span, threshold);
    if run.len() > 0 {
        let less = run.drop_last();
        let before = window::patch_of(less, span, threshold);
        assert forall|i: int| 0 <= i < less.len() implies window::near(
            (#[trigger] less[i]).t as int,
            span,
        ) == (lo <= less[i].t <= hi) by {
            assert(less[i] == run[i]);
        }
        lemma_patch(less, span, lo, hi, threshold);
        assert forall|i: int, j: int|
            #[trigger] seen_upto(run, 0, i, j, lo, hi, threshold) == seen(
                less,
                i,
                j,
                lo,
                hi,
                threshold,
            ) by {
            if 0 <= i < less.len() {
                assert(less[i] == run[i]);
            }
        }
        lemma_start(run, lo, hi, threshold, before);
        let last = run.last();
        let n = last.boxes@.len() as int;
        assert(run[run.len() - 1] == last);
        if lo <= last.t <= hi {
            lemma_with_boxes(run, n, lo, hi, threshold, before);
            assert(last.boxes@.take(n) =~= last.boxes@);
        } else {
            assert forall|i: int, j: int|
                #[trigger] seen_upto(run, n, i, j, lo, hi, threshold) == seen_upto(
                    run,
                    0,
                    i,
                    j,
                    lo,
                    hi,
                    threshold,
                ) by {}
            lemma_same(run, n, lo, hi, threshold, before);
        }
        lemma_finish(run, lo, hi, threshold, result);
    }
}

proof fn lemma_same(
    run: Seq<Detection>,
    n: int,
    lo: int,
    hi: int,
    threshold: int,
    acc: Option<Patch>,
)
    requires
        right_upto(run, 0, lo, hi, threshold, acc),
        forall|i: int, j: int|
            #[trigger] seen_upto(run, n, i, j, lo, hi, threshold) == seen_upto(
                run,
                0,
                i,
                j,
                lo,
                hi,
                threshold,
            ),
    ensures
        right_upto(run, n, lo, hi, threshold, acc),
{
    match acc {
        None => {},
        Some(q) => {
            let m = choose|m: Marks| hugs_upto(run, 0, lo, hi, threshold, q, m);
            assert(hugs_upto(run, n, lo, hi, threshold, q, m));
        },
    }
}

proof fn lemma_start(
    run: Seq<Detection>,
    lo: int,
    hi: int,
    threshold: int,
    acc: Option<Patch>,
)
    requires
        run.len() > 0,
        right(run.drop_last(), lo, hi, threshold, acc),
        forall|i: int, j: int|
            #[trigger] seen_upto(run, 0, i, j, lo, hi, threshold) == seen(
                run.drop_last(),
                i,
                j,
                lo,
                hi,
                threshold,
            ),
    ensures
        right_upto(run, 0, lo, hi, threshold, acc),
{
    let less = run.drop_last();
    match acc {
        None => {
            assert forall|i: int, j: int|
                !#[trigger] seen_upto(run, 0, i, j, lo, hi, threshold) by {
                assert(!seen(less, i, j, lo, hi, threshold));
            }
        },
        Some(q) => {
            let a = choose|i: int, j: int| #[trigger]
                seen(less, i, j, lo, hi, threshold) && less[i].boxes@[j].bounds@[0] == q.x1;
            let b = choose|i: int, j: int| #[trigger]
                seen(less, i, j, lo, hi, threshold) && less[i].boxes@[j].bounds@[1] == q.y1;
            let c = choose|i: int, j: int| #[trigger]
                seen(less, i, j, lo, hi, threshold) && less[i].boxes@[j].bounds@[2] == q.x2;
            let d = choose|i: int, j: int| #[trigger]
                seen(less, i, j, lo, hi, threshold) && less[i].boxes@[j].bounds@[3] == q.y2;
            let e = choose|i: int, j: int| #[trigger]
                seen(less, i, j, lo, hi, threshold) && reason_at(less, i, j, q) && forall|
                    k: int,
                    l: int,
                |
                    #[trigger]
                    seen(less, k, l, lo, hi, threshold) && (k < i || (k == i && l < j))
                        ==> less[k].boxes@[l].score < q.score;
            assert(seen_upto(run, 0, a.0, a.1, lo, hi, threshold));
            assert(seen_upto(run, 0, b.0, b.1, lo, hi, threshold));
            assert(seen_upto(run, 0, c.0, c.1, lo, hi, threshold));
            assert(seen_upto(run, 0, d.0, d.1, lo, hi, threshold));
            assert(seen_upto(run, 0, e.0, e.1, lo, hi, threshold));
            assert forall|i: int, j: int|
                #[trigger] seen_upto(run, 0, i, j, lo, hi, threshold) implies less[i] == run[i]
                && seen(less, i, j, lo, hi, threshold) by {}
            let m = Marks { left: a, top: b, right: c, bottom: d, reason: e };
            assert(hugs_upto(run, 0, lo, hi, threshold, q, m));
        },
    }
}

proof fn lemma_finish(
    run: Seq<Detection>,
    lo: int,
    hi: int,
    threshold: int,
    acc: Option<Patch>,
)
    requires
        run.len() > 0,
        right_upto(run, run.last().boxes@.len() as int, lo, hi, threshold, acc),
    ensures
        right(run, lo, hi, threshold, acc),
{
    let n = run.last().boxes@.len() as int;
    assert forall|i: int, j: int|
        #[trigger] seen(run, i, j, lo, hi, threshold) implies seen_upto(
        run,
        n,
        i,
        j,
        lo,
        hi,
        threshold,
    ) by {}
    match acc {
        None => {},
        Some(q) => {
            let m = choose|m: Marks| hugs_upto(run, n, lo, hi, threshold, q, m);
            assert(seen(run, m.left.0, m.left.1, lo, hi, threshold));
            assert(seen(run, m.top.0, m.top.1, lo, hi, threshold));
            assert(seen(run, m.right.0, m.right.1, lo, hi, threshold));
            assert(seen(run, m.bottom.0, m.bottom.1, lo, hi, threshold));
            assert(seen(run, m.reason.0, m.reason.1, lo, hi, threshold));
        },
    }
}

pub proof fn lemma_all_seen(run: Seq<Detection>, threshold: int)
    ensures
        (window::patch_of(run, None, threshold) is None) == unseen(
            run,
            i64::MIN as int,
            i64::MAX as int,
            threshold,
        ),
{
    lemma_patch(run, None, i64::MIN as int, i64::MAX as int, threshold);
}

/// What a window from `s` to `e` is over. Where its run has a strong box from
/// the merge gap before its start to the merge gap behind its end, it is over
/// the smallest rectangle around those boxes: each of its edges is an edge of
/// one of them. Else it is over the smallest around all strong boxes of the
/// run. The reason is the strongest of them, and of equals the first.
pub proof fn law_windows_hug_what_was_seen(run: Seq<Detection>, s: int, e: int, p: WindowParams)
    ensures
        ({
            let th = p.threshold as int;
            let lo = s - p.gap_merge;
            let hi = e + p.gap_merge;
            let all_lo = i64::MIN as int;
            let all_hi = i64::MAX as int;
            let patch = window::window_patch(run, s, e, p);
            &&& !unseen(run, lo, hi, th) ==> patch is Some && hugs(run, lo, hi, th, patch->0)
            &&& unseen(run, lo, hi, th) && !unseen(run, all_lo, all_hi, th) ==> patch is Some
                && hugs(run, all_lo, all_hi, th, patch->0)
            &&& unseen(run, all_lo, all_hi, th) ==> patch is None
        }),
{
    let th = p.threshold as int;
    let lo = s - p.gap_merge;
    let hi = e + p.gap_merge;
    lemma_patch(run, Some((lo, hi)), lo, hi, th);
    lemma_patch(run, None, i64::MIN as int, i64::MAX as int, th);
    if unseen(run, i64::MIN as int, i64::MAX as int, th) {
        assert forall|i: int, j: int| !#[trigger] seen(run, i, j, lo, hi, th) by {
            assert(!seen(run, i, j, i64::MIN as int, i64::MAX as int, th));
        }
    }
}

// ---------------------------------------------------------------------------
// Margins and even pixels
// ---------------------------------------------------------------------------

/// A margin is that many thousandths of the frame, cut off to whole pixels.
pub proof fn law_margins_are_in_proportion(size: int, margin: int)
    requires
        size >= 0,
        margin >= 0,
    ensures
        1000 * window::margin_pixels(size, margin) <= size * margin < 1000 * (window::margin_pixels(
            size,
            margin,
        ) + 1),
{
    assert(size * margin >= 0) by (nonlinear_arith)
        requires
            size >= 0,
            margin >= 0,
    ;
}

/// Something is covered at a moment exactly when a window or a full-frame span
/// holds it, from its start to its end.
pub proof fn law_covered_is_in_a_window_or_a_span(c: Coverage, t: int)
    ensures
        c.covers(t) <==> {
            ||| exists|k: int|
                0 <= k < c.windows@.len() && (#[trigger] c.windows@[k]).start <= t
                    <= c.windows@[k].end
            ||| exists|k: int|
                0 <= k < c.full_runs@.len() && (#[trigger] c.full_runs@[k]).0 <= t
                    <= c.full_runs@[k].1
        },
{
    let full = graph::span_views(c.full_runs@);
    if spans::any_holds(full, t) {
        let k = choose|k: int| 0 <= k < full.len() && (#[trigger] full[k]).0 <= t <= full[k].1;
        assert(c.full_runs@[k].0 <= t <= c.full_runs@[k].1);
    }
    if exists|k: int|
        0 <= k < c.full_runs@.len() && (#[trigger] c.full_runs@[k]).0 <= t <= c.full_runs@[k].1 {
        let k = choose|k: int|
            0 <= k < c.full_runs@.len() && (#[trigger] c.full_runs@[k]).0 <= t
                <= c.full_runs@[k].1;
        assert(full[k].0 <= t <= full[k].1);
    }
    if exists|k: int|
        0 <= k < c.windows@.len() && (#[trigger] c.windows@[k])@.contains(t) {
        let k = choose|k: int|
            0 <= k < c.windows@.len() && (#[trigger] c.windows@[k])@.contains(t);
        assert(c.windows@[k].start <= t <= c.windows@[k].end);
    }
    if exists|k: int|
        0 <= k < c.windows@.len() && (#[trigger] c.windows@[k]).start <= t <= c.windows@[k].end {
        let k = choose|k: int|
            0 <= k < c.windows@.len() && (#[trigger] c.windows@[k]).start <= t
                <= c.windows@[k].end;
        assert(c.windows@[k]@.contains(t));
    }
}

/// A margin that takes off takes off as much as one that adds adds.
pub proof fn law_margins_take_off_as_they_add(size: int, margin: int)
    ensures
        window::margin_pixels(size, -margin) == -window::margin_pixels(size, margin),
{
    assert(size * (-margin) == -(size * margin)) by (nonlinear_arith);
}

/// A window shows from its start to its end, and both belong to it.
pub proof fn law_windows_show_from_start_to_end(w: WindowView, t: int)
    ensures
        w.contains(t) <==> w.start <= t && t <= w.end,
{
}

/// A side starts on the last even pixel that is not past where the margin
/// starts, or at the edge of the frame. It is even, and ends within two pixels
/// of where the margin ends, or of the edge of the frame, and never past it,
/// unless it would be shorter than four.
pub proof fn law_sides_are_the_margin_made_even(lo: int, hi: int, margin: int, size: int)
    ensures
        ({
            let (a, len) = window::side(lo, hi, margin, size);
            let from = if lo - margin >= 0 {
                lo - margin
            } else {
                0
            };
            let to = if hi + margin <= size {
                hi + margin
            } else {
                size
            };
            &&& a % 2 == 0 && a <= from < a + 2
            &&& len % 2 == 0 && len >= 4
            &&& to - a >= 4 ==> a + len <= to < a + len + 2
            &&& to - a < 4 ==> len == 4
        }),
{
}

/// A window over a patch has the patch's reason and the times it was asked for.
/// Across it is a side by the frame's width, and down by its height.
pub proof fn law_windows_are_over_their_patch(
    q: Patch,
    s: int,
    e: int,
    src: Source,
    margin: int,
    mx: int,
    my: int,
)
    requires
        src.width >= 0,
        src.height >= 0,
        margin >= 0,
        1000 * mx <= src.width * margin < 1000 * (mx + 1),
        1000 * my <= src.height * margin < 1000 * (my + 1),
    ensures
        ({
            let w = window::window_over(q, s, e, src, margin);
            &&& w.start == s && w.end == e
            &&& w.label == q.label && w.score == q.score && w.t == q.t
            &&& (w.x, w.w) == window::side(q.x1, q.x2, mx, src.width as int)
            &&& (w.y, w.h) == window::side(q.y1, q.y2, my, src.height as int)
        }),
{
    law_margins_are_in_proportion(src.width as int, margin);
    law_margins_are_in_proportion(src.height as int, margin);
}

/// The same of a margin that takes off.
pub proof fn law_windows_are_over_their_patch_and_margin(
    q: Patch,
    s: int,
    e: int,
    src: Source,
    margin: int,
)
    ensures
        ({
            let w = window::window_over(q, s, e, src, margin);
            let mx = window::margin_pixels(src.width as int, margin);
            let my = window::margin_pixels(src.height as int, margin);
            &&& (w.x, w.w) == window::side(q.x1, q.x2, mx, src.width as int)
            &&& (w.y, w.h) == window::side(q.y1, q.y2, my, src.height as int)
        }),
{
}

// ---------------------------------------------------------------------------
// When a run is covered
// ---------------------------------------------------------------------------

/// Whether a window from `s` to `e` is the one over what its run shows then.
pub open spec fn window_at(
    run: Seq<Detection>,
    s: int,
    e: int,
    src: Source,
    p: WindowParams,
    w: WindowView,
) -> bool {
    &&& window::window_patch(run, s, e, p) is Some
    &&& w == window::window_over(
        window::window_patch(run, s, e, p)->0,
        s,
        e,
        src,
        p.margin as int,
    )
}

proof fn lemma_steps(
    run: Seq<Detection>,
    s: int,
    end: int,
    len: int,
    src: Source,
    p: WindowParams,
    k: int,
)
    requires
        len > 0,
        !unseen(run, i64::MIN as int, i64::MAX as int, p.threshold as int),
        s < end,
        0 <= k,
    ensures
        ({
            let ws = window::run_windows(run, s, end, len, src, p);
            &&& (ws.len() - 1) * len < end - s <= ws.len() * len
            &&& k < ws.len() ==> window_at(
                run,
                s + k * len,
                if s + (k + 1) * len <= end {
                    s + (k + 1) * len
                } else {
                    end
                },
                src,
                p,
                ws[k],
            )
        }),
    decreases end - s,
{
    let ws = window::run_windows(run, s, end, len, src, p);
    let e = if s + len <= end {
        s + len
    } else {
        end
    };
    law_windows_hug_what_was_seen(run, s, e, p);
    assert(0 * len == 0 && 1 * len == len) by (nonlinear_arith);
    let rest = window::run_windows(run, e, end, len, src, p);
    assert(ws.len() == 1 + rest.len());
    if e < end {
        let j = if k > 0 {
            k - 1
        } else {
            0
        };
        lemma_steps(run, e, end, len, src, p, j);
        let n = rest.len() as int;
        assert((n + 1) * len == n * len + len && (n - 1) * len + len == n * len)
            by (nonlinear_arith);
        if k > 0 {
            assert(k * len == (k - 1) * len + len && (k + 1) * len == k * len + len)
                by (nonlinear_arith);
            if k < ws.len() {
                assert(ws[k] == rest[k - 1]);
            }
        }
    } else {
        assert(rest.len() == 0);
    }
}

/// The cover of a run comes up the lead before its first frame, or with the
/// movie, and stays until the hold after its last, or the movie's end. All of
/// that is covered, window by window and without a gap, each as long as asked
/// for but the last, which ends with the run.
pub proof fn law_runs_are_covered_in_steps(
    run: Seq<Detection>,
    len: int,
    src: Source,
    p: WindowParams,
    k: int,
)
    requires
        run.len() > 0,
        len > 0,
        !unseen(run, i64::MIN as int, i64::MAX as int, p.threshold as int),
        0 <= k,
    ensures
        ({
            let from = if run[0].t >= p.pad_before {
                run[0].t - p.pad_before
            } else {
                0
            };
            let hold = run[run.len() - 1].t + p.pad_after;
            let to = if hold <= src.duration {
                hold
            } else {
                src.duration as int
            };
            let ws = window::windows_of_run(run, len, src, p);
            &&& from >= to ==> ws.len() == 0
            &&& from < to ==> (ws.len() - 1) * len < to - from <= ws.len() * len
            &&& k < ws.len() ==> window_at(
                run,
                from + k * len,
                if from + (k + 1) * len <= to {
                    from + (k + 1) * len
                } else {
                    to
                },
                src,
                p,
                ws[k],
            )
        }),
{
    let from = if run[0].t >= p.pad_before {
        run[0].t - p.pad_before
    } else {
        0
    };
    let hold = run[run.len() - 1].t + p.pad_after;
    let to = if hold <= src.duration {
        hold
    } else {
        src.duration as int
    };
    if from < to {
        lemma_steps(run, from, to, len, src, p, k);
    }
}

/// Windows without a length cover nothing.
pub proof fn law_windows_without_a_length_cover_nothing(
    run: Seq<Detection>,
    len: int,
    src: Source,
    p: WindowParams,
)
    requires
        len <= 0,
    ensures
        window::windows_of_run(run, len, src, p).len() == 0,
{
}

/// A run without a strong box is not covered.
pub proof fn law_runs_without_boxes_are_not_covered(
    run: Seq<Detection>,
    s: int,
    end: int,
    len: int,
    src: Source,
    p: WindowParams,
)
    requires
        unseen(run, i64::MIN as int, i64::MAX as int, p.threshold as int),
    ensures
        window::run_windows(run, s, end, len, src, p).len() == 0,
    decreases end - s,
{
    if s < end && len > 0 {
        let e = if s + len <= end {
            s + len
        } else {
            end
        };
        law_windows_hug_what_was_seen(run, s, e, p);
        law_runs_without_boxes_are_not_covered(run, e, end, len, src, p);
    }
}

/// The windows of several runs come run by run, each marked with its run, and
/// those of one run are exactly what covers that run.
pub proof fn law_windows_come_run_by_run(
    fs: Seq<Detection>,
    rs: Seq<(int, int)>,
    k: int,
    len: int,
    src: Source,
    p: WindowParams,
    r: int,
)
    requires
        0 <= k,
    ensures
        ({
            let list = window::windows_of_runs(fs, rs, k, len, src, p);
            &&& forall|i: int| 0 <= i < list.len() ==> 0 <= (#[trigger] list[i]).run < k
            &&& forall|i: int, j: int|
                0 <= i <= j < list.len() ==> (#[trigger] list[i]).run <= (#[trigger] list[j]).run
            &&& 0 <= r < k ==> list.filter(|t: Tagged| t.run == r).map_values(|t: Tagged| t.w)
                == window::windows_of_run(fs.subrange(rs[r].0, rs[r].1), len, src, p)
        }),
    decreases k,
{
    if k > 0 {
        let less = window::windows_of_runs(fs, rs, k - 1, len, src, p);
        let ws = window::windows_of_run(fs.subrange(rs[k - 1].0, rs[k - 1].1), len, src, p);
        law_windows_come_run_by_run(fs, rs, k - 1, len, src, p, r);
        lemma_next_run(less, ws, k - 1, r);
    }
}

/// The windows of one more run behind those of the runs before it.
proof fn lemma_next_run(less: Seq<Tagged>, ws: Seq<WindowView>, k: int, r: int)
    requires
        0 <= k,
        forall|i: int| 0 <= i < less.len() ==> 0 <= (#[trigger] less[i]).run < k,
        forall|i: int, j: int|
            0 <= i <= j < less.len() ==> (#[trigger] less[i]).run <= (#[trigger] less[j]).run,
    ensures
        ({
            let list = less + window::of_run(ws, k);
            let of = |t: Tagged| t.run == r;
            let win = |t: Tagged| t.w;
            &&& forall|i: int| 0 <= i < list.len() ==> 0 <= (#[trigger] list[i]).run < k + 1
            &&& forall|i: int, j: int|
                0 <= i <= j < list.len() ==> (#[trigger] list[i]).run <= (#[trigger] list[j]).run
            &&& r == k ==> list.filter(of).map_values(win) == ws
            &&& r != k ==> list.filter(of) == less.filter(of)
        }),
{
    let of = |t: Tagged| t.run == r;
    let win = |t: Tagged| t.w;
    let more = window::of_run(ws, k);
    Seq::filter_distributes_over_add(less, more, of);
    if r == k {
        lemma_none(less, of);
        lemma_all(more, of);
        assert(Seq::<Tagged>::empty() + more =~= more);
        assert(more.map_values(win) =~= ws);
    } else {
        lemma_none(more, of);
        assert(less.filter(of) + Seq::<Tagged>::empty() =~= less.filter(of));
    }
}

proof fn lemma_none(list: Seq<Tagged>, f: spec_fn(Tagged) -> bool)
    requires
        forall|i: int| 0 <= i < list.len() ==> !f(#[trigger] list[i]),
    ensures
        list.filter(f) == Seq::<Tagged>::empty(),
    decreases list.len(),
{
    reveal(Seq::filter);
    if list.len() > 0 {
        let less = list.drop_last();
        assert(!f(list[list.len() - 1]));
        assert forall|i: int| 0 <= i < less.len() implies !f(#[trigger] less[i]) by {
            assert(less[i] == list[i]);
        }
        lemma_none(less, f);
    }
}

proof fn lemma_all(list: Seq<Tagged>, f: spec_fn(Tagged) -> bool)
    requires
        forall|i: int| 0 <= i < list.len() ==> f(#[trigger] list[i]),
    ensures
        list.filter(f) == list,
    decreases list.len(),
{
    reveal(Seq::filter);
    if list.len() > 0 {
        let less = list.drop_last();
        assert(f(list[list.len() - 1]));
        assert forall|i: int| 0 <= i < less.len() implies f(#[trigger] less[i]) by {
            assert(less[i] == list[i]);
        }
        lemma_all(less, f);
        assert(less.push(list.last()) =~= list);
    }
}

proof fn lemma_of_a_run(
    fs: Seq<Detection>,
    rs: Seq<(int, int)>,
    k: int,
    len: int,
    src: Source,
    p: WindowParams,
    i: int,
) -> (at: (int, int))
    requires
        0 <= i < window::windows_of_runs(fs, rs, k, len, src, p).len(),
    ensures
        ({
            let t = window::windows_of_runs(fs, rs, k, len, src, p)[i];
            let ws = window::windows_of_run(fs.subrange(rs[at.0].0, rs[at.0].1), len, src, p);
            &&& 0 <= at.0 < k
            &&& t.run == at.0
            &&& 0 <= at.1 < ws.len()
            &&& t.w == ws[at.1]
        }),
    decreases k,
{
    let less = window::windows_of_runs(fs, rs, k - 1, len, src, p);
    if i < less.len() {
        lemma_of_a_run(fs, rs, k - 1, len, src, p, i)
    } else {
        (k - 1, i - less.len())
    }
}

/// Whether frames `a` to `b` are a run: no two in a row lie further apart than
/// the gap, and whatever comes before or behind does.
pub open spec fn is_run(fs: Seq<Detection>, a: int, b: int, gap: int) -> bool {
    &&& 0 <= a < b <= fs.len()
    &&& forall|i: int| a < i < b ==> (#[trigger] fs[i]).t - fs[i - 1].t <= gap
    &&& a > 0 ==> fs[a].t - fs[a - 1].t > gap
    &&& b < fs.len() ==> fs[b].t - fs[b - 1].t > gap
}

/// Whether a window is step `k` of the cover of a run: the cover starts the
/// lead before the run and ends the hold after it, as far as the movie goes,
/// and goes on in steps of the greatest length of a window.
pub open spec fn is_step(
    run: Seq<Detection>,
    k: int,
    src: Source,
    p: WindowParams,
    w: WindowView,
) -> bool {
    let from = if run[0].t >= p.pad_before {
        run[0].t - p.pad_before
    } else {
        0
    };
    let hold = run[run.len() - 1].t + p.pad_after;
    let to = if hold <= src.duration {
        hold
    } else {
        src.duration as int
    };
    let s = from + k * p.window_max;
    let e = from + (k + 1) * p.window_max;
    &&& 0 <= k
    &&& s < to
    &&& window_at(
        run,
        s,
        if e <= to {
            e
        } else {
            to
        },
        src,
        p,
        w,
    )
}

/// Before any are merged, every window of a plan is a step of the cover of a
/// run of the frames that are covered.
pub proof fn law_windows_are_steps_of_runs(plan: Plan, p: WindowParams, i: int) -> (at: (
    int,
    int,
    int,
))
    requires
        p.window_max > 0,
        0 <= i < window::short_windows(plan, p).len(),
    ensures
        ({
            let fs = window::frames(plan.detections@, p.threshold as int);
            let t = window::short_windows(plan, p)[i];
            &&& is_run(fs, at.0, at.1, p.gap_merge as int)
            &&& is_step(fs.subrange(at.0, at.1), at.2, plan.source, p, t.w)
        }),
{
    let fs = window::frames(plan.detections@, p.threshold as int);
    let gap = p.gap_merge as int;
    let rs = window::runs(fs, gap);
    let len = p.window_max as int;
    let (r, j) = lemma_of_a_run(fs, rs, rs.len() as int, len, plan.source, p, i);
    lemma_is_run(fs, gap, r);
    let (a, b) = rs[r];
    let run = fs.subrange(a, b);
    assert(run[0] == fs[a] && run[run.len() - 1] == fs[b - 1]);
    let start = window::run_start(run, p);
    let end = window::run_end(run, p, plan.source.duration as int);
    if unseen(run, i64::MIN as int, i64::MAX as int, p.threshold as int) {
        law_runs_without_boxes_are_not_covered(run, start, end, len, plan.source, p);
    }
    law_runs_are_covered_in_steps(run, len, plan.source, p, j);
    let n = window::windows_of_run(run, len, plan.source, p).len() as int;
    assert(j * len <= (n - 1) * len) by (nonlinear_arith)
        requires
            0 <= j <= n - 1,
            len > 0,
    ;
    (a, b, j)
}

pub proof fn lemma_is_run(fs: Seq<Detection>, gap: int, r: int)
    requires
        0 <= r < window::runs(fs, gap).len(),
    ensures
        is_run(fs, window::runs(fs, gap)[r].0, window::runs(fs, gap)[r].1, gap),
{
    law_runs_break_at_gaps(fs, gap);
    let rs = window::runs(fs, gap);
    let (a, b) = rs[r];
    assert(0 <= rs[r].0 < rs[r].1 <= fs.len());
    assert forall|i: int| a < i < b implies (#[trigger] fs[i]).t - fs[i - 1].t <= gap by {
        assert(rs[r] == rs[r]);
    }
    if r > 0 {
        assert(rs[r - 1].1 == rs[r].0);
    }
    if r + 1 < rs.len() {
        assert(rs[r + 1 - 1].1 == rs[r + 1].0);
    } else {
        assert(b == fs.len());
    }
    if a > 0 {
        assert(r > 0);
    }
}

/// Every step of the cover of every run that has a strong box is a window of
/// the plan, before any are merged.
pub proof fn law_every_step_has_its_window(plan: Plan, p: WindowParams, a: int, b: int, k: int) -> (
    i: int)
    requires
        p.window_max > 0,
        is_run(
            window::frames(plan.detections@, p.threshold as int),
            a,
            b,
            p.gap_merge as int,
        ),
        0 <= k,
        ({
            let run = window::frames(plan.detections@, p.threshold as int).subrange(a, b);
            let from = if run[0].t >= p.pad_before {
                run[0].t - p.pad_before
            } else {
                0
            };
            &&& !unseen(run, i64::MIN as int, i64::MAX as int, p.threshold as int)
            &&& from + k * p.window_max < run[run.len() - 1].t + p.pad_after
            &&& from + k * p.window_max < plan.source.duration
        }),
    ensures
        ({
            let fs = window::frames(plan.detections@, p.threshold as int);
            &&& 0 <= i < window::short_windows(plan, p).len()
            &&& is_step(fs.subrange(a, b), k, plan.source, p, window::short_windows(plan, p)[i].w)
        }),
{
    let fs = window::frames(plan.detections@, p.threshold as int);
    let gap = p.gap_merge as int;
    let rs = window::runs(fs, gap);
    let len = p.window_max as int;
    let r = lemma_runs_are_all(fs, gap, a, b);
    let run = fs.subrange(a, b);
    law_runs_are_covered_in_steps(run, len, plan.source, p, k);
    let ws = window::windows_of_run(run, len, plan.source, p);
    assert(k * len >= 0) by (nonlinear_arith)
        requires
            k >= 0,
            len > 0,
    ;
    let n = ws.len() as int;
    assert(k < n) by (nonlinear_arith)
        requires
            k * len < n * len,
            len > 0,
    ;
    lemma_run_among_all(fs, rs, rs.len() as int, len, plan.source, p, r, k)
}

proof fn lemma_run_among_all(
    fs: Seq<Detection>,
    rs: Seq<(int, int)>,
    k: int,
    len: int,
    src: Source,
    p: WindowParams,
    r: int,
    j: int,
) -> (i: int)
    requires
        0 <= r < k,
        0 <= j < window::windows_of_run(fs.subrange(rs[r].0, rs[r].1), len, src, p).len(),
    ensures
        0 <= i < window::windows_of_runs(fs, rs, k, len, src, p).len(),
        window::windows_of_runs(fs, rs, k, len, src, p)[i].w == window::windows_of_run(
            fs.subrange(rs[r].0, rs[r].1),
            len,
            src,
            p,
        )[j],
    decreases k,
{
    let less = window::windows_of_runs(fs, rs, k - 1, len, src, p);
    if r == k - 1 {
        less.len() + j
    } else {
        let i = lemma_run_among_all(fs, rs, k - 1, len, src, p, r, j);
        i
    }
}

/// Whatever is a run is one of the runs.
pub proof fn lemma_runs_are_all(fs: Seq<Detection>, gap: int, a: int, b: int) -> (r: int)
    requires
        is_run(fs, a, b, gap),
    ensures
        0 <= r < window::runs(fs, gap).len(),
        window::runs(fs, gap)[r] == (a, b),
{
    law_runs_break_at_gaps(fs, gap);
    let rs = window::runs(fs, gap);
    let r = lemma_run_holding(fs, gap, a);
    let (c, d) = rs[r];
    lemma_is_run(fs, gap, r);
    assert(c == a) by {
        if c < a {
            assert(fs[a].t - fs[a - 1].t <= gap);
        }
    }
    assert(d == b) by {
        if d < b {
            assert(fs[d].t - fs[d - 1].t <= gap);
        }
        if d > b {
            assert(fs[b].t - fs[b - 1].t <= gap);
        }
    }
    r
}

proof fn lemma_run_holding(fs: Seq<Detection>, gap: int, f: int) -> (r: int)
    requires
        0 <= f < fs.len(),
    ensures
        0 <= r < window::runs(fs, gap).len(),
        window::runs(fs, gap)[r].0 <= f < window::runs(fs, gap)[r].1,
    decreases fs.len(),
{
    let less = fs.drop_last();
    let before = window::runs(less, gap);
    let rs = window::runs(fs, gap);
    window::lemma_runs_tile(less, gap);
    window::lemma_runs_tile(fs, gap);
    if f == fs.len() - 1 {
        rs.len() - 1
    } else {
        let r = lemma_run_holding(less, gap, f);
        assert(rs[r].0 == before[r].0);
        r
    }
}

} // verus!
