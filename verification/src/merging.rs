//! Making windows fewer without covering less.
//!
//! The filtergraph holds only so many windows. Where there are more, each run's
//! windows are joined in pairs, which doubles their length, until the count
//! fits or every run is one window; then neighbouring runs are joined, the
//! closest first. A joined window covers all of what it replaces.

use vstd::prelude::*;

use crate::window;
use crate::window::{CensorWindow, Reason, WindowView};

verus! {

/// A window and the run it belongs to.
pub struct Tagged {
    pub run: int,
    pub w: WindowView,
}

/// Windows without their runs.
pub open spec fn untagged(list: Seq<Tagged>) -> Seq<WindowView> {
    Seq::new(list.len(), |i: int| list[i].w)
}

/// The smallest window over two: all the time of both, all the picture of
/// both, and the stronger reason (the first's, of equals).
#[verifier::opaque]
pub open spec fn joined(a: WindowView, b: WindowView) -> WindowView {
    let x = window::imin(a.x, b.x);
    let y = window::imin(a.y, b.y);
    let stronger = b.score > a.score;
    WindowView {
        start: window::imin(a.start, b.start),
        end: window::imax(a.end, b.end),
        x,
        y,
        w: window::imax(a.x + a.w, b.x + b.w) - x,
        h: window::imax(a.y + a.h, b.y + b.h) - y,
        label: if stronger { b.label } else { a.label },
        score: if stronger { b.score } else { a.score },
        t: if stronger { b.t } else { a.t },
    }
}

/// Neighbours of the same run joined in pairs, from the start of each run.
pub open spec fn paired(list: Seq<Tagged>) -> Seq<Tagged>
    decreases list.len(),
{
    if list.len() < 2 {
        list
    } else if list[0].run == list[1].run {
        seq![Tagged { run: list[0].run, w: joined(list[0].w, list[1].w) }] + paired(list.skip(2))
    } else {
        seq![list[0]] + paired(list.skip(1))
    }
}

/// Windows joined in pairs until they are few enough, or none are left to pair.
pub open spec fn settled_pairs(list: Seq<Tagged>, cap: int) -> Seq<Tagged>
    decreases list.len(),
{
    if list.len() <= cap || paired(list).len() >= list.len() {
        list
    } else {
        settled_pairs(paired(list), cap)
    }
}

/// Windows with those joined that start within `slack` of the end of the one
/// before.
pub open spec fn bridged(list: Seq<Tagged>, slack: int) -> Seq<Tagged>
    decreases list.len(),
{
    if list.len() == 0 {
        Seq::empty()
    } else {
        let before = bridged(list.drop_last(), slack);
        let next = list.last();
        if before.len() > 0 && next.w.start <= before.last().w.end + slack {
            before.update(
                before.len() - 1,
                Tagged { run: before.last().run, w: joined(before.last().w, next.w) },
            )
        } else {
            before.push(next)
        }
    }
}

/// Windows bridged over wider and wider gaps until they are few enough, or one
/// is left.
pub open spec fn settled_gaps(list: Seq<Tagged>, cap: int, slack: int, duration: int) -> Seq<Tagged>
    decreases window::imax(duration - slack + 1, 0),
{
    if list.len() <= window::imax(cap, 1) {
        list
    } else if slack < 0 || slack > duration {
        bridged(list, slack)
    } else {
        settled_gaps(bridged(list, slack), cap, 2 * slack + 1000, duration)
    }
}

/// Windows few enough for a graph.
pub open spec fn settled(list: Seq<Tagged>, cap: int, duration: int) -> Seq<Tagged> {
    settled_gaps(settled_pairs(list, cap), cap, 0, duration)
}

/// Whether two windows show at some moment together.
pub open spec fn meet(a: WindowView, b: WindowView) -> bool {
    a.start <= b.end && b.start <= a.end
}

/// A window that covers the picture of another as well, in its own time.
pub open spec fn stretched(a: WindowView, b: WindowView) -> WindowView {
    let x = window::imin(a.x, b.x);
    let y = window::imin(a.y, b.y);
    WindowView {
        x,
        y,
        w: window::imax(a.x + a.w, b.x + b.w) - x,
        h: window::imax(a.y + a.h, b.y + b.h) - y,
        ..a
    }
}

/// Window `k` stretched over those of the first `n` windows that are of another
/// run and show together with it.
pub open spec fn stretched_over(list: Seq<Tagged>, k: int, n: int) -> WindowView
    decreases n,
{
    if n <= 0 {
        list[k].w
    } else {
        let before = stretched_over(list, k, n - 1);
        if list[n - 1].run != list[k].run && meet(list[n - 1].w, list[k].w) {
            stretched(before, list[n - 1].w)
        } else {
            before
        }
    }
}

/// Windows, each covering what the windows of other runs cover that show
/// together with it. There is one moving box: whichever window it stands for,
/// it lies over them all.
pub open spec fn shared(list: Seq<Tagged>) -> Seq<WindowView> {
    Seq::new(list.len(), |k: int| stretched_over(list, k, list.len() as int))
}

// ---------------------------------------------------------------------------
// Doing it
// ---------------------------------------------------------------------------

/// A window and the run it belongs to.
#[derive(Debug, Clone)]
pub struct Marked {
    pub run: usize,
    pub window: CensorWindow,
}

impl View for Marked {
    type V = Tagged;

    open spec fn view(&self) -> Tagged {
        Tagged { run: self.run as int, w: self.window@ }
    }
}

pub open spec fn marked_views(list: Seq<Marked>) -> Seq<Tagged> {
    Seq::new(list.len(), |i: int| list[i]@)
}

pub open spec fn all_anchored(list: Seq<Marked>) -> bool {
    forall|i: int| 0 <= i < list.len() ==> window::anchored((#[trigger] list[i])@.w)
}

fn copy_window(w: &CensorWindow) -> (c: CensorWindow)
    ensures
        c@ == w@,
{
    CensorWindow {
        start: w.start,
        end: w.end,
        x: w.x,
        y: w.y,
        w: w.w,
        h: w.h,
        reason: Reason {
            label: w.reason.label.clone(),
            score: w.reason.score,
            t: w.reason.t,
        },
    }
}

fn least(a: i64, b: i64) -> (r: i64)
    ensures
        r == window::imin(a as int, b as int),
{
    if a <= b {
        a
    } else {
        b
    }
}

fn most(a: i64, b: i64) -> (r: i64)
    ensures
        r == window::imax(a as int, b as int),
{
    if a >= b {
        a
    } else {
        b
    }
}

fn stretch(a: CensorWindow, b: &CensorWindow) -> (r: CensorWindow)
    requires
        window::anchored(a@),
        window::anchored(b@),
    ensures
        r@ == stretched(a@, b@),
        window::anchored(r@),
{
    let x: i64 = least(a.x, b.x);
    let y: i64 = least(a.y, b.y);
    let w: i64 = most(a.x + a.w, b.x + b.w) - x;
    let h: i64 = most(a.y + a.h, b.y + b.h) - y;
    CensorWindow { start: a.start, end: a.end, x, y, w, h, reason: a.reason }
}

fn join(a: &CensorWindow, b: &CensorWindow) -> (r: CensorWindow)
    requires
        window::anchored(a@),
        window::anchored(b@),
    ensures
        r@ == joined(a@, b@),
        window::anchored(r@),
{
    let stronger: bool = b.reason.score > a.reason.score;
    let base: CensorWindow = CensorWindow {
        start: least(a.start, b.start),
        end: most(a.end, b.end),
        x: a.x,
        y: a.y,
        w: a.w,
        h: a.h,
        reason: copy_window(if stronger { b } else { a }).reason,
    };
    proof {
        reveal(joined);
    }
    stretch(base, b)
}

/// Join neighbours of the same run in pairs.
fn pair_up(list: &Vec<Marked>) -> (out: Vec<Marked>)
    requires
        all_anchored(list@),
    ensures
        marked_views(out@) == paired(marked_views(list@)),
        all_anchored(out@),
{
    let ghost all = marked_views(list@);
    let n: usize = list.len();
    let mut out: Vec<Marked> = Vec::new();
    let mut i: usize = 0;
    assert(all.skip(0) =~= all);
    assert(marked_views(out@) =~= Seq::empty());
    assert(marked_views(out@) + paired(all.skip(0)) =~= paired(all));
    while i < n
        invariant
            i <= n,
            n == list@.len(),
            all == marked_views(list@),
            all_anchored(list@),
            all_anchored(out@),
            marked_views(out@) + paired(all.skip(i as int)) == paired(all),
        decreases n - i,
    {
        let ghost rest = all.skip(i as int);
        let ghost before = marked_views(out@);
        assert(rest[0] == list@[i as int]@);
        if i + 1 < n && list[i].run == list[i + 1].run {
            assert(rest[1] == list@[i + 1]@);
            assert(rest.skip(2) =~= all.skip(i + 2));
            let w: CensorWindow = join(&list[i].window, &list[i + 1].window);
            let m: Marked = Marked { run: list[i].run, window: w };
            out.push(m);
            assert(marked_views(out@) =~= before.push(m@));
            assert(marked_views(out@) + paired(all.skip(i + 2)) =~= before + paired(rest));
            i += 2;
        } else {
            if i + 1 < n {
                assert(rest[1] == list@[i + 1]@);
            }
            assert(rest.skip(1) =~= all.skip(i + 1));
            let m: Marked = Marked { run: list[i].run, window: copy_window(&list[i].window) };
            out.push(m);
            assert(marked_views(out@) =~= before.push(m@));
            proof {
                if rest.len() < 2 {
                    assert(rest =~= seq![m@]);
                    assert(all.skip(i + 1) =~= Seq::empty());
                }
            }
            assert(marked_views(out@) + paired(all.skip(i + 1)) =~= before + paired(rest));
            i += 1;
        }
    }
    assert(all.skip(n as int) =~= Seq::empty());
    assert(marked_views(out@) =~= paired(all));
    out
}

/// Join windows across gaps of up to `slack`.
fn bridge(list: &Vec<Marked>, slack: i64) -> (out: Vec<Marked>)
    requires
        all_anchored(list@),
    ensures
        marked_views(out@) == bridged(marked_views(list@), slack as int),
        all_anchored(out@),
{
    let ghost all = marked_views(list@);
    let n: usize = list.len();
    let mut out: Vec<Marked> = Vec::new();
    let mut i: usize = 0;
    assert(all.take(0) =~= Seq::empty());
    assert(marked_views(out@) =~= Seq::empty());
    while i < n
        invariant
            i <= n,
            n == list@.len(),
            all == marked_views(list@),
            all_anchored(list@),
            all_anchored(out@),
            marked_views(out@) == bridged(all.take(i as int), slack as int),
        decreases n - i,
    {
        let ghost before = marked_views(out@);
        assert(all.take(i + 1).drop_last() =~= all.take(i as int));
        assert(all.take(i + 1).last() == list@[i as int]@);
        let m: usize = out.len();
        if m > 0 && list[i].window.start as i128 <= out[m - 1].window.end as i128 + slack as i128 {
            let w: CensorWindow = join(&out[m - 1].window, &list[i].window);
            let run: usize = out[m - 1].run;
            let next: Marked = Marked { run, window: w };
            out.set(m - 1, next);
            assert(marked_views(out@) =~= before.update(m - 1, next@));
        } else {
            let next: Marked = Marked {
                run: list[i].run,
                window: copy_window(&list[i].window),
            };
            out.push(next);
            assert(marked_views(out@) =~= before.push(next@));
        }
        i += 1;
    }
    assert(all.take(n as int) =~= all);
    out
}

/// Make windows few enough for a graph.
pub(crate) fn settle(list: Vec<Marked>, cap: usize, duration: i64) -> (out: Vec<Marked>)
    requires
        all_anchored(list@),
        window::within(duration as int),
    ensures
        marked_views(out@) == settled(marked_views(list@), cap as int, duration as int),
        all_anchored(out@),
{
    let ghost start = marked_views(list@);
    let mut list: Vec<Marked> = list;
    loop
        invariant
            all_anchored(list@),
            settled_pairs(start, cap as int) == settled_pairs(marked_views(list@), cap as int),
        ensures
            all_anchored(list@),
            marked_views(list@) == settled_pairs(start, cap as int),
        decreases list@.len(),
    {
        if list.len() <= cap {
            break ;
        }
        let next: Vec<Marked> = pair_up(&list);
        assert(next@.len() == paired(marked_views(list@)).len());
        if next.len() >= list.len() {
            break ;
        }
        list = next;
    }
    let ghost pairs = marked_views(list@);
    let most_windows: usize = if cap >= 1 {
        cap
    } else {
        1
    };
    let mut slack: i64 = 0;
    loop
        invariant_except_break
            all_anchored(list@),
            window::within(duration as int),
            most_windows == window::imax(cap as int, 1),
            0 <= slack <= 2 * window::LIMIT + 1000,
            settled_gaps(pairs, cap as int, 0, duration as int) == settled_gaps(
                marked_views(list@),
                cap as int,
                slack as int,
                duration as int,
            ),
        ensures
            all_anchored(list@),
            marked_views(list@) == settled_gaps(pairs, cap as int, 0, duration as int),
        decreases window::imax(duration - slack + 1, 0),
    {
        if list.len() <= most_windows {
            break ;
        }
        let next: Vec<Marked> = bridge(&list, slack);
        if slack > duration {
            list = next;
            break ;
        }
        list = next;
        slack = 2 * slack + 1000;
    }
    list
}

/// Take the windows out of a list.
pub(crate) fn unmark(list: &Vec<Marked>) -> (wins: Vec<CensorWindow>)
    requires
        all_anchored(list@),
    ensures
        window::window_views(wins@) == untagged(marked_views(list@)),
        window::all_fit(wins@),
{
    let n: usize = list.len();
    let mut wins: Vec<CensorWindow> = Vec::new();
    let mut i: usize = 0;
    while i < n
        invariant
            i <= n,
            n == list@.len(),
            all_anchored(list@),
            wins@.len() == i,
            forall|k: int| 0 <= k < i ==> (#[trigger] wins@[k])@ == list@[k]@.w,
            window::all_fit(wins@),
        decreases n - i,
    {
        wins.push(copy_window(&list[i].window));
        i += 1;
    }
    assert(window::window_views(wins@) =~= untagged(marked_views(list@)));
    wins
}

/// Stretch every window over those of other runs that show together with it.
pub(crate) fn share(list: &Vec<Marked>) -> (wins: Vec<CensorWindow>)
    requires
        all_anchored(list@),
    ensures
        window::window_views(wins@) == shared(marked_views(list@)),
        window::all_fit(wins@),
{
    let ghost all = marked_views(list@);
    let n: usize = list.len();
    let mut wins: Vec<CensorWindow> = Vec::new();
    let mut k: usize = 0;
    while k < n
        invariant
            k <= n,
            n == list@.len(),
            all == marked_views(list@),
            all_anchored(list@),
            wins@.len() == k,
            forall|i: int| 0 <= i < k ==> (#[trigger] wins@[i])@ == shared(all)[i],
            window::all_fit(wins@),
        decreases n - k,
    {
        let mut w: CensorWindow = copy_window(&list[k].window);
        let mut j: usize = 0;
        while j < n
            invariant
                k < n,
                j <= n,
                n == list@.len(),
                all == marked_views(list@),
                all_anchored(list@),
                window::anchored(w@),
                w@ == stretched_over(all, k as int, j as int),
            decreases n - j,
        {
            assert(all[j as int] == list@[j as int]@ && all[k as int] == list@[k as int]@);
            let other: &CensorWindow = &list[j].window;
            let own: &CensorWindow = &list[k].window;
            if list[j].run != list[k].run && other.start <= own.end && own.start <= other.end {
                w = stretch(w, other);
            }
            j += 1;
        }
        wins.push(w);
        k += 1;
    }
    assert(window::window_views(wins@) =~= shared(all));
    wins
}

} // verus!
