//! Turning raw detections into censor windows.
//!
//! The over-covering is deliberate:
//!
//!   * censoring starts `pad_before` ahead of the first detection of a run and
//!     holds `pad_after` past the last one, because the detector samples only
//!     three frames a second and misses the frames either side;
//!   * a window with no box near it takes the whole run's covered area rather
//!     than showing anything;
//!   * if the window count would blow past the filtergraph budget, windows are
//!     merged into longer and larger ones instead of being dropped.
//!
//! Every one of those trades a bigger black box for a smaller chance of
//! missing something. That is the intended direction.

use vstd::prelude::*;

use crate::merging;
use crate::merging::{Marked, Tagged};
use crate::plan::{DetBox, Detection, Plan, Source};

verus! {

/// Coordinates and times beyond this size are outside what the arithmetic of
/// this module holds.
pub const LIMIT: i64 = 0x1000_0000_0000_0000;

/// The tunables of covering. Times are milliseconds, fractions thousandths.
#[derive(Debug, Clone, Copy, PartialEq, Eq, Structural)]
pub struct WindowParams {
    /// Start covering this long before a run's first detection.
    pub pad_before: i64,
    /// Keep covering this long after a run's last detection.
    pub pad_after: i64,
    /// Detections closer together than this belong to the same run.
    pub gap_merge: i64,
    /// Runs are chopped into windows no longer than this.
    pub window_max: i64,
    /// Grow every box by this many thousandths of the frame on each side.
    pub margin: i64,
    /// Above this many windows, merge them.
    ///
    /// The graph nests one conditional per window, and ffmpeg abandons an
    /// expression that nests 99 deep; mpv then plays the movie uncovered.
    pub max_windows: usize,
    /// A labelled box scoring less than this is on record but not covered.
    pub threshold: i64,
}

impl Default for WindowParams {
    fn default() -> (p: WindowParams)
        ensures
            p == (WindowParams {
                pad_before: 5000,
                pad_after: 10000,
                gap_merge: 1500,
                window_max: 2000,
                margin: 80,
                max_windows: 90,
                threshold: 550,
            }),
    {
        WindowParams {
            pad_before: 5000,
            pad_after: 10000,
            gap_merge: 1500,
            window_max: 2000,
            margin: 80,
            max_windows: 90,
            threshold: 550,
        }
    }
}

/// Why a stretch of the movie is covered: the strongest box behind the cover.
#[derive(Debug, Clone)]
pub struct Reason {
    /// Empty when the plan does not say.
    pub label: String,
    pub score: i64,
    /// When the box was seen.
    pub t: i64,
}

/// One span of the movie with one rectangle covered.
#[derive(Debug, Clone)]
pub struct CensorWindow {
    pub start: i64,
    pub end: i64,
    pub x: i64,
    pub y: i64,
    pub w: i64,
    pub h: i64,
    pub reason: Reason,
}

/// A window as a mathematical value.
pub struct WindowView {
    pub start: int,
    pub end: int,
    pub x: int,
    pub y: int,
    pub w: int,
    pub h: int,
    pub label: Seq<char>,
    pub score: int,
    pub t: int,
}

impl View for CensorWindow {
    type V = WindowView;

    open spec fn view(&self) -> WindowView {
        WindowView {
            start: self.start as int,
            end: self.end as int,
            x: self.x as int,
            y: self.y as int,
            w: self.w as int,
            h: self.h as int,
            label: self.reason.label@,
            score: self.reason.score as int,
            t: self.reason.t as int,
        }
    }
}

/// The windows of a list as mathematical values.
pub open spec fn window_views(wins: Seq<CensorWindow>) -> Seq<WindowView> {
    Seq::new(wins.len(), |i: int| wins[i]@)
}

impl WindowView {
    /// Both ends belong to the window, as in ffmpeg's `between`.
    pub open spec fn contains(self, t: int) -> bool {
        self.start <= t <= self.end
    }
}

impl CensorWindow {
    pub fn duration(&self) -> (d: u64)
        ensures
            d == if self.end > self.start { self.end - self.start } else { 0 },
    {
        if self.end > self.start {
            (self.end as i128 - self.start as i128) as u64
        } else {
            0
        }
    }

    /// Whether the window is showing at a moment. Both ends belong to it.
    pub fn contains(&self, t: i64) -> (r: bool)
        ensures
            r == self@.contains(t as int),
    {
        self.start <= t && t <= self.end
    }
}

// ---------------------------------------------------------------------------
// Which frames and boxes count
// ---------------------------------------------------------------------------

/// Whether a box is covered: strong enough, or of unknown strength.
pub open spec fn counts(b: DetBox, threshold: int) -> bool {
    b.label@.len() == 0 || b.score >= threshold
}

/// Whether a frame is covered: it has a box that counts, or it was recorded
/// without any box at all.
pub open spec fn flagged(d: Detection, threshold: int) -> bool {
    ||| d.boxes@.len() == 0
    ||| exists|j: int| 0 <= j < d.boxes@.len() && counts(#[trigger] d.boxes@[j], threshold)
}

/// A frame put in its place among frames in the order of time, after those
/// seen at the same time.
pub open spec fn put(fs: Seq<Detection>, d: Detection) -> Seq<Detection>
    decreases fs.len(),
{
    if fs.len() == 0 || fs.last().t <= d.t {
        fs.push(d)
    } else {
        put(fs.drop_last(), d).push(fs.last())
    }
}

/// The frames that are covered, in the order of time, whatever their order in
/// the plan.
pub open spec fn frames(dets: Seq<Detection>, threshold: int) -> Seq<Detection>
    decreases dets.len(),
{
    if dets.len() == 0 {
        Seq::empty()
    } else {
        let before = frames(dets.drop_last(), threshold);
        if flagged(dets.last(), threshold) {
            put(before, dets.last())
        } else {
            before
        }
    }
}

/// Frames grouped into runs, bridging gaps up to `gap`: half-open index ranges
/// into the frames.
pub open spec fn runs(fs: Seq<Detection>, gap: int) -> Seq<(int, int)>
    decreases fs.len(),
{
    if fs.len() == 0 {
        Seq::empty()
    } else {
        let before = runs(fs.drop_last(), gap);
        let n = fs.len() as int;
        if n == 1 || fs[n - 1].t - fs[n - 2].t > gap {
            before.push((n - 1, n))
        } else {
            before.update(before.len() - 1, (before.last().0, n))
        }
    }
}

/// When the cover of a run comes up.
pub open spec fn run_start(run: Seq<Detection>, p: WindowParams) -> int {
    let s = run.first().t - p.pad_before;
    if s < 0 {
        0
    } else {
        s
    }
}

/// When the cover of a run goes away.
pub open spec fn run_end(run: Seq<Detection>, p: WindowParams, duration: int) -> int {
    let e = run.last().t + p.pad_after;
    if e < duration {
        e
    } else {
        duration
    }
}

// ---------------------------------------------------------------------------
// The area and the reason of a window
// ---------------------------------------------------------------------------

/// What a set of boxes adds up to: the smallest rectangle around them all, and
/// the strongest of them (the earliest, of equals).
pub struct Patch {
    pub x1: int,
    pub y1: int,
    pub x2: int,
    pub y2: int,
    pub label: Seq<char>,
    pub score: int,
    pub t: int,
}

pub open spec fn imin(a: int, b: int) -> int {
    if a <= b {
        a
    } else {
        b
    }
}

pub open spec fn imax(a: int, b: int) -> int {
    if a >= b {
        a
    } else {
        b
    }
}

/// A patch grown by one box seen at time `t`.
pub open spec fn grown(acc: Option<Patch>, t: int, b: DetBox) -> Patch {
    match acc {
        None => Patch {
            x1: b.bounds@[0] as int,
            y1: b.bounds@[1] as int,
            x2: b.bounds@[2] as int,
            y2: b.bounds@[3] as int,
            label: b.label@,
            score: b.score as int,
            t,
        },
        Some(p) => {
            let stronger = b.score > p.score;
            Patch {
                x1: imin(p.x1, b.bounds@[0] as int),
                y1: imin(p.y1, b.bounds@[1] as int),
                x2: imax(p.x2, b.bounds@[2] as int),
                y2: imax(p.y2, b.bounds@[3] as int),
                label: if stronger { b.label@ } else { p.label },
                score: if stronger { b.score as int } else { p.score },
                t: if stronger { t } else { p.t },
            }
        },
    }
}

/// A patch grown by the boxes of one frame that count.
pub open spec fn with_boxes(
    acc: Option<Patch>,
    t: int,
    boxes: Seq<DetBox>,
    threshold: int,
) -> Option<Patch>
    decreases boxes.len(),
{
    if boxes.len() == 0 {
        acc
    } else {
        let before = with_boxes(acc, t, boxes.drop_last(), threshold);
        if counts(boxes.last(), threshold) {
            Some(grown(before, t, boxes.last()))
        } else {
            before
        }
    }
}

/// Whether a frame at `t` lies in a span, or there is no span to lie in.
pub open spec fn near(t: int, span: Option<(int, int)>) -> bool {
    match span {
        None => true,
        Some((lo, hi)) => lo <= t <= hi,
    }
}

/// The patch of all frames of a run that lie in `span`.
pub open spec fn patch_of(
    run: Seq<Detection>,
    span: Option<(int, int)>,
    threshold: int,
) -> Option<Patch>
    decreases run.len(),
{
    if run.len() == 0 {
        None
    } else {
        let before = patch_of(run.drop_last(), span, threshold);
        if near(run.last().t as int, span) {
            with_boxes(before, run.last().t as int, run.last().boxes@, threshold)
        } else {
            before
        }
    }
}

/// The patch a window from `s` to `e` covers: the boxes seen in it, widened by
/// the merge gap on both sides because the sampler is sparse. A window that
/// matches nothing, such as one in the hold after the last detection, covers
/// everything its run does.
pub open spec fn window_patch(run: Seq<Detection>, s: int, e: int, p: WindowParams) -> Option<
    Patch,
> {
    match patch_of(run, Some((s - p.gap_merge, e + p.gap_merge)), p.threshold as int) {
        Some(patch) => Some(patch),
        None => patch_of(run, None, p.threshold as int),
    }
}

/// A fraction of the frame, in whole pixels, cut off toward zero.
pub open spec fn margin_pixels(size: int, margin: int) -> int {
    let product = size * margin;
    if product >= 0 {
        product / 1000
    } else {
        -((-product) / 1000)
    }
}

/// The largest even number that is not above `v`.
pub open spec fn even_floor(v: int) -> int {
    v - v % 2
}

/// The start and length of a side that covers `lo..hi` with a margin, kept
/// inside the frame and on even pixels, and never shorter than four.
pub open spec fn side(lo: int, hi: int, margin: int, size: int) -> (int, int) {
    let a = even_floor(imax(lo - margin, 0));
    let b = imin(hi + margin, size);
    (a, imax(even_floor(b - a), 4))
}

/// The window from `s` to `e` over a patch.
pub open spec fn window_over(patch: Patch, s: int, e: int, src: Source, margin: int) -> WindowView {
    let (x, w) = side(
        patch.x1,
        patch.x2,
        margin_pixels(src.width as int, margin),
        src.width as int,
    );
    let (y, h) = side(
        patch.y1,
        patch.y2,
        margin_pixels(src.height as int, margin),
        src.height as int,
    );
    WindowView { start: s, end: e, x, y, w, h, label: patch.label, score: patch.score, t: patch.t }
}

// ---------------------------------------------------------------------------
// The windows of a run, of a movie, and of the right length
// ---------------------------------------------------------------------------

/// The windows of one run from `s` to its end, each `len` long but the last.
pub open spec fn run_windows(
    run: Seq<Detection>,
    s: int,
    end: int,
    len: int,
    src: Source,
    p: WindowParams,
) -> Seq<WindowView>
    decreases end - s,
{
    if s >= end || len <= 0 {
        Seq::empty()
    } else {
        let e = imin(s + len, end);
        let rest = run_windows(run, e, end, len, src, p);
        match window_patch(run, s, e, p) {
            Some(patch) => seq![window_over(patch, s, e, src, p.margin as int)] + rest,
            None => rest,
        }
    }
}

/// The windows of a run.
pub open spec fn windows_of_run(
    run: Seq<Detection>,
    len: int,
    src: Source,
    p: WindowParams,
) -> Seq<WindowView> {
    run_windows(run, run_start(run, p), run_end(run, p, src.duration as int), len, src, p)
}

/// Windows of one run, each with its run.
pub open spec fn of_run(ws: Seq<WindowView>, run: int) -> Seq<Tagged> {
    Seq::new(ws.len(), |i: int| Tagged { run, w: ws[i] })
}

/// The windows of the first `k` runs.
pub open spec fn windows_of_runs(
    fs: Seq<Detection>,
    rs: Seq<(int, int)>,
    k: int,
    len: int,
    src: Source,
    p: WindowParams,
) -> Seq<Tagged>
    decreases k,
{
    if k <= 0 {
        Seq::empty()
    } else {
        windows_of_runs(fs, rs, k - 1, len, src, p) + of_run(
            windows_of_run(fs.subrange(rs[k - 1].0, rs[k - 1].1), len, src, p),
            k - 1,
        )
    }
}

/// The windows of a plan before any are merged.
pub open spec fn short_windows(plan: Plan, p: WindowParams) -> Seq<Tagged> {
    let fs = frames(plan.detections@, p.threshold as int);
    let rs = runs(fs, p.gap_merge as int);
    windows_of_runs(fs, rs, rs.len() as int, p.window_max as int, plan.source, p)
}

/// The windows of a plan with their runs, merged until a graph can hold them.
pub open spec fn merged_windows(plan: Plan, p: WindowParams) -> Seq<Tagged> {
    merging::settled(
        short_windows(plan, p),
        p.max_windows as int,
        plan.source.duration as int,
    )
}

/// The windows of a plan.
pub open spec fn plan_windows(plan: Plan, p: WindowParams) -> Seq<WindowView> {
    merging::untagged(merged_windows(plan, p))
}

// ---------------------------------------------------------------------------
// What the arithmetic holds
// ---------------------------------------------------------------------------

pub open spec fn within(v: int) -> bool {
    -LIMIT <= v <= LIMIT
}

/// Coordinates, times and tunables small enough to add up.
pub open spec fn fits(plan: Plan, p: WindowParams) -> bool {
    &&& within(plan.source.width as int)
    &&& within(plan.source.height as int)
    &&& within(plan.source.duration as int)
    &&& within(margin_pixels(plan.source.width as int, p.margin as int))
    &&& within(margin_pixels(plan.source.height as int, p.margin as int))
    &&& within(p.pad_before as int)
    &&& within(p.pad_after as int)
    &&& within(p.gap_merge as int)
    &&& within(p.window_max as int)
    &&& forall|i: int|
        0 <= i < plan.detections@.len() ==> detection_fits(#[trigger] plan.detections@[i])
}

/// Small enough for the filtergraph's arithmetic.
pub open spec fn coordinate(v: int) -> bool {
    -3 * LIMIT <= v <= 3 * LIMIT
}

pub open spec fn window_fits(w: WindowView) -> bool {
    coordinate(w.x) && coordinate(w.y) && coordinate(w.w) && coordinate(w.h)
}

/// Where windows over boxes stand: from the top left corner on.
pub open spec fn anchored(w: WindowView) -> bool {
    &&& 0 <= w.x && 0 <= w.w && w.x + w.w <= 3 * LIMIT
    &&& 0 <= w.y && 0 <= w.h && w.y + w.h <= 3 * LIMIT
}

pub open spec fn all_fit(wins: Seq<CensorWindow>) -> bool {
    forall|i: int| 0 <= i < wins.len() ==> window_fits((#[trigger] wins[i])@)
}

pub open spec fn detection_fits(d: Detection) -> bool {
    &&& within(d.t as int)
    &&& forall|j: int, k: int|
        0 <= j < d.boxes@.len() && 0 <= k < 4 ==> within(
            #[trigger] d.boxes@[j].bounds@[k] as int,
        )
}

// ---------------------------------------------------------------------------
// Building
// ---------------------------------------------------------------------------

fn box_counts(b: &DetBox, threshold: i64) -> (r: bool)
    ensures
        r == counts(*b, threshold as int),
{
    b.label.as_str().is_empty() || b.score >= threshold
}

fn frame_flagged(d: &Detection, threshold: i64) -> (r: bool)
    ensures
        r == flagged(*d, threshold as int),
{
    let n: usize = d.boxes.len();
    if n == 0 {
        return true;
    }
    let mut j: usize = 0;
    while j < n
        invariant
            j <= n,
            n == d.boxes@.len(),
            n > 0,
            forall|k: int| 0 <= k < j ==> !counts(#[trigger] d.boxes@[k], threshold as int),
        decreases n - j,
    {
        if box_counts(&d.boxes[j], threshold) {
            assert(counts(d.boxes@[j as int], threshold as int));
            return true;
        }
        j += 1;
    }
    false
}

/// The frames at the given places of a plan.
pub open spec fn picked(dets: Seq<Detection>, at: Seq<usize>) -> Seq<Detection> {
    Seq::new(at.len(), |i: int| dets[at[i] as int])
}

fn put_place(dets: &Vec<Detection>, at: &mut Vec<usize>, i: usize)
    requires
        i < dets@.len(),
        forall|k: int| 0 <= k < old(at)@.len() ==> (#[trigger] old(at)@[k]) < dets@.len(),
    ensures
        forall|k: int| 0 <= k < final(at)@.len() ==> (#[trigger] final(at)@[k]) < dets@.len(),
        picked(dets@, final(at)@) == put(picked(dets@, old(at)@), dets@[i as int]),
{
    let ghost before = at@;
    let ghost fs = picked(dets@, at@);
    let ghost d = dets@[i as int];
    let mut k: usize = at.len();
    assert(fs.take(k as int) =~= fs);
    assert(put(fs, d) =~= put(fs, d) + fs.skip(k as int));
    while k > 0 && dets[at[k - 1]].t > dets[i].t
        invariant
            i < dets@.len(),
            k <= at@.len(),
            at@ == before,
            d == dets@[i as int],
            fs == picked(dets@, before),
            forall|k: int| 0 <= k < at@.len() ==> (#[trigger] at@[k]) < dets@.len(),
            put(fs, d) == put(fs.take(k as int), d) + fs.skip(k as int),
        decreases k,
    {
        proof {
            let head = fs.take(k as int);
            assert(head.last() == dets@[before[k - 1] as int]);
            assert(head.drop_last() =~= fs.take(k - 1));
            assert(seq![head.last()] + fs.skip(k as int) =~= fs.skip(k - 1));
            assert(put(head, d) + fs.skip(k as int) =~= put(fs.take(k - 1), d) + (seq![head.last()]
                + fs.skip(k as int)));
        }
        k -= 1;
    }
    proof {
        let head = fs.take(k as int);
        if k > 0 {
            assert(head.last() == dets@[before[k - 1] as int]);
        }
        assert(put(head, d) == head.push(d));
    }
    at.insert(k, i);
    assert(picked(dets@, at@) =~= put(fs, d));
}

/// Where the flagged frames of a plan stand, in the order of time.
pub(crate) fn flagged_places(dets: &Vec<Detection>, threshold: i64) -> (at: Vec<usize>)
    ensures
        forall|i: int| 0 <= i < at@.len() ==> (#[trigger] at@[i]) < dets@.len(),
        picked(dets@, at@) == frames(dets@, threshold as int),
{
    let n: usize = dets.len();
    let mut at: Vec<usize> = Vec::new();
    let mut i: usize = 0;
    assert(dets@.take(0) =~= Seq::empty());
    assert(picked(dets@, at@) =~= Seq::empty());
    while i < n
        invariant
            i <= n,
            n == dets@.len(),
            forall|k: int| 0 <= k < at@.len() ==> (#[trigger] at@[k]) < dets@.len(),
            picked(dets@, at@) == frames(dets@.take(i as int), threshold as int),
        decreases n - i,
    {
        assert(dets@.take(i + 1).drop_last() =~= dets@.take(i as int));
        assert(dets@.take(i + 1).last() == dets@[i as int]);
        if frame_flagged(&dets[i], threshold) {
            put_place(dets, &mut at, i);
        }
        i += 1;
    }
    assert(dets@.take(n as int) =~= dets@);
    at
}

/// Index ranges as mathematical values.
pub open spec fn ranges(rs: Seq<(usize, usize)>) -> Seq<(int, int)> {
    Seq::new(rs.len(), |i: int| (rs[i].0 as int, rs[i].1 as int))
}

/// Runs are non-empty ranges that follow one another without a gap and use up
/// all frames.
pub open spec fn runs_tile(rs: Seq<(int, int)>, n: int) -> bool {
    &&& rs.len() == 0 <==> n == 0
    &&& rs.len() > 0 ==> rs.first().0 == 0 && rs.last().1 == n
    &&& forall|i: int| 0 <= i < rs.len() ==> 0 <= (#[trigger] rs[i]).0 < rs[i].1 <= n
    &&& forall|i: int, j: int|
        0 <= i < rs.len() && j == i + 1 && j < rs.len() ==> (#[trigger] rs[i]).1 == (
        #[trigger] rs[j]).0
}

pub proof fn lemma_runs_tile(fs: Seq<Detection>, gap: int)
    ensures
        runs_tile(runs(fs, gap), fs.len() as int),
    decreases fs.len(),
{
    if fs.len() > 0 {
        lemma_runs_tile(fs.drop_last(), gap);
    }
}

/// Group the flagged frames into runs.
pub(crate) fn group(dets: &Vec<Detection>, at: &Vec<usize>, gap: i64) -> (rs: Vec<(usize, usize)>)
    requires
        forall|i: int| 0 <= i < at@.len() ==> (#[trigger] at@[i]) < dets@.len(),
    ensures
        ranges(rs@) == runs(picked(dets@, at@), gap as int),
        runs_tile(ranges(rs@), at@.len() as int),
{
    let n: usize = at.len();
    let mut rs: Vec<(usize, usize)> = Vec::new();
    let ghost fs = picked(dets@, at@);
    assert(fs.take(0) =~= Seq::empty());
    let mut i: usize = 0;
    while i < n
        invariant
            i <= n,
            n == at@.len(),
            fs == picked(dets@, at@),
            forall|k: int| 0 <= k < at@.len() ==> (#[trigger] at@[k]) < dets@.len(),
            ranges(rs@) =~= runs(fs.take(i as int), gap as int),
        decreases n - i,
    {
        proof {
            assert(fs.take(i + 1).drop_last() =~= fs.take(i as int));
            lemma_runs_tile(fs.take(i as int), gap as int);
        }
        if i == 0 || dets[at[i]].t as i128 - dets[at[i - 1]].t as i128 > gap as i128 {
            rs.push((i, i + 1));
        } else {
            let last: usize = rs.len() - 1;
            let from: usize = rs[last].0;
            rs.set(last, (from, i + 1));
        }
        i += 1;
    }
    proof {
        assert(fs.take(n as int) =~= fs);
        lemma_runs_tile(fs, gap as int);
    }
    rs
}

/// A patch while it is put together, with its reason as a place in the plan.
struct PatchSoFar {
    x1: i64,
    y1: i64,
    x2: i64,
    y2: i64,
    score: i64,
    frame: usize,
    place: usize,
}

impl PatchSoFar {
    /// The patch this stands for, its reason read from the plan.
    spec fn stands_for(self, dets: Seq<Detection>) -> Patch {
        let d = dets[self.frame as int];
        Patch {
            x1: self.x1 as int,
            y1: self.y1 as int,
            x2: self.x2 as int,
            y2: self.y2 as int,
            label: d.boxes@[self.place as int].label@,
            score: self.score as int,
            t: d.t as int,
        }
    }

    spec fn inside(self, dets: Seq<Detection>) -> bool {
        &&& self.frame < dets.len()
        &&& self.place < dets[self.frame as int].boxes@.len()
        &&& within(self.x1 as int)
        &&& within(self.y1 as int)
        &&& within(self.x2 as int)
        &&& within(self.y2 as int)
    }
}

spec fn patch_value(acc: Option<PatchSoFar>, dets: Seq<Detection>) -> Option<Patch> {
    match acc {
        None => None,
        Some(p) => Some(p.stands_for(dets)),
    }
}

spec fn patch_inside(acc: Option<PatchSoFar>, dets: Seq<Detection>) -> bool {
    acc matches Some(p) ==> p.inside(dets)
}

fn smaller(a: i64, b: i64) -> (r: i64)
    ensures
        r == imin(a as int, b as int),
{
    if a <= b {
        a
    } else {
        b
    }
}

fn larger(a: i64, b: i64) -> (r: i64)
    ensures
        r == imax(a as int, b as int),
{
    if a >= b {
        a
    } else {
        b
    }
}

/// The smallest box around two, as four edges.
pub open spec fn around(a: Seq<i64>, b: Seq<i64>) -> Seq<i64> {
    seq![
        imin(a[0] as int, b[0] as int) as i64,
        imin(a[1] as int, b[1] as int) as i64,
        imax(a[2] as int, b[2] as int) as i64,
        imax(a[3] as int, b[3] as int) as i64,
    ]
}

/// The smallest box around a box and what there was before, if anything.
pub fn union(acc: Option<[i64; 4]>, b: &[i64; 4]) -> (r: [i64; 4])
    ensures
        r@ == match acc {
            None => b@,
            Some(a) => around(a@, b@),
        },
{
    match acc {
        None => *b,
        Some(a) => {
            let r: [i64; 4] = [
                smaller(a[0], b[0]),
                smaller(a[1], b[1]),
                larger(a[2], b[2]),
                larger(a[3], b[3]),
            ];
            assert(r@ =~= around(a@, b@));
            r
        },
    }
}

/// Grow a patch by one box.
fn grow(acc: Option<PatchSoFar>, dets: &Vec<Detection>, frame: usize, place: usize) -> (r:
    PatchSoFar)
    requires
        frame < dets@.len(),
        place < dets@[frame as int].boxes@.len(),
        detection_fits(dets@[frame as int]),
        patch_inside(acc, dets@),
    ensures
        r.inside(dets@),
        r.stands_for(dets@) == grown(
            patch_value(acc, dets@),
            dets@[frame as int].t as int,
            dets@[frame as int].boxes@[place as int],
        ),
{
    let b: &DetBox = &dets[frame].boxes[place];
    assert(within(dets@[frame as int].boxes@[place as int].bounds@[0] as int));
    assert(within(dets@[frame as int].boxes@[place as int].bounds@[1] as int));
    assert(within(dets@[frame as int].boxes@[place as int].bounds@[2] as int));
    assert(within(dets@[frame as int].boxes@[place as int].bounds@[3] as int));
    match acc {
        None => PatchSoFar {
            x1: b.bounds[0],
            y1: b.bounds[1],
            x2: b.bounds[2],
            y2: b.bounds[3],
            score: b.score,
            frame,
            place,
        },
        Some(p) => {
            let stronger: bool = b.score > p.score;
            let r: [i64; 4] = union(Some([p.x1, p.y1, p.x2, p.y2]), &b.bounds);
            PatchSoFar {
                x1: r[0],
                y1: r[1],
                x2: r[2],
                y2: r[3],
                score: if stronger { b.score } else { p.score },
                frame: if stronger { frame } else { p.frame },
                place: if stronger { place } else { p.place },
            }
        },
    }
}

/// Grow a patch by the boxes of one frame that count.
fn union_frame(acc: Option<PatchSoFar>, dets: &Vec<Detection>, frame: usize, threshold: i64) -> (r:
    Option<PatchSoFar>)
    requires
        frame < dets@.len(),
        detection_fits(dets@[frame as int]),
        patch_inside(acc, dets@),
    ensures
        patch_inside(r, dets@),
        patch_value(r, dets@) == with_boxes(
            patch_value(acc, dets@),
            dets@[frame as int].t as int,
            dets@[frame as int].boxes@,
            threshold as int,
        ),
{
    let n: usize = dets[frame].boxes.len();
    let ghost boxes = dets@[frame as int].boxes@;
    let ghost t = dets@[frame as int].t as int;
    let ghost start = patch_value(acc, dets@);
    let mut so_far: Option<PatchSoFar> = acc;
    let mut j: usize = 0;
    assert(boxes.take(0) =~= Seq::empty());
    while j < n
        invariant
            j <= n,
            frame < dets@.len(),
            detection_fits(dets@[frame as int]),
            boxes == dets@[frame as int].boxes@,
            t == dets@[frame as int].t,
            n == boxes.len(),
            patch_inside(so_far, dets@),
            patch_value(so_far, dets@) == with_boxes(
                start,
                t,
                boxes.take(j as int),
                threshold as int,
            ),
        decreases n - j,
    {
        assert(boxes.take(j + 1).drop_last() =~= boxes.take(j as int));
        assert(boxes.take(j + 1).last() == boxes[j as int]);
        if box_counts(&dets[frame].boxes[j], threshold) {
            so_far = Some(grow(so_far, dets, frame, j));
        }
        j += 1;
    }
    assert(boxes.take(n as int) =~= boxes);
    so_far
}

/// The patch of the frames of a run that lie in a span.
fn union_run(
    dets: &Vec<Detection>,
    at: &Vec<usize>,
    run: (usize, usize),
    span: Option<(i64, i64)>,
    threshold: i64,
) -> (r: Option<PatchSoFar>)
    requires
        run.0 <= run.1 <= at@.len(),
        forall|i: int| 0 <= i < at@.len() ==> (#[trigger] at@[i]) < dets@.len(),
        forall|i: int| 0 <= i < dets@.len() ==> detection_fits(#[trigger] dets@[i]),
    ensures
        patch_inside(r, dets@),
        patch_value(r, dets@) == patch_of(
            picked(dets@, at@).subrange(run.0 as int, run.1 as int),
            match span {
                None => None,
                Some((lo, hi)) => Some((lo as int, hi as int)),
            },
            threshold as int,
        ),
{
    let ghost fs = picked(dets@, at@).subrange(run.0 as int, run.1 as int);
    let ghost spot = match span {
        None => None::<(int, int)>,
        Some((lo, hi)) => Some((lo as int, hi as int)),
    };
    let mut so_far: Option<PatchSoFar> = None;
    let mut i: usize = run.0;
    assert(fs.take(0) =~= Seq::empty());
    while i < run.1
        invariant
            run.0 <= i <= run.1 <= at@.len(),
            fs == picked(dets@, at@).subrange(run.0 as int, run.1 as int),
            spot == (match span {
                None => None::<(int, int)>,
                Some((lo, hi)) => Some((lo as int, hi as int)),
            }),
            forall|i: int| 0 <= i < at@.len() ==> (#[trigger] at@[i]) < dets@.len(),
            forall|i: int| 0 <= i < dets@.len() ==> detection_fits(#[trigger] dets@[i]),
            patch_inside(so_far, dets@),
            patch_value(so_far, dets@) == patch_of(
                fs.take(i - run.0),
                spot,
                threshold as int,
            ),
        decreases run.1 - i,
    {
        let ghost k = i - run.0;
        assert(fs.take(k + 1).drop_last() =~= fs.take(k));
        assert(fs.take(k + 1).last() == dets@[at@[i as int] as int]);
        let t: i64 = dets[at[i]].t;
        let take: bool = match span {
            None => true,
            Some((lo, hi)) => lo <= t && t <= hi,
        };
        if take {
            so_far = union_frame(so_far, dets, at[i], threshold);
        }
        i += 1;
    }
    assert(fs.take(run.1 - run.0) =~= fs);
    so_far
}

/// Whole pixels in a fraction of the frame.
fn pixels(size: i64, margin: i64) -> (r: i64)
    requires
        within(margin_pixels(size as int, margin as int)),
    ensures
        r == margin_pixels(size as int, margin as int),
{
    assert(-0x8000_0000_0000_0000_0000_0000_0000_0000 <= size * margin
        <= 0x4000_0000_0000_0000_0000_0000_0000_0000) by (nonlinear_arith)
        requires
            -0x8000_0000_0000_0000 <= size <= 0x7fff_ffff_ffff_ffff,
            -0x8000_0000_0000_0000 <= margin <= 0x7fff_ffff_ffff_ffff,
    ;
    let product: i128 = size as i128 * margin as i128;
    if product >= 0 {
        (product / 1000) as i64
    } else {
        (-((-product) / 1000)) as i64
    }
}

/// The largest even number not above `v`.
pub fn floor_even(v: i64) -> (r: i64)
    requires
        v > i64::MIN,
    ensures
        r == even_floor(v as int),
{
    if v >= 0 {
        v - v % 2
    } else {
        let m: i64 = -v;
        -m - m % 2
    }
}

/// Place one side of a window.
fn place_side(lo: i64, hi: i64, margin: i64, size: i64) -> (r: (i64, i64))
    requires
        within(lo as int),
        within(hi as int),
        within(margin as int),
        within(size as int),
    ensures
        (r.0 as int, r.1 as int) == side(lo as int, hi as int, margin as int, size as int),
        0 <= r.0,
        0 <= r.1,
        r.0 + r.1 <= 3 * LIMIT,
{
    let a: i64 = floor_even(larger(lo - margin, 0));
    let b: i64 = smaller(hi + margin, size);
    (a, larger(floor_even(b - a), 4))
}

/// Build one window over a patch.
fn make_window(
    patch: PatchSoFar,
    dets: &Vec<Detection>,
    span: (i64, i64),
    margins: (i64, i64),
    src: &Source,
    margin: i64,
) -> (w: CensorWindow)
    requires
        patch.inside(dets@),
        within(src.width as int),
        within(src.height as int),
        within(margins.0 as int),
        within(margins.1 as int),
        margins.0 == margin_pixels(src.width as int, margin as int),
        margins.1 == margin_pixels(src.height as int, margin as int),
    ensures
        w@ == window_over(
            patch.stands_for(dets@),
            span.0 as int,
            span.1 as int,
            *src,
            margin as int,
        ),
        anchored(w@),
{
    let (x, w): (i64, i64) = place_side(patch.x1, patch.x2, margins.0, src.width);
    let (y, h): (i64, i64) = place_side(patch.y1, patch.y2, margins.1, src.height);
    let d: &Detection = &dets[patch.frame];
    let reason: Reason = Reason {
        label: d.boxes[patch.place].label.clone(),
        score: patch.score,
        t: d.t,
    };
    CensorWindow { start: span.0, end: span.1, x, y, w, h, reason }
}

/// When the cover of a run comes up, and when it goes away.
pub(crate) fn run_span(plan: &Plan, at: &Vec<usize>, run: (usize, usize), p: &WindowParams) -> (r: (
    i64,
    i64,
))
    requires
        fits(*plan, *p),
        run.0 < run.1 <= at@.len(),
        forall|i: int| 0 <= i < at@.len() ==> (#[trigger] at@[i]) < plan.detections@.len(),
    ensures
        ({
            let fs = picked(plan.detections@, at@).subrange(run.0 as int, run.1 as int);
            &&& r.0 == run_start(fs, *p)
            &&& r.1 == run_end(fs, *p, plan.source.duration as int)
        }),
        0 <= r.0 <= 2 * LIMIT,
        r.1 <= LIMIT,
{
    let dets: &Vec<Detection> = &plan.detections;
    let ghost fs = picked(dets@, at@).subrange(run.0 as int, run.1 as int);
    assert(fs.first() == dets@[at@[run.0 as int] as int]);
    assert(fs.last() == dets@[at@[run.1 - 1] as int]);
    assert(detection_fits(fs.first()) && detection_fits(fs.last()));
    let first_t: i64 = dets[at[run.0]].t;
    let last_t: i64 = dets[at[run.1 - 1]].t;
    (larger(first_t - p.pad_before, 0), smaller(last_t + p.pad_after, plan.source.duration))
}

/// Whether no frame of a run has a box that counts.
pub(crate) fn run_is_boxless(
    dets: &Vec<Detection>,
    at: &Vec<usize>,
    run: (usize, usize),
    threshold: i64,
) -> (r: bool)
    requires
        run.0 <= run.1 <= at@.len(),
        forall|i: int| 0 <= i < at@.len() ==> (#[trigger] at@[i]) < dets@.len(),
        forall|i: int| 0 <= i < dets@.len() ==> detection_fits(#[trigger] dets@[i]),
    ensures
        r == (patch_of(
            picked(dets@, at@).subrange(run.0 as int, run.1 as int),
            None,
            threshold as int,
        ) is None),
{
    union_run(dets, at, run, None, threshold).is_none()
}

/// Append the windows of one run.
fn push_run_windows(
    wins: &mut Vec<Marked>,
    plan: &Plan,
    at: &Vec<usize>,
    run: (usize, usize),
    number: usize,
    margins: (i64, i64),
    p: &WindowParams,
)
    requires
        fits(*plan, *p),
        0 < p.window_max,
        run.0 < run.1 <= at@.len(),
        forall|i: int| 0 <= i < at@.len() ==> (#[trigger] at@[i]) < plan.detections@.len(),
        merging::all_anchored(old(wins)@),
        margins.0 == margin_pixels(plan.source.width as int, p.margin as int),
        margins.1 == margin_pixels(plan.source.height as int, p.margin as int),
    ensures
        merging::marked_views(final(wins)@) == merging::marked_views(old(wins)@) + of_run(
            windows_of_run(
                picked(plan.detections@, at@).subrange(run.0 as int, run.1 as int),
                p.window_max as int,
                plan.source,
                *p,
            ),
            number as int,
        ),
        merging::all_anchored(final(wins)@),
{
    let dets: &Vec<Detection> = &plan.detections;
    let len: i64 = p.window_max;
    let ghost fs = picked(dets@, at@).subrange(run.0 as int, run.1 as int);
    let ghost start = merging::marked_views(wins@);
    let ghost all = windows_of_run(fs, len as int, plan.source, *p);
    let (run_s, run_e): (i64, i64) = run_span(plan, at, run, p);
    let mut s: i64 = run_s;
    assert(start + of_run(
        run_windows(fs, s as int, run_e as int, len as int, plan.source, *p),
        number as int,
    ) =~= start + of_run(all, number as int));
    while s < run_e
        invariant
            fits(*plan, *p),
            len == p.window_max,
            0 < len,
            run.0 < run.1 <= at@.len(),
            dets@ == plan.detections@,
            forall|i: int| 0 <= i < at@.len() ==> (#[trigger] at@[i]) < dets@.len(),
            margins.0 == margin_pixels(plan.source.width as int, p.margin as int),
            margins.1 == margin_pixels(plan.source.height as int, p.margin as int),
            fs == picked(dets@, at@).subrange(run.0 as int, run.1 as int),
            0 <= s <= 2 * LIMIT,
            run_e <= LIMIT,
            merging::all_anchored(wins@),
            merging::marked_views(wins@) + of_run(
                run_windows(fs, s as int, run_e as int, len as int, plan.source, *p),
                number as int,
            ) =~= start + of_run(all, number as int),
        decreases run_e - s,
    {
        let e: i64 = smaller(s + len, run_e);
        let span: (i64, i64) = (s - p.gap_merge, e + p.gap_merge);
        let mut patch: Option<PatchSoFar> = union_run(dets, at, run, Some(span), p.threshold);
        if patch.is_none() {
            patch = union_run(dets, at, run, None, p.threshold);
        }
        let ghost before = merging::marked_views(wins@);
        let ghost rest = run_windows(fs, e as int, run_e as int, len as int, plan.source, *p);
        if let Some(found) = patch {
            let w: CensorWindow = make_window(
                found,
                dets,
                (s, e),
                margins,
                &plan.source,
                p.margin,
            );
            let m: Marked = Marked { run: number, window: w };
            wins.push(m);
            assert(merging::marked_views(wins@) =~= before.push(m@));
            assert(of_run(seq![w@] + rest, number as int) =~= seq![m@] + of_run(
                rest,
                number as int,
            ));
        }
        s = e;
    }
}

/// The windows of a plan with their runs, merged until a graph can hold them.
pub(crate) fn marked_windows(plan: &Plan, p: &WindowParams) -> (wins: Vec<Marked>)
    requires
        fits(*plan, *p),
        p.window_max > 0 || frames(plan.detections@, p.threshold as int).len() == 0,
    ensures
        merging::marked_views(wins@) == merged_windows(*plan, *p),
        merging::all_anchored(wins@),
{
    let at: Vec<usize> = flagged_places(&plan.detections, p.threshold);
    let rs: Vec<(usize, usize)> = group(&plan.detections, &at, p.gap_merge);
    let margins: (i64, i64) = (
        pixels(plan.source.width, p.margin),
        pixels(plan.source.height, p.margin),
    );
    let ghost fs = picked(plan.detections@, at@);
    let mut wins: Vec<Marked> = Vec::new();
    let n: usize = rs.len();
    let mut k: usize = 0;
    assert(merging::marked_views(wins@) =~= Seq::empty());
    while k < n
        invariant
            fits(*plan, *p),
            p.window_max > 0 || n == 0,
            forall|i: int| 0 <= i < at@.len() ==> (#[trigger] at@[i]) < plan.detections@.len(),
            fs == picked(plan.detections@, at@),
            runs_tile(ranges(rs@), at@.len() as int),
            margins.0 == margin_pixels(plan.source.width as int, p.margin as int),
            margins.1 == margin_pixels(plan.source.height as int, p.margin as int),
            k <= n,
            n == rs@.len(),
            merging::all_anchored(wins@),
            merging::marked_views(wins@) == windows_of_runs(
                fs,
                ranges(rs@),
                k as int,
                p.window_max as int,
                plan.source,
                *p,
            ),
        decreases n - k,
    {
        assert(ranges(rs@)[k as int] == (rs@[k as int].0 as int, rs@[k as int].1 as int));
        push_run_windows(&mut wins, plan, &at, rs[k], k, margins, p);
        k += 1;
    }
    merging::settle(wins, p.max_windows, plan.source.duration)
}

/// The windows of a plan: one rectangle per stretch of every run, merged until
/// the filtergraph can hold them all.
///
/// A window length that is not positive would never get past a run, so it is
/// ruled out wherever there is something to cover.
pub fn build_windows(plan: &Plan, p: &WindowParams) -> (wins: Vec<CensorWindow>)
    requires
        fits(*plan, *p),
        p.window_max > 0 || frames(plan.detections@, p.threshold as int).len() == 0,
    ensures
        window_views(wins@) == plan_windows(*plan, *p),
        wins@.len() <= imax(p.max_windows as int, 1),
        all_fit(wins@),
{
    let marked: Vec<Marked> = marked_windows(plan, p);
    proof {
        crate::window_laws::law_windows_fit_the_cap(*plan, *p);
    }
    merging::unmark(&marked)
}

fn is_within(v: i64) -> (r: bool)
    ensures
        r == within(v as int),
{
    -LIMIT <= v && v <= LIMIT
}

fn margin_within(size: i64, margin: i64) -> (r: bool)
    ensures
        r == within(margin_pixels(size as int, margin as int)),
{
    assert(-0x8000_0000_0000_0000_0000_0000_0000_0000 < size * margin
        <= 0x4000_0000_0000_0000_0000_0000_0000_0000) by (nonlinear_arith)
        requires
            -0x8000_0000_0000_0000 <= size <= 0x7fff_ffff_ffff_ffff,
            -0x8000_0000_0000_0000 <= margin <= 0x7fff_ffff_ffff_ffff,
    ;
    let product: i128 = size as i128 * margin as i128;
    let fraction: i128 = if product >= 0 {
        product / 1000
    } else {
        -((-product) / 1000)
    };
    -(LIMIT as i128) <= fraction && fraction <= LIMIT as i128
}

fn edges_within(b: &DetBox) -> (r: bool)
    ensures
        r == forall|k: int| 0 <= k < 4 ==> within(#[trigger] b.bounds@[k] as int),
{
    let r: bool = is_within(b.bounds[0]) && is_within(b.bounds[1]) && is_within(b.bounds[2])
        && is_within(b.bounds[3]);
    proof {
        if r {
            assert forall|k: int| 0 <= k < 4 implies within(#[trigger] b.bounds@[k] as int) by {
                assert(k == 0 || k == 1 || k == 2 || k == 3);
            }
        } else {
            let k = if !within(b.bounds@[0] as int) {
                0int
            } else if !within(b.bounds@[1] as int) {
                1int
            } else if !within(b.bounds@[2] as int) {
                2int
            } else {
                3int
            };
            assert(!within(b.bounds@[k] as int));
        }
    }
    r
}

fn frame_within(d: &Detection) -> (r: bool)
    ensures
        r == detection_fits(*d),
{
    if !is_within(d.t) {
        return false;
    }
    let n: usize = d.boxes.len();
    let mut j: usize = 0;
    while j < n
        invariant
            j <= n,
            n == d.boxes@.len(),
            within(d.t as int),
            forall|i: int, k: int|
                0 <= i < j && 0 <= k < 4 ==> within(#[trigger] d.boxes@[i].bounds@[k] as int),
        decreases n - j,
    {
        if !edges_within(&d.boxes[j]) {
            return false;
        }
        j += 1;
    }
    true
}

/// Whether the numbers of a plan are small enough to work with.
pub fn plan_fits(plan: &Plan, p: &WindowParams) -> (r: bool)
    ensures
        r == fits(*plan, *p),
{
    if !(is_within(plan.source.width) && is_within(plan.source.height) && is_within(
        plan.source.duration,
    ) && margin_within(plan.source.width, p.margin) && margin_within(plan.source.height, p.margin)
        && is_within(p.pad_before) && is_within(p.pad_after) && is_within(p.gap_merge)
        && is_within(p.window_max)) {
        return false;
    }
    let n: usize = plan.detections.len();
    let mut i: usize = 0;
    while i < n
        invariant
            i <= n,
            n == plan.detections@.len(),
            forall|k: int| 0 <= k < i ==> detection_fits(#[trigger] plan.detections@[k]),
        decreases n - i,
    {
        if !frame_within(&plan.detections[i]) {
            return false;
        }
        i += 1;
    }
    true
}

} // verus!
