//! Building the ffmpeg filtergraph that mpv applies during playback.
//!
//! The hard constraint, measured rather than assumed, is that the graph holds
//! a **constant** number of filters no matter how much of the movie is
//! flagged. One overlay chain per window grinds mpv's filter bridge to a halt;
//! a single chain whose crop and overlay coordinates move by per-frame time
//! expressions runs at many times realtime.
//!
//! So the shape is always the same:
//!
//! ```text
//!   split=2[m][t];
//!   [t]crop=<fixed size at a moving x,y>,<censor>[b];
//!   [m][b]overlay=<same moving x,y>:enable='<union of window spans>'
//! ```
//!
//! plus one optional full-frame censor filter gated to the full-frame spans.

use vstd::prelude::*;
use vstd::string::StringExecFns;

use crate::text;
use crate::window;
use crate::window::{CensorWindow, WindowView};

verus! {

/// The five entries of the Censor picker.
#[derive(Debug, Clone, Copy, PartialEq, Eq, Structural)]
pub enum CensorStyle {
    BlackBox,
    WhiteBox,
    BlurStrong,
    BlurMedium,
    BlurLight,
}

/// The blur filter with its luma and chroma radius and power. The radius is
/// clamped by expression, so that a region smaller than the radius cannot make
/// the filter fail and drop out of the graph.
pub open spec fn blur_text(lr: int, lp: int, cr: int, cp: int) -> Seq<char> {
    "boxblur=luma_radius='min("@ + text::int_text(lr) + ",(min(w,h)-1)/2)':luma_power="@
        + text::int_text(lp) + ":chroma_radius='min("@ + text::int_text(cr)
        + ",(min(cw,ch)-1)/2)':chroma_power="@ + text::int_text(cp)
}

fn blur(lr: i64, lp: i64, cr: i64, cp: i64) -> (out: String)
    ensures
        out@ == blur_text(lr as int, lp as int, cr as int, cp as int),
{
    let mut out: String = "boxblur=luma_radius='min(".to_owned();
    text::push_int(&mut out, lr);
    out.append(",(min(w,h)-1)/2)':luma_power=");
    text::push_int(&mut out, lp);
    out.append(":chroma_radius='min(");
    text::push_int(&mut out, cr);
    out.append(",(min(cw,ch)-1)/2)':chroma_power=");
    text::push_int(&mut out, cp);
    out
}

impl CensorStyle {
    pub open spec fn label_text(self) -> Seq<char> {
        match self {
            CensorStyle::BlackBox => "Black box"@,
            CensorStyle::WhiteBox => "White box"@,
            CensorStyle::BlurStrong => "Blur strong"@,
            CensorStyle::BlurMedium => "Blur medium"@,
            CensorStyle::BlurLight => "Blur light"@,
        }
    }

    /// The name of the style in the picker.
    pub fn label(self) -> (s: &'static str)
        ensures
            s@ == self.label_text(),
    {
        match self {
            CensorStyle::BlackBox => "Black box",
            CensorStyle::WhiteBox => "White box",
            CensorStyle::BlurStrong => "Blur strong",
            CensorStyle::BlurMedium => "Blur medium",
            CensorStyle::BlurLight => "Blur light",
        }
    }

    /// Blur styles are see-through by design; boxes are not. Worth being able
    /// to ask, because the picker says so out loud.
    pub fn is_opaque(self) -> (r: bool)
        ensures
            r == (self is BlackBox || self is WhiteBox),
    {
        matches!(self, CensorStyle::BlackBox | CensorStyle::WhiteBox)
    }

    /// The ffmpeg filter that covers a region, or a whole frame.
    pub open spec fn filter_text(self) -> Seq<char> {
        match self {
            CensorStyle::BlackBox => "drawbox=x=0:y=0:w=iw:h=ih:color=black:t=fill"@,
            CensorStyle::WhiteBox => "drawbox=x=0:y=0:w=iw:h=ih:color=white:t=fill"@,
            CensorStyle::BlurLight => blur_text(8, 1, 4, 1),
            CensorStyle::BlurMedium => blur_text(16, 2, 8, 2),
            CensorStyle::BlurStrong => blur_text(28, 2, 14, 2),
        }
    }

    fn filter(self) -> (out: String)
        ensures
            out@ == self.filter_text(),
    {
        match self {
            CensorStyle::BlackBox => "drawbox=x=0:y=0:w=iw:h=ih:color=black:t=fill".to_owned(),
            CensorStyle::WhiteBox => "drawbox=x=0:y=0:w=iw:h=ih:color=white:t=fill".to_owned(),
            CensorStyle::BlurLight => blur(8, 1, 4, 1),
            CensorStyle::BlurMedium => blur(16, 2, 8, 2),
            CensorStyle::BlurStrong => blur(28, 2, 14, 2),
        }
    }
}

// ---------------------------------------------------------------------------
// Switching a filter on and off
// ---------------------------------------------------------------------------

/// A span as ffmpeg tests for it.
pub open spec fn between_text(s: int, e: int) -> Seq<char> {
    "between(t,"@ + text::seconds_text(s) + ","@ + text::seconds_text(e) + ")"@
}

/// What switches a filter on during a set of spans: the sum of their tests.
pub open spec fn gate_text(spans: Seq<(int, int)>) -> Seq<char>
    decreases spans.len(),
{
    if spans.len() == 0 {
        Seq::empty()
    } else if spans.len() == 1 {
        between_text(spans[0].0, spans[0].1)
    } else {
        gate_text(spans.drop_last()) + "+"@ + between_text(spans.last().0, spans.last().1)
    }
}

/// A sum of tests, as ffmpeg evaluates it: how many of the spans hold a
/// moment. A filter is on while it is not zero.
pub enum Sum {
    Nothing,
    Plus { before: Box<Sum>, start: int, end: int },
}

impl Sum {
    /// The sum as ffmpeg reads it.
    pub open spec fn spelled(self) -> Seq<char>
        decreases self,
    {
        match self {
            Sum::Nothing => Seq::empty(),
            Sum::Plus { before, start, end } => match *before {
                Sum::Nothing => between_text(start, end),
                Sum::Plus { .. } => before.spelled() + "+"@ + between_text(start, end),
            },
        }
    }

    /// The value of the sum at a moment.
    pub open spec fn at(self, t: int) -> int
        decreases self,
    {
        match self {
            Sum::Nothing => 0,
            Sum::Plus { before, start, end } => before.at(t) + if start <= t <= end {
                1int
            } else {
                0
            },
        }
    }
}

/// The sum of the tests for spans.
pub open spec fn gate_sum(spans: Seq<(int, int)>) -> Sum
    decreases spans.len(),
{
    if spans.len() == 0 {
        Sum::Nothing
    } else {
        Sum::Plus {
            before: Box::new(gate_sum(spans.drop_last())),
            start: spans.last().0,
            end: spans.last().1,
        }
    }
}

fn push_between(out: &mut String, s: i64, e: i64)
    ensures
        final(out)@ == old(out)@ + between_text(s as int, e as int),
{
    out.append("between(t,");
    text::push_seconds(out, s);
    out.append(",");
    text::push_seconds(out, e);
    out.append(")");
    assert(out@ =~= old(out)@ + between_text(s as int, e as int));
}

/// Spans as mathematical values.
pub open spec fn span_views(spans: Seq<(i64, i64)>) -> Seq<(int, int)> {
    Seq::new(spans.len(), |i: int| (spans[i].0 as int, spans[i].1 as int))
}

/// What switches a filter on during a set of spans.
fn enable_expr(spans: &[(i64, i64)]) -> (out: String)
    ensures
        out@ == gate_text(span_views(spans@)),
{
    let mut out: String = String::new();
    let ghost all = span_views(spans@);
    let n: usize = spans.len();
    let mut i: usize = 0;
    assert(all.take(0) =~= Seq::empty());
    while i < n
        invariant
            i <= n,
            n == spans@.len(),
            all == span_views(spans@),
            out@ == gate_text(all.take(i as int)),
        decreases n - i,
    {
        assert(all.take(i + 1).drop_last() =~= all.take(i as int));
        assert(all.take(i + 1).last() == all[i as int]);
        if i > 0 {
            out.append("+");
        }
        push_between(&mut out, spans[i].0, spans[i].1);
        assert(out@ =~= gate_text(all.take(i + 1)));
        i += 1;
    }
    assert(all.take(n as int) =~= all);
    out
}

// ---------------------------------------------------------------------------
// Moving coordinates
// ---------------------------------------------------------------------------

/// An ffmpeg expression over the playback time.
pub enum Expr {
    Value(int),
    /// `value` between `start` and `end`, and `other` at all other times.
    During { start: int, end: int, value: int, other: Box<Expr> },
}

impl Expr {
    /// The expression as ffmpeg reads it.
    pub open spec fn spelled(self) -> Seq<char>
        decreases self,
    {
        match self {
            Expr::Value(v) => text::int_text(v),
            Expr::During { start, end, value, other } => "if("@ + between_text(start, end) + ","@
                + text::int_text(value) + ","@ + other.spelled() + ")"@,
        }
    }

    /// The value of the expression at a moment.
    pub open spec fn at(self, t: int) -> int
        decreases self,
    {
        match self {
            Expr::Value(v) => v,
            Expr::During { start, end, value, other } => if start <= t <= end {
                value
            } else {
                other.at(t)
            },
        }
    }

    /// How deep the conditionals nest. ffmpeg gives up on deep ones.
    pub open spec fn depth(self) -> nat
        decreases self,
    {
        match self {
            Expr::Value(_) => 0,
            Expr::During { start, end, value, other } => 1 + other.depth(),
        }
    }
}

/// Where the box stands during a span.
pub struct Spot {
    pub start: int,
    pub end: int,
    pub x: int,
    pub y: int,
}

/// The expression for one coordinate of the moving box. Later spots wrap
/// earlier ones, so where two overlap, the later one is in force.
pub open spec fn piecewise_expr(spots: Seq<Spot>, vertical: bool, default: int) -> Expr
    decreases spots.len(),
{
    if spots.len() == 0 {
        Expr::Value(default)
    } else {
        let last = spots.last();
        Expr::During {
            start: last.start,
            end: last.end,
            value: if vertical {
                last.y
            } else {
                last.x
            },
            other: Box::new(piecewise_expr(spots.drop_last(), vertical, default)),
        }
    }
}

/// A spot with machine integers.
#[derive(Clone, Copy)]
struct Stop {
    start: i64,
    end: i64,
    x: i64,
    y: i64,
}

impl Stop {
    spec fn spot(self) -> Spot {
        Spot { start: self.start as int, end: self.end as int, x: self.x as int, y: self.y as int }
    }
}

spec fn spots(stops: Seq<Stop>) -> Seq<Spot> {
    Seq::new(stops.len(), |i: int| stops[i].spot())
}

/// Nested conditionals selecting a coordinate per window.
fn piecewise(stops: &Vec<Stop>, vertical: bool, default: i64) -> (out: String)
    ensures
        out@ == piecewise_expr(spots(stops@), vertical, default as int).spelled(),
{
    let ghost all = spots(stops@);
    let mut out: String = String::new();
    text::push_int(&mut out, default);
    let n: usize = stops.len();
    let mut i: usize = 0;
    assert(all.take(0) =~= Seq::empty());
    assert(out@ =~= piecewise_expr(all.take(0), vertical, default as int).spelled());
    while i < n
        invariant
            i <= n,
            n == stops@.len(),
            all == spots(stops@),
            out@ == piecewise_expr(all.take(i as int), vertical, default as int).spelled(),
        decreases n - i,
    {
        assert(all.take(i + 1).drop_last() =~= all.take(i as int));
        assert(all.take(i + 1).last() == all[i as int]);
        let stop: Stop = stops[i];
        let ghost inner = out@;
        let mut wrapped: String = "if(".to_owned();
        push_between(&mut wrapped, stop.start, stop.end);
        wrapped.append(",");
        text::push_int(&mut wrapped, if vertical { stop.y } else { stop.x });
        wrapped.append(",");
        wrapped.append(out.as_str());
        wrapped.append(")");
        out = wrapped;
        assert(out@ =~= piecewise_expr(all.take(i + 1), vertical, default as int).spelled());
        i += 1;
    }
    assert(all.take(n as int) =~= all);
    out
}

// ---------------------------------------------------------------------------
// The graph
// ---------------------------------------------------------------------------

/// The widest window.
pub open spec fn widest(ws: Seq<WindowView>) -> int
    decreases ws.len(),
{
    if ws.len() == 0 {
        0
    } else if ws.len() == 1 {
        ws[0].w
    } else {
        window::imax(widest(ws.drop_last()), ws.last().w)
    }
}

/// The tallest window.
pub open spec fn tallest(ws: Seq<WindowView>) -> int
    decreases ws.len(),
{
    if ws.len() == 0 {
        0
    } else if ws.len() == 1 {
        ws[0].h
    } else {
        window::imax(tallest(ws.drop_last()), ws.last().h)
    }
}

/// Where a box of length `size` stands to be centred on `pos..pos + len`, kept
/// inside the frame and on an even pixel.
pub open spec fn recentred(pos: int, len: int, size: int, frame: int) -> int {
    window::even_floor(
        window::imin(window::imax(pos + (len - size) / 2, 0), frame - size),
    )
}

/// The size of the moving box: big enough for every window, but no bigger than
/// the frame. Keeping it fixed is what keeps the graph a constant number of
/// filters.
pub open spec fn box_size(ws: Seq<WindowView>, fw: int, fh: int) -> (int, int) {
    (window::imin(fw, widest(ws)), window::imin(fh, tallest(ws)))
}

/// Where the box stands for one window.
pub open spec fn spot_for(w: WindowView, size: (int, int), fw: int, fh: int) -> Spot {
    Spot {
        start: w.start,
        end: w.end,
        x: recentred(w.x, w.w, size.0, fw),
        y: recentred(w.y, w.h, size.1, fh),
    }
}

/// Where the box stands, window by window.
pub open spec fn spots_for(ws: Seq<WindowView>, fw: int, fh: int) -> Seq<Spot> {
    Seq::new(ws.len(), |i: int| spot_for(ws[i], box_size(ws, fw, fh), fw, fh))
}

/// The horizontal position of the box, as an expression.
pub open spec fn x_expr(ws: Seq<WindowView>, fw: int, fh: int) -> Expr {
    piecewise_expr(spots_for(ws, fw, fh), false, 0)
}

/// The vertical position of the box, as an expression.
pub open spec fn y_expr(ws: Seq<WindowView>, fw: int, fh: int) -> Expr {
    piecewise_expr(spots_for(ws, fw, fh), true, 0)
}

/// The last of some windows that is open at a moment.
pub open spec fn last_open(ws: Seq<WindowView>, t: int, k: int) -> bool {
    &&& 0 <= k < ws.len()
    &&& ws[k].contains(t)
    &&& forall|j: int| k < j < ws.len() ==> !(#[trigger] ws[j]).contains(t)
}

/// The spans of windows.
pub open spec fn spans_of(ws: Seq<WindowView>) -> Seq<(int, int)> {
    Seq::new(ws.len(), |i: int| (ws[i].start, ws[i].end))
}

/// Cutting a box of a size out of the picture at a moving place, and
/// censoring it.
pub open spec fn crop_with(
    bw: int,
    bh: int,
    xe: Seq<char>,
    ye: Seq<char>,
    censor: Seq<char>,
) -> Seq<char> {
    "[t]crop=w="@ + text::int_text(bw) + ":h="@ + text::int_text(bh) + ":x='"@ + xe + "':y='"@ + ye
        + "',"@ + censor + "[b]"@
}

/// Laying the box back over the picture at a moving place while it is switched on.
pub open spec fn overlay_with(xe: Seq<char>, ye: Seq<char>, gate: Seq<char>) -> Seq<char> {
    "[m][b]overlay=x='"@ + xe + "':y='"@ + ye + "':eval=frame:enable='"@ + gate + "'"@
}

/// The step that cuts the box out of the picture and censors it.
pub open spec fn crop_text(ws: Seq<WindowView>, fw: int, fh: int, style: CensorStyle) -> Seq<char> {
    crop_with(
        box_size(ws, fw, fh).0,
        box_size(ws, fw, fh).1,
        x_expr(ws, fw, fh).spelled(),
        y_expr(ws, fw, fh).spelled(),
        style.filter_text(),
    )
}

/// The step that lays the box back over the picture while a window is open.
pub open spec fn overlay_text(ws: Seq<WindowView>, fw: int, fh: int) -> Seq<char> {
    overlay_with(
        x_expr(ws, fw, fh).spelled(),
        y_expr(ws, fw, fh).spelled(),
        gate_text(spans_of(ws)),
    )
}

/// The step that censors the whole frame during the full spans.
pub open spec fn full_text(full: Seq<(int, int)>, style: CensorStyle) -> Seq<char> {
    style.filter_text() + ":enable='"@ + gate_text(full) + "'"@
}

/// The steps of the graph, in order. The overlay's output is named only when
/// another step reads it: the graph's own output stays unnamed, as mpv expects.
pub open spec fn graph_steps(
    full: Seq<(int, int)>,
    ws: Seq<WindowView>,
    fw: int,
    fh: int,
    style: CensorStyle,
) -> Seq<Seq<char>> {
    if ws.len() == 0 && full.len() == 0 {
        seq![]
    } else if ws.len() == 0 {
        seq![full_text(full, style)]
    } else if full.len() == 0 {
        seq!["split=2[m][t]"@, crop_text(ws, fw, fh, style), overlay_text(ws, fw, fh)]
    } else {
        seq![
            "split=2[m][t]"@,
            crop_text(ws, fw, fh, style),
            overlay_text(ws, fw, fh) + "[o]"@,
            "[o]"@ + full_text(full, style),
        ]
    }
}

/// Pieces with a separator between them.
pub open spec fn joined(parts: Seq<Seq<char>>, sep: Seq<char>) -> Seq<char>
    decreases parts.len(),
{
    if parts.len() == 0 {
        Seq::empty()
    } else if parts.len() == 1 {
        parts[0]
    } else {
        joined(parts.drop_last(), sep) + sep + parts.last()
    }
}

/// Strings as mathematical values.
pub open spec fn text_views(parts: Seq<String>) -> Seq<Seq<char>> {
    Seq::new(parts.len(), |i: int| parts[i]@)
}

/// The whole graph: its steps, separated by semicolons.
pub open spec fn graph_text(
    full: Seq<(int, int)>,
    ws: Seq<WindowView>,
    fw: int,
    fh: int,
    style: CensorStyle,
) -> Seq<char> {
    joined(graph_steps(full, ws, fw, fh, style), ";"@)
}

/// Half of `v`, rounded down.
fn floor_half(v: i64) -> (r: i64)
    requires
        v > i64::MIN,
    ensures
        r == v as int / 2,
{
    if v >= 0 {
        v / 2
    } else {
        let m: i64 = -v;
        -(m / 2) - m % 2
    }
}

fn recentre(pos: i64, len: i64, size: i64, frame: i64) -> (r: i64)
    requires
        window::coordinate(pos as int),
        window::coordinate(len as int),
        window::coordinate(size as int),
        window::coordinate(frame as int),
    ensures
        r == recentred(pos as int, len as int, size as int, frame as int),
{
    let centred: i64 = pos + floor_half(len - size);
    let low: i64 = if centred >= 0 { centred } else { 0 };
    let room: i64 = frame - size;
    window::floor_even(if low <= room { low } else { room })
}

/// The size of the moving box.
fn measure(windows: &[CensorWindow], fw: i64, fh: i64) -> (size: (i64, i64))
    requires
        windows@.len() > 0,
        window::coordinate(fw as int),
        window::coordinate(fh as int),
        forall|i: int| 0 <= i < windows@.len() ==> window::window_fits((#[trigger] windows@[i])@),
    ensures
        (size.0 as int, size.1 as int) == box_size(
            window::window_views(windows@),
            fw as int,
            fh as int,
        ),
        window::coordinate(size.0 as int),
        window::coordinate(size.1 as int),
{
    let ghost ws = window::window_views(windows@);
    let n: usize = windows.len();
    let mut w: i64 = windows[0].w;
    let mut h: i64 = windows[0].h;
    assert(window::window_fits(windows@[0]@));
    let mut i: usize = 1;
    assert(ws.take(1).len() == 1);
    while i < n
        invariant
            1 <= i <= n,
            n == windows@.len(),
            ws == window::window_views(windows@),
            forall|i: int| 0 <= i < windows@.len() ==> window::window_fits((#[trigger] windows@[i])@),
            w == widest(ws.take(i as int)),
            h == tallest(ws.take(i as int)),
            window::coordinate(w as int),
            window::coordinate(h as int),
        decreases n - i,
    {
        assert(ws.take(i + 1).drop_last() =~= ws.take(i as int));
        assert(ws.take(i + 1).last() == windows@[i as int]@);
        if windows[i].w > w {
            w = windows[i].w;
        }
        if windows[i].h > h {
            h = windows[i].h;
        }
        i += 1;
    }
    assert(ws.take(n as int) =~= ws);
    (if fw <= w { fw } else { w }, if fh <= h { fh } else { h })
}

/// Where the box stands for each window.
fn stops_for(windows: &[CensorWindow], size: (i64, i64), fw: i64, fh: i64) -> (stops: Vec<Stop>)
    requires
        window::coordinate(fw as int),
        window::coordinate(fh as int),
        window::coordinate(size.0 as int),
        window::coordinate(size.1 as int),
        (size.0 as int, size.1 as int) == box_size(
            window::window_views(windows@),
            fw as int,
            fh as int,
        ),
        forall|i: int| 0 <= i < windows@.len() ==> window::window_fits((#[trigger] windows@[i])@),
    ensures
        spots(stops@) == spots_for(window::window_views(windows@), fw as int, fh as int),
{
    let ghost ws = window::window_views(windows@);
    let n: usize = windows.len();
    let mut stops: Vec<Stop> = Vec::new();
    let mut i: usize = 0;
    while i < n
        invariant
            i <= n,
            n == windows@.len(),
            ws == window::window_views(windows@),
            (size.0 as int, size.1 as int) == box_size(ws, fw as int, fh as int),
            window::coordinate(fw as int),
            window::coordinate(fh as int),
            window::coordinate(size.0 as int),
            window::coordinate(size.1 as int),
            forall|i: int|
                0 <= i < windows@.len() ==> window::window_fits((#[trigger] windows@[i])@),
            stops@.len() == i,
            forall|k: int|
                0 <= k < i ==> (#[trigger] stops@[k]).spot() == spots_for(
                    ws,
                    fw as int,
                    fh as int,
                )[k],
        decreases n - i,
    {
        let win: &CensorWindow = &windows[i];
        assert(window::window_fits(windows@[i as int]@));
        let x: i64 = recentre(win.x, win.w, size.0, fw);
        let y: i64 = recentre(win.y, win.h, size.1, fh);
        stops.push(Stop { start: win.start, end: win.end, x, y });
        i += 1;
    }
    assert(spots(stops@) =~= spots_for(ws, fw as int, fh as int));
    stops
}

/// The spans of windows.
fn spans_for(windows: &[CensorWindow]) -> (spans: Vec<(i64, i64)>)
    ensures
        span_views(spans@) == spans_of(window::window_views(windows@)),
{
    let n: usize = windows.len();
    let mut spans: Vec<(i64, i64)> = Vec::new();
    let mut i: usize = 0;
    while i < n
        invariant
            i <= n,
            n == windows@.len(),
            spans@.len() == i,
            forall|k: int|
                0 <= k < i ==> (#[trigger] spans@[k]) == (windows@[k].start, windows@[k].end),
        decreases n - i,
    {
        spans.push((windows[i].start, windows[i].end));
        i += 1;
    }
    assert(span_views(spans@) =~= spans_of(window::window_views(windows@)));
    spans
}

fn crop_step(size: (i64, i64), xe: &str, ye: &str, censor: &str) -> (out: String)
    ensures
        out@ == crop_with(size.0 as int, size.1 as int, xe@, ye@, censor@),
{
    let mut out: String = "[t]crop=w=".to_owned();
    text::push_int(&mut out, size.0);
    out.append(":h=");
    text::push_int(&mut out, size.1);
    out.append(":x='");
    out.append(xe);
    out.append("':y='");
    out.append(ye);
    out.append("',");
    out.append(censor);
    out.append("[b]");
    out
}

fn overlay_step(xe: &str, ye: &str, gate: &str) -> (out: String)
    ensures
        out@ == overlay_with(xe@, ye@, gate@),
{
    let mut out: String = "[m][b]overlay=x='".to_owned();
    out.append(xe);
    out.append("':y='");
    out.append(ye);
    out.append("':eval=frame:enable='");
    out.append(gate);
    out.append("'");
    out
}

fn full_step(full_runs: &[(i64, i64)], censor: &str) -> (out: String)
    ensures
        out@ == censor@ + ":enable='"@ + gate_text(span_views(full_runs@)) + "'"@,
{
    let gate: String = enable_expr(full_runs);
    let mut out: String = censor.to_owned();
    out.append(":enable='");
    out.append(gate.as_str());
    out.append("'");
    out
}

/// The three steps that draw the moving box.
fn moving_steps(windows: &[CensorWindow], fw: i64, fh: i64, style: CensorStyle, censor: &str) -> (
    steps: (String, String))
    requires
        windows@.len() > 0,
        window::coordinate(fw as int),
        window::coordinate(fh as int),
        forall|i: int| 0 <= i < windows@.len() ==> window::window_fits((#[trigger] windows@[i])@),
        censor@ == style.filter_text(),
    ensures
        steps.0@ == crop_text(window::window_views(windows@), fw as int, fh as int, style),
        steps.1@ == overlay_text(window::window_views(windows@), fw as int, fh as int),
{
    let size: (i64, i64) = measure(windows, fw, fh);
    let stops: Vec<Stop> = stops_for(windows, size, fw, fh);
    let spans: Vec<(i64, i64)> = spans_for(windows);
    let xe: String = piecewise(&stops, false, 0);
    let ye: String = piecewise(&stops, true, 0);
    let gate: String = enable_expr(spans.as_slice());
    (
        crop_step(size, xe.as_str(), ye.as_str(), censor),
        overlay_step(xe.as_str(), ye.as_str(), gate.as_str()),
    )
}

/// Pieces with a separator between them.
fn join(parts: &Vec<String>, sep: &str) -> (out: String)
    ensures
        out@ == joined(text_views(parts@), sep@),
{
    let ghost all = text_views(parts@);
    let n: usize = parts.len();
    let mut out: String = String::new();
    let mut i: usize = 0;
    assert(all.take(0) =~= Seq::empty());
    while i < n
        invariant
            i <= n,
            n == parts@.len(),
            all == text_views(parts@),
            out@ == joined(all.take(i as int), sep@),
        decreases n - i,
    {
        assert(all.take(i + 1).drop_last() =~= all.take(i as int));
        assert(all.take(i + 1).last() == parts@[i as int]@);
        if i > 0 {
            out.append(sep);
        }
        out.append(parts[i].as_str());
        assert(out@ =~= joined(all.take(i + 1), sep@));
        i += 1;
    }
    assert(all.take(n as int) =~= all);
    out
}

/// Build the complete body of `vf=lavfi=[...]`.
///
/// Returns an empty string when there is nothing to cover, which the player
/// reads as "play this file with no filter at all".
pub fn build_graph(
    full_runs: &[(i64, i64)],
    windows: &[CensorWindow],
    fw: i64,
    fh: i64,
    style: CensorStyle,
) -> (out: String)
    requires
        window::coordinate(fw as int),
        window::coordinate(fh as int),
        window::all_fit(windows@),
    ensures
        out@ == graph_text(
            span_views(full_runs@),
            window::window_views(windows@),
            fw as int,
            fh as int,
            style,
        ),
{
    let censor: String = style.filter();
    let ghost ws = window::window_views(windows@);
    let ghost full = span_views(full_runs@);
    let mut parts: Vec<String> = Vec::new();
    if windows.len() > 0 {
        let (crop, mut overlay): (String, String) = moving_steps(
            windows,
            fw,
            fh,
            style,
            censor.as_str(),
        );
        parts.push("split=2[m][t]".to_owned());
        parts.push(crop);
        if full_runs.len() > 0 {
            overlay.append("[o]");
        }
        parts.push(overlay);
    }
    if full_runs.len() > 0 {
        let step: String = full_step(full_runs, censor.as_str());
        if windows.len() > 0 {
            let mut labelled: String = "[o]".to_owned();
            labelled.append(step.as_str());
            parts.push(labelled);
        } else {
            parts.push(step);
        }
    }
    assert(text_views(parts@) =~= graph_steps(full, ws, fw as int, fh as int, style));
    join(&parts, ";")
}

} // verus!
