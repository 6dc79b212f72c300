//! What holds of every filtergraph.

use vstd::prelude::*;

use crate::graph;
use crate::graph::{CensorStyle, Spot};
use crate::spans;
use crate::window;
use crate::window::WindowView;
use crate::window_laws;

verus! {

/// Windows that can be drawn over a frame without loss: even, inside it.
pub open spec fn drawable(ws: Seq<WindowView>, duration: int, fw: int, fh: int) -> bool {
    forall|k: int|
        0 <= k < ws.len() ==> window_laws::well_placed(#[trigger] ws[k], duration)
            && window_laws::in_frame(ws[k], fw, fh)
}

proof fn lemma_piecewise_at(spots: Seq<Spot>, vertical: bool, default: int, t: int, k: int)
    requires
        0 <= k < spots.len(),
        spots[k].start <= t <= spots[k].end,
        forall|j: int|
            k < j < spots.len() ==> !((#[trigger] spots[j]).start <= t <= spots[j].end),
    ensures
        graph::piecewise_expr(spots, vertical, default).at(t) == if vertical {
            spots[k].y
        } else {
            spots[k].x
        },
    decreases spots.len(),
{
    if k < spots.len() - 1 {
        assert(!(spots[spots.len() - 1].start <= t <= spots[spots.len() - 1].end));
        let prev = spots.drop_last();
        assert(prev[k] == spots[k]);
        lemma_piecewise_at(prev, vertical, default, t, k);
    }
}

proof fn lemma_piecewise_depth(spots: Seq<Spot>, vertical: bool, default: int)
    ensures
        graph::piecewise_expr(spots, vertical, default).depth() == spots.len(),
    decreases spots.len(),
{
    if spots.len() > 0 {
        lemma_piecewise_depth(spots.drop_last(), vertical, default);
    }
}

proof fn lemma_biggest(ws: Seq<WindowView>, k: int)
    requires
        0 <= k < ws.len(),
    ensures
        ws[k].w <= graph::widest(ws),
        ws[k].h <= graph::tallest(ws),
    decreases ws.len(),
{
    if ws.len() > 1 && k < ws.len() - 1 {
        assert(ws.drop_last()[k] == ws[k]);
        lemma_biggest(ws.drop_last(), k);
    }
}

proof fn lemma_biggest_is_one(ws: Seq<WindowView>) -> (r: (int, int))
    requires
        ws.len() > 0,
    ensures
        0 <= r.0 < ws.len(),
        0 <= r.1 < ws.len(),
        graph::widest(ws) == ws[r.0].w,
        graph::tallest(ws) == ws[r.1].h,
    decreases ws.len(),
{
    if ws.len() == 1 {
        (0, 0)
    } else {
        let (a, b) = lemma_biggest_is_one(ws.drop_last());
        assert(ws.drop_last()[a] == ws[a]);
        assert(ws.drop_last()[b] == ws[b]);
        let last = ws.len() - 1;
        (
            if graph::widest(ws.drop_last()) >= ws.last().w { a } else { last },
            if graph::tallest(ws.drop_last()) >= ws.last().h { b } else { last },
        )
    }
}

proof fn lemma_recentred_covers(pos: int, len: int, size: int, frame: int)
    requires
        0 <= pos,
        pos % 2 == 0,
        len % 2 == 0,
        size % 2 == 0,
        0 < len <= size <= frame,
        pos + len <= frame,
    ensures
        0 <= graph::recentred(pos, len, size, frame) <= pos,
        pos + len <= graph::recentred(pos, len, size, frame) + size <= frame,
{
}

/// Where windows overlap, the box stands where the later of them wants it.
pub proof fn law_latest_window_wins(ws: Seq<WindowView>, fw: int, fh: int, t: int, k: int)
    requires
        graph::last_open(ws, t, k),
    ensures
        graph::x_expr(ws, fw, fh).at(t) == graph::spots_for(ws, fw, fh)[k].x,
        graph::y_expr(ws, fw, fh).at(t) == graph::spots_for(ws, fw, fh)[k].y,
{
    let spots = graph::spots_for(ws, fw, fh);
    assert forall|j: int| k < j < spots.len() implies !((#[trigger] spots[j]).start <= t
        <= spots[j].end) by {
        assert(!ws[j].contains(t));
    }
    lemma_piecewise_at(spots, false, 0, t, k);
    lemma_piecewise_at(spots, true, 0, t, k);
}

/// The conditionals nest exactly as deep as there are windows, so a cap on the
/// windows is a cap on what ffmpeg has to parse.
pub proof fn law_nesting_is_the_window_count(ws: Seq<WindowView>, fw: int, fh: int)
    ensures
        graph::x_expr(ws, fw, fh).depth() == ws.len(),
        graph::y_expr(ws, fw, fh).depth() == ws.len(),
{
    lemma_piecewise_depth(graph::spots_for(ws, fw, fh), false, 0);
    lemma_piecewise_depth(graph::spots_for(ws, fw, fh), true, 0);
}

/// However much is covered, the graph has no more than four steps.
pub proof fn law_constant_number_of_filters(
    full: Seq<(int, int)>,
    ws: Seq<WindowView>,
    fw: int,
    fh: int,
    style: CensorStyle,
)
    ensures
        graph::graph_steps(full, ws, fw, fh, style).len() == (if ws.len() > 0 {
            3int
        } else {
            0int
        }) + (if full.len() > 0 {
            1int
        } else {
            0int
        }),
{
}

/// The graph is empty, and the movie plays with no filter at all, exactly when
/// there is nothing to cover.
pub proof fn law_only_a_clean_movie_plays_unfiltered(
    full: Seq<(int, int)>,
    ws: Seq<WindowView>,
    fw: int,
    fh: int,
    style: CensorStyle,
)
    ensures
        graph::graph_text(full, ws, fw, fh, style).len() == 0 <==> full.len() == 0 && ws.len() == 0,
{
    let steps = graph::graph_steps(full, ws, fw, fh, style);
    reveal_strlit("split=2[m][t]");
    reveal_strlit(":enable='");
    reveal_with_fuel(graph::joined, 5);
}

/// While a window is the latest one open, the moving box lies over all of its
/// rectangle, and does not leave the frame.
pub proof fn law_moving_box_covers_the_window(
    ws: Seq<WindowView>,
    duration: int,
    fw: int,
    fh: int,
    t: int,
    k: int,
)
    requires
        drawable(ws, duration, fw, fh),
        graph::last_open(ws, t, k),
    ensures
        ({
            let x = graph::x_expr(ws, fw, fh).at(t);
            let y = graph::y_expr(ws, fw, fh).at(t);
            let (bw, bh) = graph::box_size(ws, fw, fh);
            &&& 0 <= x <= ws[k].x
            &&& 0 <= y <= ws[k].y
            &&& ws[k].x + ws[k].w <= x + bw <= fw
            &&& ws[k].y + ws[k].h <= y + bh <= fh
        }),
{
    law_latest_window_wins(ws, fw, fh, t, k);
    lemma_biggest(ws, k);
    let (a, b) = lemma_biggest_is_one(ws);
    assert(window_laws::well_placed(ws[a], duration) && window_laws::in_frame(ws[a], fw, fh));
    assert(window_laws::well_placed(ws[b], duration) && window_laws::in_frame(ws[b], fw, fh));
    assert(window_laws::well_placed(ws[k], duration) && window_laws::in_frame(ws[k], fw, fh));
    let (bw, bh) = graph::box_size(ws, fw, fh);
    assert(bw == ws[a].w && bh == ws[b].h);
    lemma_recentred_covers(ws[k].x, ws[k].w, bw, fw);
    lemma_recentred_covers(ws[k].y, ws[k].h, bh, fh);
}

proof fn lemma_recentred_clipped(pos: int, len: int, biggest: int, frame: int)
    requires
        0 <= pos,
        pos % 2 == 0,
        len % 2 == 0,
        biggest % 2 == 0,
        0 < len <= biggest,
        0 < frame,
    ensures
        ({
            let size = window::imin(frame, biggest);
            let x = graph::recentred(pos, len, size, frame);
            &&& 0 <= x <= pos
            &&& window::imin(pos + len, window::even_floor(frame)) <= x + size <= frame
        }),
{
}

/// The moving box lies over all that shows of the latest window open, even of
/// one that sticks out of the frame, but for the last column or row of a frame
/// with an odd side.
pub proof fn law_moving_box_covers_what_shows(
    ws: Seq<WindowView>,
    duration: int,
    fw: int,
    fh: int,
    t: int,
    k: int,
)
    requires
        forall|i: int| 0 <= i < ws.len() ==> window_laws::well_placed(#[trigger] ws[i], duration),
        fw > 0,
        fh > 0,
        graph::last_open(ws, t, k),
    ensures
        ({
            let x = graph::x_expr(ws, fw, fh).at(t);
            let y = graph::y_expr(ws, fw, fh).at(t);
            let (bw, bh) = graph::box_size(ws, fw, fh);
            &&& 0 <= x <= ws[k].x
            &&& 0 <= y <= ws[k].y
            &&& window::imin(ws[k].x + ws[k].w, window::even_floor(fw)) <= x + bw <= fw
            &&& window::imin(ws[k].y + ws[k].h, window::even_floor(fh)) <= y + bh <= fh
        }),
{
    law_latest_window_wins(ws, fw, fh, t, k);
    lemma_biggest(ws, k);
    let (a, b) = lemma_biggest_is_one(ws);
    assert(window_laws::well_placed(ws[a], duration));
    assert(window_laws::well_placed(ws[b], duration));
    assert(window_laws::well_placed(ws[k], duration));
    lemma_recentred_clipped(ws[k].x, ws[k].w, graph::widest(ws), fw);
    lemma_recentred_clipped(ws[k].y, ws[k].h, graph::tallest(ws), fh);
}

/// A filter is on exactly while one of its spans holds the moment.
pub proof fn law_filter_is_on_during_its_spans(list: Seq<(int, int)>, t: int)
    ensures
        graph::gate_text(list) == graph::gate_sum(list).spelled(),
        graph::gate_sum(list).at(t) >= 0,
        graph::gate_sum(list).at(t) > 0 <==> spans::any_holds(list, t),
    decreases list.len(),
{
    if list.len() > 0 {
        let prev = list.drop_last();
        let n = list.len() - 1;
        law_filter_is_on_during_its_spans(prev, t);
        if list.len() == 1 {
            assert(graph::gate_sum(prev) == graph::Sum::Nothing);
        }
        if spans::any_holds(prev, t) {
            let k = choose|k: int| 0 <= k < prev.len() && (#[trigger] prev[k]).0 <= t <= prev[k].1;
            assert(list[k].0 <= t <= list[k].1);
        }
        if list[n].0 <= t <= list[n].1 {
            assert(spans::any_holds(list, t));
        }
        if spans::any_holds(list, t) {
            let k = choose|k: int| 0 <= k < list.len() && (#[trigger] list[k]).0 <= t <= list[k].1;
            if k < n {
                assert(prev[k].0 <= t <= prev[k].1);
            }
        }
    }
}

} // verus!
