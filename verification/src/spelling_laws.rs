//! What a filtergraph says, read back.

use vstd::prelude::*;

use crate::graph;
use crate::graph::{CensorStyle, Expr};
use crate::reading_laws::put_together;
use crate::text;
use crate::text_laws;
use crate::text_laws::{only_digits, spells, worth};
use crate::window::WindowView;

verus! {

/// Whether a text has ffmpeg test for a span: both its ends are spelled in
/// seconds with three decimals, and read back as the milliseconds they are.
pub open spec fn tests_for(s: Seq<char>, start: int, end: int) -> bool {
    exists|a: Seq<char>, b: Seq<char>|
        s == "between(t,"@ + a + ","@ + b + ")"@ && #[trigger] spells(a, 3, start)
            && #[trigger] spells(b, 3, end)
}

/// Whether a text is an integer in decimal.
pub open spec fn spells_integer(s: Seq<char>, v: int) -> bool {
    if v < 0 {
        s.len() > 1 && s[0] == '-' && only_digits(s.skip(1)) && worth(s.skip(1)) == -v
    } else {
        s.len() > 0 && only_digits(s) && worth(s) == v
    }
}

pub proof fn lemma_spells_integer(v: int)
    ensures
        spells_integer(text::int_text(v), v),
{
    reveal_strlit("-");
    text_laws::law_integers_read_back(v);
    text_laws::law_digits_are_worth_the_number((if v < 0 {
        -v
    } else {
        v
    }) as nat);
}

/// The test for a span names exactly its start and its end.
pub proof fn law_a_test_names_its_span(start: int, end: int)
    ensures
        tests_for(graph::between_text(start, end), start, end),
{
    text_laws::law_seconds_read_back(start);
    text_laws::law_seconds_read_back(end);
    let a = text::seconds_text(start);
    let b = text::seconds_text(end);
    assert(spells(a, 3, start) && spells(b, 3, end));
}

/// What switches a filter on is a sum with one test for each span, in order.
pub proof fn law_a_sum_names_all_its_spans(list: Seq<(int, int)>) -> (tests: Seq<Seq<char>>)
    requires
        list.len() > 0,
    ensures
        tests.len() == list.len(),
        graph::gate_text(list) == put_together(
            tests,
            Seq::new((list.len() - 1) as nat, |i: int| '+'),
        ),
        forall|i: int|
            0 <= i < list.len() ==> tests_for(#[trigger] tests[i], list[i].0, list[i].1),
    decreases list.len(),
{
    reveal_strlit("+");
    let n = list.len() as int;
    let last = graph::between_text(list[n - 1].0, list[n - 1].1);
    law_a_test_names_its_span(list[n - 1].0, list[n - 1].1);
    let plus = Seq::new((n - 1) as nat, |i: int| '+');
    if n == 1 {
        let tests = seq![last];
        assert(put_together(tests, plus) == tests[0]);
        tests
    } else {
        let prev = list.drop_last();
        let before = law_a_sum_names_all_its_spans(prev);
        let tests = before.push(last);
        assert(tests.drop_last() =~= before);
        assert(plus.drop_last() =~= Seq::new((n - 2) as nat, |i: int| '+'));
        assert(graph::gate_text(list) =~= put_together(tests, plus));
        assert forall|i: int| 0 <= i < list.len() implies tests_for(
            #[trigger] tests[i],
            list[i].0,
            list[i].1,
        ) by {
            if i < n - 1 {
                assert(tests[i] == before[i] && prev[i] == list[i]);
            }
        }
        tests
    }
}

/// A conditional is spelled as its test, the value while it holds, and what
/// holds else; a value is spelled as the integer it is.
pub proof fn law_conditionals_say_what_they_mean(
    start: int,
    end: int,
    value: int,
    other: Expr,
    t: int,
) -> (parts: (Seq<char>, Seq<char>))
    ensures
        ({
            let e = Expr::During { start, end, value, other: Box::new(other) };
            &&& e.spelled() == "if("@ + parts.0 + ","@ + parts.1 + ","@ + other.spelled() + ")"@
            &&& tests_for(parts.0, start, end)
            &&& spells_integer(parts.1, value)
            &&& start <= t <= end ==> e.at(t) == value
            &&& t < start || t > end ==> e.at(t) == other.at(t)
        }),
        spells_integer(Expr::Value(value).spelled(), value),
        Expr::Value(value).at(t) == value,
{
    law_a_test_names_its_span(start, end);
    lemma_spells_integer(value);
    (graph::between_text(start, end), text::int_text(value))
}

/// While no window is open the box stands at the corner.
pub proof fn law_the_box_rests_at_the_corner(ws: Seq<WindowView>, fw: int, fh: int, t: int)
    requires
        forall|i: int| 0 <= i < ws.len() ==> !((#[trigger] ws[i]).start <= t <= ws[i].end),
    ensures
        graph::x_expr(ws, fw, fh).at(t) == 0,
        graph::y_expr(ws, fw, fh).at(t) == 0,
{
    let spots = graph::spots_for(ws, fw, fh);
    assert forall|i: int| 0 <= i < spots.len() implies !((#[trigger] spots[i]).start <= t
        <= spots[i].end) by {
        assert(!(ws[i].start <= t <= ws[i].end));
    }
    lemma_rests(spots, false, t);
    lemma_rests(spots, true, t);
}

proof fn lemma_rests(spots: Seq<graph::Spot>, vertical: bool, t: int)
    requires
        forall|i: int| 0 <= i < spots.len() ==> !((#[trigger] spots[i]).start <= t <= spots[i].end),
    ensures
        graph::piecewise_expr(spots, vertical, 0).at(t) == 0,
    decreases spots.len(),
{
    if spots.len() > 0 {
        let less = spots.drop_last();
        assert(!(spots[spots.len() - 1].start <= t <= spots[spots.len() - 1].end));
        assert forall|i: int| 0 <= i < less.len() implies !((#[trigger] less[i]).start <= t
            <= less[i].end) by {
            assert(less[i] == spots[i]);
        }
        lemma_rests(less, vertical, t);
    }
}

proof fn lemma_widest(ws: Seq<WindowView>)
    requires
        ws.len() > 0,
    ensures
        forall|i: int| 0 <= i < ws.len() ==> (#[trigger] ws[i]).w <= graph::widest(ws),
        exists|i: int| 0 <= i < ws.len() && (#[trigger] ws[i]).w == graph::widest(ws),
        forall|i: int| 0 <= i < ws.len() ==> (#[trigger] ws[i]).h <= graph::tallest(ws),
        exists|i: int| 0 <= i < ws.len() && (#[trigger] ws[i]).h == graph::tallest(ws),
    decreases ws.len(),
{
    let n = ws.len() - 1;
    if n == 0 {
        assert(ws[0].w == graph::widest(ws));
        assert(ws[0].h == graph::tallest(ws));
    } else {
        let less = ws.drop_last();
        lemma_widest(less);
        let i = choose|i: int| 0 <= i < less.len() && (#[trigger] less[i]).w == graph::widest(less);
        let j = choose|i: int| 0 <= i < less.len() && (#[trigger] less[i]).h == graph::tallest(
            less,
        );
        assert(ws[i].w == less[i].w && ws[j].h == less[j].h);
        assert(ws[n].w == ws.last().w);
        assert forall|k: int| 0 <= k < ws.len() implies (#[trigger] ws[k]).w <= graph::widest(ws)
            && ws[k].h <= graph::tallest(ws) by {
            if k < n {
                assert(ws[k] == less[k]);
            }
        }
    }
}

/// The box is as wide as the widest window and as tall as the tallest, and no
/// larger, unless the frame is smaller: then it is as large as that.
pub proof fn law_the_box_is_no_larger_than_it_must_be(ws: Seq<WindowView>, fw: int, fh: int)
    requires
        ws.len() > 0,
    ensures
        ({
            let (bw, bh) = graph::box_size(ws, fw, fh);
            &&& bw <= fw && bh <= fh
            &&& bw == fw || forall|i: int| 0 <= i < ws.len() ==> (#[trigger] ws[i]).w <= bw
            &&& bh == fh || forall|i: int| 0 <= i < ws.len() ==> (#[trigger] ws[i]).h <= bh
            &&& exists|i: int| 0 <= i < ws.len() && bw <= (#[trigger] ws[i]).w
            &&& exists|i: int| 0 <= i < ws.len() && bh <= (#[trigger] ws[i]).h
        }),
{
    lemma_widest(ws);
    let i = choose|i: int| 0 <= i < ws.len() && (#[trigger] ws[i]).w == graph::widest(ws);
    let j = choose|i: int| 0 <= i < ws.len() && (#[trigger] ws[i]).h == graph::tallest(ws);
    assert(graph::box_size(ws, fw, fh).0 <= ws[i].w);
    assert(graph::box_size(ws, fw, fh).1 <= ws[j].h);
}

/// The box stands on an even pixel with its middle on the window's, to within
/// what that takes. Where it would leave the frame it stands at the frame's
/// edge.
pub proof fn law_the_box_is_centred(pos: int, len: int, size: int, frame: int)
    requires
        size <= frame,
    ensures
        ({
            let r = graph::recentred(pos, len, size, frame);
            let off = (2 * r + size) - (2 * pos + len);
            &&& r % 2 == 0 && 0 <= r <= frame - size
            &&& 2 * pos + len >= size && 2 * pos + len <= 2 * frame - size ==> -3 <= off <= 0
            &&& 2 * pos + len < size ==> r == 0
            &&& 2 * pos + len > 2 * frame - size + 1 ==> r + 1 >= frame - size
        }),
{
}

/// The box stands for each window at its place: across by the widths, and down
/// by the heights.
pub proof fn law_the_box_follows_the_windows(ws: Seq<WindowView>, fw: int, fh: int, k: int)
    requires
        0 <= k < ws.len(),
    ensures
        ({
            let s = graph::spots_for(ws, fw, fh)[k];
            let (bw, bh) = graph::box_size(ws, fw, fh);
            &&& graph::spots_for(ws, fw, fh).len() == ws.len()
            &&& s.start == ws[k].start && s.end == ws[k].end
            &&& s.x == graph::recentred(ws[k].x, ws[k].w, bw, fw)
            &&& s.y == graph::recentred(ws[k].y, ws[k].h, bh, fh)
        }),
{
}

/// Steps are put together with a semicolon between each two.
pub proof fn law_steps_are_put_together(parts: Seq<Seq<char>>, c: char)
    requires
        parts.len() > 0,
    ensures
        graph::joined(parts, seq![c]) == put_together(
            parts,
            Seq::new((parts.len() - 1) as nat, |i: int| c),
        ),
    decreases parts.len(),
{
    let n = parts.len() - 1;
    let between = Seq::new(n as nat, |i: int| c);
    if n > 0 {
        law_steps_are_put_together(parts.drop_last(), c);
        assert(between.drop_last() =~= Seq::new((n - 1) as nat, |i: int| c));
        assert(graph::joined(parts, seq![c]) =~= put_together(parts, between));
    }
}

/// A blur names its radius and power, for brightness and for colour.
pub proof fn law_blurs_name_their_radius(lr: int, lp: int, cr: int, cp: int) -> (parts: (
    Seq<char>,
    Seq<char>,
    Seq<char>,
    Seq<char>,
))
    ensures
        spells_integer(parts.0, lr) && spells_integer(parts.1, lp) && spells_integer(parts.2, cr)
            && spells_integer(parts.3, cp),
        graph::blur_text(lr, lp, cr, cp) == "boxblur=luma_radius='min("@ + parts.0
            + ",(min(w,h)-1)/2)':luma_power="@ + parts.1 + ":chroma_radius='min("@ + parts.2
            + ",(min(cw,ch)-1)/2)':chroma_power="@ + parts.3,
{
    lemma_spells_integer(lr);
    lemma_spells_integer(lp);
    lemma_spells_integer(cr);
    lemma_spells_integer(cp);
    (text::int_text(lr), text::int_text(lp), text::int_text(cr), text::int_text(cp))
}

/// The box is cut out by its own size, width before height, and laid back at
/// the place it was cut from.
pub proof fn law_the_box_is_cut_by_its_size(
    bw: int,
    bh: int,
    xe: Seq<char>,
    ye: Seq<char>,
    censor: Seq<char>,
) -> (parts: (Seq<char>, Seq<char>))
    ensures
        spells_integer(parts.0, bw) && spells_integer(parts.1, bh),
        graph::crop_with(bw, bh, xe, ye, censor) == "[t]crop=w="@ + parts.0 + ":h="@ + parts.1
            + ":x='"@ + xe + "':y='"@ + ye + "',"@ + censor + "[b]"@,
{
    lemma_spells_integer(bw);
    lemma_spells_integer(bh);
    (text::int_text(bw), text::int_text(bh))
}

/// The box is cut out and laid back at one and the same place, at the size of
/// the box, and is on while a window is open: there is one test for each.
pub proof fn law_the_box_is_laid_back_where_it_was_cut(
    ws: Seq<WindowView>,
    fw: int,
    fh: int,
    style: CensorStyle,
) -> (parts: (Seq<char>, Seq<char>, Seq<Seq<char>>))
    requires
        ws.len() > 0,
    ensures
        ({
            let (w, h, tests) = parts;
            let x = graph::x_expr(ws, fw, fh).spelled();
            let y = graph::y_expr(ws, fw, fh).spelled();
            let on = put_together(tests, Seq::new((ws.len() - 1) as nat, |i: int| '+'));
            &&& spells_integer(w, graph::box_size(ws, fw, fh).0)
            &&& spells_integer(h, graph::box_size(ws, fw, fh).1)
            &&& tests.len() == ws.len()
            &&& forall|i: int|
                0 <= i < ws.len() ==> tests_for(#[trigger] tests[i], ws[i].start, ws[i].end)
            &&& graph::crop_text(ws, fw, fh, style) == "[t]crop=w="@ + w + ":h="@ + h + ":x='"@ + x
                + "':y='"@ + y + "',"@ + style.filter_text() + "[b]"@
            &&& graph::overlay_text(ws, fw, fh) == "[m][b]overlay=x='"@ + x + "':y='"@ + y
                + "':eval=frame:enable='"@ + on + "'"@
        }),
{
    let (bw, bh) = graph::box_size(ws, fw, fh);
    lemma_spells_integer(bw);
    lemma_spells_integer(bh);
    let spans = graph::spans_of(ws);
    let tests = law_a_sum_names_all_its_spans(spans);
    assert forall|i: int| 0 <= i < ws.len() implies tests_for(
        #[trigger] tests[i],
        ws[i].start,
        ws[i].end,
    ) by {
        assert(tests_for(tests[i], spans[i].0, spans[i].1));
    }
    (text::int_text(bw), text::int_text(bh), tests)
}

/// The full frame is covered during its spans: there is one test for each.
pub proof fn law_the_frame_is_covered_during_its_spans(
    full: Seq<(int, int)>,
    style: CensorStyle,
) -> (tests: Seq<Seq<char>>)
    requires
        full.len() > 0,
    ensures
        tests.len() == full.len(),
        forall|i: int|
            0 <= i < full.len() ==> tests_for(#[trigger] tests[i], full[i].0, full[i].1),
        graph::full_text(full, style) == style.filter_text() + ":enable='"@ + put_together(
            tests,
            Seq::new((full.len() - 1) as nat, |i: int| '+'),
        ) + "'"@,
{
    law_a_sum_names_all_its_spans(full)
}

/// The box stands by one of its windows across as well as down: along both
/// sides the expressions follow the same spans.
pub proof fn law_both_sides_follow_the_same_spans(
    spots: Seq<graph::Spot>,
    other: int,
    t: int,
    k: int,
)
    requires
        0 <= k < spots.len(),
        spots[k].start <= t <= spots[k].end,
        forall|j: int|
            k < j < spots.len() ==> !((#[trigger] spots[j]).start <= t <= spots[j].end),
    ensures
        graph::piecewise_expr(spots, false, other).at(t) == spots[k].x,
        graph::piecewise_expr(spots, true, other).at(t) == spots[k].y,
    decreases spots.len(),
{
    if k < spots.len() - 1 {
        let less = spots.drop_last();
        assert(!(spots[spots.len() - 1].start <= t <= spots[spots.len() - 1].end));
        assert forall|j: int| k < j < less.len() implies !((#[trigger] less[j]).start <= t
            <= less[j].end) by {
            assert(less[j] == spots[j]);
        }
        law_both_sides_follow_the_same_spans(less, other, t, k);
    }
}

/// Every blur reaches over twice as many pixels of brightness as of colour, as
/// often. A medium one reaches further than a light one and goes over them more
/// often, and a strong one reaches further still.
pub proof fn law_stronger_blurs_reach_further() -> (reach: (int, int, int))
    ensures
        0 < reach.0 < reach.1 < reach.2,
        CensorStyle::BlurLight.filter_text() == graph::blur_text(2 * reach.0, 1, reach.0, 1),
        CensorStyle::BlurMedium.filter_text() == graph::blur_text(2 * reach.1, 2, reach.1, 2),
        CensorStyle::BlurStrong.filter_text() == graph::blur_text(2 * reach.2, 2, reach.2, 2),
{
    (4, 8, 14)
}

} // verus!
