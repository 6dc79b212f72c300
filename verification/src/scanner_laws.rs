//! What the scan makes of the detector's numbers.

use vstd::prelude::*;

use crate::nudenet;
use crate::plan::DetBox;
use crate::probe::VideoInfo;
use crate::scan;
use crate::scanner;
use crate::spelling_laws;
use crate::text;

verus! {

/// What can be counted by a machine integer is itself, and anything else is the
/// one nearest to it.
pub open spec fn fits(v: int) -> bool {
    -0x8000_0000_0000_0000 <= v <= 0x7fff_ffff_ffff_ffff
}

/// A coordinate carried over to the movie's frame keeps its proportion: it is
/// the last pixel that starts no later than where the proportion puts it. It
/// runs as far to the left of the frame as to the right.
pub proof fn law_coordinates_keep_their_proportion(v: int, num: int, den: int)
    requires
        0 <= v,
        0 <= num,
        0 < den,
    ensures
        ({
            let s = scanner::scaled(v, num, den);
            &&& v * num < 0x8000_0000_0000_0000 * den ==> s * den <= v * num < (s + 1) * den
            &&& v * num >= 0x8000_0000_0000_0000 * den ==> s == 0x7fff_ffff_ffff_ffff
            &&& v * num < 0x8000_0000_0000_0000 * den ==> scanner::scaled(-v, num, den) == -s
            &&& v * num >= 0x8000_0000_0000_0000 * den ==> scanner::scaled(-v, num, den)
                == -0x8000_0000_0000_0000
        }),
{
    let q = v * num / den;
    let r = v * num % den;
    vstd::arithmetic::div_mod::lemma_fundamental_div_mod(v * num, den);
    assert(den * q == q * den) by (nonlinear_arith);
    assert((q + 1) * den == q * den + den) by (nonlinear_arith);
    let top: int = 0x8000_0000_0000_0000;
    assert(v * num >= 0) by (nonlinear_arith)
        requires
            0 <= v,
            0 <= num,
    ;
    assert(q >= 0) by (nonlinear_arith)
        requires
            q * den + r >= 0,
            r < den,
            0 < den,
    ;
    if v * num < top * den {
        assert(q < top) by (nonlinear_arith)
            requires
                q * den + r < top * den,
                r >= 0,
                0 < den,
        ;
    } else {
        assert(q >= top) by (nonlinear_arith)
            requires
                q * den + r >= top * den,
                r < den,
                0 < den,
        ;
    }
}

/// The near edge of the detector's frame lands on the near edge of the movie's,
/// the far edge on the far edge, and a frame as large as the movie's changes
/// nothing.
pub proof fn law_edges_land_on_edges(v: int, num: int, den: int)
    requires
        0 < den,
        fits(num),
        0 <= num,
        fits(v),
    ensures
        scanner::scaled(0, num, den) == 0,
        scanner::scaled(den, num, den) == num,
        scanner::scaled(v, den, den) == v,
{
    assert(0 * num == 0) by (nonlinear_arith);
    assert(0int / den == 0) by (nonlinear_arith)
        requires
            den > 0,
    ;
    vstd::arithmetic::div_mod::lemma_div_multiples_vanish(num, den);
    vstd::arithmetic::div_mod::lemma_div_multiples_vanish(v, den);
    vstd::arithmetic::div_mod::lemma_div_multiples_vanish(-v, den);
    assert(den * num == num * den && v * den == den * v && (-v) * den == den * (-v))
        by (nonlinear_arith);
}

/// A box on record is where the detection was: each of its edges is in the
/// proportion of the movie's frame to the detector's, its corners in the order
/// left, top, right, bottom, under the label of its class.
pub proof fn law_boxes_are_where_the_detections_were(
    b: DetBox,
    d: nudenet::Detection,
    info: VideoInfo,
)
    requires
        scanner::box_of(b, d, info),
        0 <= d.x,
        0 <= d.y,
        0 <= d.w,
        0 <= d.h,
        0 < info.width,
        0 < info.height,
    ensures
        ({
            let (dw, dh) = scanner::detect_dims(info.width as int, info.height as int);
            let (w, h) = (info.width as int, info.height as int);
            &&& dw > 0 && dh > 0
            &&& d.x + d.w <= dw ==> b.bounds@[0] * dw <= d.x * w < (b.bounds@[0] + 1) * dw
            &&& d.x + d.w <= dw ==> b.bounds@[2] * dw <= (d.x + d.w) * w < (b.bounds@[2] + 1) * dw
            &&& d.y + d.h <= dh ==> b.bounds@[1] * dh <= d.y * h < (b.bounds@[1] + 1) * dh
            &&& d.y + d.h <= dh ==> b.bounds@[3] * dh <= (d.y + d.h) * h < (b.bounds@[3] + 1) * dh
        }),
        b.label@ == nudenet::LABELS@[d.class_id as int]@,
        2 * (b.score * nudenet::ONE - 1000 * d.score) <= nudenet::ONE,
        2 * (1000 * d.score - b.score * nudenet::ONE) <= nudenet::ONE,
{
    law_scores_are_rounded_to_the_nearest(d.score as int);
    let (dw, dh) = scanner::detect_dims(info.width as int, info.height as int);
    let (w, h) = (info.width as int, info.height as int);
    if d.x + d.w <= dw {
        lemma_inside(d.x as int, w, dw);
        lemma_inside(d.x + d.w, w, dw);
        law_coordinates_keep_their_proportion(d.x as int, w, dw);
        law_coordinates_keep_their_proportion(d.x + d.w, w, dw);
    }
    if d.y + d.h <= dh {
        lemma_inside(d.y as int, h, dh);
        lemma_inside(d.y + d.h, h, dh);
        law_coordinates_keep_their_proportion(d.y as int, h, dh);
        law_coordinates_keep_their_proportion(d.y + d.h, h, dh);
    }
}

proof fn lemma_inside(v: int, num: int, den: int)
    requires
        0 <= v <= den,
        0 < den,
        0 <= num <= i64::MAX,
    ensures
        v * num < 0x8000_0000_0000_0000 * den,
{
    let top: int = 0x8000_0000_0000_0000;
    assert(v * num < top * den) by (nonlinear_arith)
        requires
            0 <= v <= den,
            0 < den,
            0 <= num < top,
    ;
}

/// The same of a box that sticks out of the detector's frame, or starts before
/// it: every edge is carried over by itself.
pub proof fn law_edges_are_carried_over_one_by_one(
    b: DetBox,
    d: nudenet::Detection,
    info: VideoInfo,
    dw: int,
    dh: int,
)
    requires
        scanner::box_of(b, d, info),
        scanner::detect_dims(info.width as int, info.height as int) == (dw, dh),
    ensures
        b.bounds@[0] == scanner::scaled(d.x as int, info.width as int, dw),
        b.bounds@[1] == scanner::scaled(d.y as int, info.height as int, dh),
        b.bounds@[2] == scanner::scaled(d.x + d.w, info.width as int, dw),
        b.bounds@[3] == scanner::scaled(d.y + d.h, info.height as int, dh),
{
}

/// The detector's frames are even both ways, never wider than the movie or
/// 1280, and no smaller than that asks for. Their height keeps the movie's
/// aspect to within what making it even takes off.
pub proof fn law_frames_keep_the_aspect(width: int, height: int)
    requires
        1 <= width,
        0 <= height,
    ensures
        width == 1 ==> scanner::detect_dims(width, height) == (2int, 2int),
        width >= 2 ==> ({
            let (w, h) = scanner::detect_dims(width, height);
            &&& w % 2 == 0 && h % 2 == 0
            &&& w <= width && w <= 1280
            &&& w + 1 >= width || w == 1280
            &&& h >= 2
            &&& h > 2 ==> h * width <= height * w
            &&& height * w < (h + 2) * width
        }),
{
    if width == 1 {
        assert(height * 0 / 1 == 0);
    } else {
        lemma_aspect(width, height);
    }
}

proof fn lemma_aspect(width: int, height: int)
    requires
        2 <= width,
        0 <= height,
    ensures
        ({
            let (w, h) = scanner::detect_dims(width, height);
            &&& h > 2 ==> h * width <= height * w
            &&& height * w < (h + 2) * width
        }),
{
    let (w, h) = scanner::detect_dims(width, height);
    let v = height * w;
    vstd::arithmetic::div_mod::lemma_fundamental_div_mod(v, width);
    let q = v / width;
    let r = v % width;
    assert(width * q == q * width) by (nonlinear_arith);
    assert(q >= 0) by (nonlinear_arith)
        requires
            v == q * width + r,
            r < width,
            v == height * w,
            height >= 0,
            w >= 0,
            width > 0,
    ;
    assert(height * w < (h + 2) * width) by (nonlinear_arith)
        requires
            height * w == q * width + r,
            r < width,
            h + 2 >= q + 1,
            width > 0,
    ;
    if h > 2 {
        assert(h * width <= height * w) by (nonlinear_arith)
            requires
                height * w == q * width + r,
                r >= 0,
                h <= q,
                width > 0,
        ;
    }
}

/// A movie without a height has the lowest frames there are.
pub proof fn law_frames_are_never_flat(width: int, height: int)
    requires
        1 <= width,
        height <= 0,
    ensures
        scanner::detect_dims(width, height).1 == 2,
{
    let w = scanner::capped_width(width);
    let v = height * w;
    assert(v <= 0) by (nonlinear_arith)
        requires
            v == height * w,
            height <= 0,
            w >= 0,
    ;
    vstd::arithmetic::div_mod::lemma_fundamental_div_mod(v, width);
    let q = v / width;
    assert(q <= 0) by (nonlinear_arith)
        requires
            v == width * q + v % width,
            v % width >= 0,
            v <= 0,
            width >= 1,
    ;
}

/// A frame shows within half a millisecond of the time that three a second give
/// it, and the frontier is the millisecond that this time falls in.
pub proof fn law_frames_show_when_they_are_due(index: int)
    ensures
        -1 <= 3 * scanner::frame_time(index) - 1000 * index <= 1,
        3 * scanner::frontier_at(index) <= 1000 * index < 3 * (scanner::frontier_at(index) + 1),
{
}

/// A score in thousandths is the nearest there is, and of two as near the even
/// one.
pub proof fn law_scores_are_rounded_to_the_nearest(score: int)
    ensures
        ({
            let off = 2 * (scanner::score_thousandths(score) * nudenet::ONE - 1000 * score);
            &&& -nudenet::ONE <= off <= nudenet::ONE
            &&& off == nudenet::ONE || off == -nudenet::ONE ==> scanner::score_thousandths(score)
                % 2 == 0
        }),
{
}

/// The classes that are covered are these and no others.
pub proof fn law_only_explicit_classes_are_covered(label: Seq<char>)
    ensures
        nudenet::explicit(label) <==> {
            ||| label == "FEMALE_BREAST_EXPOSED"@
            ||| label == "FEMALE_GENITALIA_EXPOSED"@
            ||| label == "MALE_GENITALIA_EXPOSED"@
            ||| label == "BUTTOCKS_EXPOSED"@
            ||| label == "ANUS_EXPOSED"@
        },
{
    let all = nudenet::EXPLICIT_LABELS@;
    assert(all[0]@ == "FEMALE_BREAST_EXPOSED"@);
    assert(all[1]@ == "FEMALE_GENITALIA_EXPOSED"@);
    assert(all[2]@ == "MALE_GENITALIA_EXPOSED"@);
    assert(all[3]@ == "BUTTOCKS_EXPOSED"@);
    assert(all[4]@ == "ANUS_EXPOSED"@);
}

/// A detection goes on record exactly when its class is explicit and its score
/// is 0.35 or more, to within a ten-millionth.
pub proof fn law_weak_detections_are_not_recorded(d: nudenet::Detection)
    ensures
        nudenet::explicit(nudenet::LABELS@[d.class_id as int]@) && 10_000_000 * d.score >= 3_500_001
            * nudenet::ONE ==> scanner::on_record(d),
        10_000_000 * d.score <= 3_499_999 * nudenet::ONE ==> !scanner::on_record(d),
        !nudenet::explicit(nudenet::LABELS@[d.class_id as int]@) ==> !scanner::on_record(d),
{
}

/// What goes on record is what was found without the rest, each as often as it
/// was found and in the order it was found in.
pub proof fn law_records_keep_number_and_order(found: Seq<nudenet::Detection>)
    ensures
        scanner::recorded(found) == found.filter(
            |d: nudenet::Detection| scanner::on_record(d),
        ),
    decreases found.len(),
{
    reveal(Seq::filter);
    if found.len() > 0 {
        law_records_keep_number_and_order(found.drop_last());
    }
}

/// The pace of a scan is how many times faster than the clock it goes, in
/// thousandths, cut off. It has none while the clock has not moved.
pub proof fn law_pace_is_frontier_over_time(frontier: int, elapsed: int)
    ensures
        elapsed > 0 ==> scan::pace(frontier, elapsed) * elapsed <= 1000 * frontier < (scan::pace(
            frontier,
            elapsed,
        ) + 1) * elapsed,
        elapsed <= 0 ==> scan::pace(frontier, elapsed) == 0,
{
    let p = scan::pace(frontier, elapsed);
    if elapsed > 0 {
        vstd::arithmetic::div_mod::lemma_fundamental_div_mod(frontier * 1000, elapsed);
    }
    assert(elapsed * p == p * elapsed && (p + 1) * elapsed == p * elapsed + elapsed)
        by (nonlinear_arith);
}

/// A frame counts as found exactly when one of its detections is explicit, on
/// record, and rounds to a score of 0.55 or more.
pub proof fn law_frames_count_by_their_strongest(found: Seq<nudenet::Detection>)
    ensures
        scanner::covering(found) <==> exists|i: int|
            0 <= i < found.len() && scanner::on_record(#[trigger] found[i])
                && scanner::score_thousandths(found[i].score as int) >= 550,
{
    let list = scanner::recorded(found);
    if scanner::covering(found) {
        let k = choose|k: int|
            0 <= k < list.len() && scanner::score_thousandths((#[trigger] list[k]).score as int)
                >= scanner::THRESHOLD;
        crate::scan_laws::law_nothing_explicit_is_left_out(found, list[k]);
        assert(list.contains(list[k]));
        let i = choose|i: int| 0 <= i < found.len() && found[i] == list[k];
        assert(scanner::on_record(found[i]));
    }
    if exists|i: int|
        0 <= i < found.len() && scanner::on_record(#[trigger] found[i])
            && scanner::score_thousandths(found[i].score as int) >= 550 {
        let i = choose|i: int|
            0 <= i < found.len() && scanner::on_record(#[trigger] found[i])
                && scanner::score_thousandths(found[i].score as int) >= 550;
        crate::scan_laws::law_nothing_explicit_is_left_out(found, found[i]);
        assert(found.contains(found[i]));
        let k = choose|k: int| 0 <= k < list.len() && list[k] == found[i];
        assert(scanner::score_thousandths(list[k].score as int) >= scanner::THRESHOLD);
    }
}

/// ffmpeg is asked for three frames a second at the detector's size, width
/// before height.
pub proof fn law_samples_are_of_the_detectors_size(w: int, h: int) -> (parts: (
    Seq<char>,
    Seq<char>,
))
    ensures
        spelling_laws::spells_integer(parts.0, w),
        spelling_laws::spells_integer(parts.1, h),
        scanner::sample_filter(w, h) == "fps=3,scale="@ + parts.0 + ":"@ + parts.1,
{
    spelling_laws::lemma_spells_integer(w);
    spelling_laws::lemma_spells_integer(h);
    (text::int_text(w), text::int_text(h))
}

} // verus!
