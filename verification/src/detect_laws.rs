//! What detecting is for, in terms of pixels and of the model's numbers.

use vstd::prelude::*;
use vstd::set_lib::lemma_set_intersect_union_lens;

use crate::nudenet;
use crate::nudenet::{Answer, Detection, Region, Scored};

verus! {

// ---------------------------------------------------------------------------
// Overlap, cell by cell
// ---------------------------------------------------------------------------

/// The unit cells that lie in a rectangle, each named by its corner.
pub open spec fn cells(r: Region) -> Set<(int, int)> {
    Set::new(|c: (int, int)| r.x <= c.0 < r.x + r.w && r.y <= c.1 < r.y + r.h)
}

proof fn lemma_column(x: int, y: int, h: int)
    requires
        h >= 0,
    ensures
        cells(Region { x, y, w: 1, h }).finite(),
        cells(Region { x, y, w: 1, h }).len() == h,
    decreases h,
{
    let all = cells(Region { x, y, w: 1, h });
    if h == 0 {
        assert(all =~= Set::empty());
    } else {
        let less = cells(Region { x, y, w: 1, h: h - 1 });
        lemma_column(x, y, h - 1);
        assert(all =~= less.insert((x, y + h - 1)));
    }
}

proof fn lemma_cells(r: Region)
    requires
        r.w >= 0,
        r.h >= 0,
    ensures
        cells(r).finite(),
        cells(r).len() == r.w * r.h,
    decreases r.w,
{
    if r.w == 0 {
        assert(cells(r) =~= Set::empty());
        assert(0 * r.h == 0) by (nonlinear_arith);
    } else {
        let less = Region { w: r.w - 1, ..r };
        let column = Region { x: r.x + r.w - 1, y: r.y, w: 1, h: r.h };
        lemma_cells(less);
        lemma_column(column.x, column.y, column.h);
        assert(cells(r) =~= cells(less) + cells(column));
        assert(cells(less).intersect(cells(column)) =~= Set::empty());
        lemma_set_intersect_union_lens(cells(less), cells(column));
        assert((r.w - 1) * r.h + r.h == r.w * r.h) by (nonlinear_arith);
    }
}

/// The overlap of two rectangles is the number of cells that lie in both.
/// Rectangles that share none do not overlap, and are never too close.
pub proof fn law_overlap_counts_the_common_cells(a: Region, b: Region)
    ensures
        cells(a).intersect(cells(b)).finite(),
        nudenet::overlap(a, b) == cells(a).intersect(cells(b)).len(),
        cells(a).disjoint(cells(b)) ==> nudenet::overlap(a, b) == 0 && !nudenet::too_close(a, b),
{
    let left = if a.x >= b.x {
        a.x
    } else {
        b.x
    };
    let right = if a.x + a.w <= b.x + b.w {
        a.x + a.w
    } else {
        b.x + b.w
    };
    let top = if a.y >= b.y {
        a.y
    } else {
        b.y
    };
    let bottom = if a.y + a.h <= b.y + b.h {
        a.y + a.h
    } else {
        b.y + b.h
    };
    let both = Region {
        x: left,
        y: top,
        w: if right > left {
            right - left
        } else {
            0
        },
        h: if bottom > top {
            bottom - top
        } else {
            0
        },
    };
    lemma_cells(both);
    assert(cells(a).intersect(cells(b)) =~= cells(both));
    assert(nudenet::overlap(a, b) == both.w * both.h);
    if cells(a).disjoint(cells(b)) {
        assert(cells(a).intersect(cells(b)) =~= Set::empty());
    }
}

/// The union of two rectangles is the number of cells that lie in either, and
/// two rectangles are too close exactly when more than 45 of every hundred of
/// those lie in both.
pub proof fn law_union_counts_the_cells_of_either(a: Region, b: Region)
    requires
        a.w >= 0,
        a.h >= 0,
        b.w >= 0,
        b.h >= 0,
    ensures
        (cells(a) + cells(b)).finite(),
        nudenet::union_size(a, b) == (cells(a) + cells(b)).len(),
        nudenet::too_close(a, b) <==> 100 * cells(a).intersect(cells(b)).len() > 45 * (cells(a)
            + cells(b)).len(),
{
    lemma_cells(a);
    lemma_cells(b);
    law_overlap_counts_the_common_cells(a, b);
    lemma_set_intersect_union_lens(cells(a), cells(b));
    assert(cells(a).intersect(cells(b)).subset_of(cells(a) + cells(b)));
    vstd::set_lib::lemma_len_subset(cells(a).intersect(cells(b)), cells(a) + cells(b));
}

/// The union is what both measure without what is counted twice, whatever way
/// their sides run. Two that measure nothing together are never too close, and
/// others are when the overlap is more than 45 hundredths of the union.
pub proof fn law_the_overlap_is_counted_once(a: Region, b: Region)
    ensures
        nudenet::union_size(a, b) + nudenet::overlap(a, b) == a.w * a.h + b.w * b.h,
        nudenet::union_size(a, b) <= 0 ==> !nudenet::too_close(a, b),
        nudenet::union_size(a, b) > 0 ==> (nudenet::too_close(a, b) <==> 100 * nudenet::overlap(
            a,
            b,
        ) > 45 * nudenet::union_size(a, b)),
{
}

// ---------------------------------------------------------------------------
// Where a candidate is
// ---------------------------------------------------------------------------

/// A side of a candidate is the model's, scaled from 320 to the padded square:
/// where it lies inside the frame its middle and its length are in that
/// proportion, exactly. It starts at the point of the frame nearest to where
/// that puts it, and ends there or at the frame's far edge, whichever is first.
pub proof fn law_candidates_keep_their_proportion(mid: int, len: int, side: int, limit: int)
    requires
        limit >= 0,
    ensures
        ({
            let (s, l) = nudenet::placed_side(mid, len, side, limit);
            let unit = 640 * nudenet::ONE;
            let from = (2 * mid - len) * side;
            let long = 2 * len * side;
            let edge = limit * unit;
            &&& 0 <= s <= edge
            &&& 0 <= from <= edge ==> s == from
            &&& from < 0 ==> s == 0
            &&& from > edge ==> s == edge
            &&& s + l <= edge
            &&& l <= long
            &&& l == long || s + l == edge
            &&& 0 <= from && from + long <= edge && long >= 0 ==> 2 * s + l == 4 * mid * side && l
                * 320 * nudenet::ONE == len * side * unit
        }),
{
    let unit = 640 * nudenet::ONE;
    let (s, l) = nudenet::placed_side(mid, len, side, limit);
    assert(2 * ((2 * mid - len) * side) + 2 * len * side == 4 * mid * side) by (nonlinear_arith);
    assert((2 * len * side) * 320 * nudenet::ONE == len * side * (640 * nudenet::ONE))
        by (nonlinear_arith);
    assert(limit * unit >= 0) by (nonlinear_arith)
        requires
            limit >= 0,
            unit > 0,
    ;
}

/// A length in whole pixels is the largest that is no longer, whichever way it
/// runs.
pub proof fn law_whole_pixels_are_cut_off(v: int)
    ensures
        ({
            let n = nudenet::whole_pixels(v);
            let unit = 640 * nudenet::ONE;
            &&& v >= 0 ==> 0 <= n && n * unit <= v < (n + 1) * unit
            &&& nudenet::whole_pixels(-v) == -n
        }),
{
    let unit = 640 * nudenet::ONE;
    if v >= 0 {
        let n = nudenet::whole_pixels(v);
        assert(n * unit <= v < (n + 1) * unit);
    }
}

/// Numbers in rows one after another.
pub open spec fn flattened(rows: Seq<Seq<i64>>) -> Seq<i64>
    decreases rows.len(),
{
    if rows.len() == 0 {
        Seq::empty()
    } else {
        flattened(rows.drop_last()) + rows.last()
    }
}

proof fn lemma_flattened(rows: Seq<Seq<i64>>, n: int, row: int, i: int)
    requires
        0 <= row < rows.len(),
        0 <= i < n,
        forall|r: int| 0 <= r < rows.len() ==> (#[trigger] rows[r]).len() == n,
    ensures
        flattened(rows).len() == rows.len() * n,
        0 <= row * n,
        row * n + i < rows.len() * n,
        flattened(rows)[row * n + i] == rows[row][i],
    decreases rows.len(),
{
    let prev = rows.drop_last();
    let k = rows.len() as int;
    assert forall|r: int| 0 <= r < prev.len() implies (#[trigger] prev[r]).len() == n by {
        assert(prev[r] == rows[r]);
    }
    assert((k - 1) * n + n == k * n) by (nonlinear_arith);
    assert(0 <= row * n && row * n + i < k * n) by (nonlinear_arith)
        requires
            0 <= row < k,
            0 <= i < n,
    ;
    assert(rows[k - 1].len() == n);
    if k > 1 {
        lemma_flattened(prev, n, if row < k - 1 { row } else { 0 }, i);
    } else {
        assert(flattened(prev) =~= Seq::empty());
        assert(0 * n == 0) by (nonlinear_arith);
    }
    if row < k - 1 {
        assert(row * n + i < (k - 1) * n) by (nonlinear_arith)
            requires
                0 <= row < k - 1,
                0 <= i < n,
        ;
    }
}

/// An answer is read row by row: its first four rows are the middles and the
/// sizes of the boxes, and each further row is a class. The score of a
/// candidate is the greatest in its column among the classes, and its class the
/// first row to have it.
pub proof fn law_answers_are_read_row_by_row(
    rows: Seq<Seq<i64>>,
    n: int,
    i: int,
    width: int,
    height: int,
    c: int,
)
    requires
        rows.len() >= 5,
        0 <= i < n,
        forall|r: int| 0 <= r < rows.len() ==> (#[trigger] rows[r]).len() == n,
        0 <= c < rows.len() - 4,
    ensures
        ({
            let answer = Answer { data: flattened(rows), attrs: rows.len() as int, n };
            let found = answer.candidate(i, width, height);
            let side = if width >= height {
                width
            } else {
                height
            };
            &&& answer.whole()
            &&& 0 <= found.class_id < rows.len() - 4
            &&& found.score == rows[4 + found.class_id][i]
            &&& rows[4 + c][i] <= found.score
            &&& c < found.class_id ==> rows[4 + c][i] < found.score
            &&& (found.region.x, found.region.w) == nudenet::placed_side(
                rows[0][i] as int,
                rows[2][i] as int,
                side,
                width,
            )
            &&& (found.region.y, found.region.h) == nudenet::placed_side(
                rows[1][i] as int,
                rows[3][i] as int,
                side,
                height,
            )
        }),
{
    let answer = Answer { data: flattened(rows), attrs: rows.len() as int, n };
    lemma_flattened(rows, n, 0, i);
    lemma_flattened(rows, n, 1, i);
    lemma_flattened(rows, n, 2, i);
    lemma_flattened(rows, n, 3, i);
    lemma_flattened(rows, n, 4 + c, i);
    crate::nudenet_laws::law_candidate_is_of_its_best_class(answer, i, width, height, c);
    lemma_flattened(rows, n, 4 + answer.candidate(i, width, height).class_id, i);
}

/// A candidate takes part exactly when it scores a quarter at least.
pub proof fn law_a_quarter_is_strong_enough(score: int)
    ensures
        nudenet::strong_enough(score) <==> 4 * score >= nudenet::ONE,
{
}

/// Whether a number of whole pixels is a length cut off toward zero.
pub open spec fn cut_off(n: int, v: int) -> bool {
    let unit = 640 * nudenet::ONE;
    &&& v >= 0 ==> 0 <= n && n * unit <= v < (n + 1) * unit
    &&& v <= 0 ==> n <= 0 && (n - 1) * unit < v <= n * unit
}

/// What is reported of a candidate is its class, its score and its place in
/// whole pixels: none of its edges is off by a pixel.
pub proof fn law_reports_are_of_the_candidate(d: Detection, s: Scored)
    requires
        nudenet::reports(d, s),
    ensures
        d.class_id == s.class_id && d.score == s.score,
        cut_off(d.x as int, s.region.x),
        cut_off(d.y as int, s.region.y),
        cut_off(d.w as int, s.region.w),
        cut_off(d.h as int, s.region.h),
{
    lemma_cut_off(s.region.x);
    lemma_cut_off(s.region.y);
    lemma_cut_off(s.region.w);
    lemma_cut_off(s.region.h);
}

proof fn lemma_cut_off(v: int)
    ensures
        cut_off(nudenet::whole_pixels(v), v),
{
    law_whole_pixels_are_cut_off(v);
    law_whole_pixels_are_cut_off(-v);
}

/// A batch of one in front of an answer makes no difference, and neither do
/// numbers behind its end.
pub proof fn law_a_batch_of_one_makes_no_difference(
    batch: i64,
    attrs: i64,
    n: i64,
    data: Seq<i64>,
    width: int,
    height: int,
)
    ensures
        nudenet::answered(seq![batch, attrs, n], data, width, height) == nudenet::answered(
            seq![attrs, n],
            data,
            width,
            height,
        ),
        attrs >= 5 && n >= 0 && data.len() >= attrs * n ==> nudenet::answered(
            seq![attrs, n],
            data,
            width,
            height,
        ) == (Answer { data, attrs: attrs as int, n: n as int }).found(width, height),
        attrs < 5 || n < 0 || data.len() < attrs * n ==> nudenet::answered(
            seq![attrs, n],
            data,
            width,
            height,
        ).len() == 0,
{
}

/// An answer of any other shape is none.
pub proof fn law_other_shapes_are_no_answer(
    shape: Seq<i64>,
    data: Seq<i64>,
    width: int,
    height: int,
)
    requires
        shape.len() != 2,
        shape.len() != 3,
    ensures
        nudenet::answered(shape, data, width, height).len() == 0,
{
}

// ---------------------------------------------------------------------------
// Which candidates are kept
// ---------------------------------------------------------------------------

proof fn lemma_inserted(sorted: Seq<Scored>, c: Scored, score: int)
    requires
        forall|i: int, j: int|
            0 <= i <= j < sorted.len() ==> (#[trigger] sorted[i]).score >= (
            #[trigger] sorted[j]).score,
    ensures
        nudenet::inserted(sorted, c).filter(|s: Scored| s.score == score) == if c.score == score {
            sorted.filter(|s: Scored| s.score == score).push(c)
        } else {
            sorted.filter(|s: Scored| s.score == score)
        },
        forall|i: int, j: int|
            0 <= i <= j < nudenet::inserted(sorted, c).len() ==> (#[trigger] nudenet::inserted(
                sorted,
                c,
            )[i]).score >= (#[trigger] nudenet::inserted(sorted, c)[j]).score,
    decreases sorted.len(),
{
    reveal(Seq::filter);
    let out = nudenet::inserted(sorted, c);
    if sorted.len() == 0 || sorted.last().score >= c.score {
        assert(out.drop_last() =~= sorted);
        assert forall|i: int, j: int| 0 <= i <= j < out.len() implies (#[trigger] out[i]).score >= (
        #[trigger] out[j]).score by {
            if j == sorted.len() && i < j {
                assert(sorted[i].score >= sorted[sorted.len() - 1].score);
            }
        }
    } else {
        let less = sorted.drop_last();
        assert forall|i: int, j: int| 0 <= i <= j < less.len() implies (#[trigger] less[i]).score
            >= (#[trigger] less[j]).score by {
            assert(less[i] == sorted[i] && less[j] == sorted[j]);
        }
        lemma_inserted(less, c, score);
        let head = nudenet::inserted(less, c);
        assert(out.drop_last() =~= head);
        assert(less.len() > 0 ==> less.last().score >= sorted.last().score) by {
            if less.len() > 0 {
                assert(sorted[less.len() - 1].score >= sorted[sorted.len() - 1].score);
            }
        }
        lemma_insertion_members(less, c);
        assert forall|i: int| 0 <= i < head.len() implies (#[trigger] head[i]).score
            >= sorted.last().score by {
            if head[i] != c {
                let k = choose|k: int| 0 <= k < less.len() && less[k] == head[i];
                assert(sorted[k].score >= sorted[sorted.len() - 1].score);
            }
        }
    }
}

proof fn lemma_insertion_members(sorted: Seq<Scored>, c: Scored)
    ensures
        forall|i: int|
            0 <= i < nudenet::inserted(sorted, c).len() ==> (#[trigger] nudenet::inserted(
                sorted,
                c,
            )[i]) == c || sorted.contains(nudenet::inserted(sorted, c)[i]),
    decreases sorted.len(),
{
    let out = nudenet::inserted(sorted, c);
    if sorted.len() == 0 || sorted.last().score >= c.score {
        assert forall|i: int| 0 <= i < out.len() implies (#[trigger] out[i]) == c
            || sorted.contains(out[i]) by {
            if i < sorted.len() {
                assert(out[i] == sorted[i]);
            }
        }
    } else {
        let less = sorted.drop_last();
        let head = nudenet::inserted(less, c);
        lemma_insertion_members(less, c);
        assert forall|i: int| 0 <= i < out.len() implies (#[trigger] out[i]) == c
            || sorted.contains(out[i]) by {
            if i < head.len() {
                assert(out[i] == head[i]);
                if head[i] != c {
                    let k = choose|k: int| 0 <= k < less.len() && less[k] == head[i];
                    assert(sorted[k] == out[i]);
                }
            } else {
                assert(out[i] == sorted[sorted.len() - 1]);
            }
        }
    }
}

/// Candidates are ranked strongest first, each as often as it occurs, and those
/// that score the same in the order of the model.
pub proof fn law_equal_candidates_keep_their_order(
    answer: Answer,
    k: int,
    width: int,
    height: int,
    score: int,
)
    requires
        0 <= k,
    ensures
        ({
            let list = answer.ranked(k, width, height);
            &&& forall|i: int, j: int|
                0 <= i <= j < list.len() ==> (#[trigger] list[i]).score >= (
                #[trigger] list[j]).score
            &&& list.filter(|s: Scored| s.score == score) == Seq::new(
                k as nat,
                |i: int| answer.candidate(i, width, height),
            ).filter(|s: Scored| 4 * s.score >= nudenet::ONE && s.score == score)
        }),
    decreases k,
{
    reveal(Seq::filter);
    let all = Seq::new(k as nat, |i: int| answer.candidate(i, width, height));
    if k > 0 {
        law_equal_candidates_keep_their_order(answer, k - 1, width, height, score);
        let less = Seq::new((k - 1) as nat, |i: int| answer.candidate(i, width, height));
        let c = answer.candidate(k - 1, width, height);
        assert(all.drop_last() =~= less);
        assert(all.last() == c);
        law_a_quarter_is_strong_enough(c.score);
        lemma_inserted(answer.ranked(k - 1, width, height), c, score);
    }
}

/// Whether one of the candidates at some places comes before another and takes
/// up nearly its region.
pub open spec fn suppressed(sorted: Seq<Scored>, at: Seq<int>, k: int) -> bool {
    exists|i: int|
        0 <= i < at.len() && #[trigger] at[i] < k && nudenet::too_close(
            sorted[at[i]].region,
            sorted[k].region,
        )
}

/// A candidate is kept exactly when none that was kept before it takes up
/// nearly the same region. What is kept stays in order.
pub proof fn law_each_candidate_suppresses_later_ones(sorted: Seq<Scored>) -> (at: Seq<int>)
    ensures
        ({
            let kept = nudenet::survivors(sorted);
            &&& kept.len() == at.len()
            &&& forall|i: int|
                0 <= i < at.len() ==> 0 <= (#[trigger] at[i]) < sorted.len() && kept[i]
                    == sorted[at[i]]
            &&& forall|i: int, j: int| 0 <= i < j < at.len() ==> #[trigger] at[i] < #[trigger] at[j]
            &&& forall|i: int, j: int|
                0 <= i < j < at.len() ==> !nudenet::too_close(
                    sorted[#[trigger] at[i]].region,
                    sorted[#[trigger] at[j]].region,
                )
            &&& forall|k: int|
                0 <= k < sorted.len() && !at.contains(k) ==> #[trigger] suppressed(sorted, at, k)
        }),
    decreases sorted.len(),
{
    if sorted.len() == 0 {
        Seq::empty()
    } else {
        let less = sorted.drop_last();
        let n = sorted.len() - 1;
        let was = law_each_candidate_suppresses_later_ones(less);
        let before = nudenet::survivors(less);
        let kept = nudenet::survivors(sorted);
        let crowded = nudenet::crowded(before, sorted.last().region);
        let at = if crowded {
            was
        } else {
            was.push(n)
        };
        assert forall|i: int| 0 <= i < was.len() implies at[i] == was[i] && sorted[#[trigger] was[i]]
            == less[was[i]] && before[i] == less[was[i]] by {}
        assert forall|i: int| 0 <= i < at.len() implies 0 <= (#[trigger] at[i]) < sorted.len()
            && kept[i] == sorted[at[i]] by {
            if i < was.len() {
                assert(at[i] == was[i]);
                assert(sorted[was[i]] == less[was[i]]);
            }
        }
        assert forall|i: int, j: int| 0 <= i < j < at.len() implies #[trigger] at[i]
            < #[trigger] at[j] by {
            assert(at[i] == was[i]);
            if j < was.len() {
                assert(at[j] == was[j]);
            }
        }
        assert(kept.len() == at.len());
        assert forall|i: int, j: int| 0 <= i < j < at.len() implies !nudenet::too_close(
            sorted[#[trigger] at[i]].region,
            sorted[#[trigger] at[j]].region,
        ) by {
            assert(at[i] == was[i]);
            if j < was.len() {
                assert(at[j] == was[j]);
                assert(!nudenet::too_close(less[was[i]].region, less[was[j]].region));
            } else {
                assert(before[i] == less[was[i]]);
                assert(!nudenet::too_close(before[i].region, sorted.last().region));
            }
        }
        assert forall|k: int| 0 <= k < sorted.len() && !at.contains(k) implies #[trigger] suppressed(
            sorted,
            at,
            k,
        ) by {
            if k < n {
                assert(!was.contains(k)) by {
                    if was.contains(k) {
                        let i = choose|i: int| 0 <= i < was.len() && was[i] == k;
                        assert(at[i] == k);
                    }
                }
                assert(less[k] == sorted[k]);
                assert(suppressed(less, was, k));
                let i = choose|i: int|
                    0 <= i < was.len() && #[trigger] was[i] < k && nudenet::too_close(
                        less[was[i]].region,
                        less[k].region,
                    );
                assert(at[i] == was[i]);
            } else if crowded {
                let i = choose|i: int|
                    0 <= i < before.len() && nudenet::too_close(
                        (#[trigger] before[i]).region,
                        sorted.last().region,
                    );
                assert(at[i] == was[i]);
            } else {
                assert(at[was.len() as int] == k);
            }
        }
        at
    }
}

// ---------------------------------------------------------------------------
// What the model gets
// ---------------------------------------------------------------------------

/// The centres of the model's pixels are spread evenly over the padded square:
/// the first lies as far from the near edge as the last from the far one, and
/// each as far from the next as 320 of them fit.
pub proof fn law_model_pixels_are_spread_evenly(d: int, side: int)
    ensures
        nudenet::source_position(d, side) + nudenet::source_position(319 - d, side) == 640 * (side
            - 1),
        nudenet::source_position(d + 1, side) - nudenet::source_position(d, side) == 2 * side,
{
    assert((2 * d + 1) * side + (2 * (319 - d) + 1) * side == 640 * side) by (nonlinear_arith);
    assert((2 * (d + 1) + 1) * side - (2 * d + 1) * side == 2 * side) by (nonlinear_arith);
}

/// A position is split into a pixel and a weight that make it up again, and a
/// position outside the square is that of the nearest pixel.
pub proof fn law_positions_are_split_without_loss(f: int, side: int)
    requires
        side >= 1,
    ensures
        ({
            let (i, w) = nudenet::split_position(f, side);
            &&& 0 <= i < side
            &&& 0 <= w < 640
            &&& 0 <= f <= 640 * (side - 1) ==> 640 * i + w == f
            &&& f < 0 ==> i == 0 && w == 0
            &&& f > 640 * (side - 1) ==> i == side - 1 && w == 0
            &&& i + 1 < side ==> nudenet::next_pixel(i, side) == i + 1
            &&& i + 1 == side ==> nudenet::next_pixel(i, side) == i
        }),
{
}

/// Blending is bilinear: at a corner it is the corner, along an edge or between
/// edges it is as far on the way as the weight says, and it does not matter
/// from which end the weights are counted.
pub proof fn law_blending_is_bilinear(
    p00: int,
    p10: int,
    p01: int,
    p11: int,
    wx: int,
    wy: int,
)
    ensures
        nudenet::blend(p00, p10, p01, p11, 0, 0) == 640 * 640 * p00,
        nudenet::blend(p00, p10, p01, p11, 640, 640) == 640 * 640 * p11,
        nudenet::blend(p00, p10, p01, p11, wx, 0) == 640 * (640 * p00 + wx * (p10 - p00)),
        nudenet::blend(p00, p10, p01, p11, wx, wy) == nudenet::blend(
            p10,
            p00,
            p11,
            p01,
            640 - wx,
            wy,
        ),
        nudenet::blend(p00, p10, p01, p11, wx, wy) == nudenet::blend(
            p01,
            p11,
            p00,
            p10,
            wx,
            640 - wy,
        ),
        640 * (nudenet::blend(p00, p10, p01, p11, wx, wy) - nudenet::blend(
            p00,
            p10,
            p01,
            p11,
            wx,
            0,
        )) == wy * (nudenet::blend(p00, p10, p01, p11, wx, 640) - nudenet::blend(
            p00,
            p10,
            p01,
            p11,
            wx,
            0,
        )),
{
    assert(nudenet::blend(p00, p10, p01, p11, 0, 0) == 640 * 640 * p00) by (nonlinear_arith);
    assert(nudenet::blend(p00, p10, p01, p11, 640, 640) == 640 * 640 * p11) by (nonlinear_arith);
    assert(nudenet::blend(p00, p10, p01, p11, wx, 0) == 640 * (640 * p00 + wx * (p10 - p00)))
        by (nonlinear_arith);
    assert(nudenet::blend(p00, p10, p01, p11, wx, wy) == nudenet::blend(
        p10,
        p00,
        p11,
        p01,
        640 - wx,
        wy,
    )) by (nonlinear_arith);
    assert(nudenet::blend(p00, p10, p01, p11, wx, wy) == nudenet::blend(
        p01,
        p11,
        p00,
        p10,
        wx,
        640 - wy,
    )) by (nonlinear_arith);
    let top = p00 * (640 - wx) + p10 * wx;
    let bottom = p01 * (640 - wx) + p11 * wx;
    assert(640 * ((top * (640 - wy) + bottom * wy) - (top * (640 - 0) + bottom * 0)) == wy * ((top
        * (640 - 640) + bottom * 640) - (top * (640 - 0) + bottom * 0))) by (nonlinear_arith);
}

/// A pixel of a frame: blue, green and red.
pub struct Pixel {
    pub blue: u8,
    pub green: u8,
    pub red: u8,
}

/// The bytes of a row of pixels, one pixel after another.
pub open spec fn row_bytes(row: Seq<Pixel>) -> Seq<u8>
    decreases row.len(),
{
    if row.len() == 0 {
        Seq::empty()
    } else {
        row_bytes(row.drop_last()) + seq![row.last().blue, row.last().green, row.last().red]
    }
}

/// The bytes of a frame, one row after another.
pub open spec fn frame_bytes(rows: Seq<Seq<Pixel>>) -> Seq<u8>
    decreases rows.len(),
{
    if rows.len() == 0 {
        Seq::empty()
    } else {
        frame_bytes(rows.drop_last()) + row_bytes(rows.last())
    }
}

proof fn lemma_row_len(row: Seq<Pixel>)
    ensures
        row_bytes(row).len() == 3 * row.len(),
    decreases row.len(),
{
    if row.len() > 0 {
        lemma_row_len(row.drop_last());
    }
}

proof fn lemma_row_bytes(row: Seq<Pixel>, x: int)
    requires
        0 <= x < row.len(),
    ensures
        row_bytes(row).len() == 3 * row.len(),
        row_bytes(row)[3 * x] == row[x].blue,
        row_bytes(row)[3 * x + 1] == row[x].green,
        row_bytes(row)[3 * x + 2] == row[x].red,
    decreases row.len(),
{
    let prev = row.drop_last();
    lemma_row_len(prev);
    lemma_row_len(row);
    if x < prev.len() {
        lemma_row_bytes(prev, x);
        assert(prev[x] == row[x]);
    }
}

proof fn lemma_frame_len(rows: Seq<Seq<Pixel>>, width: int)
    requires
        forall|r: int| 0 <= r < rows.len() ==> (#[trigger] rows[r]).len() == width,
    ensures
        frame_bytes(rows).len() == 3 * (rows.len() * width),
    decreases rows.len(),
{
    let k = rows.len() as int;
    if k > 0 {
        let prev = rows.drop_last();
        assert forall|r: int| 0 <= r < prev.len() implies (#[trigger] prev[r]).len() == width by {
            assert(prev[r] == rows[r]);
        }
        lemma_frame_len(prev, width);
        lemma_row_len(rows[k - 1]);
        assert((k - 1) * width + width == k * width) by (nonlinear_arith);
    } else {
        assert(0 * width == 0) by (nonlinear_arith);
    }
}

proof fn lemma_frame_bytes(rows: Seq<Seq<Pixel>>, width: int, x: int, y: int)
    requires
        0 <= y < rows.len(),
        0 <= x < width,
        forall|r: int| 0 <= r < rows.len() ==> (#[trigger] rows[r]).len() == width,
    ensures
        frame_bytes(rows)[(y * width + x) * 3] == rows[y][x].blue,
        frame_bytes(rows)[(y * width + x) * 3 + 1] == rows[y][x].green,
        frame_bytes(rows)[(y * width + x) * 3 + 2] == rows[y][x].red,
    decreases rows.len(),
{
    let prev = rows.drop_last();
    let k = rows.len() as int;
    assert forall|r: int| 0 <= r < prev.len() implies (#[trigger] prev[r]).len() == width by {
        assert(prev[r] == rows[r]);
    }
    lemma_frame_len(prev, width);
    lemma_row_bytes(rows[k - 1], if y == k - 1 { x } else { 0 });
    assert(0 <= y * width) by (nonlinear_arith)
        requires
            0 <= y,
            0 <= width,
    ;
    if y < k - 1 {
        lemma_frame_bytes(prev, width, x, y);
        assert(prev[y] == rows[y]);
        assert(y * width + x < (k - 1) * width) by (nonlinear_arith)
            requires
                0 <= y < k - 1,
                0 <= x < width,
        ;
    }
}

/// A pixel of a frame is the one in its row and column, blue, green and red in
/// this order, and everything below or to the right of the frame is black.
pub proof fn law_pixels_are_read_where_they_are(
    rows: Seq<Seq<Pixel>>,
    width: int,
    x: int,
    y: int,
    c: int,
)
    requires
        0 <= x,
        0 <= y,
        forall|r: int| 0 <= r < rows.len() ==> (#[trigger] rows[r]).len() == width,
    ensures
        ({
            let height = rows.len() as int;
            &&& x < width && y < height ==> nudenet::channel(
                frame_bytes(rows),
                width,
                height,
                x,
                y,
                0,
            ) == rows[y][x].blue
            &&& x < width && y < height ==> nudenet::channel(
                frame_bytes(rows),
                width,
                height,
                x,
                y,
                1,
            ) == rows[y][x].green
            &&& x < width && y < height ==> nudenet::channel(
                frame_bytes(rows),
                width,
                height,
                x,
                y,
                2,
            ) == rows[y][x].red
            &&& x >= width || y >= height ==> nudenet::channel(
                frame_bytes(rows),
                width,
                height,
                x,
                y,
                c,
            ) == 0
        }),
{
    if x < width && y < rows.len() {
        lemma_frame_bytes(rows, width, x, y);
    }
}

/// Whether a position lies so many 640ths behind a pixel: itself, or that of the
/// nearest pixel where it lies outside the padded square.
pub open spec fn falls_on(f: int, side: int, x: int, w: int) -> bool {
    &&& 0 <= x < side
    &&& 0 <= w < 640
    &&& 640 * x + w == if f < 0 {
        0
    } else if f > 640 * (side - 1) {
        640 * (side - 1)
    } else {
        f
    }
}

/// What the model gets of a pixel is a blend of the four pixels around where
/// its centre falls on the padded square, as far as that goes: across by its
/// column and down by its row.
pub proof fn law_model_pixels_blend_their_surroundings(
    bgr: Seq<u8>,
    width: int,
    height: int,
    c: int,
    dx: int,
    dy: int,
    side: int,
    x: int,
    wx: int,
    y: int,
    wy: int,
)
    requires
        side >= 1,
        side == width || side == height,
        width <= side,
        height <= side,
        falls_on((2 * dx + 1) * side - 320, side, x, wx),
        falls_on((2 * dy + 1) * side - 320, side, y, wy),
    ensures
        ({
            let right = if x < side - 1 {
                x + 1
            } else {
                x
            };
            let down = if y < side - 1 {
                y + 1
            } else {
                y
            };
            nudenet::input_value(bgr, width, height, c, dx, dy) == nudenet::blend(
                nudenet::channel(bgr, width, height, x, y, c),
                nudenet::channel(bgr, width, height, right, y, c),
                nudenet::channel(bgr, width, height, x, down, c),
                nudenet::channel(bgr, width, height, right, down, c),
                wx,
                wy,
            )
        }),
{
    law_positions_are_split_without_loss((2 * dx + 1) * side - 320, side);
    law_positions_are_split_without_loss((2 * dy + 1) * side - 320, side);
}

} // verus!
