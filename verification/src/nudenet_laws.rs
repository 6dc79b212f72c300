//! What holds of every answer of the model.

use vstd::prelude::*;

use crate::nudenet;
use crate::nudenet::{Answer, Region, Scored};

verus! {

/// No candidate is stronger than one before it.
pub open spec fn strongest_first(list: Seq<Scored>) -> bool {
    forall|i: int, j: int|
        0 <= i <= j < list.len() ==> (#[trigger] list[i]).score >= (#[trigger] list[j]).score
}

/// Whether a candidate as strong as `c` at least takes up nearly its region.
pub open spec fn outdone(list: Seq<Scored>, c: Scored) -> bool {
    exists|j: int|
        0 <= j < list.len() && (#[trigger] list[j]).score >= c.score && nudenet::too_close(
            list[j].region,
            c.region,
        )
}

proof fn lemma_inserted(sorted: Seq<Scored>, c: Scored)
    ensures
        nudenet::inserted(sorted, c).contains(c),
        forall|k: int|
            0 <= k < sorted.len() ==> nudenet::inserted(sorted, c).contains(#[trigger] sorted[k]),
        forall|k: int|
            0 <= k < nudenet::inserted(sorted, c).len() ==> (#[trigger] nudenet::inserted(
                sorted,
                c,
            )[k]) == c || sorted.contains(nudenet::inserted(sorted, c)[k]),
        strongest_first(sorted) ==> strongest_first(nudenet::inserted(sorted, c)),
    decreases sorted.len(),
{
    let all = nudenet::inserted(sorted, c);
    if sorted.len() == 0 || sorted.last().score >= c.score {
        assert(all[all.len() - 1] == c);
        assert forall|k: int| 0 <= k < sorted.len() implies all.contains(#[trigger] sorted[k]) by {
            assert(all[k] == sorted[k]);
        }
        if strongest_first(sorted) {
            assert forall|i: int, j: int| 0 <= i <= j < all.len() implies (#[trigger] all[i]).score
                >= (#[trigger] all[j]).score by {
                if j == sorted.len() && i < j {
                    assert(sorted[i].score >= sorted[sorted.len() - 1].score);
                }
            }
        }
    } else {
        let prev = sorted.drop_last();
        let head = nudenet::inserted(prev, c);
        lemma_inserted(prev, c);
        let at = choose|k: int| 0 <= k < head.len() && head[k] == c;
        assert(all[at] == c);
        assert forall|k: int| 0 <= k < sorted.len() implies all.contains(#[trigger] sorted[k]) by {
            if k < prev.len() {
                assert(prev[k] == sorted[k]);
                let m = choose|m: int| 0 <= m < head.len() && head[m] == sorted[k];
                assert(all[m] == sorted[k]);
            } else {
                assert(all[all.len() - 1] == sorted[k]);
            }
        }
        assert forall|k: int| 0 <= k < all.len() implies (#[trigger] all[k]) == c
            || sorted.contains(all[k]) by {
            if k < head.len() {
                assert(all[k] == head[k]);
                if head[k] != c {
                    let m = choose|m: int| 0 <= m < prev.len() && prev[m] == head[k];
                    assert(sorted[m] == all[k]);
                }
            } else {
                assert(all[k] == sorted[sorted.len() - 1]);
            }
        }
        if strongest_first(sorted) {
            assert(strongest_first(prev));
            assert forall|i: int, j: int| 0 <= i <= j < all.len() implies (#[trigger] all[i]).score
                >= (#[trigger] all[j]).score by {
                if j < head.len() {
                    assert(all[i] == head[i] && all[j] == head[j]);
                } else if i < head.len() {
                    assert(all[i] == head[i]);
                    if head[i] != c {
                        let m = choose|m: int| 0 <= m < prev.len() && prev[m] == head[i];
                        assert(sorted[m].score >= sorted[sorted.len() - 1].score);
                    }
                }
            }
        }
    }
}

proof fn lemma_ranked(answer: Answer, k: int, width: int, height: int)
    ensures
        strongest_first(answer.ranked(k, width, height)),
        forall|i: int|
            0 <= i < k && nudenet::strong_enough(
                (#[trigger] answer.candidate(i, width, height)).score,
            ) ==> answer.ranked(k, width, height).contains(answer.candidate(i, width, height)),
        forall|m: int|
            0 <= m < answer.ranked(k, width, height).len() ==> exists|i: int|
                0 <= i < k && (#[trigger] answer.ranked(k, width, height)[m])
                    == #[trigger] answer.candidate(i, width, height) && nudenet::strong_enough(
                    answer.candidate(i, width, height).score,
                ),
    decreases k,
{
    if k > 0 {
        lemma_ranked(answer, k - 1, width, height);
        let before = answer.ranked(k - 1, width, height);
        let all = answer.ranked(k, width, height);
        let c = answer.candidate(k - 1, width, height);
        lemma_inserted(before, c);
        assert forall|i: int|
            0 <= i < k && nudenet::strong_enough(
                (#[trigger] answer.candidate(i, width, height)).score,
            ) implies all.contains(answer.candidate(i, width, height)) by {
            if i < k - 1 {
                let x = answer.candidate(i, width, height);
                assert(before.contains(x));
                let m = choose|m: int| 0 <= m < before.len() && before[m] == x;
                if nudenet::strong_enough(c.score) {
                    assert(nudenet::inserted(before, c).contains(before[m]));
                }
            }
        }
        assert forall|m: int| 0 <= m < all.len() implies exists|i: int|
            0 <= i < k && (#[trigger] all[m]) == #[trigger] answer.candidate(i, width, height)
                && nudenet::strong_enough(answer.candidate(i, width, height).score) by {
            if nudenet::strong_enough(c.score) && all[m] == c {
                assert(all[m] == answer.candidate(k - 1, width, height));
            } else {
                assert(before.contains(all[m]));
                let q = choose|q: int| 0 <= q < before.len() && before[q] == all[m];
                let i = choose|i: int|
                    0 <= i < k - 1 && before[q] == #[trigger] answer.candidate(i, width, height)
                        && nudenet::strong_enough(answer.candidate(i, width, height).score);
                assert(all[m] == answer.candidate(i, width, height));
            }
        }
    }
}

proof fn lemma_survivors(sorted: Seq<Scored>)
    requires
        strongest_first(sorted),
    ensures
        strongest_first(nudenet::survivors(sorted)),
        forall|m: int|
            0 <= m < nudenet::survivors(sorted).len() ==> sorted.contains(
                #[trigger] nudenet::survivors(sorted)[m],
            ),
        forall|k: int|
            0 <= k < sorted.len() ==> nudenet::survivors(sorted).contains(#[trigger] sorted[k])
                || outdone(nudenet::survivors(sorted), sorted[k]),
        forall|i: int, j: int|
            0 <= i < j < nudenet::survivors(sorted).len() ==> !nudenet::too_close(
                (#[trigger] nudenet::survivors(sorted)[i]).region,
                (#[trigger] nudenet::survivors(sorted)[j]).region,
            ),
    decreases sorted.len(),
{
    if sorted.len() > 0 {
        let prev = sorted.drop_last();
        let last = sorted.last();
        let kept = nudenet::survivors(prev);
        let all = nudenet::survivors(sorted);
        lemma_survivors(prev);
        assert forall|m: int| 0 <= m < kept.len() implies sorted.contains(#[trigger] kept[m])
            && kept[m].score >= last.score by {
            let q = choose|q: int| 0 <= q < prev.len() && prev[q] == kept[m];
            assert(sorted[q] == kept[m]);
            assert(sorted[q].score >= sorted[sorted.len() - 1].score);
        }
        assert forall|m: int| 0 <= m < all.len() implies sorted.contains(#[trigger] all[m]) by {
            if m < kept.len() {
                assert(all[m] == kept[m]);
            } else {
                assert(sorted[sorted.len() - 1] == all[m]);
            }
        }
        assert forall|k: int| 0 <= k < sorted.len() implies all.contains(#[trigger] sorted[k])
            || outdone(all, sorted[k]) by {
            if k < prev.len() {
                assert(prev[k] == sorted[k]);
                if kept.contains(prev[k]) {
                    let m = choose|m: int| 0 <= m < kept.len() && kept[m] == prev[k];
                    assert(all[m] == sorted[k]);
                } else {
                    let m = choose|m: int|
                        0 <= m < kept.len() && (#[trigger] kept[m]).score >= prev[k].score
                            && nudenet::too_close(kept[m].region, prev[k].region);
                    assert(all[m] == kept[m]);
                }
            } else if nudenet::crowded(kept, last.region) {
                let m = choose|m: int|
                    0 <= m < kept.len() && nudenet::too_close(
                        (#[trigger] kept[m]).region,
                        last.region,
                    );
                assert(all[m].score >= last.score);
            } else {
                assert(all[all.len() - 1] == sorted[k]);
            }
        }
    }
}

proof fn lemma_best_class(answer: Answer, classes: int, i: int)
    requires
        classes >= 1,
    ensures
        0 <= answer.best_class(classes, i) < classes,
        forall|c: int|
            0 <= c < classes ==> (#[trigger] answer.at(4 + c, i)) <= answer.at(
                4 + answer.best_class(classes, i),
                i,
            ),
        forall|c: int|
            0 <= c < answer.best_class(classes, i) ==> (#[trigger] answer.at(4 + c, i))
                < answer.at(4 + answer.best_class(classes, i), i),
    decreases classes,
{
    if classes > 1 {
        lemma_best_class(answer, classes - 1, i);
        let best = answer.best_class(classes, i);
        assert(4 + (classes - 1) == 3 + classes);
        assert forall|c: int| 0 <= c < classes implies (#[trigger] answer.at(4 + c, i))
            <= answer.at(4 + best, i) by {
            if c == classes - 1 {
                assert(4 + c == 3 + classes);
            }
        }
    }
}

/// A candidate is of the class that scores highest on it, the first of equals.
pub proof fn law_candidate_is_of_its_best_class(
    answer: Answer,
    i: int,
    width: int,
    height: int,
    c: int,
)
    requires
        answer.whole(),
        0 <= c < answer.attrs - 4,
    ensures
        ({
            let found = answer.candidate(i, width, height);
            &&& 0 <= found.class_id < answer.attrs - 4
            &&& answer.at(4 + c, i) <= found.score
            &&& c < found.class_id ==> answer.at(4 + c, i) < found.score
        }),
{
    lemma_best_class(answer, answer.attrs - 4, i);
}

/// Nothing strong enough goes missing: a candidate is found, or another one at
/// least as strong is found that takes up nearly the same region.
pub proof fn law_no_strong_candidate_goes_missing(
    answer: Answer,
    i: int,
    width: int,
    height: int,
)
    requires
        answer.whole(),
        0 <= i < answer.n,
        nudenet::strong_enough(answer.candidate(i, width, height).score),
    ensures
        answer.found(width, height).contains(answer.candidate(i, width, height)) || outdone(
            answer.found(width, height),
            answer.candidate(i, width, height),
        ),
{
    let sorted = answer.ranked(answer.n, width, height);
    let c = answer.candidate(i, width, height);
    lemma_ranked(answer, answer.n, width, height);
    assert(sorted.contains(c));
    let k = choose|k: int| 0 <= k < sorted.len() && sorted[k] == c;
    lemma_survivors(sorted);
    assert(nudenet::survivors(sorted).contains(sorted[k]) || outdone(
        nudenet::survivors(sorted),
        sorted[k],
    ));
}

/// Everything found is a candidate that scores high enough.
pub proof fn law_only_strong_candidates_are_found(
    answer: Answer,
    m: int,
    width: int,
    height: int,
)
    requires
        answer.whole(),
        0 <= m < answer.found(width, height).len(),
    ensures
        exists|i: int|
            0 <= i < answer.n && answer.found(width, height)[m] == #[trigger] answer.candidate(
                i,
                width,
                height,
            ) && nudenet::strong_enough(answer.candidate(i, width, height).score),
{
    let sorted = answer.ranked(answer.n, width, height);
    lemma_ranked(answer, answer.n, width, height);
    lemma_survivors(sorted);
    assert(sorted.contains(answer.found(width, height)[m]));
    let k = choose|k: int| 0 <= k < sorted.len() && sorted[k] == answer.found(width, height)[m];
    let i = choose|i: int|
        0 <= i < answer.n && sorted[k] == #[trigger] answer.candidate(i, width, height)
            && nudenet::strong_enough(answer.candidate(i, width, height).score);
    assert(answer.found(width, height)[m] == answer.candidate(i, width, height));
}

/// What is found comes strongest first, and no two of it overlap too much.
pub proof fn law_found_stand_apart(answer: Answer, width: int, height: int)
    ensures
        strongest_first(answer.found(width, height)),
        forall|i: int, j: int|
            0 <= i < j < answer.found(width, height).len() ==> !nudenet::too_close(
                (#[trigger] answer.found(width, height)[i]).region,
                (#[trigger] answer.found(width, height)[j]).region,
            ),
{
    lemma_ranked(answer, answer.n, width, height);
    lemma_survivors(answer.ranked(answer.n, width, height));
}

/// A candidate starts inside the frame and does not leave it.
pub proof fn law_candidates_in_frame(answer: Answer, i: int, width: int, height: int)
    requires
        width >= 0,
        height >= 0,
    ensures
        ({
            let r = answer.candidate(i, width, height).region;
            &&& 0 <= r.x && r.x + nudenet::most(r.w, 0) <= width * nudenet::UNIT
            &&& 0 <= r.y && r.y + nudenet::most(r.h, 0) <= height * nudenet::UNIT
        }),
{
}

/// Two rectangles overlap to the same degree either way round.
pub proof fn law_overlap_is_symmetric(a: Region, b: Region)
    ensures
        nudenet::overlap(a, b) == nudenet::overlap(b, a),
        nudenet::union_size(a, b) == nudenet::union_size(b, a),
        nudenet::too_close(a, b) == nudenet::too_close(b, a),
{
}

/// A rectangle with a size overlaps itself entirely.
pub proof fn law_overlap_with_itself_is_whole(a: Region)
    requires
        a.w > 0,
        a.h > 0,
    ensures
        nudenet::overlap(a, a) == nudenet::union_size(a, a),
        nudenet::too_close(a, a),
{
    assert(a.w * a.h > 0) by (nonlinear_arith)
        requires
            a.w > 0,
            a.h > 0,
    ;
}

/// Interpolation keeps an even area as it is: where all four neighbours agree,
/// the model gets just their value.
pub proof fn law_even_areas_stay_even(p: int, wx: int, wy: int)
    ensures
        nudenet::blend(p, p, p, p, wx, wy) == p * 640 * 640,
{
    assert(p * (640 - wx) + p * wx == p * 640) by (nonlinear_arith);
    let row = p * 640;
    assert(row * (640 - wy) + row * wy == row * 640) by (nonlinear_arith);
}

} // verus!
