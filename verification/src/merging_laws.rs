//! What holds however far windows are merged.

use vstd::prelude::*;

use crate::merging;
use crate::merging::Tagged;
use crate::window;
use crate::window::WindowView;
use crate::window_laws;

verus! {

/// Whether a window covers all that another does: all its time, and all its
/// picture.
pub open spec fn engulfs(outer: WindowView, inner: WindowView) -> bool {
    &&& outer.start <= inner.start
    &&& inner.end <= outer.end
    &&& window_laws::inside(inner, outer)
}

/// Whether every window of one list has one in another that engulfs it.
#[verifier::opaque]
pub open spec fn replaces(coarse: Seq<Tagged>, fine: Seq<Tagged>) -> bool {
    forall|i: int| 0 <= i < fine.len() ==> has_over(coarse, (#[trigger] fine[i]).w)
}

/// Whether a list has a window that engulfs another window.
pub open spec fn has_over(coarse: Seq<Tagged>, w: WindowView) -> bool {
    exists|k: int| 0 <= k < coarse.len() && engulfs((#[trigger] coarse[k]).w, w)
}

/// Whether a list has a window of a run that engulfs another window.
pub open spec fn has_over_in(coarse: Seq<Tagged>, run: int, w: WindowView) -> bool {
    exists|k: int|
        0 <= k < coarse.len() && (#[trigger] coarse[k]).run == run && engulfs(coarse[k].w, w)
}

/// Whether a list has a window of a run that shows at a moment and stays
/// inside another window.
pub open spec fn has_under_in(base: Seq<Tagged>, run: int, t: int, w: WindowView) -> bool {
    exists|b: int|
        0 <= b < base.len() && (#[trigger] base[b]).run == run && base[b].w.contains(t)
            && window_laws::inside(base[b].w, w)
}

/// Windows by run, those of one run following one another without a gap.
pub open spec fn orderly(list: Seq<Tagged>) -> bool {
    &&& forall|i: int|
        0 <= i < list.len() ==> (#[trigger] list[i]).w.start < list[i].w.end
    &&& forall|i: int|
        0 < i < list.len() ==> list[i - 1].run <= (#[trigger] list[i]).run && (list[i - 1].run
            == list[i].run ==> list[i - 1].w.end == list[i].w.start)
}

/// Every run has just one window.
pub open spec fn one_each(list: Seq<Tagged>) -> bool {
    forall|i: int, j: int|
        0 <= i < j < list.len() ==> (#[trigger] list[i]).run < (#[trigger] list[j]).run
}

/// Whether windows stand for shorter ones, run by run: each shows only when one
/// of those does, and covers it.
pub open spec fn faithful(list: Seq<Tagged>, base: Seq<Tagged>) -> bool {
    &&& forall|k: int, t: int|
        0 <= k < list.len() && #[trigger] list[k].w.contains(t) ==> has_under_in(
            base,
            list[k].run,
            t,
            list[k].w,
        )
    &&& forall|b: int|
        0 <= b < base.len() ==> has_over_in(list, (#[trigger] base[b]).run, base[b].w)
}

/// What merging leaves: windows of the runs they came from, or one window to a
/// run at most that covers all there was.
pub open spec fn legible(list: Seq<Tagged>, base: Seq<Tagged>) -> bool {
    (orderly(list) && faithful(list, base)) || (one_each(list) && replaces(list, base))
}

// ---------------------------------------------------------------------------
// One step
// ---------------------------------------------------------------------------

proof fn lemma_replaces_itself(list: Seq<Tagged>)
    ensures
        replaces(list, list),
{
    reveal(replaces);
    assert forall|i: int| 0 <= i < list.len() implies has_over(list, (#[trigger] list[i]).w) by {
        assert(engulfs(list[i].w, list[i].w));
    }
}

proof fn lemma_replaces_further(a: Seq<Tagged>, b: Seq<Tagged>, c: Seq<Tagged>)
    requires
        replaces(a, b),
        replaces(b, c),
    ensures
        replaces(a, c),
{
    reveal(replaces);
    assert forall|i: int| 0 <= i < c.len() implies has_over(a, (#[trigger] c[i]).w) by {
        let j = choose|j: int| 0 <= j < b.len() && engulfs((#[trigger] b[j]).w, c[i].w);
        assert(has_over(a, b[j].w));
        let k = choose|k: int| 0 <= k < a.len() && engulfs((#[trigger] a[k]).w, b[j].w);
        assert(engulfs(a[k].w, c[i].w));
    }
}

proof fn lemma_joined(a: WindowView, b: WindowView)
    ensures
        engulfs(merging::joined(a, b), a),
        engulfs(merging::joined(a, b), b),
        merging::joined(a, b).start == window::imin(a.start, b.start),
        merging::joined(a, b).end == window::imax(a.end, b.end),
{
    reveal(merging::joined);
}

proof fn lemma_joined_placed(
    a: WindowView,
    b: WindowView,
    duration: int,
    width: int,
    height: int,
)
    requires
        window_laws::well_placed(a, duration),
        window_laws::well_placed(b, duration),
    ensures
        window_laws::well_placed(merging::joined(a, b), duration),
        window_laws::in_frame(a, width, height) && window_laws::in_frame(b, width, height)
            ==> window_laws::in_frame(merging::joined(a, b), width, height),
{
    reveal(merging::joined);
}

/// Where a window of a paired list comes from.
pub open spec fn comes_from(list: Seq<Tagged>, w: Tagged, i: int) -> bool {
    ||| 0 <= i < list.len() && w == list[i]
    ||| 0 <= i < list.len() - 1 && list[i].run == list[i + 1].run && w == (Tagged {
        run: list[i].run,
        w: merging::joined(list[i].w, list[i + 1].w),
    })
}

proof fn lemma_paired(list: Seq<Tagged>)
    ensures
        merging::paired(list).len() <= list.len(),
        list.len() > 0 ==> merging::paired(list).len() > 0 && merging::paired(list)[0].run
            == list[0].run,
    decreases list.len(),
{
    if list.len() >= 2 {
        lemma_paired(list.skip(2));
        lemma_paired(list.skip(1));
    }
}

proof fn lemma_paired_source(list: Seq<Tagged>, k: int) -> (i: int)
    requires
        0 <= k < merging::paired(list).len(),
    ensures
        comes_from(list, merging::paired(list)[k], i),
    decreases list.len(),
{
    if list.len() < 2 {
        k
    } else if k == 0 {
        0
    } else {
        let n = if list[0].run == list[1].run {
            2int
        } else {
            1int
        };
        let rest = list.skip(n);
        assert(merging::paired(list)[k] == merging::paired(rest)[k - 1]);
        let i = lemma_paired_source(rest, k - 1);
        assert(rest[i] == list[i + n]);
        if i + 1 < rest.len() {
            assert(rest[i + 1] == list[i + n + 1]);
        }
        i + n
    }
}

proof fn lemma_paired_over(list: Seq<Tagged>, i: int) -> (k: int)
    requires
        0 <= i < list.len(),
    ensures
        0 <= k < merging::paired(list).len(),
        merging::paired(list)[k].run == list[i].run,
        engulfs(merging::paired(list)[k].w, list[i].w),
    decreases list.len(),
{
    if list.len() < 2 {
        i
    } else {
        let n = if list[0].run == list[1].run {
            2int
        } else {
            1int
        };
        lemma_joined(list[0].w, list[1].w);
        if i < n {
            0
        } else {
            let rest = list.skip(n);
            assert(rest[i - n] == list[i]);
            let k = lemma_paired_over(rest, i - n);
            assert(merging::paired(list)[k + 1] == merging::paired(rest)[k]);
            k + 1
        }
    }
}

proof fn lemma_paired_replaces(list: Seq<Tagged>)
    ensures
        replaces(merging::paired(list), list),
{
    reveal(replaces);
    let all = merging::paired(list);
    assert forall|i: int| 0 <= i < list.len() implies has_over(all, (#[trigger] list[i]).w) by {
        let k = lemma_paired_over(list, i);
        assert(engulfs(all[k].w, list[i].w));
    }
}

proof fn lemma_paired_orderly(list: Seq<Tagged>)
    requires
        orderly(list),
    ensures
        orderly(merging::paired(list)),
        list.len() > 0 ==> merging::paired(list)[0].w.start == list[0].w.start,
    decreases list.len(),
{
    if list.len() >= 2 {
        let all = merging::paired(list);
        let n = if list[0].run == list[1].run {
            2int
        } else {
            1int
        };
        let rest = list.skip(n);
        let tail = merging::paired(rest);
        assert(list[1].run >= list[0].run);
        assert forall|i: int| 0 <= i < rest.len() implies (#[trigger] rest[i]).w.start
            < rest[i].w.end by {
            assert(rest[i] == list[i + n]);
        }
        assert forall|i: int| 0 < i < rest.len() implies rest[i - 1].run <= (#[trigger] rest[i]).run
            && (rest[i - 1].run == rest[i].run ==> rest[i - 1].w.end == rest[i].w.start) by {
            assert(rest[i] == list[i + n] && rest[i - 1] == list[i + n - 1]);
        }
        lemma_paired_orderly(rest);
        lemma_paired(rest);
        lemma_joined(list[0].w, list[1].w);
        assert(list[0].w.start < list[0].w.end && list[1].w.start < list[1].w.end);
        assert forall|i: int| 0 <= i < all.len() implies (#[trigger] all[i]).w.start
            < all[i].w.end by {
            if i > 0 {
                assert(all[i] == tail[i - 1]);
            }
        }
        assert forall|i: int| 0 < i < all.len() implies all[i - 1].run <= (#[trigger] all[i]).run && (
        all[i - 1].run == all[i].run ==> all[i - 1].w.end == all[i].w.start) by {
            assert(all[i] == tail[i - 1]);
            if i > 1 {
                assert(all[i - 1] == tail[i - 2]);
                assert(tail[i - 2].run <= tail[i - 1].run);
            } else {
                assert(rest.len() > 0);
                assert(rest[0] == list[n]);
                assert(list[n - 1].run <= list[n].run);
            }
        }
    }
}

/// Nothing is left to pair once every run is one window.
proof fn lemma_unpaired(list: Seq<Tagged>)
    requires
        orderly(list),
        merging::paired(list).len() >= list.len(),
    ensures
        one_each(list),
    decreases list.len(),
{
    if list.len() >= 2 {
        if list[0].run == list[1].run {
            lemma_paired(list.skip(2));
        } else {
            let rest = list.skip(1);
            assert forall|i: int| 0 <= i < rest.len() implies (#[trigger] rest[i]).w.start
                < rest[i].w.end by {
                assert(rest[i] == list[i + 1]);
            }
            assert forall|i: int| 0 < i < rest.len() implies rest[i - 1].run <= (
            #[trigger] rest[i]).run && (rest[i - 1].run == rest[i].run ==> rest[i - 1].w.end
                == rest[i].w.start) by {
                assert(rest[i] == list[i + 1] && rest[i - 1] == list[i]);
            }
            lemma_unpaired(rest);
            assert(list[0].run < list[1].run);
            assert forall|i: int, j: int| 0 <= i < j < list.len() implies (#[trigger] list[i]).run
                < (#[trigger] list[j]).run by {
                assert(list[j] == rest[j - 1]);
                if i > 0 {
                    assert(list[i] == rest[i - 1]);
                } else if j > 1 {
                    assert(rest[0].run < rest[j - 1].run);
                    assert(rest[0] == list[1]);
                }
            }
        }
    }
}

proof fn lemma_paired_faithful(list: Seq<Tagged>, base: Seq<Tagged>)
    requires
        orderly(list),
        faithful(list, base),
    ensures
        faithful(merging::paired(list), base),
{
    let all = merging::paired(list);
    assert forall|k: int, t: int|
        0 <= k < all.len() && #[trigger] all[k].w.contains(t) implies has_under_in(
        base,
        all[k].run,
        t,
        all[k].w,
    ) by {
        let i = lemma_paired_source(list, k);
        if 0 <= i < list.len() && all[k] == list[i] {
            assert(list[i].w.contains(t));
        } else {
            lemma_joined(list[i].w, list[i + 1].w);
            assert(list[i].w.end == list[i + 1].w.start);
            let m = if t <= list[i].w.end && list[i].w.start <= t {
                i
            } else {
                i + 1
            };
            assert(list[i].w.start < list[i].w.end && list[i + 1].w.start < list[i + 1].w.end);
            assert(list[m].w.contains(t));
            assert(has_under_in(base, list[m].run, t, list[m].w));
            let b = choose|b: int|
                0 <= b < base.len() && (#[trigger] base[b]).run == list[m].run
                    && base[b].w.contains(t) && window_laws::inside(base[b].w, list[m].w);
            assert(base[b].run == all[k].run);
            assert(window_laws::inside(base[b].w, all[k].w));
        }
    }
    assert forall|b: int| 0 <= b < base.len() implies has_over_in(
        all,
        (#[trigger] base[b]).run,
        base[b].w,
    ) by {
        assert(has_over_in(list, base[b].run, base[b].w));
        let i = choose|i: int|
            0 <= i < list.len() && (#[trigger] list[i]).run == base[b].run && engulfs(
                list[i].w,
                base[b].w,
            );
        let k = lemma_paired_over(list, i);
        assert(engulfs(all[k].w, base[b].w));
    }
}

proof fn lemma_bridged_over(list: Seq<Tagged>, slack: int, i: int) -> (k: int)
    requires
        0 <= i < list.len(),
    ensures
        0 <= k < merging::bridged(list, slack).len(),
        engulfs(merging::bridged(list, slack)[k].w, list[i].w),
    decreases list.len(),
{
    let prev = list.drop_last();
    let before = merging::bridged(prev, slack);
    let all = merging::bridged(list, slack);
    if before.len() > 0 {
        lemma_joined(before.last().w, list.last().w);
    }
    if i < prev.len() {
        assert(prev[i] == list[i]);
        let k = lemma_bridged_over(prev, slack, i);
        assert(k < before.len());
        if k == before.len() - 1 && all.len() == before.len() {
            assert(engulfs(all[k].w, before[k].w));
        } else {
            assert(all[k] == before[k]);
        }
        k
    } else {
        all.len() - 1
    }
}

proof fn lemma_bridged_source(list: Seq<Tagged>, slack: int, k: int) -> (i: int)
    requires
        0 <= k < merging::bridged(list, slack).len(),
    ensures
        0 <= i < list.len(),
        list[i].run == merging::bridged(list, slack)[k].run,
    decreases list.len(),
{
    let prev = list.drop_last();
    let before = merging::bridged(prev, slack);
    if k < before.len() {
        lemma_bridged_source(prev, slack, k)
    } else {
        list.len() - 1
    }
}

proof fn lemma_bridged_one_each(list: Seq<Tagged>, slack: int)
    requires
        one_each(list),
    ensures
        one_each(merging::bridged(list, slack)),
    decreases list.len(),
{
    if list.len() > 0 {
        let prev = list.drop_last();
        let before = merging::bridged(prev, slack);
        let all = merging::bridged(list, slack);
        assert forall|i: int, j: int| 0 <= i < j < prev.len() implies (#[trigger] prev[i]).run < (
        #[trigger] prev[j]).run by {
            assert(prev[i] == list[i] && prev[j] == list[j]);
        }
        lemma_bridged_one_each(prev, slack);
        assert forall|i: int, j: int| 0 <= i < j < all.len() implies (#[trigger] all[i]).run < (
        #[trigger] all[j]).run by {
            assert(all[i].run == before[i].run);
            if j < before.len() {
                assert(all[j].run == before[j].run);
            } else {
                let m = lemma_bridged_source(prev, slack, i);
                assert(list[m].run < list[list.len() - 1].run);
            }
        }
    }
}

proof fn lemma_bridged(list: Seq<Tagged>, slack: int)
    ensures
        replaces(merging::bridged(list, slack), list),
{
    reveal(replaces);
    let all = merging::bridged(list, slack);
    assert forall|i: int| 0 <= i < list.len() implies has_over(all, (#[trigger] list[i]).w) by {
        let k = lemma_bridged_over(list, slack, i);
        assert(engulfs(all[k].w, list[i].w));
    }
}

/// Over a gap longer than the movie everything is bridged.
proof fn lemma_bridged_whole(list: Seq<Tagged>, slack: int, duration: int)
    requires
        slack > duration,
        forall|i: int|
            0 <= i < list.len() ==> 0 <= (#[trigger] list[i]).w.start <= duration && 0
                <= list[i].w.end,
    ensures
        merging::bridged(list, slack).len() <= 1,
        list.len() > 0 ==> merging::bridged(list, slack).len() == 1 && merging::bridged(
            list,
            slack,
        )[0].w.end >= 0,
    decreases list.len(),
{
    if list.len() > 0 {
        let prev = list.drop_last();
        assert forall|i: int| 0 <= i < prev.len() implies 0 <= (#[trigger] prev[i]).w.start
            <= duration && 0 <= prev[i].w.end by {
            assert(prev[i] == list[i]);
        }
        lemma_bridged_whole(prev, slack, duration);
        assert(list.last() == list[list.len() - 1]);
        let before = merging::bridged(prev, slack);
        if before.len() > 0 {
            lemma_joined(before.last().w, list.last().w);
        }
    }
}

// ---------------------------------------------------------------------------
// Placement
// ---------------------------------------------------------------------------

/// Windows that all stand on even pixels and span some of the movie.
pub open spec fn all_well_placed(list: Seq<Tagged>, duration: int) -> bool {
    forall|i: int|
        0 <= i < list.len() ==> window_laws::well_placed((#[trigger] list[i]).w, duration)
}

/// Windows that all stay inside the frame.
pub open spec fn all_in_frame(list: Seq<Tagged>, width: int, height: int) -> bool {
    forall|i: int|
        0 <= i < list.len() ==> window_laws::in_frame((#[trigger] list[i]).w, width, height)
}

proof fn lemma_paired_placed(list: Seq<Tagged>, duration: int, width: int, height: int)
    requires
        all_well_placed(list, duration),
    ensures
        all_well_placed(merging::paired(list), duration),
        all_in_frame(list, width, height) ==> all_in_frame(merging::paired(list), width, height),
{
    let all = merging::paired(list);
    assert forall|k: int| 0 <= k < all.len() implies window_laws::well_placed(
        (#[trigger] all[k]).w,
        duration,
    ) && (all_in_frame(list, width, height) ==> window_laws::in_frame(all[k].w, width, height)) by {
        let i = lemma_paired_source(list, k);
        assert(window_laws::well_placed(list[i].w, duration));
        if !(0 <= i < list.len() && all[k] == list[i]) {
            assert(window_laws::well_placed(list[i + 1].w, duration));
            lemma_joined_placed(list[i].w, list[i + 1].w, duration, width, height);
            if all_in_frame(list, width, height) {
                assert(window_laws::in_frame(list[i].w, width, height));
                assert(window_laws::in_frame(list[i + 1].w, width, height));
            }
        }
    }
}

proof fn lemma_bridged_placed(
    list: Seq<Tagged>,
    slack: int,
    duration: int,
    width: int,
    height: int,
)
    requires
        all_well_placed(list, duration),
    ensures
        all_well_placed(merging::bridged(list, slack), duration),
        all_in_frame(list, width, height) ==> all_in_frame(
            merging::bridged(list, slack),
            width,
            height,
        ),
    decreases list.len(),
{
    if list.len() > 0 {
        let prev = list.drop_last();
        let before = merging::bridged(prev, slack);
        let all = merging::bridged(list, slack);
        assert forall|i: int| 0 <= i < prev.len() implies window_laws::well_placed(
            (#[trigger] prev[i]).w,
            duration,
        ) by {
            assert(prev[i] == list[i]);
        }
        if all_in_frame(list, width, height) {
            assert forall|i: int| 0 <= i < prev.len() implies window_laws::in_frame(
                (#[trigger] prev[i]).w,
                width,
                height,
            ) by {
                assert(prev[i] == list[i]);
            }
        }
        lemma_bridged_placed(prev, slack, duration, width, height);
        let last = list[list.len() - 1];
        assert(window_laws::well_placed(last.w, duration));
        if before.len() > 0 {
            assert(window_laws::well_placed(before[before.len() - 1].w, duration));
            lemma_joined_placed(before.last().w, last.w, duration, width, height);
        }
        assert forall|k: int| 0 <= k < all.len() implies window_laws::well_placed(
            (#[trigger] all[k]).w,
            duration,
        ) by {
            if k < before.len() {
                assert(window_laws::well_placed(before[k].w, duration));
            }
        }
        if all_in_frame(list, width, height) {
            assert(window_laws::in_frame(last.w, width, height));
            if before.len() > 0 {
                assert(window_laws::in_frame(before[before.len() - 1].w, width, height));
            }
            assert forall|k: int| 0 <= k < all.len() implies window_laws::in_frame(
                (#[trigger] all[k]).w,
                width,
                height,
            ) by {
                if k < before.len() {
                    assert(window_laws::in_frame(before[k].w, width, height));
                }
            }
        }
    }
}

// ---------------------------------------------------------------------------
// To the end
// ---------------------------------------------------------------------------

proof fn lemma_settled_pairs(list: Seq<Tagged>, base: Seq<Tagged>, cap: int)
    requires
        orderly(list),
        faithful(list, base),
    ensures
        orderly(merging::settled_pairs(list, cap)),
        faithful(merging::settled_pairs(list, cap), base),
        merging::settled_pairs(list, cap).len() <= cap || one_each(
            merging::settled_pairs(list, cap),
        ),
    decreases list.len(),
{
    if list.len() > cap {
        if merging::paired(list).len() >= list.len() {
            lemma_unpaired(list);
        } else {
            lemma_paired_orderly(list);
            lemma_paired_faithful(list, base);
            lemma_settled_pairs(merging::paired(list), base, cap);
        }
    }
}

proof fn lemma_settled_gaps(list: Seq<Tagged>, base: Seq<Tagged>, cap: int, slack: int, duration: int)
    requires
        one_each(list),
        replaces(list, base),
    ensures
        one_each(merging::settled_gaps(list, cap, slack, duration)),
        replaces(merging::settled_gaps(list, cap, slack, duration), base),
    decreases window::imax(duration - slack + 1, 0),
{
    if list.len() > window::imax(cap, 1) {
        let next = merging::bridged(list, slack);
        lemma_bridged(list, slack);
        lemma_bridged_one_each(list, slack);
        lemma_replaces_further(next, list, base);
        if !(slack < 0 || slack > duration) {
            lemma_settled_gaps(next, base, cap, 2 * slack + 1000, duration);
        }
    }
}

/// However far merging goes, it can be told what each window stands for.
pub(crate) proof fn lemma_settled_legible(base: Seq<Tagged>, cap: int, duration: int)
    requires
        orderly(base),
    ensures
        legible(merging::settled(base, cap, duration), base),
{
    reveal(replaces);
    assert forall|k: int, t: int|
        0 <= k < base.len() && #[trigger] base[k].w.contains(t) implies has_under_in(
        base,
        base[k].run,
        t,
        base[k].w,
    ) by {
        assert(window_laws::inside(base[k].w, base[k].w));
    }
    assert forall|b: int| 0 <= b < base.len() implies has_over_in(
        base,
        (#[trigger] base[b]).run,
        base[b].w,
    ) by {
        assert(engulfs(base[b].w, base[b].w));
    }
    lemma_settled_pairs(base, base, cap);
    let pairs = merging::settled_pairs(base, cap);
    if pairs.len() > window::imax(cap, 1) {
        assert forall|i: int| 0 <= i < base.len() implies has_over(pairs, (#[trigger] base[i]).w) by {
            assert(has_over_in(pairs, base[i].run, base[i].w));
            let k = choose|k: int|
                0 <= k < pairs.len() && (#[trigger] pairs[k]).run == base[i].run && engulfs(
                    pairs[k].w,
                    base[i].w,
                );
            assert(engulfs(pairs[k].w, base[i].w));
        }
        lemma_settled_gaps(pairs, base, cap, 0, duration);
    }
}

proof fn lemma_pairs_replace(list: Seq<Tagged>, cap: int)
    ensures
        replaces(merging::settled_pairs(list, cap), list),
    decreases list.len(),
{
    lemma_replaces_itself(list);
    if !(list.len() <= cap || merging::paired(list).len() >= list.len()) {
        let next = merging::paired(list);
        lemma_paired_replaces(list);
        lemma_pairs_replace(next, cap);
        lemma_replaces_further(merging::settled_pairs(next, cap), next, list);
    }
}

proof fn lemma_gaps_replace(list: Seq<Tagged>, cap: int, slack: int, duration: int)
    ensures
        replaces(merging::settled_gaps(list, cap, slack, duration), list),
    decreases window::imax(duration - slack + 1, 0),
{
    lemma_replaces_itself(list);
    if list.len() > window::imax(cap, 1) {
        let next = merging::bridged(list, slack);
        lemma_bridged(list, slack);
        if !(slack < 0 || slack > duration) {
            lemma_gaps_replace(next, cap, 2 * slack + 1000, duration);
            lemma_replaces_further(
                merging::settled_gaps(next, cap, 2 * slack + 1000, duration),
                next,
                list,
            );
        }
    }
}

/// Merging leaves out nothing: every window is engulfed by one it was merged
/// into.
pub proof fn law_merging_leaves_nothing_out(list: Seq<Tagged>, cap: int, duration: int)
    ensures
        replaces(merging::settled(list, cap, duration), list),
{
    let pairs = merging::settled_pairs(list, cap);
    lemma_pairs_replace(list, cap);
    lemma_gaps_replace(pairs, cap, 0, duration);
    lemma_replaces_further(merging::settled(list, cap, duration), pairs, list);
}

proof fn lemma_gaps_harder(list: Seq<Tagged>, cap: int, lower: int, slack: int, duration: int)
    requires
        lower <= cap,
    ensures
        replaces(
            merging::settled_gaps(list, lower, slack, duration),
            merging::settled_gaps(list, cap, slack, duration),
        ),
    decreases window::imax(duration - slack + 1, 0),
{
    if list.len() <= window::imax(cap, 1) {
        lemma_gaps_replace(list, lower, slack, duration);
    } else if slack < 0 || slack > duration {
        lemma_replaces_itself(merging::bridged(list, slack));
    } else {
        lemma_gaps_harder(merging::bridged(list, slack), cap, lower, 2 * slack + 1000, duration);
    }
}

/// Merging harder covers more, never less: with a lower cap, every window is
/// engulfed by one there was not room to keep apart.
pub proof fn law_merging_harder_leaves_nothing_out(
    list: Seq<Tagged>,
    cap: int,
    lower: int,
    duration: int,
)
    requires
        lower <= cap,
    ensures
        replaces(merging::settled(list, lower, duration), merging::settled(list, cap, duration)),
    decreases list.len(),
{
    if list.len() <= cap {
        law_merging_leaves_nothing_out(list, lower, duration);
    } else if merging::paired(list).len() >= list.len() {
        lemma_gaps_harder(list, cap, lower, 0, duration);
    } else {
        law_merging_harder_leaves_nothing_out(merging::paired(list), cap, lower, duration);
    }
}

proof fn lemma_pairs_placed(list: Seq<Tagged>, cap: int, duration: int, width: int, height: int)
    requires
        all_well_placed(list, duration),
    ensures
        all_well_placed(merging::settled_pairs(list, cap), duration),
        all_in_frame(list, width, height) ==> all_in_frame(
            merging::settled_pairs(list, cap),
            width,
            height,
        ),
    decreases list.len(),
{
    if !(list.len() <= cap || merging::paired(list).len() >= list.len()) {
        lemma_paired_placed(list, duration, width, height);
        lemma_pairs_placed(merging::paired(list), cap, duration, width, height);
    }
}

proof fn lemma_gaps_placed(
    list: Seq<Tagged>,
    cap: int,
    slack: int,
    duration: int,
    width: int,
    height: int,
)
    requires
        slack >= 0,
        all_well_placed(list, duration),
    ensures
        all_well_placed(merging::settled_gaps(list, cap, slack, duration), duration),
        all_in_frame(list, width, height) ==> all_in_frame(
            merging::settled_gaps(list, cap, slack, duration),
            width,
            height,
        ),
        merging::settled_gaps(list, cap, slack, duration).len() <= window::imax(cap, 1),
    decreases window::imax(duration - slack + 1, 0),
{
    if list.len() > window::imax(cap, 1) {
        lemma_bridged_placed(list, slack, duration, width, height);
        if slack > duration {
            assert forall|i: int| 0 <= i < list.len() implies 0 <= (#[trigger] list[i]).w.start
                <= duration && 0 <= list[i].w.end by {
                assert(window_laws::well_placed(list[i].w, duration));
            }
            lemma_bridged_whole(list, slack, duration);
        } else {
            lemma_gaps_placed(
                merging::bridged(list, slack),
                cap,
                2 * slack + 1000,
                duration,
                width,
                height,
            );
        }
    }
}

/// Merging keeps windows well placed and in the frame, and brings their number
/// down to the cap, or to one.
pub proof fn law_merging_reaches_the_cap(
    list: Seq<Tagged>,
    cap: int,
    duration: int,
    width: int,
    height: int,
)
    requires
        all_well_placed(list, duration),
    ensures
        merging::settled(list, cap, duration).len() <= window::imax(cap, 1),
        all_well_placed(merging::settled(list, cap, duration), duration),
        all_in_frame(list, width, height) ==> all_in_frame(
            merging::settled(list, cap, duration),
            width,
            height,
        ),
{
    lemma_pairs_placed(list, cap, duration, width, height);
    lemma_gaps_placed(
        merging::settled_pairs(list, cap),
        cap,
        0,
        duration,
        width,
        height,
    );
}

// ---------------------------------------------------------------------------
// Sharing the box
// ---------------------------------------------------------------------------

proof fn lemma_stretched_over(list: Seq<Tagged>, k: int, n: int)
    requires
        0 <= k < list.len(),
        n <= list.len(),
    ensures
        ({
            let w = merging::stretched_over(list, k, n);
            &&& w.start == list[k].w.start
            &&& w.end == list[k].w.end
            &&& window_laws::inside(list[k].w, w)
            &&& forall|j: int|
                0 <= j < n && (#[trigger] list[j]).run != list[k].run && merging::meet(
                    list[j].w,
                    list[k].w,
                ) ==> window_laws::inside(list[j].w, w)
        }),
    decreases n,
{
    if n > 0 {
        lemma_stretched_over(list, k, n - 1);
    }
}

proof fn lemma_stretched_placed(
    list: Seq<Tagged>,
    k: int,
    n: int,
    duration: int,
    width: int,
    height: int,
)
    requires
        0 <= k < list.len(),
        n <= list.len(),
        all_well_placed(list, duration),
    ensures
        window_laws::well_placed(merging::stretched_over(list, k, n), duration),
        all_in_frame(list, width, height) ==> window_laws::in_frame(
            merging::stretched_over(list, k, n),
            width,
            height,
        ),
    decreases n,
{
    assert(window_laws::well_placed(list[k].w, duration));
    if all_in_frame(list, width, height) {
        assert(window_laws::in_frame(list[k].w, width, height));
    }
    if n > 0 {
        lemma_stretched_placed(list, k, n - 1, duration, width, height);
        assert(window_laws::well_placed(list[n - 1].w, duration));
        if all_in_frame(list, width, height) {
            assert(window_laws::in_frame(list[n - 1].w, width, height));
        }
    }
}

/// Sharing moves no window in time, takes nothing from it, and keeps it well
/// placed and in the frame.
pub proof fn law_sharing_only_adds(
    list: Seq<Tagged>,
    k: int,
    duration: int,
    width: int,
    height: int,
)
    requires
        0 <= k < list.len(),
        all_well_placed(list, duration),
    ensures
        ({
            let w = merging::shared(list)[k];
            &&& engulfs(w, list[k].w)
            &&& w.start == list[k].w.start
            &&& w.end == list[k].w.end
            &&& window_laws::well_placed(w, duration)
            &&& all_in_frame(list, width, height) ==> window_laws::in_frame(w, width, height)
        }),
{
    lemma_stretched_over(list, k, list.len() as int);
    lemma_stretched_placed(list, k, list.len() as int, duration, width, height);
}

/// Whichever window is shown, it covers what every run covers at that moment:
/// where a run has a short window open, the shown window covers one of them.
pub proof fn law_the_shown_window_covers_every_run(
    list: Seq<Tagged>,
    base: Seq<Tagged>,
    k: int,
    b: int,
    t: int,
)
    requires
        legible(list, base),
        0 <= k < list.len(),
        list[k].w.contains(t),
        0 <= b < base.len(),
        base[b].w.contains(t),
    ensures
        has_under_in(base, base[b].run, t, merging::shared(list)[k]),
{
    reveal(replaces);
    let w = merging::shared(list)[k];
    lemma_stretched_over(list, k, list.len() as int);
    if orderly(list) && faithful(list, base) {
        if list[k].run == base[b].run {
            assert(has_under_in(base, list[k].run, t, list[k].w));
            let c = choose|c: int|
                0 <= c < base.len() && (#[trigger] base[c]).run == list[k].run
                    && base[c].w.contains(t) && window_laws::inside(base[c].w, list[k].w);
            assert(window_laws::inside(base[c].w, w));
        } else {
            assert(has_over_in(list, base[b].run, base[b].w));
            let m = choose|m: int|
                0 <= m < list.len() && (#[trigger] list[m]).run == base[b].run && engulfs(
                    list[m].w,
                    base[b].w,
                );
            assert(merging::meet(list[m].w, list[k].w));
            assert(window_laws::inside(list[m].w, w));
            assert(window_laws::inside(base[b].w, w));
        }
    } else {
        assert(has_over(list, base[b].w));
        let m = choose|m: int| 0 <= m < list.len() && engulfs((#[trigger] list[m]).w, base[b].w);
        if m == k {
            assert(window_laws::inside(base[b].w, w));
        } else {
            if m < k {
                assert(list[m].run < list[k].run);
            } else {
                assert(list[k].run < list[m].run);
            }
            assert(merging::meet(list[m].w, list[k].w));
            assert(window_laws::inside(list[m].w, w));
            assert(window_laws::inside(base[b].w, w));
        }
    }
}

} // verus!
