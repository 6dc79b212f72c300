//! How far merging goes, and no further.

use vstd::prelude::*;
use vstd::set_lib::lemma_set_intersect_union_lens;

use crate::cover_laws;
use crate::coverage;
use crate::merging;
use crate::merging::Tagged;
use crate::plan::{Detection, Plan, Source};
use crate::spans;
use crate::window;
use crate::window::{WindowParams, WindowView};

verus! {

// ---------------------------------------------------------------------------
// Joining two
// ---------------------------------------------------------------------------

/// Whether the rectangle of `w` is the smallest around those of `a` and `b`.
pub open spec fn smallest_around(w: WindowView, a: WindowView, b: WindowView) -> bool {
    &&& w.x <= a.x && w.x <= b.x && (w.x == a.x || w.x == b.x)
    &&& w.y <= a.y && w.y <= b.y && (w.y == a.y || w.y == b.y)
    &&& a.x + a.w <= w.x + w.w && b.x + b.w <= w.x + w.w
    &&& w.x + w.w == a.x + a.w || w.x + w.w == b.x + b.w
    &&& a.y + a.h <= w.y + w.h && b.y + b.h <= w.y + w.h
    &&& w.y + w.h == a.y + a.h || w.y + w.h == b.y + b.h
}

/// Two windows joined are the smallest that covers both: it starts with the
/// first and ends with the last, its edges are theirs, and its reason is the
/// stronger of the two, or the first's.
pub proof fn law_joining_takes_the_smallest(a: WindowView, b: WindowView)
    ensures
        ({
            let w = merging::joined(a, b);
            &&& smallest_around(w, a, b)
            &&& w.start <= a.start && w.start <= b.start && (w.start == a.start || w.start
                == b.start)
            &&& a.end <= w.end && b.end <= w.end && (w.end == a.end || w.end == b.end)
            &&& b.score > a.score ==> w.label == b.label && w.score == b.score && w.t == b.t
            &&& b.score <= a.score ==> w.label == a.label && w.score == a.score && w.t == a.t
        }),
{
    reveal(merging::joined);
}

// ---------------------------------------------------------------------------
// Joining in pairs
// ---------------------------------------------------------------------------

/// The windows of one run are joined first with second, third with fourth, and
/// so on; one left over stays as it is.
pub proof fn law_pairs_are_first_and_second(list: Seq<Tagged>, run: int, i: int)
    requires
        forall|k: int| 0 <= k < list.len() ==> (#[trigger] list[k]).run == run,
        0 <= i,
    ensures
        ({
            let out = merging::paired(list);
            &&& 2 * out.len() == list.len() || 2 * out.len() == list.len() + 1
            &&& i < out.len() ==> out[i].run == run
            &&& 2 * i + 1 < list.len() ==> out[i].w == merging::joined(
                list[2 * i].w,
                list[2 * i + 1].w,
            )
            &&& 2 * i + 1 == list.len() ==> out[i] == list[2 * i]
        }),
    decreases list.len(),
{
    let out = merging::paired(list);
    if list.len() >= 2 {
        assert(list[0].run == run && list[1].run == run);
        let rest = list.skip(2);
        assert forall|k: int| 0 <= k < rest.len() implies (#[trigger] rest[k]).run == run by {
            assert(rest[k] == list[k + 2]);
        }
        law_pairs_are_first_and_second(rest, run, if i > 0 { i - 1 } else { 0 });
        if i > 0 && i < out.len() {
            assert(out[i] == merging::paired(rest)[i - 1]);
        }
    }
}

/// Windows of different runs are never paired: what is paired of one run does
/// not depend on the others.
pub proof fn law_pairs_are_of_one_run(a: Seq<Tagged>, b: Seq<Tagged>)
    requires
        a.len() > 0 && b.len() > 0 ==> a.last().run != b[0].run,
    ensures
        merging::paired(a + b) == merging::paired(a) + merging::paired(b),
    decreases a.len(),
{
    let all = a + b;
    if a.len() == 0 {
        assert(all =~= b);
        assert(merging::paired(a) =~= Seq::empty());
        assert(Seq::<Tagged>::empty() + merging::paired(b) =~= merging::paired(b));
    } else if a.len() == 1 {
        if b.len() == 0 {
            assert(all =~= a);
            assert(merging::paired(a) + merging::paired(b) =~= merging::paired(a));
        } else {
            assert(all[0] == a[0] && all[1] == b[0]);
            assert(all.skip(1) =~= b);
            assert(merging::paired(all) =~= merging::paired(a) + merging::paired(b));
        }
    } else {
        assert(all[0] == a[0] && all[1] == a[1]);
        if a[0].run == a[1].run {
            assert(all.skip(2) =~= a.skip(2) + b);
            law_pairs_are_of_one_run(a.skip(2), b);
            assert(merging::paired(all) =~= merging::paired(a) + merging::paired(b));
        } else {
            assert(all.skip(1) =~= a.skip(1) + b);
            law_pairs_are_of_one_run(a.skip(1), b);
            assert(merging::paired(all) =~= merging::paired(a) + merging::paired(b));
        }
    }
}

proof fn lemma_paired_len(list: Seq<Tagged>)
    ensures
        merging::paired(list).len() <= list.len() <= 2 * merging::paired(list).len(),
        merging::paired(list).len() == list.len() ==> forall|i: int|
            0 < i < list.len() ==> list[i - 1].run != (#[trigger] list[i]).run,
    decreases list.len(),
{
    if list.len() >= 2 {
        if list[0].run == list[1].run {
            lemma_paired_len(list.skip(2));
        } else {
            let rest = list.skip(1);
            lemma_paired_len(rest);
            if merging::paired(list).len() == list.len() {
                assert forall|i: int| 0 < i < list.len() implies list[i - 1].run != (
                #[trigger] list[i]).run by {
                    if i > 1 {
                        assert(rest[i - 1] == list[i] && rest[i - 2] == list[i - 1]);
                        assert(rest[i - 2].run != rest[i - 1].run);
                    }
                }
            }
        }
    }
}

/// Pairing stops as soon as the windows are few enough: those few enough stay
/// as they are, and of more there is left over half of what there is room for.
/// It goes on until they are, or no run has two in a row.
pub proof fn law_pairing_stops_in_time(list: Seq<Tagged>, cap: int)
    ensures
        ({
            let out = merging::settled_pairs(list, cap);
            &&& list.len() <= cap ==> out == list
            &&& list.len() > cap ==> 2 * out.len() > cap
            &&& out.len() <= cap || forall|i: int|
                0 < i < out.len() ==> out[i - 1].run != (#[trigger] out[i]).run
        }),
    decreases list.len(),
{
    lemma_paired_len(list);
    if list.len() > cap && merging::paired(list).len() < list.len() {
        law_pairing_stops_in_time(merging::paired(list), cap);
    }
}

// ---------------------------------------------------------------------------
// Bridging gaps
// ---------------------------------------------------------------------------

/// Windows joined one after another.
pub open spec fn all_joined(list: Seq<Tagged>) -> WindowView
    decreases list.len(),
{
    if list.len() <= 1 {
        list[0].w
    } else {
        merging::joined(all_joined(list.drop_last()), list.last().w)
    }
}

/// Windows of which each starts within the slack of where those before it end
/// become one.
pub proof fn law_close_windows_become_one(list: Seq<Tagged>, slack: int)
    requires
        list.len() > 0,
        forall|i: int|
            0 < i < list.len() ==> (#[trigger] list[i]).w.start <= all_joined(list.take(i)).end
                + slack,
    ensures
        merging::bridged(list, slack) == seq![Tagged { run: list[0].run, w: all_joined(list) }],
    decreases list.len(),
{
    let out = merging::bridged(list, slack);
    let less = list.drop_last();
    if list.len() == 1 {
        assert(merging::bridged(less, slack) =~= Seq::empty());
        assert(out =~= seq![list[0]]);
    } else {
        assert forall|i: int| 0 < i < less.len() implies (#[trigger] less[i]).w.start
            <= all_joined(less.take(i)).end + slack by {
            assert(less[i] == list[i]);
            assert(less.take(i) =~= list.take(i));
        }
        law_close_windows_become_one(less, slack);
        let n = list.len() - 1;
        assert(list.take(n) =~= less);
        assert(list[n].w.start <= all_joined(list.take(n)).end + slack);
        assert(out =~= seq![Tagged { run: list[0].run, w: all_joined(list) }]);
    }
}

/// Windows that start further than the slack behind every end before them stay
/// apart from those: what is joined of the one part does not depend on the
/// other.
pub proof fn law_distant_windows_stay_apart(a: Seq<Tagged>, b: Seq<Tagged>, slack: int)
    requires
        forall|i: int, j: int|
            0 <= i < a.len() && 0 <= j < b.len() ==> (#[trigger] a[i]).w.end + slack < (
            #[trigger] b[j]).w.start,
    ensures
        merging::bridged(a + b, slack) == merging::bridged(a, slack) + merging::bridged(b, slack),
    decreases b.len(),
{
    let all = a + b;
    if b.len() == 0 {
        assert(all =~= a);
        assert(merging::bridged(b, slack) =~= Seq::empty());
        assert(merging::bridged(a, slack) + merging::bridged(b, slack) =~= merging::bridged(
            a,
            slack,
        ));
    } else {
        let less = b.drop_last();
        let next = b.last();
        assert forall|i: int, j: int| 0 <= i < a.len() && 0 <= j < less.len() implies (
        #[trigger] a[i]).w.end + slack < (#[trigger] less[j]).w.start by {
            assert(less[j] == b[j]);
        }
        law_distant_windows_stay_apart(a, less, slack);
        assert(all.drop_last() =~= a + less);
        assert(all.last() == next);
        let before = merging::bridged(a, slack);
        let behind = merging::bridged(less, slack);
        let both = before + behind;
        if behind.len() > 0 {
            assert(both.last() == behind.last());
            assert(merging::bridged(all, slack) =~= before + merging::bridged(b, slack));
        } else {
            assert(both =~= before);
            lemma_bridged_ends(a, slack);
            if before.len() > 0 {
                let k = choose|k: int|
                    0 <= k < a.len() && (#[trigger] a[k]).w.end == before[before.len() - 1].w.end;
                assert(a[k].w.end + slack < b[b.len() - 1].w.start);
            }
            assert(merging::bridged(all, slack) =~= before + merging::bridged(b, slack));
        }
    }
}

proof fn lemma_bridged_ends(list: Seq<Tagged>, slack: int)
    ensures
        forall|i: int|
            0 <= i < merging::bridged(list, slack).len() ==> exists|k: int|
                0 <= k < list.len() && (#[trigger] list[k]).w.end == (#[trigger] merging::bridged(
                    list,
                    slack,
                )[i]).w.end,
    decreases list.len(),
{
    if list.len() > 0 {
        let less = list.drop_last();
        let before = merging::bridged(less, slack);
        let out = merging::bridged(list, slack);
        lemma_bridged_ends(less, slack);
        let last = list.len() - 1;
        assert forall|i: int| 0 <= i < out.len() implies exists|k: int|
            0 <= k < list.len() && (#[trigger] list[k]).w.end == (#[trigger] out[i]).w.end by {
            if before.len() > 0 {
                law_joining_takes_the_smallest(before.last().w, list.last().w);
            }
            if out[i].w.end == list[last].w.end {
            } else {
                assert(i < before.len() && out[i].w.end == before[i].w.end);
                let k = choose|k: int|
                    0 <= k < less.len() && (#[trigger] less[k]).w.end == before[i].w.end;
                assert(list[k] == less[k]);
            }
        }
    }
}

/// Whether windows are others joined: these are parted into stretches that
/// follow one another, one for each, which starts where the mark says, and each
/// is what the windows of its stretch make together, under the first's run.
pub open spec fn joins(out: Seq<Tagged>, list: Seq<Tagged>, marks: Seq<int>) -> bool {
    &&& marks.len() == out.len() + 1
    &&& marks[0] == 0
    &&& marks[out.len() as int] == list.len()
    &&& forall|i: int, j: int| 0 <= i < j < marks.len() ==> #[trigger] marks[i] < #[trigger] marks[j]
    &&& forall|i: int|
        0 <= i < out.len() ==> (#[trigger] out[i]).w == all_joined(
            list.subrange(marks[i], marks[i + 1]),
        ) && out[i].run == list[marks[i]].run
}

proof fn lemma_joined_again(a: WindowView, b: WindowView, c: WindowView)
    ensures
        merging::joined(merging::joined(a, b), c) == merging::joined(a, merging::joined(b, c)),
{
    reveal(merging::joined);
}

proof fn lemma_all_joined(a: Seq<Tagged>, b: Seq<Tagged>)
    requires
        a.len() > 0,
        b.len() > 0,
    ensures
        all_joined(a + b) == merging::joined(all_joined(a), all_joined(b)),
    decreases b.len(),
{
    let all = a + b;
    assert(all.drop_last() =~= a + b.drop_last());
    assert(all.last() == b.last());
    if b.len() == 1 {
        assert(a + b.drop_last() =~= a);
        assert(b.last() == b[0]);
    } else {
        lemma_all_joined(a, b.drop_last());
        lemma_joined_again(all_joined(a), all_joined(b.drop_last()), b.last().w);
    }
}

/// Stretches of stretches are stretches.
proof fn lemma_all_joined_twice(
    mid: Seq<Tagged>,
    list: Seq<Tagged>,
    marks: Seq<int>,
    a: int,
    b: int,
)
    requires
        joins(mid, list, marks),
        0 <= a < b <= mid.len(),
    ensures
        0 <= marks[a] < marks[b] <= list.len(),
        all_joined(mid.subrange(a, b)) == all_joined(list.subrange(marks[a], marks[b])),
    decreases b - a,
{
    assert(marks[a] < marks[b]);
    assert(0 <= marks[a]) by {
        if a > 0 {
            assert(marks[0] < marks[a]);
        }
    }
    assert(marks[b] <= list.len()) by {
        if b < mid.len() {
            assert(marks[b] < marks[mid.len() as int]);
        }
    }
    let last = mid[b - 1];
    assert(last.w == all_joined(list.subrange(marks[b - 1], marks[b])));
    if b - a == 1 {
        assert(mid.subrange(a, b)[0] == last);
    } else {
        lemma_all_joined_twice(mid, list, marks, a, b - 1);
        assert(mid.subrange(a, b).drop_last() =~= mid.subrange(a, b - 1));
        assert(mid.subrange(a, b).last() == last);
        assert(marks[b - 1] < marks[b]);
        let x = list.subrange(marks[a], marks[b - 1]);
        let y = list.subrange(marks[b - 1], marks[b]);
        assert(x + y =~= list.subrange(marks[a], marks[b]));
        lemma_all_joined(x, y);
    }
}

proof fn lemma_joins_further(
    out: Seq<Tagged>,
    mid: Seq<Tagged>,
    list: Seq<Tagged>,
    outer: Seq<int>,
    inner: Seq<int>,
) -> (marks: Seq<int>)
    requires
        joins(out, mid, outer),
        joins(mid, list, inner),
    ensures
        joins(out, list, marks),
{
    assert forall|i: int| 0 <= i < outer.len() implies 0 <= #[trigger] outer[i] <= mid.len() by {
        if i > 0 {
            assert(outer[0] < outer[i]);
        }
        if i < out.len() {
            assert(outer[i] < outer[out.len() as int]);
        }
    }
    let marks = Seq::new(outer.len(), |i: int| inner[outer[i]]);
    assert forall|i: int, j: int| 0 <= i < j < marks.len() implies #[trigger] marks[i]
        < #[trigger] marks[j] by {
        assert(outer[i] < outer[j]);
        assert(inner[outer[i]] < inner[outer[j]]);
    }
    assert forall|i: int| 0 <= i < out.len() implies (#[trigger] out[i]).w == all_joined(
        list.subrange(marks[i], marks[i + 1]),
    ) && out[i].run == list[marks[i]].run by {
        assert(outer[i] < outer[i + 1]);
        lemma_all_joined_twice(mid, list, inner, outer[i], outer[i + 1]);
        assert(mid[outer[i]].run == list[inner[outer[i]]].run);
    }
    marks
}

proof fn lemma_joins_itself(list: Seq<Tagged>) -> (marks: Seq<int>)
    ensures
        joins(list, list, marks),
{
    let marks = Seq::new(list.len() + 1, |i: int| i);
    assert forall|i: int| 0 <= i < list.len() implies (#[trigger] list[i]).w == all_joined(
        list.subrange(marks[i], marks[i + 1]),
    ) by {
        assert(list.subrange(i, i + 1)[0] == list[i]);
    }
    marks
}

/// One more in front of what is joined already.
proof fn lemma_joins_behind(
    head: Tagged,
    taken: int,
    out: Seq<Tagged>,
    list: Seq<Tagged>,
    marks: Seq<int>,
) -> (all: Seq<int>)
    requires
        1 <= taken <= list.len(),
        joins(out, list.skip(taken), marks),
        head.w == all_joined(list.take(taken)),
        head.run == list[0].run,
    ensures
        joins(seq![head] + out, list, all),
{
    let both = seq![head] + out;
    let rest = list.skip(taken);
    let all = seq![0int] + Seq::new(marks.len(), |i: int| marks[i] + taken);
    assert forall|i: int| 0 <= i < marks.len() implies 0 <= #[trigger] marks[i] <= rest.len() by {
        if i > 0 {
            assert(marks[0] < marks[i]);
        }
        if i < out.len() {
            assert(marks[i] < marks[out.len() as int]);
        }
    }
    assert forall|i: int, j: int| 0 <= i < j < all.len() implies #[trigger] all[i]
        < #[trigger] all[j] by {
        assert(all[j] == marks[j - 1] + taken);
        if i > 0 {
            assert(all[i] == marks[i - 1] + taken);
            assert(marks[i - 1] < marks[j - 1]);
        }
    }
    assert forall|i: int| 0 <= i < both.len() implies (#[trigger] both[i]).w == all_joined(
        list.subrange(all[i], all[i + 1]),
    ) && both[i].run == list[all[i]].run by {
        assert(all[i + 1] == marks[i] + taken);
        if i == 0 {
            assert(list.subrange(0, taken) =~= list.take(taken));
        } else {
            assert(both[i] == out[i - 1]);
            assert(all[i] == marks[i - 1] + taken);
            assert(marks[i - 1] < marks[i]);
            assert(rest.subrange(marks[i - 1], marks[i]) =~= list.subrange(all[i], all[i + 1]));
            assert(rest[marks[i - 1]] == list[all[i]]);
        }
    }
    all
}

proof fn lemma_paired_joins(list: Seq<Tagged>) -> (marks: Seq<int>)
    ensures
        joins(merging::paired(list), list, marks),
    decreases list.len(),
{
    if list.len() < 2 {
        lemma_joins_itself(list)
    } else if list[0].run == list[1].run {
        let m = lemma_paired_joins(list.skip(2));
        let two = list.take(2);
        assert(two.drop_last() =~= seq![list[0]]);
        assert(two.last() == list[1]);
        assert(all_joined(seq![list[0]]) == list[0].w);
        let head = Tagged { run: list[0].run, w: merging::joined(list[0].w, list[1].w) };
        lemma_joins_behind(head, 2, merging::paired(list.skip(2)), list, m)
    } else {
        let m = lemma_paired_joins(list.skip(1));
        assert(list.take(1)[0] == list[0]);
        lemma_joins_behind(list[0], 1, merging::paired(list.skip(1)), list, m)
    }
}

proof fn lemma_bridged_joins(list: Seq<Tagged>, slack: int) -> (marks: Seq<int>)
    ensures
        joins(merging::bridged(list, slack), list, marks),
    decreases list.len(),
{
    if list.len() == 0 {
        seq![0int]
    } else {
        let less = list.drop_last();
        let n = less.len() as int;
        let before = merging::bridged(less, slack);
        let out = merging::bridged(list, slack);
        let was = lemma_bridged_joins(less, slack);
        let k = before.len() as int;
        assert forall|i: int| 0 <= i <= k implies 0 <= #[trigger] was[i] <= n by {
            if i > 0 {
                assert(was[0] < was[i]);
            }
            if i < k {
                assert(was[i] < was[k]);
            }
        }
        if out.len() > k {
            let marks = was.push(n + 1);
            assert forall|i: int, j: int| 0 <= i < j < marks.len() implies #[trigger] marks[i]
                < #[trigger] marks[j] by {
                assert(marks[i] == was[i]);
                if j < was.len() {
                    assert(marks[j] == was[j]);
                }
            }
            assert forall|i: int| 0 <= i < out.len() implies (#[trigger] out[i]).w == all_joined(
                list.subrange(marks[i], marks[i + 1]),
            ) && out[i].run == list[marks[i]].run by {
                if i < k {
                    assert(out[i] == before[i]);
                    assert(was[i] < was[i + 1]);
                    assert(less.subrange(was[i], was[i + 1]) =~= list.subrange(
                        marks[i],
                        marks[i + 1],
                    ));
                    assert(less[was[i]] == list[marks[i]]);
                } else {
                    assert(out[i] == list[n]);
                    assert(list.subrange(n, n + 1)[0] == list[n]);
                }
            }
            marks
        } else {
            let marks = was.update(k, n + 1);
            assert forall|i: int, j: int| 0 <= i < j < marks.len() implies #[trigger] marks[i]
                < #[trigger] marks[j] by {
                assert(marks[i] == was[i]);
                assert(was[i] < was[j]);
            }
            assert forall|i: int| 0 <= i < out.len() implies (#[trigger] out[i]).w == all_joined(
                list.subrange(marks[i], marks[i + 1]),
            ) && out[i].run == list[marks[i]].run by {
                assert(marks[i] == was[i]);
                assert(was[i] < was[i + 1]);
                assert(less[was[i]] == list[marks[i]]);
                assert(before[i].run == less[was[i]].run);
                if i < k - 1 {
                    assert(out[i] == before[i]);
                    assert(less.subrange(was[i], was[i + 1]) =~= list.subrange(
                        marks[i],
                        marks[i + 1],
                    ));
                } else {
                    let stretch = list.subrange(marks[i], n + 1);
                    assert(stretch.drop_last() =~= less.subrange(was[i], n));
                    assert(stretch.last() == list[n]);
                }
            }
            marks
        }
    }
}

proof fn lemma_settled_pairs_join(list: Seq<Tagged>, cap: int) -> (marks: Seq<int>)
    ensures
        joins(merging::settled_pairs(list, cap), list, marks),
    decreases list.len(),
{
    if list.len() <= cap || merging::paired(list).len() >= list.len() {
        lemma_joins_itself(list)
    } else {
        let pairs = merging::paired(list);
        let inner = lemma_paired_joins(list);
        let outer = lemma_settled_pairs_join(pairs, cap);
        lemma_joins_further(merging::settled_pairs(pairs, cap), pairs, list, outer, inner)
    }
}

proof fn lemma_settled_gaps_join(list: Seq<Tagged>, cap: int, slack: int, duration: int) -> (marks:
    Seq<int>)
    ensures
        joins(merging::settled_gaps(list, cap, slack, duration), list, marks),
    decreases (if duration - slack + 1 >= 0 { duration - slack + 1 } else { 0 }),
{
    if list.len() <= window::imax(cap, 1) {
        lemma_joins_itself(list)
    } else if slack < 0 || slack > duration {
        lemma_bridged_joins(list, slack)
    } else {
        let now = merging::bridged(list, slack);
        let inner = lemma_bridged_joins(list, slack);
        let outer = lemma_settled_gaps_join(now, cap, 2 * slack + 1000, duration);
        lemma_joins_further(
            merging::settled_gaps(now, cap, 2 * slack + 1000, duration),
            now,
            list,
            outer,
            inner,
        )
    }
}

/// However hard windows are merged, each that is left is made of a stretch of
/// windows that follow one another, and covers the smallest time and rectangle
/// around those and nothing more. None is left out or used twice.
pub proof fn law_merged_windows_are_made_of_neighbours(
    list: Seq<Tagged>,
    cap: int,
    duration: int,
) -> (marks: Seq<int>)
    ensures
        joins(merging::settled(list, cap, duration), list, marks),
{
    let pairs = merging::settled_pairs(list, cap);
    let inner = lemma_settled_pairs_join(list, cap);
    let outer = lemma_settled_gaps_join(pairs, cap, 0, duration);
    lemma_joins_further(merging::settled(list, cap, duration), pairs, list, outer, inner)
}

/// What windows make together: it starts with the first of them to start, ends
/// with the last to end, and each of its edges is the outermost of theirs.
pub proof fn law_what_windows_make_together(list: Seq<Tagged>)
    requires
        list.len() > 0,
    ensures
        ({
            let w = all_joined(list);
            &&& forall|i: int|
                0 <= i < list.len() ==> {
                    let v = (#[trigger] list[i]).w;
                    &&& w.start <= v.start && v.end <= w.end
                    &&& w.x <= v.x && v.x + v.w <= w.x + w.w
                    &&& w.y <= v.y && v.y + v.h <= w.y + w.h
                    &&& v.score <= w.score
                }
            &&& exists|i: int| 0 <= i < list.len() && (#[trigger] list[i]).w.start == w.start
            &&& exists|i: int| 0 <= i < list.len() && (#[trigger] list[i]).w.end == w.end
            &&& exists|i: int| 0 <= i < list.len() && (#[trigger] list[i]).w.x == w.x
            &&& exists|i: int| 0 <= i < list.len() && (#[trigger] list[i]).w.y == w.y
            &&& exists|i: int|
                0 <= i < list.len() && (#[trigger] list[i]).w.x + list[i].w.w == w.x + w.w
            &&& exists|i: int|
                0 <= i < list.len() && (#[trigger] list[i]).w.y + list[i].w.h == w.y + w.h
            &&& exists|i: int|
                0 <= i < list.len() && (#[trigger] list[i]).w.label == w.label && list[i].w.score
                    == w.score && list[i].w.t == w.t
        }),
    decreases list.len(),
{
    let w = all_joined(list);
    let n = list.len() - 1;
    if n == 0 {
        assert(list[0].w == w);
    } else {
        let less = list.drop_last();
        let v = all_joined(less);
        law_what_windows_make_together(less);
        law_joining_takes_the_smallest(v, list[n].w);
        assert forall|i: int| 0 <= i < less.len() implies (#[trigger] less[i]) == list[i] by {}
        let a = choose|i: int| 0 <= i < less.len() && (#[trigger] less[i]).w.start == v.start;
        let b = choose|i: int| 0 <= i < less.len() && (#[trigger] less[i]).w.end == v.end;
        let c = choose|i: int| 0 <= i < less.len() && (#[trigger] less[i]).w.x == v.x;
        let d = choose|i: int| 0 <= i < less.len() && (#[trigger] less[i]).w.y == v.y;
        let e = choose|i: int|
            0 <= i < less.len() && (#[trigger] less[i]).w.x + less[i].w.w == v.x + v.w;
        let f = choose|i: int|
            0 <= i < less.len() && (#[trigger] less[i]).w.y + less[i].w.h == v.y + v.h;
        let g = choose|i: int|
            0 <= i < less.len() && (#[trigger] less[i]).w.label == v.label && less[i].w.score
                == v.score && less[i].w.t == v.t;
        assert(list[a] == less[a] && list[b] == less[b] && list[c] == less[c]);
        assert(list[d] == less[d] && list[e] == less[e] && list[f] == less[f]);
        assert(list[g] == less[g]);
        assert(list[n].w == list.last().w);
        assert forall|i: int| 0 <= i < list.len() implies {
            let v = (#[trigger] list[i]).w;
            &&& w.start <= v.start && v.end <= w.end
            &&& w.x <= v.x && v.x + v.w <= w.x + w.w
            &&& w.y <= v.y && v.y + v.h <= w.y + w.h
            &&& v.score <= w.score
        } by {
            if i < n {
                assert(list[i] == less[i]);
            }
        }
    }
}

/// Windows few enough stay as they are, one and all.
pub proof fn law_few_windows_stay_as_they_are(list: Seq<Tagged>, cap: int, duration: int)
    requires
        list.len() <= cap,
    ensures
        merging::settled(list, cap, duration) == list,
{
}

/// No gap is bridged without need: where pairing does, nothing else is joined,
/// and where joining what overlaps or touches does, nothing further apart is.
pub proof fn law_no_gap_is_bridged_without_need(list: Seq<Tagged>, cap: int, duration: int)
    requires
        cap >= 1,
    ensures
        ({
            let pairs = merging::settled_pairs(list, cap);
            let close = merging::bridged(pairs, 0);
            let out = merging::settled(list, cap, duration);
            &&& pairs.len() <= cap ==> out == pairs
            &&& pairs.len() > cap && close.len() <= cap ==> out == close
        }),
{
    let pairs = merging::settled_pairs(list, cap);
    let close = merging::bridged(pairs, 0);
    if pairs.len() > cap && duration >= 0 {
        assert(merging::settled_gaps(pairs, cap, 0, duration) == merging::settled_gaps(
            close,
            cap,
            1000,
            duration,
        ));
    }
}

/// Each gap tried is over twice the one before, and none is wider than that of
/// the first number of windows that fits.
pub proof fn law_gaps_widen_until_it_fits(
    list: Seq<Tagged>,
    cap: int,
    slack: int,
    duration: int,
)
    requires
        cap >= 1,
        list.len() > cap,
        0 <= slack <= duration,
    ensures
        ({
            let now = merging::bridged(list, slack);
            let out = merging::settled_gaps(list, cap, slack, duration);
            &&& now.len() <= cap ==> out == now
            &&& now.len() > cap ==> out == merging::settled_gaps(
                now,
                cap,
                slack + slack + 1000,
                duration,
            )
        }),
{
    reveal_with_fuel(merging::settled_gaps, 2);
}

// ---------------------------------------------------------------------------
// Sharing the box
// ---------------------------------------------------------------------------

/// Whether a moment belongs to two windows.
pub open spec fn both_show(a: WindowView, b: WindowView, t: int) -> bool {
    a.start <= t <= a.end && b.start <= t <= b.end
}

/// Windows that have a length meet exactly when some moment belongs to both.
pub proof fn law_windows_meet_at_a_moment(a: WindowView, b: WindowView, t: int)
    requires
        a.start <= a.end,
        b.start <= b.end,
    ensures
        both_show(a, b, t) ==> merging::meet(a, b),
        merging::meet(a, b) ==> exists|m: int| both_show(a, b, m),
{
    if merging::meet(a, b) {
        let m = if a.start >= b.start {
            a.start
        } else {
            b.start
        };
        assert(both_show(a, b, m));
    }
}

/// Whether window `i` shows together with window `k` and is of another run, or
/// is window `k` itself.
pub open spec fn shows_with(list: Seq<Tagged>, k: int, i: int, n: int) -> bool {
    ||| i == k
    ||| 0 <= i < n && list[i].run != list[k].run && list[i].w.start <= list[k].w.end
        && list[k].w.start <= list[i].w.end
}

proof fn lemma_stretched(list: Seq<Tagged>, k: int, n: int)
    requires
        0 <= k < list.len(),
        0 <= n <= list.len(),
    ensures
        ({
            let v = list[k].w;
            let w = merging::stretched_over(list, k, n);
            &&& w.start == v.start && w.end == v.end
            &&& w.label == v.label && w.score == v.score && w.t == v.t
            &&& forall|i: int| #[trigger]
                shows_with(list, k, i, n) ==> {
                    &&& w.x <= list[i].w.x && list[i].w.x + list[i].w.w <= w.x + w.w
                    &&& w.y <= list[i].w.y && list[i].w.y + list[i].w.h <= w.y + w.h
                }
            &&& exists|i: int| #[trigger] shows_with(list, k, i, n) && w.x == list[i].w.x
            &&& exists|i: int| #[trigger] shows_with(list, k, i, n) && w.y == list[i].w.y
            &&& exists|i: int| #[trigger]
                shows_with(list, k, i, n) && w.x + w.w == list[i].w.x + list[i].w.w
            &&& exists|i: int| #[trigger]
                shows_with(list, k, i, n) && w.y + w.h == list[i].w.y + list[i].w.h
        }),
    decreases n,
{
    let w = merging::stretched_over(list, k, n);
    if n > 0 {
        lemma_stretched(list, k, n - 1);
        let o = merging::stretched_over(list, k, n - 1);
        let a = choose|i: int| #[trigger] shows_with(list, k, i, n - 1) && o.x == list[i].w.x;
        let b = choose|i: int| #[trigger] shows_with(list, k, i, n - 1) && o.y == list[i].w.y;
        let c = choose|i: int| #[trigger]
            shows_with(list, k, i, n - 1) && o.x + o.w == list[i].w.x + list[i].w.w;
        let d = choose|i: int| #[trigger]
            shows_with(list, k, i, n - 1) && o.y + o.h == list[i].w.y + list[i].w.h;
        assert(shows_with(list, k, a, n));
        assert(shows_with(list, k, b, n));
        assert(shows_with(list, k, c, n));
        assert(shows_with(list, k, d, n));
        assert(merging::meet(list[n - 1].w, list[k].w) && list[n - 1].run != list[k].run
            ==> shows_with(list, k, n - 1, n));
        assert forall|i: int| #[trigger] shows_with(list, k, i, n) implies {
            &&& w.x <= list[i].w.x && list[i].w.x + list[i].w.w <= w.x + w.w
            &&& w.y <= list[i].w.y && list[i].w.y + list[i].w.h <= w.y + w.h
        } by {
            if i != n - 1 || i == k {
                assert(shows_with(list, k, i, n - 1));
            }
        }
    } else {
        assert(shows_with(list, k, k, n));
    }
}

/// A shared window keeps its time and its reason, and covers the smallest
/// rectangle around itself and the windows of other runs that show together
/// with it: each of its edges is an edge of one of them. Where there are none
/// it is as it was.
pub proof fn law_sharing_takes_the_smallest(list: Seq<Tagged>, k: int)
    requires
        0 <= k < list.len(),
    ensures
        ({
            let n = list.len() as int;
            let v = list[k].w;
            let w = merging::shared(list)[k];
            &&& w.start == v.start && w.end == v.end
            &&& w.label == v.label && w.score == v.score && w.t == v.t
            &&& forall|i: int| #[trigger]
                shows_with(list, k, i, n) ==> {
                    &&& w.x <= list[i].w.x && list[i].w.x + list[i].w.w <= w.x + w.w
                    &&& w.y <= list[i].w.y && list[i].w.y + list[i].w.h <= w.y + w.h
                }
            &&& exists|i: int| #[trigger] shows_with(list, k, i, n) && w.x == list[i].w.x
            &&& exists|i: int| #[trigger] shows_with(list, k, i, n) && w.y == list[i].w.y
            &&& exists|i: int| #[trigger]
                shows_with(list, k, i, n) && w.x + w.w == list[i].w.x + list[i].w.w
            &&& exists|i: int| #[trigger]
                shows_with(list, k, i, n) && w.y + w.h == list[i].w.y + list[i].w.h
            &&& (forall|i: int| #[trigger] shows_with(list, k, i, n) ==> i == k) ==> w == v
        }),
{
    lemma_stretched(list, k, list.len() as int);
}

// ---------------------------------------------------------------------------
// Full-frame spans
// ---------------------------------------------------------------------------

/// Every run without a strong box is covered edge to edge, from the lead before
/// it to the hold after it as far as the movie goes, and no other run is.
pub proof fn law_boxless_runs_are_covered_edge_to_edge(
    fs: Seq<Detection>,
    rs: Seq<(int, int)>,
    k: int,
    src: Source,
    p: WindowParams,
)
    requires
        0 <= k <= rs.len(),
        forall|r: int| 0 <= r < rs.len() ==> 0 <= (#[trigger] rs[r]).0 < rs[r].1 <= fs.len(),
    ensures
        ({
            let list = coverage::boxless_of_runs(fs, rs, k, src, p);
            &&& forall|r: int|
                0 <= r < k && boxless_run(fs, rs, r, src, p) ==> list.contains(
                    #[trigger] run_span(fs, rs, r, src, p),
                )
            &&& forall|i: int|
                0 <= i < list.len() ==> exists|r: int|
                    0 <= r < k && boxless_run(fs, rs, r, src, p) && (#[trigger] list[i])
                        == #[trigger] run_span(fs, rs, r, src, p)
            &&& list.len() <= k
        }),
    decreases k,
{
    if k > 0 {
        law_boxless_runs_are_covered_edge_to_edge(fs, rs, k - 1, src, p);
        let before = coverage::boxless_of_runs(fs, rs, k - 1, src, p);
        let list = coverage::boxless_of_runs(fs, rs, k, src, p);
        let run = fs.subrange(rs[k - 1].0, rs[k - 1].1);
        assert(0 <= rs[k - 1].0 < rs[k - 1].1 <= fs.len());
        cover_laws::lemma_all_seen(run, p.threshold as int);
        assert(run.first() == fs[rs[k - 1].0]);
        assert(run.last() == fs[rs[k - 1].1 - 1]);
        let here = run_span(fs, rs, k - 1, src, p);
        assert forall|r: int| 0 <= r < k && boxless_run(fs, rs, r, src, p) implies list.contains(
            #[trigger] run_span(fs, rs, r, src, p),
        ) by {
            if r < k - 1 {
                let x = run_span(fs, rs, r, src, p);
                assert(before.contains(x));
                let j = choose|j: int| 0 <= j < before.len() && before[j] == x;
                assert(list[j] == x);
            } else {
                assert(list[list.len() - 1] == here);
            }
        }
        assert forall|i: int| 0 <= i < list.len() implies exists|r: int|
            0 <= r < k && boxless_run(fs, rs, r, src, p) && (#[trigger] list[i])
                == #[trigger] run_span(fs, rs, r, src, p) by {
            if i < before.len() {
                assert(list[i] == before[i]);
                let r = choose|r: int|
                    0 <= r < k - 1 && boxless_run(fs, rs, r, src, p) && before[i]
                        == #[trigger] run_span(fs, rs, r, src, p);
                assert(list[i] == run_span(fs, rs, r, src, p));
            } else {
                assert(list[i] == here);
            }
        }
    }
}

/// When the cover of run `r` comes up and goes away.
pub open spec fn run_span(
    fs: Seq<Detection>,
    rs: Seq<(int, int)>,
    r: int,
    src: Source,
    p: WindowParams,
) -> (int, int) {
    let from = fs[rs[r].0].t - p.pad_before;
    let to = fs[rs[r].1 - 1].t + p.pad_after;
    (
        if from >= 0 {
            from
        } else {
            0
        },
        if to <= src.duration {
            to
        } else {
            src.duration as int
        },
    )
}

/// Whether run `r` has no strong box and shows for a while.
pub open spec fn boxless_run(
    fs: Seq<Detection>,
    rs: Seq<(int, int)>,
    r: int,
    src: Source,
    p: WindowParams,
) -> bool {
    &&& cover_laws::unseen(
        fs.subrange(rs[r].0, rs[r].1),
        i64::MIN as int,
        i64::MAX as int,
        p.threshold as int,
    )
    &&& run_span(fs, rs, r, src, p).0 < run_span(fs, rs, r, src, p).1
}

proof fn lemma_fused_slack(sorted: Seq<(int, int)>, slack: int, t: int)
    requires
        spans::forward(sorted),
        slack >= 0,
    ensures
        forall|i: int|
            0 <= i < spans::fused(sorted, slack).len() ==> exists|k: int|
                0 <= k < sorted.len() && (#[trigger] sorted[k]).1 == (#[trigger] spans::fused(
                    sorted,
                    slack,
                )[i]).1,
        spans::any_holds(spans::fused(sorted, slack), t) ==> exists|k: int|
            0 <= k < sorted.len() && (#[trigger] sorted[k]).0 <= t <= sorted[k].1 + slack,
    decreases sorted.len(),
{
    if sorted.len() > 0 {
        let less = sorted.drop_last();
        assert forall|i: int| 0 <= i < less.len() implies (#[trigger] less[i]).0 <= less[i].1 by {
            assert(less[i] == sorted[i]);
        }
        lemma_fused_slack(less, slack, t);
        let before = spans::fused(less, slack);
        let out = spans::fused(sorted, slack);
        let n = sorted.len() - 1;
        assert forall|i: int| 0 <= i < out.len() implies exists|k: int|
            0 <= k < sorted.len() && (#[trigger] sorted[k]).1 == (#[trigger] out[i]).1 by {
            if out[i].1 != sorted[n].1 {
                assert(i < before.len() && out[i].1 == before[i].1);
                let k = choose|k: int| 0 <= k < less.len() && (#[trigger] less[k]).1 == before[i].1;
                assert(sorted[k] == less[k]);
            }
        }
        if spans::any_holds(out, t) {
            let i = choose|i: int| 0 <= i < out.len() && (#[trigger] out[i]).0 <= t <= out[i].1;
            if i < before.len() && before[i].0 <= t <= before[i].1 {
                assert(spans::any_holds(before, t));
                let k = choose|k: int|
                    0 <= k < less.len() && (#[trigger] less[k]).0 <= t <= less[k].1 + slack;
                assert(sorted[k] == less[k]);
            } else if sorted[n].0 <= t <= sorted[n].1 {
            } else {
                assert(i < before.len());
                let k = choose|k: int| 0 <= k < less.len() && (#[trigger] less[k]).1 == before[i].1;
                assert(sorted[k] == less[k]);
                assert(sorted[k].0 <= sorted[k].1);
                assert(sorted[k].0 <= t <= sorted[k].1 + slack);
            }
        }
    }
}

/// Merging with a slack adds no moment further than the slack behind the end of
/// a span.
pub proof fn law_merging_adds_no_more_than_the_slack(
    list: Seq<(int, int)>,
    slack: int,
    t: int,
)
    requires
        spans::forward(list),
        slack >= 0,
        spans::any_holds(spans::merged(list, slack), t),
    ensures
        exists|k: int| 0 <= k < list.len() && (#[trigger] list[k]).0 <= t <= list[k].1 + slack,
{
    let sorted = spans::ordered(list);
    spans::lemma_ordered_members(list);
    assert forall|i: int| 0 <= i < sorted.len() implies (#[trigger] sorted[i]).0 <= sorted[i].1 by {
        let k = choose|k: int| 0 <= k < list.len() && list[k] == sorted[i];
        assert(list[k].0 <= list[k].1);
    }
    lemma_fused_slack(sorted, slack, t);
    let i = choose|i: int|
        0 <= i < sorted.len() && (#[trigger] sorted[i]).0 <= t <= sorted[i].1 + slack;
    let k = choose|k: int| 0 <= k < list.len() && list[k] == sorted[i];
    assert(list[k].0 <= t <= list[k].1 + slack);
}

/// Where spans are few enough once those that overlap or touch are one, no gap
/// is bridged; where they are not, one twice as wide and a second is tried.
pub proof fn law_spans_are_bridged_only_at_need(
    list: Seq<(int, int)>,
    cap: int,
    duration: int,
    slack: int,
)
    requires
        0 <= slack <= duration,
    ensures
        spans::merged(list, slack).len() <= cap ==> coverage::settled_slack(
            list,
            cap,
            duration,
            slack,
        ) == slack,
        spans::merged(list, slack).len() > cap ==> coverage::settled_slack(
            list,
            cap,
            duration,
            slack,
        ) == coverage::settled_slack(list, cap, duration, slack + slack + 1000),
{
}

/// The spans that have a length are the others left out, in order.
pub proof fn law_only_empty_spans_are_left_out(list: Seq<(int, int)>)
    ensures
        coverage::with_length(list) == list.filter(|s: (int, int)| s.0 < s.1),
    decreases list.len(),
{
    reveal(Seq::filter);
    if list.len() > 0 {
        law_only_empty_spans_are_left_out(list.drop_last());
    }
}

/// Every span of a plan that is covered edge to edge is that of a run without a
/// strong box.
pub proof fn law_full_frames_are_for_boxless_runs(plan: Plan, p: WindowParams, i: int) -> (at: (
    int,
    int,
))
    requires
        0 <= i < coverage::boxless_spans(plan, p).len(),
    ensures
        ({
            let fs = window::frames(plan.detections@, p.threshold as int);
            &&& cover_laws::is_run(fs, at.0, at.1, p.gap_merge as int)
            &&& full_span(
                fs,
                at.0,
                at.1,
                plan.source,
                p,
                coverage::boxless_spans(plan, p)[i],
            )
        }),
{
    let fs = window::frames(plan.detections@, p.threshold as int);
    let gap = p.gap_merge as int;
    let rs = window::runs(fs, gap);
    let r = lemma_boxless_place(fs, gap, plan.source, p, i);
    (rs[r].0, rs[r].1)
}

proof fn lemma_boxless_place(
    fs: Seq<Detection>,
    gap: int,
    src: Source,
    p: WindowParams,
    i: int,
) -> (r: int)
    requires
        ({
            let rs = window::runs(fs, gap);
            0 <= i < coverage::boxless_of_runs(fs, rs, rs.len() as int, src, p).len()
        }),
    ensures
        ({
            let rs = window::runs(fs, gap);
            let list = coverage::boxless_of_runs(fs, rs, rs.len() as int, src, p);
            &&& 0 <= r < rs.len()
            &&& cover_laws::is_run(fs, rs[r].0, rs[r].1, gap)
            &&& full_span(fs, rs[r].0, rs[r].1, src, p, list[i])
        }),
{
    let rs = window::runs(fs, gap);
    let n = rs.len() as int;
    let list = coverage::boxless_of_runs(fs, rs, n, src, p);
    assert(forall|r: int| 0 <= r < rs.len() ==> 0 <= (#[trigger] rs[r]).0 < rs[r].1 <= fs.len())
        by {
        cover_laws::law_runs_break_at_gaps(fs, gap);
    }
    law_boxless_runs_are_covered_edge_to_edge(fs, rs, n, src, p);
    let r = choose|r: int|
        0 <= r < n && boxless_run(fs, rs, r, src, p) && list[i] == #[trigger] run_span(
            fs,
            rs,
            r,
            src,
            p,
        );
    cover_laws::lemma_is_run(fs, gap, r);
    r
}

/// Every run without a strong box that shows for a while has its span.
pub proof fn law_boxless_runs_have_their_span(
    plan: Plan,
    p: WindowParams,
    a: int,
    b: int,
    s: (int, int),
)
    requires
        cover_laws::is_run(
            window::frames(plan.detections@, p.threshold as int),
            a,
            b,
            p.gap_merge as int,
        ),
        full_span(
            window::frames(plan.detections@, p.threshold as int),
            a,
            b,
            plan.source,
            p,
            s,
        ),
    ensures
        coverage::boxless_spans(plan, p).contains(s),
{
    let fs = window::frames(plan.detections@, p.threshold as int);
    let gap = p.gap_merge as int;
    let rs = window::runs(fs, gap);
    let r = cover_laws::lemma_runs_are_all(fs, gap, a, b);
    assert(forall|r: int| 0 <= r < rs.len() ==> 0 <= (#[trigger] rs[r]).0 < rs[r].1 <= fs.len())
        by {
        cover_laws::law_runs_break_at_gaps(fs, gap);
    }
    law_boxless_runs_are_covered_edge_to_edge(fs, rs, rs.len() as int, plan.source, p);
    assert(s == run_span(fs, rs, r, plan.source, p));
    assert(boxless_run(fs, rs, r, plan.source, p));
}

/// Whether a span is that of a run without a strong box: from the lead before
/// it, or the start, to the hold after it, or the end.
pub open spec fn full_span(
    fs: Seq<Detection>,
    a: int,
    b: int,
    src: Source,
    p: WindowParams,
    s: (int, int),
) -> bool {
    let from = fs[a].t - p.pad_before;
    let to = fs[b - 1].t + p.pad_after;
    &&& cover_laws::unseen(
        fs.subrange(a, b),
        i64::MIN as int,
        i64::MAX as int,
        p.threshold as int,
    )
    &&& s.0 < s.1
    &&& s.0 == if from >= 0 {
        from
    } else {
        0
    }
    &&& s.1 == if to <= src.duration {
        to
    } else {
        src.duration as int
    }
}

/// Where the spans of a plan are few enough, what is covered edge to edge is
/// exactly what they hold.
pub proof fn law_few_spans_cover_just_their_moments(plan: Plan, p: WindowParams, t: int)
    requires
        plan.source.duration >= 0,
        coverage::boxless_spans(plan, p).len() <= p.max_windows,
    ensures
        spans::any_holds(coverage::covering_spans(plan, p), t) <==> spans::any_holds(
            coverage::boxless_spans(plan, p),
            t,
        ),
{
    let list = coverage::boxless_spans(plan, p);
    let fs = window::frames(plan.detections@, p.threshold as int);
    let rs = window::runs(fs, p.gap_merge as int);
    cover_laws::law_runs_break_at_gaps(fs, p.gap_merge as int);
    law_boxless_runs_are_covered_edge_to_edge(fs, rs, rs.len() as int, plan.source, p);
    assert(spans::forward(list)) by {
        assert forall|i: int| 0 <= i < list.len() implies (#[trigger] list[i]).0 <= list[i].1 by {
            let r = choose|r: int|
                0 <= r < rs.len() && boxless_run(fs, rs, r, plan.source, p) && list[i]
                    == #[trigger] run_span(fs, rs, r, plan.source, p);
        }
    }
    spans::law_merged_spans_stand_apart(list, 0);
    law_spans_are_bridged_only_at_need(
        list,
        p.max_windows as int,
        plan.source.duration as int,
        0,
    );
    if spans::any_holds(list, t) {
        spans::law_merging_keeps_every_moment(list, 0, t);
    }
    if spans::any_holds(coverage::covering_spans(plan, p), t) {
        spans::law_merging_overlaps_adds_no_moment(list, t);
    }
}

/// Where the windows of a plan are few enough they are shown as they are, but
/// for sharing the box.
pub proof fn law_few_windows_are_shown_as_they_are(plan: Plan, p: WindowParams)
    requires
        window::short_windows(plan, p).len() <= p.max_windows,
    ensures
        window::plan_windows(plan, p) == merging::untagged(window::short_windows(plan, p)),
        coverage::covering_windows(plan, p) == merging::shared(window::short_windows(plan, p)),
{
    law_few_windows_stay_as_they_are(
        window::short_windows(plan, p),
        p.max_windows as int,
        plan.source.duration as int,
    );
}

/// However many windows a plan has, each that is shown is made of a stretch of
/// them.
pub proof fn law_shown_windows_are_made_of_neighbours(plan: Plan, p: WindowParams) -> (marks: Seq<
    int,
>)
    ensures
        joins(window::merged_windows(plan, p), window::short_windows(plan, p), marks),
        window::plan_windows(plan, p) == merging::untagged(window::merged_windows(plan, p)),
{
    law_merged_windows_are_made_of_neighbours(
        window::short_windows(plan, p),
        p.max_windows as int,
        plan.source.duration as int,
    )
}

/// Each window of the coverage is one of the plan's in its own time, over the
/// smallest rectangle around it and those of other runs that show together with
/// it.
pub proof fn law_coverage_reaches_no_further_than_it_must(plan: Plan, p: WindowParams, k: int)
    requires
        0 <= k < coverage::covering_windows(plan, p).len(),
    ensures
        ({
            let list = window::merged_windows(plan, p);
            let n = list.len() as int;
            let w = coverage::covering_windows(plan, p)[k];
            &&& coverage::covering_windows(plan, p).len() == n
            &&& w.start == list[k].w.start && w.end == list[k].w.end
            &&& exists|i: int| #[trigger] shows_with(list, k, i, n) && w.x == list[i].w.x
            &&& exists|i: int| #[trigger] shows_with(list, k, i, n) && w.y == list[i].w.y
            &&& exists|i: int| #[trigger]
                shows_with(list, k, i, n) && w.x + w.w == list[i].w.x + list[i].w.w
            &&& exists|i: int| #[trigger]
                shows_with(list, k, i, n) && w.y + w.h == list[i].w.y + list[i].w.h
        }),
{
    law_sharing_takes_the_smallest(window::merged_windows(plan, p), k);
}

/// The milliseconds that begin in some span.
pub open spec fn milliseconds(list: Seq<(int, int)>) -> Set<int> {
    Set::new(
        |t: int|
            exists|i: int| 0 <= i < list.len() && (#[trigger] list[i]).0 <= t < list[i].1,
    )
}

/// The time of spans that stand apart is the number of milliseconds in them.
pub proof fn law_time_counts_the_milliseconds(list: Seq<(int, int)>)
    requires
        forall|i: int, j: int|
            0 <= i < j < list.len() ==> (#[trigger] list[i]).1 <= (#[trigger] list[j]).0,
    ensures
        milliseconds(list).finite(),
        coverage::span_time(list) == milliseconds(list).len(),
    decreases list.len(),
{
    if list.len() == 0 {
        assert(milliseconds(list) =~= Set::empty());
    } else {
        let less = list.drop_last();
        let last = list.last();
        assert forall|i: int, j: int| 0 <= i < j < less.len() implies (#[trigger] less[i]).1 <= (
        #[trigger] less[j]).0 by {
            assert(less[i] == list[i] && less[j] == list[j]);
        }
        law_time_counts_the_milliseconds(less);
        let more = vstd::set_lib::set_int_range(
            last.0,
            if last.1 >= last.0 {
                last.1
            } else {
                last.0
            },
        );
        vstd::set_lib::lemma_int_range(
            last.0,
            if last.1 >= last.0 {
                last.1
            } else {
                last.0
            },
        );
        assert(milliseconds(list) =~= milliseconds(less) + more) by {
            assert forall|t: int| milliseconds(list).contains(t) == (milliseconds(less)
                + more).contains(t) by {
                if milliseconds(list).contains(t) {
                    let i = choose|i: int|
                        0 <= i < list.len() && (#[trigger] list[i]).0 <= t < list[i].1;
                    if i < less.len() {
                        assert(less[i] == list[i]);
                    }
                }
                if milliseconds(less).contains(t) {
                    let i = choose|i: int|
                        0 <= i < less.len() && (#[trigger] less[i]).0 <= t < less[i].1;
                    assert(list[i] == less[i]);
                }
                if more.contains(t) {
                    assert(list[list.len() - 1].0 <= t < list[list.len() - 1].1);
                }
            }
        }
        assert(milliseconds(less).intersect(more) =~= Set::empty()) by {
            assert forall|t: int| !milliseconds(less).intersect(more).contains(t) by {
                if milliseconds(less).contains(t) {
                    let i = choose|i: int|
                        0 <= i < less.len() && (#[trigger] less[i]).0 <= t < less[i].1;
                    assert(list[i] == less[i]);
                    assert(list[i].1 <= list[list.len() - 1].0);
                }
            }
        }
        lemma_set_intersect_union_lens(milliseconds(less), more);
    }
}

} // verus!
