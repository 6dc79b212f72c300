//! What holds of every library.

use vstd::prelude::*;

use crate::paths::PathView;
use crate::store;

verus! {

/// No movie twice.
pub open spec fn movies_differ(movies: Seq<PathView>) -> bool {
    forall|i: int, j: int| 0 <= i < j < movies.len() ==> #[trigger] movies[i] != #[trigger] movies[j]
}

/// Adding lists no movie twice.
pub proof fn law_adding_lists_no_movie_twice(
    movies: Seq<PathView>,
    more: Seq<PathView>,
    present: Seq<bool>,
)
    requires
        movies_differ(movies),
    ensures
        movies_differ(store::added(movies, more, present)),
    decreases more.len(),
{
    if more.len() > 0 {
        law_adding_lists_no_movie_twice(movies, more.drop_last(), present);
        let before = store::added(movies, more.drop_last(), present);
        let all = store::added(movies, more, present);
        assert forall|i: int, j: int| 0 <= i < j < all.len() implies #[trigger] all[i]
            != #[trigger] all[j] by {
            assert(all[i] == before[i]);
            if j < before.len() {
                assert(all[j] == before[j]);
            }
        }
    }
}

/// Adding leaves the movies there were in their places, in front.
pub proof fn law_adding_keeps_what_there_was(
    movies: Seq<PathView>,
    more: Seq<PathView>,
    present: Seq<bool>,
)
    ensures
        movies.len() <= store::added(movies, more, present).len(),
        store::added(movies, more, present).take(movies.len() as int) == movies,
    decreases more.len(),
{
    let all = store::added(movies, more, present);
    if more.len() > 0 {
        law_adding_keeps_what_there_was(movies, more.drop_last(), present);
        let before = store::added(movies, more.drop_last(), present);
        assert(all.take(movies.len() as int) =~= before.take(movies.len() as int));
    } else {
        assert(all.take(movies.len() as int) =~= movies);
    }
}

/// Every movie that was added and exists is listed.
pub proof fn law_added_movies_are_listed(
    movies: Seq<PathView>,
    more: Seq<PathView>,
    present: Seq<bool>,
    i: int,
)
    requires
        0 <= i < more.len(),
        present[i],
    ensures
        store::added(movies, more, present).contains(more[i]),
    decreases more.len(),
{
    let before = store::added(movies, more.drop_last(), present);
    let all = store::added(movies, more, present);
    if i < more.len() - 1 {
        law_added_movies_are_listed(movies, more.drop_last(), present, i);
        let k = choose|k: int| 0 <= k < before.len() && before[k] == more[i];
        assert(all[k] == more[i]);
    } else if before.contains(more[i]) {
        let k = choose|k: int| 0 <= k < before.len() && before[k] == more[i];
        assert(all[k] == more[i]);
    } else {
        assert(all[all.len() - 1] == more[i]);
    }
}

proof fn lemma_nothing_new(movies: Seq<PathView>, more: Seq<PathView>, present: Seq<bool>)
    requires
        forall|i: int| 0 <= i < more.len() && present[i] ==> movies.contains(#[trigger] more[i]),
    ensures
        store::added(movies, more, present) == movies,
    decreases more.len(),
{
    if more.len() > 0 {
        let prev = more.drop_last();
        assert forall|i: int| 0 <= i < prev.len() && present[i] implies movies.contains(
            #[trigger] prev[i],
        ) by {
            assert(prev[i] == more[i]);
        }
        lemma_nothing_new(movies, prev, present);
        assert(more.last() == more[more.len() - 1]);
    }
}

/// Adding the same movies again adds nothing.
pub proof fn law_adding_again_adds_nothing(
    movies: Seq<PathView>,
    more: Seq<PathView>,
    present: Seq<bool>,
)
    ensures
        store::added(store::added(movies, more, present), more, present) == store::added(
            movies,
            more,
            present,
        ),
{
    let once = store::added(movies, more, present);
    assert forall|i: int| 0 <= i < more.len() && present[i] implies once.contains(
        #[trigger] more[i],
    ) by {
        law_added_movies_are_listed(movies, more, present, i);
    }
    lemma_nothing_new(once, more, present);
}

/// A removed movie is gone, and every other stays.
pub proof fn law_removing_takes_just_one_movie(
    movies: Seq<PathView>,
    path: PathView,
    other: PathView,
)
    ensures
        !store::without(movies, path).contains(path),
        other != path ==> (store::without(movies, path).contains(other) <==> movies.contains(
            other,
        )),
    decreases movies.len(),
{
    if movies.len() > 0 {
        let prev = movies.drop_last();
        let before = store::without(prev, path);
        let all = store::without(movies, path);
        law_removing_takes_just_one_movie(prev, path, other);
        if all.contains(path) {
            let k = choose|k: int| 0 <= k < all.len() && all[k] == path;
            assert(k < before.len());
            assert(before[k] == path);
        }
        if other != path {
            if before.contains(other) {
                let k = choose|k: int| 0 <= k < before.len() && before[k] == other;
                assert(all[k] == other);
            }
            if prev.contains(other) {
                let k = choose|k: int| 0 <= k < prev.len() && prev[k] == other;
                assert(movies[k] == other);
            }
            if movies.contains(other) {
                let k = choose|k: int| 0 <= k < movies.len() && movies[k] == other;
                if k < prev.len() {
                    assert(prev[k] == other);
                } else {
                    assert(all[all.len() - 1] == other);
                }
            }
            if all.contains(other) {
                let k = choose|k: int| 0 <= k < all.len() && all[k] == other;
                if k < before.len() {
                    assert(before[k] == other);
                } else {
                    assert(movies[movies.len() - 1] == other);
                }
            }
        }
    }
}

/// Loading keeps every movie that still exists, and lists none that does not.
pub proof fn law_loading_drops_just_what_is_gone(
    movies: Seq<PathView>,
    present: Seq<bool>,
    path: PathView,
)
    ensures
        store::those_present(movies, present).contains(path) <==> exists|i: int|
            0 <= i < movies.len() && present[i] && #[trigger] movies[i] == path,
    decreases movies.len(),
{
    if movies.len() > 0 {
        let prev = movies.drop_last();
        let before = store::those_present(prev, present);
        let all = store::those_present(movies, present);
        let n = movies.len() - 1;
        law_loading_drops_just_what_is_gone(prev, present, path);
        if before.contains(path) {
            let i = choose|i: int| 0 <= i < prev.len() && present[i] && #[trigger] prev[i] == path;
            assert(movies[i] == path);
            let k = choose|k: int| 0 <= k < before.len() && before[k] == path;
            assert(all[k] == path);
        }
        if present[n] && movies[n] == path {
            assert(all[all.len() - 1] == path);
        }
        if exists|i: int| 0 <= i < movies.len() && present[i] && #[trigger] movies[i] == path {
            let i = choose|i: int|
                0 <= i < movies.len() && present[i] && #[trigger] movies[i] == path;
            if i < n {
                assert(prev[i] == path);
            }
        }
        if all.contains(path) {
            let k = choose|k: int| 0 <= k < all.len() && all[k] == path;
            if k < before.len() {
                assert(before[k] == path);
            } else {
                assert(movies[n] == path);
            }
        }
    }
}

/// No two movies share a plan, not even two in one folder that differ only in
/// their endings.
pub proof fn law_no_two_movies_share_a_plan(a: PathView, b: PathView)
    requires
        a.has_file_name(),
        b.has_file_name(),
        store::plan_at(a) == store::plan_at(b),
    ensures
        a == b,
{
    let x = store::plan_at(a);
    let y = store::plan_at(b);
    let tail = ".scrimplan.json"@;
    assert(x.parts.drop_last() =~= a.parts.drop_last());
    assert(y.parts.drop_last() =~= b.parts.drop_last());
    assert(x.parts.last() == a.parts.last() + tail);
    assert(y.parts.last() == b.parts.last() + tail);
    let n = x.parts.last().len() - tail.len();
    assert(x.parts.last().take(n) =~= a.parts.last());
    assert(y.parts.last().take(n) =~= b.parts.last());
    assert(a.parts.drop_last().push(a.parts.last()) =~= a.parts);
    assert(b.parts.drop_last().push(b.parts.last()) =~= b.parts);
}

/// A byte order mark makes no difference: a text with one in front reads as
/// the text without it, and other texts are left alone.
pub proof fn law_marks_make_no_difference(s: Seq<char>)
    ensures
        store::unmarked(seq!['\u{feff}'] + s) == store::unmarked(s),
        s.len() > 0 && s[0] != '\u{feff}' ==> store::unmarked(s) == s,
{
    let marked = seq!['\u{feff}'] + s;
    assert(marked[0] == '\u{feff}');
    assert(marked.drop_first() =~= s);
}

} // verus!
