//! What holds of every cast.

use vstd::prelude::*;

use crate::args;
use crate::args::Word;
use crate::cast;
use crate::cast::Window;
use crate::devices;
use crate::devices::{Announcement, DeviceView};
use crate::text;

verus! {

// ---------------------------------------------------------------------------
// Shifting
// ---------------------------------------------------------------------------

/// Whether a window shows at a moment. Both ends belong to it.
pub open spec fn shows(w: Window, t: int) -> bool {
    w.start <= t <= w.end
}

/// Whether some window shows at a moment.
pub open spec fn some_shows(ws: Seq<Window>, t: int) -> bool {
    exists|k: int| 0 <= k < ws.len() && shows(#[trigger] ws[k], t)
}

/// Whether two windows have the same rectangle.
pub open spec fn same_rectangle(a: Window, b: Window) -> bool {
    a.x == b.x && a.y == b.y && a.w == b.w && a.h == b.h
}

/// A cast that starts part way in covers each moment just as the movie does:
/// after the first instant, a window shows in the cast exactly when one shows
/// in the movie at the moment that is being cast.
pub proof fn law_shifting_keeps_every_moment(ws: Seq<Window>, offset: int, t: int)
    requires
        0 <= offset,
        t > 0,
    ensures
        some_shows(cast::shifted(ws, offset), t) <==> some_shows(ws, t + offset),
    decreases ws.len(),
{
    if offset > 0 && ws.len() > 0 {
        let prev = ws.drop_last();
        let last = ws.last();
        let before = cast::shifted(prev, offset);
        let all = cast::shifted(ws, offset);
        law_shifting_keeps_every_moment(prev, offset, t);
        if some_shows(before, t) {
            let k = choose|k: int| 0 <= k < before.len() && shows(#[trigger] before[k], t);
            assert(all[k] == before[k]);
        }
        if some_shows(prev, t + offset) {
            let k = choose|k: int| 0 <= k < prev.len() && shows(#[trigger] prev[k], t + offset);
            assert(ws[k] == prev[k]);
        }
        if last.end > offset {
            assert(all.last().start == cast::moved_start(last.start as int, offset));
            assert(shows(last, t + offset) == shows(all.last(), t));
            assert(all[all.len() - 1] == all.last());
            assert(ws[ws.len() - 1] == last);
        }
        if some_shows(all, t) {
            let k = choose|k: int| 0 <= k < all.len() && shows(#[trigger] all[k], t);
            if k < before.len() {
                assert(before[k] == all[k]);
            }
        }
        if some_shows(ws, t + offset) {
            let k = choose|k: int| 0 <= k < ws.len() && shows(#[trigger] ws[k], t + offset);
            if k < prev.len() {
                assert(prev[k] == ws[k]);
            }
        }
    }
}

/// Whether a window is another one moved in time: its rectangle untouched, no
/// start before the cast's, no later end, no negative length where there was
/// none, and a length where there was one.
pub open spec fn moved_only_in_time(from: Window, to: Window) -> bool {
    &&& same_rectangle(from, to)
    &&& 0 <= to.start
    &&& 0 < to.end <= from.end
    &&& from.start <= from.end ==> to.start <= to.end
    &&& from.start < from.end ==> to.start < to.end
}

/// Shifting moves only time: every window of a cast is one of the movie's,
/// moved in time.
pub proof fn law_shifting_moves_only_time(ws: Seq<Window>, offset: int, k: int)
    requires
        0 < offset,
        0 <= k < cast::shifted(ws, offset).len(),
    ensures
        exists|i: int|
            0 <= i < ws.len() && moved_only_in_time(
                #[trigger] ws[i],
                cast::shifted(ws, offset)[k],
            ),
    decreases ws.len(),
{
    if ws.len() > 0 {
        let prev = ws.drop_last();
        let before = cast::shifted(prev, offset);
        let w = cast::shifted(ws, offset)[k];
        if k < before.len() {
            assert(w == before[k]);
            law_shifting_moves_only_time(prev, offset, k);
            let i = choose|i: int|
                0 <= i < prev.len() && moved_only_in_time(#[trigger] prev[i], w);
            assert(moved_only_in_time(ws[i], w));
        } else {
            let last = ws[ws.len() - 1];
            assert(w.start == cast::moved_start(last.start as int, offset));
            assert(w.end == last.end - offset);
            assert(moved_only_in_time(last, w));
        }
    }
}

/// A cast has no more windows than the movie.
pub proof fn law_shifting_adds_no_window(ws: Seq<Window>, offset: int)
    ensures
        cast::shifted(ws, offset).len() <= ws.len(),
    decreases ws.len(),
{
    if offset > 0 && ws.len() > 0 {
        law_shifting_adds_no_window(ws.drop_last(), offset);
    }
}

/// Nothing is left to cast past the last time a machine integer can count.
pub(crate) proof fn lemma_shifted_past_all(ws: Seq<Window>, offset: int)
    ensures
        offset >= i64::MAX ==> cast::shifted(ws, offset) == Seq::<Window>::empty(),
    decreases ws.len(),
{
    if offset >= i64::MAX {
        if ws.len() > 0 {
            lemma_shifted_past_all(ws.drop_last(), offset);
        } else {
            assert(cast::shifted(ws, offset) =~= Seq::empty());
        }
    }
}

/// The graph is shifted by just what ffmpeg is told to seek to: whenever a cast
/// starts past the start of the movie there is a seek in front of it, and the
/// hundredths of a second that the seek spells are those of the shift.
pub proof fn law_shift_matches_the_seek(graph: Seq<char>, start: int)
    requires
        start > 0,
    ensures
        cast::seek_time(start) == 10 * cast::hundredths(start),
        -5 <= cast::seek_time(start) - start <= 5,
        cast::transcode_words(graph, start)[2] == Word::Text("-ss"@),
        cast::transcode_words(graph, start)[3] == Word::Text(
            cast::hundredths_text(cast::hundredths(start)),
        ),
        cast::transcode_words(graph, start)[4] == Word::Text("-i"@),
        cast::transcode_words(graph, start)[5] == Word::Movie,
{
}

// ---------------------------------------------------------------------------
// The transcode
// ---------------------------------------------------------------------------

proof fn lemma_digits_start(n: nat)
    ensures
        text::digits(n).len() > 0,
        text::digits(n)[0] != '-',
    decreases n,
{
    if n >= 10 {
        lemma_digits_start(n / 10);
        assert(text::digits(n)[0] == text::digits(n / 10)[0]);
    }
}

/// Whether a word asks for a stream to be taken.
pub open spec fn asks(w: Word) -> bool {
    w == Word::Text("-map"@)
}

/// Whether a word that follows is one that a cast may take: the covered
/// picture, or the sound.
pub open spec fn harmless(w: Word) -> bool {
    w == Word::Text("[vout]"@) || w == Word::Text("0:a:0?"@)
}

/// Nothing uncovered leaves the machine: where there is something to cover,
/// the only streams taken are the output of the filtergraph and the sound.
pub proof fn law_only_the_covered_picture_is_cast(graph: Seq<char>, start: int, i: int)
    requires
        graph.len() > 0,
        0 <= i < cast::transcode_words(graph, start).len(),
        asks(cast::transcode_words(graph, start)[i]),
    ensures
        i + 1 < cast::transcode_words(graph, start).len(),
        harmless(cast::transcode_words(graph, start)[i + 1]),
{
    let all = cast::transcode_words(graph, start);
    let head = args::texts(seq!["-v", "error"]);
    let seek = cast::seek_words(start);
    let movie = seq![Word::Text("-i"@), Word::Movie];
    let picture = cast::picture_words(graph);
    let tail = args::texts(cast::ENCODING@);
    let a = head.len() as int;
    let b = a + seek.len();
    let c = b + movie.len();
    let d = c + picture.len();
    reveal_strlit("-map");
    assert("-map"@.len() == 4);
    if i < a {
        reveal_strlit("-v");
        reveal_strlit("error");
        assert(all[i] == head[i]);
        assert(head[0] == Word::Text("-v"@) && head[1] == Word::Text("error"@));
        assert("-v"@.len() == 2 && "error"@.len() == 5);
        assert(false);
    } else if i < b {
        reveal_strlit("-ss");
        let h = cast::hundredths(start);
        lemma_digits_start((h / 100) as nat);
        assert(cast::hundredths_text(h)[0] == text::digits((h / 100) as nat)[0]);
        assert("-map"@[0] == '-');
        assert(all[i] == seek[i - a]);
        assert("-ss"@.len() == 3);
        assert(false);
    } else if i < c {
        reveal_strlit("-i");
        assert(all[i] == movie[i - b]);
        assert("-i"@.len() == 2);
        assert(false);
    } else if i < d {
        reveal_strlit("-filter_complex");
        reveal_strlit("[0:v]");
        reveal_strlit("[vout]");
        reveal_strlit("0:a:0?");
        let filter = "[0:v]"@ + graph + "[vout]"@;
        assert(filter[0] == '[');
        assert("-map"@[0] == '-');
        let covered = args::texts(seq!["-map", "[vout]", "-map", "0:a:0?"]);
        assert(all[i] == picture[i - c]);
        assert(picture[0] == Word::Text("-filter_complex"@));
        assert(picture[1] == Word::Text(filter));
        assert(picture[2] == covered[0] && picture[3] == covered[1]);
        assert(picture[4] == covered[2] && picture[5] == covered[3]);
        assert(covered[1] == Word::Text("[vout]"@) && covered[3] == Word::Text("0:a:0?"@));
        assert("-map"@.len() == 4 && "[vout]"@.len() == 6 && "0:a:0?"@.len() == 6);
        assert(i - c == 2 || i - c == 4);
        assert(all[i + 1] == picture[i + 1 - c]);
    } else {
        let k = i - d;
        assert(all[i] == tail[k]);
        assert(tail[k] == Word::Text(cast::ENCODING@[k]@));
        lemma_encoding_takes_nothing(k);
        assert(false);
    }
}

proof fn lemma_encoding_takes_nothing(k: int)
    requires
        0 <= k < 23,
    ensures
        cast::ENCODING@[k]@ != "-map"@,
{
    reveal_strlit("-map");
    assert("-map"@.len() == 4 && "-map"@[1] == 'm');
    if k == 0 {
        reveal_strlit("-c:v");
        assert("-c:v"@[1] == 'c');
    } else if k == 1 {
        reveal_strlit("libx264");
        assert("libx264"@.len() == 7);
    } else if k == 2 {
        reveal_strlit("-preset");
        assert("-preset"@.len() == 7);
    } else if k == 3 {
        reveal_strlit("veryfast");
        assert("veryfast"@.len() == 8);
    } else if k == 4 {
        reveal_strlit("-crf");
        assert("-crf"@[1] == 'c');
    } else if k == 5 {
        reveal_strlit("21");
        assert("21"@.len() == 2);
    } else if k == 6 {
        reveal_strlit("-maxrate");
        assert("-maxrate"@.len() == 8);
    } else if k == 7 {
        reveal_strlit("8M");
        assert("8M"@.len() == 2);
    } else if k == 8 {
        reveal_strlit("-bufsize");
        assert("-bufsize"@.len() == 8);
    } else if k == 9 {
        reveal_strlit("16M");
        assert("16M"@.len() == 3);
    } else if k == 10 {
        reveal_strlit("-pix_fmt");
        assert("-pix_fmt"@.len() == 8);
    } else if k == 11 {
        reveal_strlit("yuv420p");
        assert("yuv420p"@.len() == 7);
    } else if k == 12 {
        reveal_strlit("-c:a");
        assert("-c:a"@[1] == 'c');
    } else if k == 13 {
        reveal_strlit("aac");
        assert("aac"@.len() == 3);
    } else if k == 14 {
        reveal_strlit("-b:a");
        assert("-b:a"@[1] == 'b');
    } else if k == 15 {
        reveal_strlit("160k");
        assert("160k"@[1] == '6');
    } else if k == 16 {
        reveal_strlit("-ac");
        assert("-ac"@.len() == 3);
    } else if k == 17 {
        reveal_strlit("2");
        assert("2"@.len() == 1);
    } else if k == 18 {
        reveal_strlit("-movflags");
        assert("-movflags"@.len() == 9);
    } else if k == 19 {
        reveal_strlit("frag_keyframe+empty_moov+default_base_moof");
        assert("frag_keyframe+empty_moov+default_base_moof"@.len() == 42);
    } else if k == 20 {
        reveal_strlit("-f");
        assert("-f"@.len() == 2);
    } else if k == 21 {
        reveal_strlit("mp4");
        assert("mp4"@.len() == 3);
    } else if k == 22 {
        reveal_strlit("pipe:1");
        assert("pipe:1"@.len() == 6);
    }
}

// ---------------------------------------------------------------------------
// Devices
// ---------------------------------------------------------------------------

/// No two devices at one host.
pub open spec fn hosts_differ(list: Seq<DeviceView>) -> bool {
    forall|i: int, j: int|
        0 <= i < j < list.len() ==> (#[trigger] list[i]).host != (#[trigger] list[j]).host
}

/// Whatever is announced, and however often, no host is listed twice.
pub proof fn law_no_host_is_listed_twice(list: Seq<DeviceView>, a: Announcement)
    requires
        hosts_differ(list),
    ensures
        hosts_differ(devices::heard(list, a)),
{
    let all = devices::heard(list, a);
    assert forall|i: int, j: int| 0 <= i < j < all.len() implies (#[trigger] all[i]).host != (
    #[trigger] all[j]).host by {
        if j < list.len() {
            assert(all[i] == list[i] && all[j] == list[j]);
        } else {
            assert(all[i] == list[i]);
        }
    }
}

/// Devices in the order of their names.
pub open spec fn in_name_order(list: Seq<DeviceView>) -> bool {
    forall|i: int, j: int|
        0 <= i <= j < list.len() ==> devices::not_after(
            (#[trigger] list[i]).name,
            (#[trigger] list[j]).name,
        )
}

proof fn lemma_not_after_reflexive(a: Seq<char>)
    ensures
        devices::not_after(a, a),
    decreases a.len(),
{
    if a.len() > 0 {
        lemma_not_after_reflexive(a.drop_first());
    }
}

proof fn lemma_not_after_total(a: Seq<char>, b: Seq<char>)
    ensures
        devices::not_after(a, b) || devices::not_after(b, a),
    decreases a.len(),
{
    if a.len() > 0 && b.len() > 0 && a[0] == b[0] {
        lemma_not_after_total(a.drop_first(), b.drop_first());
    }
}

proof fn lemma_not_after_transitive(a: Seq<char>, b: Seq<char>, c: Seq<char>)
    requires
        devices::not_after(a, b),
        devices::not_after(b, c),
    ensures
        devices::not_after(a, c),
    decreases a.len(),
{
    if a.len() > 0 && b.len() > 0 && c.len() > 0 && a[0] == b[0] && b[0] == c[0] {
        lemma_not_after_transitive(a.drop_first(), b.drop_first(), c.drop_first());
    }
}

proof fn lemma_placed(sorted: Seq<DeviceView>, d: DeviceView)
    ensures
        devices::placed(sorted, d).to_multiset() == sorted.to_multiset().insert(d),
        forall|k: int|
            0 <= k < devices::placed(sorted, d).len() ==> (#[trigger] devices::placed(
                sorted,
                d,
            )[k]) == d || sorted.contains(devices::placed(sorted, d)[k]),
        in_name_order(sorted) ==> in_name_order(devices::placed(sorted, d)),
    decreases sorted.len(),
{
    broadcast use vstd::seq_lib::group_to_multiset_ensures;

    let all = devices::placed(sorted, d);
    if sorted.len() == 0 || devices::not_after(sorted.last().name, d.name) {
        assert(all == sorted.push(d));
        assert forall|k: int| 0 <= k < all.len() implies (#[trigger] all[k]) == d
            || sorted.contains(all[k]) by {
            if k < sorted.len() {
                assert(all[k] == sorted[k]);
            }
        }
        if in_name_order(sorted) {
            assert forall|i: int, j: int| 0 <= i <= j < all.len() implies devices::not_after(
                (#[trigger] all[i]).name,
                (#[trigger] all[j]).name,
            ) by {
                if j < sorted.len() {
                    assert(all[i] == sorted[i] && all[j] == sorted[j]);
                } else if i < sorted.len() {
                    assert(all[i] == sorted[i]);
                    assert(devices::not_after(sorted[i].name, sorted[sorted.len() - 1].name));
                    lemma_not_after_transitive(sorted[i].name, sorted.last().name, d.name);
                } else {
                    lemma_not_after_reflexive(d.name);
                }
            }
        }
    } else {
        let prev = sorted.drop_last();
        let last = sorted.last();
        let head = devices::placed(prev, d);
        lemma_placed(prev, d);
        assert(prev.push(last) =~= sorted);
        assert(all.to_multiset() =~= sorted.to_multiset().insert(d));
        assert forall|k: int| 0 <= k < all.len() implies (#[trigger] all[k]) == d
            || sorted.contains(all[k]) by {
            if k < head.len() {
                assert(all[k] == head[k]);
                if head[k] != d {
                    let m = choose|m: int| 0 <= m < prev.len() && prev[m] == head[k];
                    assert(sorted[m] == all[k]);
                }
            } else {
                assert(sorted[sorted.len() - 1] == all[k]);
            }
        }
        if in_name_order(sorted) {
            assert forall|i: int, j: int| 0 <= i <= j < prev.len() implies devices::not_after(
                (#[trigger] prev[i]).name,
                (#[trigger] prev[j]).name,
            ) by {
                assert(prev[i] == sorted[i] && prev[j] == sorted[j]);
            }
            assert forall|i: int, j: int| 0 <= i <= j < all.len() implies devices::not_after(
                (#[trigger] all[i]).name,
                (#[trigger] all[j]).name,
            ) by {
                if j < head.len() {
                    assert(all[i] == head[i] && all[j] == head[j]);
                } else if i < head.len() {
                    assert(all[i] == head[i]);
                    if head[i] == d {
                        lemma_not_after_total(last.name, d.name);
                    } else {
                        let m = choose|m: int| 0 <= m < prev.len() && prev[m] == head[i];
                        assert(devices::not_after(
                            sorted[m].name,
                            sorted[sorted.len() - 1].name,
                        ));
                    }
                } else {
                    lemma_not_after_reflexive(last.name);
                }
            }
        }
    }
}

/// The devices offered are exactly those heard of, in the order of their
/// names.
pub proof fn law_devices_are_offered_by_name(list: Seq<DeviceView>)
    ensures
        in_name_order(devices::by_name(list)),
        devices::by_name(list).to_multiset() == list.to_multiset(),
    decreases list.len(),
{
    broadcast use vstd::seq_lib::group_to_multiset_ensures;

    if list.len() > 0 {
        law_devices_are_offered_by_name(list.drop_last());
        lemma_placed(devices::by_name(list.drop_last()), list.last());
        assert(list.drop_last().push(list.last()) =~= list);
    } else {
        assert(devices::by_name(list) =~= list);
    }
}

} // verus!
