//! What the player does, in the numbers it is promised in.

use vstd::prelude::*;

use crate::args::Word;
use crate::cast;
use crate::cast::Window;
use crate::coverage;
use crate::devices;
use crate::devices::{Address, Announcement, CastStep, DeviceView};
use crate::fence;
use crate::fence::{FenceAction, FenceInput};
use crate::graph;
use crate::graph::CensorStyle;
use crate::json;
use crate::json::DatumView;
use crate::mpv;
use crate::mpv::{ItemView, MpvEvent, MpvOptions};
use crate::numbers;
use crate::paths;
use crate::paths::PathView;
use crate::plan;
use crate::plan::{DetBox, Detection, Plan, PlanError};
use crate::playback;
use crate::reading_laws::put_together;
use crate::scan::Scan;
use crate::spelling_laws;
use crate::stage;
use crate::store;
use crate::store::{MovieState, StateEntry};
use crate::text;
use crate::text_laws;
use crate::window::{WindowParams, WindowView};

verus! {

// ---------------------------------------------------------------------------
// The fence
// ---------------------------------------------------------------------------

/// While a scan runs, playback less than five seconds behind it is sent back to
/// thirty seconds behind it, or to the start; playback no more than fifteen
/// seconds behind it is held; and what is held goes on at forty-five.
pub proof fn law_playback_keeps_its_distance(input: FenceInput)
    requires
        !input.scan_complete,
    ensures
        ({
            let lead = input.frontier - input.position;
            let held = input.paused_by_fence;
            &&& lead < 5000 ==> (fence::decided(input) matches FenceAction::SnapBack { to } && if
            input.frontier >= 30000 {
                to + 30000 == input.frontier
            } else {
                to == 0
            })
            &&& 5000 <= lead <= 15000 && !held ==> fence::decided(input) == FenceAction::Pause
            &&& 15000 < lead && !held ==> fence::decided(input) == FenceAction::CarryOn
            &&& 5000 <= lead < 45000 && held ==> fence::decided(input) == FenceAction::CarryOn
            &&& 45000 <= lead && held ==> fence::decided(input) == FenceAction::Resume
        }),
{
}

/// How playback and the scan are shifted together makes no difference, but for
/// where a refused seek is sent.
pub proof fn law_only_the_distance_counts(a: FenceInput, b: FenceInput)
    requires
        a.frontier - a.position == b.frontier - b.position,
        a.scan_complete == b.scan_complete,
        a.paused_by_fence == b.paused_by_fence,
    ensures
        fence::decided(a) == fence::decided(b) || (fence::decided(a) is SnapBack
            && fence::decided(b) is SnapBack),
{
}

// ---------------------------------------------------------------------------
// Plans
// ---------------------------------------------------------------------------

/// Whether a detection lies in the movie, give or take a second, and none of
/// its boxes is inverted, empty or off the frame's near edges.
pub open spec fn trusted(d: Detection, duration: int) -> bool {
    &&& 0 <= d.t <= duration + 1000
    &&& forall|j: int| 0 <= j < d.boxes@.len() ==> upright(#[trigger] d.boxes@[j])
}

pub open spec fn upright(b: DetBox) -> bool {
    &&& 0 <= b.bounds@[0] && b.bounds@[0] < b.bounds@[2]
    &&& 0 <= b.bounds@[1] && b.bounds@[1] < b.bounds@[3]
}

proof fn lemma_upright(d: Detection)
    ensures
        d.boxes_well_shaped() == forall|j: int|
            0 <= j < d.boxes@.len() ==> upright(#[trigger] d.boxes@[j]),
{
    if d.boxes_well_shaped() {
        assert forall|j: int| 0 <= j < d.boxes@.len() implies upright(#[trigger] d.boxes@[j]) by {
            assert(d.boxes@[j].well_shaped());
        }
    }
    if forall|j: int| 0 <= j < d.boxes@.len() ==> upright(#[trigger] d.boxes@[j]) {
        assert forall|j: int| 0 <= j < d.boxes@.len() implies (
        #[trigger] d.boxes@[j]).well_shaped() by {
            assert(upright(d.boxes@[j]));
        }
    }
}

proof fn lemma_detections_fault(dets: Seq<Detection>, i: int, k: int, duration: int)
    requires
        0 <= i <= k <= dets.len(),
        forall|m: int| i <= m < k ==> trusted(#[trigger] dets[m], duration),
    ensures
        plan::detections_fault(dets, i, duration) == plan::detections_fault(dets, k, duration),
    decreases k - i,
{
    if i < k {
        assert(trusted(dets[i], duration));
        lemma_upright(dets[i]);
        lemma_detections_fault(dets, i + 1, k, duration);
    }
}

/// A plan of a known version with a frame and a duration is refused for the
/// first of its detections that cannot be trusted: because it lies outside the
/// movie, or else for a box. Where all can be, it is not refused.
pub proof fn law_plans_are_refused_for_the_first_fault(p: Plan, k: int)
    requires
        1 <= p.schema_version <= 2,
        p.source.width >= 1,
        p.source.height >= 1,
        p.source.duration >= 1,
        0 <= k <= p.detections@.len(),
        forall|m: int|
            0 <= m < k ==> trusted(#[trigger] p.detections@[m], p.source.duration as int),
        k < p.detections@.len() ==> !trusted(p.detections@[k], p.source.duration as int),
    ensures
        k == p.detections@.len() ==> p.fault() is None,
        k < p.detections@.len() ==> p.fault() == Some(
            if 0 <= p.detections@[k].t <= p.source.duration + 1000 {
                PlanError::MalformedBox
            } else {
                PlanError::DetectionOutOfRange
            },
        ),
{
    lemma_detections_fault(p.detections@, 0, k, p.source.duration as int);
    if k < p.detections@.len() {
        lemma_upright(p.detections@[k]);
    }
}

/// What is wrong with a plan itself comes before its detections, the version
/// first, then the frame, then the duration.
pub proof fn law_plans_are_refused_in_order(p: Plan)
    ensures
        p.schema_version < 1 || p.schema_version > 2 ==> p.fault() == Some(
            PlanError::UnsupportedSchema(p.schema_version),
        ),
        1 <= p.schema_version <= 2 && (p.source.width < 1 || p.source.height < 1) ==> p.fault()
            == Some(PlanError::BadDimensions),
        1 <= p.schema_version <= 2 && p.source.width >= 1 && p.source.height >= 1
            && p.source.duration < 1 ==> p.fault() == Some(PlanError::BadDuration),
        playback::refused(p) is None <==> p.fault() is None && p.complete,
{
}

/// A scan has reached the end once the frame after the next three would lie
/// past it, three to a second.
pub proof fn law_the_end_is_a_second_away_at_most(s: Scan)
    ensures
        s.reached_the_end() <==> s.frames > 0 && 1000 * (s.frames - 1) >= 3 * (s.info.duration
            - 1000),
{
}

/// A style that is not known by its name is the black box.
pub proof fn law_unknown_styles_are_the_black_box(name: Seq<char>)
    ensures
        name != "white_box"@ && name != "blur_strong"@ && name != "blur_medium"@ && name
            != "blur_light"@ ==> playback::style_named(name) == CensorStyle::BlackBox,
{
}

/// A side of the stage is as long as asked for, and a pixel at least.
pub proof fn law_the_stage_is_never_empty(v: i32)
    ensures
        stage::at_least_one(v) >= 1,
        v >= 1 ==> stage::at_least_one(v) == v,
        v <= 1 ==> stage::at_least_one(v) == 1,
{
}

// ---------------------------------------------------------------------------
// What mpv is told
// ---------------------------------------------------------------------------

/// A volume is held to the nearest that mpv has, from nothing to 130.
pub proof fn law_volumes_are_held_to_the_nearest(volume: int, other: int)
    requires
        0 <= other <= 130,
    ensures
        ({
            let v = mpv::clamped_volume(volume);
            let off = if v >= volume {
                v - volume
            } else {
                volume - v
            };
            &&& 0 <= v <= 130
            &&& off <= other - volume || off <= volume - other
            &&& 0 <= volume <= 130 ==> v == volume
        }),
{
}

/// mpv is told of the movie, the window it draws in, the pipe it listens at,
/// the volume, and whether to hold, in this order.
pub proof fn law_mpv_is_told_where_to_draw(opts: MpvOptions, pipe: Seq<char>) -> (parts: (
    Seq<char>,
    Seq<char>,
))
    ensures
        ({
            let words = mpv::mpv_words(opts, pipe);
            &&& words.len() >= 13
            &&& words[0] == Word::Movie
            &&& words[1] == Word::Text("--wid="@ + parts.0)
            &&& spelling_laws::spells_integer(parts.0, opts.wid as int)
            &&& words[2] == Word::Text("--input-ipc-server="@ + pipe)
            &&& words[11] == Word::Text("--volume="@ + parts.1)
            &&& spelling_laws::spells_integer(
                parts.1,
                if opts.volume <= 0 {
                    0
                } else if opts.volume >= 130 {
                    130
                } else {
                    opts.volume as int
                },
            )
            &&& opts.paused ==> words[12] == Word::Text("--pause=yes"@)
            &&& !opts.paused ==> words[12] == Word::Text("--pause=no"@)
        }),
{
    let v = mpv::clamped_volume(opts.volume as int);
    spelling_laws::lemma_spells_integer(opts.wid as int);
    spelling_laws::lemma_spells_integer(v);
    reveal_strlit("--pause=");
    reveal_strlit("yes");
    reveal_strlit("no");
    reveal_strlit("--pause=yes");
    reveal_strlit("--pause=no");
    assert("--pause="@ + "yes"@ =~= "--pause=yes"@);
    assert("--pause="@ + "no"@ =~= "--pause=no"@);
    (text::int_text(opts.wid as int), text::int_text(v))
}

/// A start past the start of the movie is told in seconds that read back as it,
/// and a subtitle delay that is one in plain; neither is told otherwise.
pub proof fn law_mpv_is_told_when_to_start(s: i64, delay: i64)
    ensures
        s > 0 ==> mpv::start_word(Some(s)) == seq![
            Word::Text("--start="@ + text::seconds_text(s as int)),
        ],
        s <= 0 ==> mpv::start_word(Some(s)).len() == 0,
        mpv::start_word(None).len() == 0,
        delay != 0 ==> mpv::delay_word(delay) == seq![
            Word::Text("--sub-delay="@ + text::plain_text(delay as int)),
        ],
        delay == 0 ==> mpv::delay_word(delay).len() == 0,
{
}

/// The position and the duration are the numbers that mpv reports, in
/// thousandths; whether it holds and whether it is at the end are the flags.
/// Anything else is nothing to tell.
pub proof fn law_changes_are_told_as_reported(number: Seq<char>, flag: bool, name: Seq<char>)
    ensures
        numbers::decimal(number) is None ==> mpv::change_event(
            "time-pos"@,
            DatumView::Number(number),
        ) is None && mpv::change_event("duration"@, DatumView::Number(number)) is None,
        numbers::decimal(number) matches Some(t) ==> mpv::change_event(
            "time-pos"@,
            DatumView::Number(number),
        ) == Some(MpvEvent::TimePos { seconds: t as i64 }) && mpv::change_event(
            "duration"@,
            DatumView::Number(number),
        ) == Some(MpvEvent::Duration { seconds: t as i64 }),
        mpv::change_event("pause"@, DatumView::Flag(flag)) == Some(
            MpvEvent::Paused { paused: flag },
        ),
        mpv::change_event("eof-reached"@, DatumView::Flag(true)) == Some(MpvEvent::EndOfFile),
        mpv::change_event("eof-reached"@, DatumView::Flag(false)) is None,
        mpv::change_event(name, DatumView::Other) is None,
        mpv::change_event(name, DatumView::Text(number)) is None,
        mpv::change_event("time-pos"@, DatumView::Flag(flag)) is None,
        mpv::change_event("duration"@, DatumView::Flag(flag)) is None,
        mpv::change_event("pause"@, DatumView::Number(number)) is None,
        mpv::change_event("eof-reached"@, DatumView::Number(number)) is None,
        name != "time-pos"@ && name != "duration"@ && name != "pause"@ && name != "eof-reached"@
            ==> mpv::change_event(name, DatumView::Flag(flag)) is None && mpv::change_event(
            name,
            DatumView::Number(number),
        ) is None,
{
    reveal_strlit("time-pos");
    reveal_strlit("duration");
    reveal_strlit("pause");
    reveal_strlit("eof-reached");
    assert("duration"@ != "time-pos"@) by {
        assert("duration"@[0] == 'd' && "time-pos"@[0] == 't');
    }
    assert("pause"@.len() == 5);
    assert("eof-reached"@.len() == 11);
}

/// A filtergraph reaches mpv the same way when it starts as while it runs, and
/// an empty one clears the filter.
pub proof fn law_graphs_reach_mpv_either_way(graph: Seq<char>)
    ensures
        graph.len() > 0 ==> mpv::conf_text(graph) == "vf="@ + mpv::filter_value(graph)
            + "\nhwdec=no\n"@,
        graph.len() == 0 <==> mpv::filter_value(graph).len() == 0,
{
    reveal_strlit("vf=lavfi=[");
    reveal_strlit("vf=");
    reveal_strlit("lavfi=[");
    reveal_strlit("]");
    reveal_strlit("]\nhwdec=no\n");
    reveal_strlit("\nhwdec=no\n");
    if graph.len() > 0 {
        assert(mpv::conf_text(graph) =~= "vf="@ + mpv::filter_value(graph) + "\nhwdec=no\n"@);
    }
}

/// Of what mpv says, a change is told as it is, the end of the file is the end,
/// and nothing else is told.
pub proof fn law_only_changes_and_the_end_are_told(
    kind: Seq<char>,
    name: Option<DatumView>,
    data: Option<DatumView>,
)
    ensures
        ({
            let said = mpv::event_of(Some(DatumView::Text(kind)), name, data);
            &&& kind == "property-change"@ && name is Some && name->0 is Text && data is Some
                ==> said == mpv::change_event(name->0->Text_0, data->0)
            &&& kind == "property-change"@ && (name is None || !(name->0 is Text) || data is None)
                ==> said is None
            &&& kind == "end-file"@ ==> said == Some(MpvEvent::EndOfFile)
            &&& kind != "property-change"@ && kind != "end-file"@ ==> said is None
        }),
        mpv::event_of(None, name, data) is None,
{
    reveal_strlit("property-change");
    reveal_strlit("end-file");
    assert("end-file"@.len() == 8);
    assert("property-change"@.len() == 15);
}

/// The parts of a command stand with a comma between each two.
pub proof fn law_parts_of_a_command_stand_in_order(items: Seq<ItemView>)
    requires
        items.len() > 0,
    ensures
        mpv::items_text(items) == put_together(
            Seq::new(items.len(), |i: int| items[i].spelled()),
            Seq::new((items.len() - 1) as nat, |i: int| ','),
        ),
    decreases items.len(),
{
    reveal_strlit(",");
    let n = items.len() - 1;
    let all = Seq::new(items.len(), |i: int| items[i].spelled());
    let commas = Seq::new(n as nat, |i: int| ',');
    if n > 0 {
        let less = items.drop_last();
        law_parts_of_a_command_stand_in_order(less);
        assert(all.drop_last() =~= Seq::new(less.len(), |i: int| less[i].spelled()));
        assert(commas.drop_last() =~= Seq::new((n - 1) as nat, |i: int| ','));
        assert(mpv::items_text(items) =~= put_together(all, commas));
    }
}

/// The parts of a document stand with a comma between each two.
pub proof fn law_parts_of_a_document_stand_in_order(parts: Seq<Seq<char>>)
    requires
        parts.len() > 0,
    ensures
        json::listed(parts) == put_together(
            parts,
            Seq::new((parts.len() - 1) as nat, |i: int| ','),
        ),
    decreases parts.len(),
{
    reveal_strlit(",");
    let n = parts.len() - 1;
    let commas = Seq::new(n as nat, |i: int| ',');
    if n > 0 {
        law_parts_of_a_document_stand_in_order(parts.drop_last());
        assert(commas.drop_last() =~= Seq::new((n - 1) as nat, |i: int| ','));
        assert(json::listed(parts) =~= put_together(parts, commas));
    }
}

/// What a hexadecimal digit is worth.
pub open spec fn hex_worth(c: char) -> int {
    if c as int >= 0x61 {
        c as int - 0x61 + 10
    } else {
        c as int - 0x30
    }
}

/// What a character stands for behind a backslash.
pub open spec fn stands_for(c: char) -> Option<int> {
    if c == 'b' {
        Some(0x8)
    } else if c == 't' {
        Some(0x9)
    } else if c == 'n' {
        Some(0xa)
    } else if c == 'f' {
        Some(0xc)
    } else if c == 'r' {
        Some(0xd)
    } else if c == '"' || c == '\\' {
        Some(c as int)
    } else {
        None
    }
}

/// The code points that a JSON string gives to whoever reads what stands
/// between its quotes, if it can be read.
pub open spec fn unescaped(e: Seq<char>) -> Option<Seq<int>>
    decreases e.len(),
{
    if e.len() == 0 {
        Some(Seq::empty())
    } else if e[0] == '"' {
        None
    } else if e[0] != '\\' {
        with_first(e[0] as int, unescaped(e.skip(1)))
    } else if e.len() < 2 {
        None
    } else if e[1] != 'u' {
        match stands_for(e[1]) {
            Some(u) => with_first(u, unescaped(e.skip(2))),
            None => None,
        }
    } else if e.len() < 6 {
        None
    } else {
        with_first(
            4096 * hex_worth(e[2]) + 256 * hex_worth(e[3]) + 16 * hex_worth(e[4]) + hex_worth(e[5]),
            unescaped(e.skip(6)),
        )
    }
}

pub open spec fn with_first(u: int, rest: Option<Seq<int>>) -> Option<Seq<int>> {
    match rest {
        Some(r) => Some(seq![u] + r),
        None => None,
    }
}

/// The code points of a text.
pub open spec fn codes(s: Seq<char>) -> Seq<int> {
    Seq::new(s.len(), |i: int| s[i] as int)
}

proof fn lemma_hex_worth(d: int)
    requires
        0 <= d < 16,
    ensures
        hex_worth(json::hex_digit(d)) == d,
{
}

proof fn lemma_unescape(c: char, rest: Seq<char>)
    ensures
        unescaped(json::escape(c) + rest) == with_first(c as int, unescaped(rest)),
{
    let e = json::escape(c) + rest;
    let u = c as int;
    if json::escape(c).len() == 1 {
        assert(e[0] == c);
        assert(e.skip(1) =~= rest);
    } else if json::escape(c).len() == 2 {
        assert(e[0] == '\\');
        assert(e[1] == json::escape(c)[1]);
        assert(e.skip(2) =~= rest);
    } else {
        assert(e[0] == '\\' && e[1] == 'u' && e[2] == '0' && e[3] == '0');
        assert(e[4] == json::hex_digit(u / 16) && e[5] == json::hex_digit(u % 16));
        assert(0 <= u < 0x20);
        lemma_hex_worth(u / 16);
        lemma_hex_worth(u % 16);
        assert(e.skip(6) =~= rest);
    }
}

proof fn lemma_escaped_first(c: char, s: Seq<char>)
    ensures
        json::escaped(seq![c] + s) == json::escape(c) + json::escaped(s),
    decreases s.len(),
{
    let all = seq![c] + s;
    if s.len() == 0 {
        assert(all.drop_last() =~= Seq::empty());
        assert(all.last() == c);
        assert(json::escaped(all.drop_last()) =~= Seq::empty());
        assert(json::escaped(s) =~= Seq::empty());
        assert(json::escaped(all) =~= json::escape(c) + json::escaped(s));
    } else {
        assert(all.drop_last() =~= seq![c] + s.drop_last());
        lemma_escaped_first(c, s.drop_last());
        assert(all.last() == s.last());
        assert(json::escaped(all) =~= json::escape(c) + json::escaped(s));
    }
}

/// Whoever reads a quoted text reads just that text: it ends at its own closing
/// quote and no sooner, and every character is the one it was.
pub proof fn law_quoted_texts_read_back(s: Seq<char>)
    ensures
        json::quoted(s).len() >= 2,
        json::quoted(s)[0] == '"',
        json::quoted(s).last() == '"',
        unescaped(json::quoted(s).subrange(1, json::quoted(s).len() - 1)) == Some(codes(s)),
{
    let q = json::quoted(s);
    assert(q.subrange(1, q.len() - 1) =~= json::escaped(s));
    lemma_unescaped(s);
}

proof fn lemma_unescaped(s: Seq<char>)
    ensures
        unescaped(json::escaped(s)) == Some(codes(s)),
    decreases s.len(),
{
    if s.len() == 0 {
        assert(codes(s) =~= Seq::empty());
    } else {
        let rest = s.drop_first();
        assert(s =~= seq![s[0]] + rest);
        lemma_escaped_first(s[0], rest);
        lemma_unescape(s[0], json::escaped(rest));
        lemma_unescaped(rest);
        assert(codes(s) =~= seq![s[0] as int] + codes(rest));
    }
}

/// What mpv is told of a time or a number reads back as it is.
pub proof fn law_numbers_in_commands_read_back(n: int, ms: int)
    ensures
        spelling_laws::spells_integer(ItemView::Number(n).spelled(), n),
        ItemView::Seconds(ms).spelled() == text::decimal_text(ms),
        i64::MIN <= n <= i64::MAX ==> numbers::integer(ItemView::Number(n).spelled()) == Some(n),
{
    spelling_laws::lemma_spells_integer(n);
    text_laws::law_integers_read_back(n);
}

// ---------------------------------------------------------------------------
// Casting
// ---------------------------------------------------------------------------

/// A window with its times counted from a moment on.
pub open spec fn counted_from(w: Window, offset: int) -> Window {
    Window {
        start: if w.start >= offset {
            (w.start - offset) as i64
        } else {
            0
        },
        end: (w.end - offset) as i64,
        x: w.x,
        y: w.y,
        w: w.w,
        h: w.h,
    }
}

/// Shifting leaves out exactly the windows that are over by then, and counts
/// the times of the others from that moment, in the same order.
pub proof fn law_shifting_counts_from_the_offset(ws: Seq<Window>, offset: int)
    ensures
        offset <= 0 ==> cast::shifted(ws, offset) == ws,
        offset > 0 ==> cast::shifted(ws, offset) == ws.filter(
            |w: Window| w.end > offset,
        ).map_values(|w: Window| counted_from(w, offset)),
    decreases ws.len(),
{
    reveal(Seq::filter);
    let f = |w: Window| w.end > offset;
    let g = |w: Window| counted_from(w, offset);
    if offset > 0 {
        if ws.len() > 0 {
            let less = ws.drop_last();
            law_shifting_counts_from_the_offset(less, offset);
            assert(cast::shifted(ws, offset) =~= ws.filter(f).map_values(g));
        } else {
            assert(ws.filter(f).map_values(g) =~= ws);
        }
    }
}

/// What a cast seeks to is within half a hundredth of a second of where it was
/// asked to start.
pub proof fn law_casts_start_where_asked(start: int)
    ensures
        start > 0 ==> -5 <= cast::seek_time(start) - start <= 5 && cast::seek_time(start) % 10 == 0,
        start <= 0 ==> cast::seek_time(start) == 0,
{
}

/// A cast that starts past the start seeks to where its clock begins, told in
/// seconds with two decimals; any other does not seek.
pub proof fn law_the_seek_is_where_the_clock_begins(start: int) -> (t: Seq<char>)
    ensures
        start <= 0 ==> cast::seek_words(start).len() == 0,
        start > 0 ==> cast::seek_words(start) == seq![Word::Text("-ss"@), Word::Text(t)]
            && text_laws::spells(t, 2, cast::hundredths(start)) && 10 * cast::hundredths(start)
            == cast::seek_time(start),
{
    if start > 0 {
        text_laws::law_hundredths_read_back(start);
    }
    cast::hundredths_text(cast::hundredths(start))
}

/// An address names its port in decimal.
pub proof fn law_addresses_name_their_port(host: Seq<char>, port: int) -> (t: Seq<char>)
    requires
        0 <= port,
    ensures
        text_laws::only_digits(t) && text_laws::worth(t) == port,
        cast::address_text(host, port) == host + ":"@ + t,
        cast::stream_url_text(host, port) == "http://"@ + host + ":"@ + t + "/stream.mp4"@,
{
    text_laws::law_integers_read_back(port);
    text::int_text(port)
}

/// Windows keep their times and their rectangles on the way to a cast's graph,
/// and full-frame spans their times.
pub proof fn law_nothing_is_lost_on_the_way_to_a_cast(
    ws: Seq<WindowView>,
    list: Seq<(int, int)>,
    i: int,
)
    ensures
        playback::graph_windows(playback::bare_windows(ws)).len() == ws.len(),
        playback::graph_spans(playback::bare_spans(list)).len() == list.len(),
        0 <= i < ws.len() && machine(ws[i].start) && machine(ws[i].end) && machine(ws[i].x)
            && machine(ws[i].y) && machine(ws[i].w) && machine(ws[i].h) ==> {
            let v = playback::graph_windows(playback::bare_windows(ws))[i];
            &&& v.start == ws[i].start && v.end == ws[i].end
            &&& v.x == ws[i].x && v.y == ws[i].y
            &&& v.w == ws[i].w && v.h == ws[i].h
        },
        0 <= i < list.len() && machine(list[i].0) && machine(list[i].1) ==> playback::graph_spans(
            playback::bare_spans(list),
        )[i] == list[i],
{
}

/// The full-frame spans of a cast are the movie's that are not over by where it
/// starts, with their times counted from there.
pub proof fn law_cast_spans_count_from_the_start(list: Seq<(int, int)>, start: int)
    requires
        forall|i: int| 0 <= i < list.len() ==> machine((#[trigger] list[i]).0) && machine(list[i].1),
    ensures
        start <= 0 ==> playback::cast_spans_of(list, start) == list,
        start > 0 && cast::seek_time(start) > 0 ==> playback::cast_spans_of(list, start)
            == list.filter(|s: (int, int)| s.1 > cast::seek_time(start)).map_values(
            |s: (int, int)|
                (
                    if s.0 >= cast::seek_time(start) {
                        s.0 - cast::seek_time(start)
                    } else {
                        0
                    },
                    s.1 - cast::seek_time(start),
                ),
        ),
    decreases list.len(),
{
    reveal(Seq::filter);
    let seek = cast::seek_time(start);
    let f = |s: (int, int)| s.1 > cast::seek_time(start);
    let g = |s: (int, int)|
        (
            if s.0 >= cast::seek_time(start) {
                s.0 - cast::seek_time(start)
            } else {
                0
            },
            s.1 - cast::seek_time(start),
        );
    let all = playback::bare_spans(list);
    if start <= 0 {
        assert(playback::cast_spans_of(list, start) =~= list);
    } else if seek > 0 {
        if list.len() == 0 {
            assert(playback::cast_spans_of(list, start) =~= list.filter(f).map_values(g));
        } else {
            let less = list.drop_last();
            let last = list.last();
            assert(machine(list[list.len() - 1].0));
            assert forall|i: int| 0 <= i < less.len() implies machine((#[trigger] less[i]).0)
                && machine(less[i].1) by {
                assert(less[i] == list[i]);
            }
            law_cast_spans_count_from_the_start(less, start);
            assert(all.drop_last() =~= playback::bare_spans(less));
            let before = cast::shifted(all.drop_last(), seek);
            let w = all.last();
            assert(w.start == last.0 && w.end == last.1);
            assert(playback::graph_spans(before) == less.filter(f).map_values(g));
            if last.1 > seek {
                assert(list.filter(f) =~= less.filter(f).push(last));
                assert(less.filter(f).push(last).map_values(g) =~= less.filter(f).map_values(
                    g,
                ).push(g(last)));
                let after = cast::shifted(all, seek);
                assert(after.drop_last() =~= before);
                assert(after.last().start == g(last).0 && after.last().end == g(last).1);
                assert(playback::graph_spans(after) =~= playback::graph_spans(before).push(
                    g(last),
                ));
            } else {
                assert(list.filter(f) =~= less.filter(f));
                assert(cast::shifted(all, seek) == before);
            }
        }
    }
}

/// Whether a machine integer can hold a number.
pub open spec fn machine(v: int) -> bool {
    i64::MIN <= v <= i64::MAX
}

/// Whether windows show at the same times over the same rectangles.
pub open spec fn same_windows(a: Seq<WindowView>, b: Seq<WindowView>) -> bool {
    &&& a.len() == b.len()
    &&& forall|i: int|
        0 <= i < a.len() ==> {
            let v = #[trigger] a[i];
            let w = b[i];
            &&& v.start == w.start && v.end == w.end
            &&& v.x == w.x && v.y == w.y
            &&& v.w == w.w && v.h == w.h
        }
}

proof fn lemma_same_size(a: Seq<WindowView>, b: Seq<WindowView>)
    requires
        same_windows(a, b),
    ensures
        graph::widest(a) == graph::widest(b),
        graph::tallest(a) == graph::tallest(b),
    decreases a.len(),
{
    if a.len() > 0 {
        assert(a[a.len() - 1].w == b[b.len() - 1].w);
        let (c, d) = (a.drop_last(), b.drop_last());
        assert forall|i: int| 0 <= i < c.len() implies {
            let v = #[trigger] c[i];
            let w = d[i];
            &&& v.start == w.start && v.end == w.end
            &&& v.x == w.x && v.y == w.y
            &&& v.w == w.w && v.h == w.h
        } by {
            assert(c[i] == a[i] && d[i] == b[i]);
        }
        lemma_same_size(c, d);
    }
}

/// A graph depends on when and where windows show, and on nothing else of them.
pub proof fn law_reasons_make_no_difference_to_a_graph(
    full: Seq<(int, int)>,
    a: Seq<WindowView>,
    b: Seq<WindowView>,
    fw: int,
    fh: int,
    style: CensorStyle,
)
    requires
        same_windows(a, b),
    ensures
        graph::graph_text(full, a, fw, fh, style) == graph::graph_text(full, b, fw, fh, style),
{
    lemma_same_size(a, b);
    assert(graph::spots_for(a, fw, fh) =~= graph::spots_for(b, fw, fh));
    assert(graph::spans_of(a) =~= graph::spans_of(b));
    assert(graph::crop_text(a, fw, fh, style) == graph::crop_text(b, fw, fh, style));
    assert(graph::overlay_text(a, fw, fh) == graph::overlay_text(b, fw, fh));
    assert(graph::graph_steps(full, a, fw, fh, style) =~= graph::graph_steps(
        full,
        b,
        fw,
        fh,
        style,
    ));
}

/// A cast from the start has the very graph that the screen has, over a frame as
/// wide and as high as the movie's.
pub proof fn law_a_cast_from_the_start_is_the_screen(
    plan: Plan,
    p: WindowParams,
    style: CensorStyle,
)
    requires
        forall|i: int|
            0 <= i < coverage::covering_windows(plan, p).len() ==> {
                let w = #[trigger] coverage::covering_windows(plan, p)[i];
                &&& machine(w.start) && machine(w.end)
                &&& machine(w.x) && machine(w.y) && machine(w.w) && machine(w.h)
            },
        forall|i: int|
            0 <= i < coverage::covering_spans(plan, p).len() ==> machine(
                (#[trigger] coverage::covering_spans(plan, p)[i]).0,
            ) && machine(coverage::covering_spans(plan, p)[i].1),
    ensures
        playback::plan_graph(plan, p, style) == playback::cast_graph_text(
            coverage::covering_spans(plan, p),
            coverage::covering_windows(plan, p),
            0,
            plan.source.width as int,
            plan.source.height as int,
            style,
        ),
{
    let ws = coverage::covering_windows(plan, p);
    let full = coverage::covering_spans(plan, p);
    let same = playback::cast_windows_of(ws, 0);
    law_cast_spans_count_from_the_start(full, 0);
    assert(same_windows(ws, same));
    law_reasons_make_no_difference_to_a_graph(
        full,
        ws,
        same,
        plan.source.width as int,
        plan.source.height as int,
        style,
    );
}

// ---------------------------------------------------------------------------
// Devices
// ---------------------------------------------------------------------------

/// The address of a device is the first it announces of the kind that can be
/// used.
pub proof fn law_the_first_usable_address_counts(list: Seq<Address>, k: int)
    requires
        0 <= k <= list.len(),
        forall|j: int| 0 <= j < k ==> !(#[trigger] list[j]).is_ipv4,
        k < list.len() ==> list[k].is_ipv4,
    ensures
        k < list.len() ==> devices::usable_host(list) == Some(list[k].text@),
        k == list.len() ==> devices::usable_host(list) is None,
    decreases k,
{
    if k > 0 {
        let rest = list.drop_first();
        assert(!list[0].is_ipv4);
        assert forall|j: int| 0 <= j < k - 1 implies !(#[trigger] rest[j]).is_ipv4 by {
            assert(rest[j] == list[j + 1]);
        }
        law_the_first_usable_address_counts(rest, k - 1);
    }
}

/// A device heard of for the first time is listed last, at the address it can
/// be used at and under its own name, if it has one. Nothing else changes.
pub proof fn law_new_devices_are_listed_last(
    list: Seq<DeviceView>,
    a: Announcement,
    host: Seq<char>,
)
    requires
        devices::usable_host(a.addresses@) == Some(host),
        forall|i: int| 0 <= i < list.len() ==> (#[trigger] list[i]).host != host,
    ensures
        ({
            let now = devices::heard(list, a);
            &&& now.len() == list.len() + 1
            &&& now.take(list.len() as int) == list
            &&& now.last().host == host
            &&& now.last().port == a.port
            &&& a.friendly is Some ==> now.last().name == a.friendly->0@
            &&& a.friendly is None ==> now.last().name == a.fullname@
        }),
{
    assert(devices::heard(list, a).take(list.len() as int) =~= list);
}

/// A device without a usable address, or at a host that is listed already,
/// changes nothing.
pub proof fn law_known_hosts_change_nothing(list: Seq<DeviceView>, a: Announcement, i: int)
    ensures
        devices::usable_host(a.addresses@) is None ==> devices::heard(list, a) == list,
        0 <= i < list.len() && devices::usable_host(a.addresses@) == Some(list[i].host)
            ==> devices::heard(list, a) == list,
{
}

/// Names are compared by the first character in which they differ, and one that
/// goes on where the other ends comes later.
pub proof fn law_names_are_compared_character_by_character(
    same: Seq<char>,
    x: char,
    a: Seq<char>,
    y: char,
    b: Seq<char>,
)
    requires
        x as int != y as int,
    ensures
        devices::not_after(same + (seq![x] + a), same + (seq![y] + b)) == ((x as int) < (
        y as int)),
        devices::not_after(same, same + b),
        devices::not_after(same + (seq![x] + a), same) == false,
    decreases same.len(),
{
    let s = same + (seq![x] + a);
    let t = same + (seq![y] + b);
    if same.len() == 0 {
        assert(s[0] == x && t[0] == y);
    } else {
        assert(s.drop_first() =~= same.drop_first() + (seq![x] + a));
        assert(t.drop_first() =~= same.drop_first() + (seq![y] + b));
        assert((same + b).drop_first() =~= same.drop_first() + b);
        law_names_are_compared_character_by_character(same.drop_first(), x, a, y, b);
    }
}

proof fn lemma_placed(sorted: Seq<DeviceView>, d: DeviceView, name: Seq<char>)
    requires
        forall|i: int, j: int|
            0 <= i <= j < sorted.len() ==> devices::not_after(
                (#[trigger] sorted[i]).name,
                (#[trigger] sorted[j]).name,
            ),
    ensures
        devices::placed(sorted, d).filter(|e: DeviceView| e.name == name) == if d.name == name {
            sorted.filter(|e: DeviceView| e.name == name).push(d)
        } else {
            sorted.filter(|e: DeviceView| e.name == name)
        },
        devices::placed(sorted, d).len() == sorted.len() + 1,
    decreases sorted.len(),
{
    reveal(Seq::filter);
    let out = devices::placed(sorted, d);
    if sorted.len() == 0 || devices::not_after(sorted.last().name, d.name) {
        assert(out.drop_last() =~= sorted);
    } else {
        let less = sorted.drop_last();
        assert forall|i: int, j: int| 0 <= i <= j < less.len() implies devices::not_after(
            (#[trigger] less[i]).name,
            (#[trigger] less[j]).name,
        ) by {
            assert(less[i] == sorted[i] && less[j] == sorted[j]);
        }
        lemma_placed(less, d, name);
        assert(out.drop_last() =~= devices::placed(less, d));
        lemma_not_after_itself(d.name);
        assert(sorted.last().name != d.name);
    }
}

proof fn lemma_not_after_itself(a: Seq<char>)
    ensures
        devices::not_after(a, a),
    decreases a.len(),
{
    if a.len() > 0 {
        lemma_not_after_itself(a.drop_first());
    }
}

/// Devices of one name are offered in the order they were heard of, each as
/// often as it was.
pub proof fn law_devices_of_one_name_keep_their_order(list: Seq<DeviceView>, name: Seq<char>)
    ensures
        devices::by_name(list).filter(|e: DeviceView| e.name == name) == list.filter(
            |e: DeviceView| e.name == name,
        ),
        devices::by_name(list).len() == list.len(),
    decreases list.len(),
{
    reveal(Seq::filter);
    if list.len() > 0 {
        let less = list.drop_last();
        law_devices_of_one_name_keep_their_order(less, name);
        crate::cast_laws::law_devices_are_offered_by_name(less);
        crate::cast_laws::law_devices_are_offered_by_name(list);
        lemma_placed(devices::by_name(less), list.last(), name);
    }
}

/// Where a step of a cast comes, counted from nothing.
pub open spec fn place_of(step: CastStep) -> int {
    match step {
        CastStep::FindMovie => 0,
        CastStep::OpenServer => 1,
        CastStep::FindRoute => 2,
        CastStep::ReachDevice => 3,
        CastStep::Connect => 4,
        CastStep::Launch => 5,
        CastStep::JoinSession => 6,
        CastStep::Load => 7,
    }
}

/// The steps of a cast are taken one by one: none is left out or taken twice,
/// and loading the stream is the last.
pub proof fn law_casts_leave_out_no_step(step: CastStep)
    ensures
        step.following() matches Some(next) ==> place_of(next) == place_of(step) + 1,
        step.following() is None <==> place_of(step) == 7,
{
}

// ---------------------------------------------------------------------------
// The library
// ---------------------------------------------------------------------------

/// Removing a movie keeps the others, and their order.
pub proof fn law_removing_keeps_the_order(movies: Seq<PathView>, path: PathView)
    ensures
        store::without(movies, path) == movies.filter(|m: PathView| m != path),
    decreases movies.len(),
{
    reveal(Seq::filter);
    if movies.len() > 0 {
        law_removing_keeps_the_order(movies.drop_last(), path);
    }
}

/// What is loaded are the movies that are there, in order.
pub proof fn law_loading_keeps_the_order(movies: Seq<PathView>, present: Seq<bool>)
    ensures
        store::those_present(movies, present) == Seq::new(
            movies.len(),
            |i: int| (movies[i], present[i]),
        ).filter(|m: (PathView, bool)| m.1).map_values(|m: (PathView, bool)| m.0),
    decreases movies.len(),
{
    reveal(Seq::filter);
    let all = Seq::new(movies.len(), |i: int| (movies[i], present[i]));
    let f = |m: (PathView, bool)| m.1;
    let g = |m: (PathView, bool)| m.0;
    if movies.len() > 0 {
        let less = movies.drop_last();
        law_loading_keeps_the_order(less, present);
        assert(all.drop_last() =~= Seq::new(less.len(), |i: int| (less[i], present[i])));
        assert(store::those_present(movies, present) =~= all.filter(f).map_values(g));
    } else {
        assert(store::those_present(movies, present) =~= all.filter(f).map_values(g));
    }
}

/// Movies are added behind those there were, in the order they were given in,
/// each where it first occurs among those that exist; nothing else is added.
pub proof fn law_adding_keeps_the_order(
    movies: Seq<PathView>,
    more: Seq<PathView>,
    present: Seq<bool>,
) -> (at: Seq<int>)
    ensures
        ({
            let all = store::added(movies, more, present);
            let n = movies.len() as int;
            &&& all.len() == n + at.len()
            &&& forall|i: int| 0 <= i < n ==> #[trigger] all[i] == movies[i]
            &&& forall|i: int|
                0 <= i < at.len() ==> 0 <= (#[trigger] at[i]) < more.len() && present[at[i]]
                    && all[n + i] == more[at[i]] && !movies.contains(more[at[i]])
            &&& forall|i: int, j: int| 0 <= i < j < at.len() ==> #[trigger] at[i] < #[trigger] at[j]
            &&& forall|i: int, k: int|
                0 <= i < at.len() && 0 <= k < at[i] && present[k] ==> #[trigger] more[k]
                    != more[#[trigger] at[i]]
        }),
    decreases more.len(),
{
    if more.len() == 0 {
        Seq::empty()
    } else {
        let less = more.drop_last();
        let m = more.len() - 1;
        let n = movies.len() as int;
        let before = store::added(movies, less, present);
        let all = store::added(movies, more, present);
        let was = law_adding_keeps_the_order(movies, less, present);
        assert forall|i: int| 0 <= i < was.len() implies less[#[trigger] was[i]]
            == more[was[i]] by {}
        if all.len() > before.len() {
            let at = was.push(m);
            assert(present[m]);
            assert(!movies.contains(more[m])) by {
                if movies.contains(more[m]) {
                    let i = choose|i: int| 0 <= i < movies.len() && movies[i] == more[m];
                    assert(before[i] == more[m]);
                }
            }
            assert forall|i: int| 0 <= i < at.len() implies 0 <= (#[trigger] at[i]) < more.len()
                && present[at[i]] && all[n + i] == more[at[i]] && !movies.contains(
                more[at[i]],
            ) by {
                if i < was.len() {
                    assert(at[i] == was[i]);
                    assert(all[n + i] == before[n + i]);
                }
            }
            assert forall|i: int, k: int|
                0 <= i < at.len() && 0 <= k < at[i] && present[k] implies #[trigger] more[k]
                != more[#[trigger] at[i]] by {
                if i < was.len() {
                    assert(at[i] == was[i]);
                    assert(less[k] == more[k]);
                } else {
                    assert(less[k] == more[k]);
                    crate::store_laws::law_added_movies_are_listed(movies, less, present, k);
                }
            }
            at
        } else {
            assert forall|i: int, k: int|
                0 <= i < was.len() && 0 <= k < was[i] && present[k] implies #[trigger] more[k]
                != more[#[trigger] was[i]] by {
                assert(less[k] == more[k]);
            }
            was
        }
    }
}

/// What was remembered under a key is what is looked up under it.
pub proof fn law_lookups_find_what_was_remembered(entries: Seq<StateEntry>, i: int)
    requires
        store::keys_differ(entries),
        0 <= i < entries.len(),
    ensures
        store::remembered(entries, entries[i].key@) == Some(entries[i].state),
{
    assert(store::under(entries, entries[i].key@, i));
}

/// A movie's plan lies where the movie does, under the movie's name with a
/// suffix.
pub proof fn law_plans_lie_beside_their_movies(video: PathView)
    requires
        video.has_file_name(),
    ensures
        store::plan_at(video).up(1) == video.up(1),
        store::plan_at(video).parts.last() == video.parts.last() + ".scrimplan.json"@,
{
    let p = store::plan_at(video);
    assert(p.parts.take(p.parts.len() - 1) =~= video.parts.take(video.parts.len() - 1));
}

/// Under a key that nothing was remembered under there is nothing.
pub proof fn law_nothing_is_found_under_other_keys(entries: Seq<StateEntry>, key: Seq<char>)
    requires
        forall|i: int| 0 <= i < entries.len() ==> (#[trigger] entries[i]).key@ != key,
    ensures
        store::remembered(entries, key) is None,
{
}

/// The state of a movie is what was remembered of it, and blank where nothing
/// was.
pub proof fn law_unknown_movies_start_afresh(
    entries: Seq<StateEntry>,
    key: Seq<char>,
    s: MovieState,
)
    requires
        store::keys_differ(entries),
        store::state_is(entries, key, s),
    ensures
        forall|i: int|
            0 <= i < entries.len() && (#[trigger] entries[i]).key@ == key ==> s == entries[i].state,
        (forall|i: int| 0 <= i < entries.len() ==> (#[trigger] entries[i]).key@ != key)
            ==> s.subtitle is None && s.sub_delay == 0 && s.position == 0,
{
    assert forall|i: int| 0 <= i < entries.len() && (#[trigger] entries[i]).key@ == key implies s
        == entries[i].state by {
        law_lookups_find_what_was_remembered(entries, i);
    }
    if forall|i: int| 0 <= i < entries.len() ==> (#[trigger] entries[i]).key@ != key {
        law_nothing_is_found_under_other_keys(entries, key);
    }
}

// ---------------------------------------------------------------------------
// Paths
// ---------------------------------------------------------------------------

/// A path is spelled with a backslash between each two of its parts, behind its
/// root.
pub proof fn law_paths_are_spelled_part_by_part(p: PathView)
    requires
        p.parts.len() > 0,
    ensures
        p.spelled() == (match p.root {
            Some(r) => r,
            None => Seq::empty(),
        }) + put_together(p.parts, Seq::new((p.parts.len() - 1) as nat, |i: int| '\\')),
{
    lemma_parts_text(p.parts);
    assert(p.spelled() =~= (match p.root {
        Some(r) => r,
        None => Seq::empty(),
    }) + put_together(p.parts, Seq::new((p.parts.len() - 1) as nat, |i: int| '\\')));
}

proof fn lemma_parts_text(parts: Seq<Seq<char>>)
    requires
        parts.len() > 0,
    ensures
        paths::parts_text(parts) == put_together(
            parts,
            Seq::new((parts.len() - 1) as nat, |i: int| '\\'),
        ),
    decreases parts.len(),
{
    reveal_strlit("\\");
    let n = parts.len() - 1;
    let between = Seq::new(n as nat, |i: int| '\\');
    if n > 0 {
        lemma_parts_text(parts.drop_last());
        assert(between.drop_last() =~= Seq::new((n - 1) as nat, |i: int| '\\'));
        assert(paths::parts_text(parts) =~= put_together(parts, between));
    }
}

/// Going down and up again leads back, up twice leads as far as up once by the
/// sum, and nothing lies above the root.
pub proof fn law_up_undoes_down(p: PathView, name: Seq<char>, a: int, b: int)
    requires
        0 <= a,
        0 <= b,
    ensures
        p.child(name).up(1) == Some(p),
        p.up(0) == Some(p),
        p.child(name).parts.last() == name,
        p.child(name).root == p.root,
        a + b <= p.parts.len() ==> p.up(a) is Some && p.up(a)->0.up(b) == p.up(a + b),
        a > p.parts.len() ==> p.up(a) is None,
{
    assert(p.child(name).parts.take(p.parts.len() as int) =~= p.parts);
    assert(p.parts.take(p.parts.len() as int) =~= p.parts);
    if a + b <= p.parts.len() {
        let n = p.parts.len() as int;
        assert(p.parts.take(n - a).take(n - a - b) =~= p.parts.take(n - (a + b)));
    }
}

/// Resources are looked for beside the program first, then where it is, then
/// two and three levels up, and last where it was called from.
pub proof fn law_the_nearest_place_comes_first(
    dir: PathView,
    name: Seq<char>,
    a: PathView,
    b: PathView,
    cwd: PathView,
)
    requires
        dir.up(2) == Some(a),
        dir.up(3) == Some(b),
    ensures
        paths::roots_of(Some(dir.child(name)), Some(cwd)) == seq![
            dir.child("resources"@),
            dir,
            a.child("resources"@),
            b.child("resources"@),
            cwd.child("resources"@),
        ],
        paths::roots_of(None, Some(cwd)) == seq![cwd.child("resources"@)],
        paths::roots_of(None, None).len() == 0,
{
    law_up_undoes_down(dir, name, 0, 0);
    assert(paths::roots_of(Some(dir.child(name)), Some(cwd)) =~= seq![
        dir.child("resources"@),
        dir,
        a.child("resources"@),
        b.child("resources"@),
        cwd.child("resources"@),
    ]);
    assert(paths::roots_of(None, Some(cwd)) =~= seq![cwd.child("resources"@)]);
}

/// A path names a file unless its last part only says where to go, or it has
/// none.
pub proof fn law_where_to_go_is_no_file_name(p: PathView, name: Seq<char>)
    ensures
        p.child(name).has_file_name() <==> name != seq!['.'] && name != seq!['.', '.'],
        p.parts.len() == 0 ==> !p.has_file_name(),
{
    reveal_strlit(".");
    reveal_strlit("..");
    assert("."@ =~= seq!['.']);
    assert(".."@ =~= seq!['.', '.']);
}

/// What is missing is listed once, with where it should be, and what is there is
/// not listed.
pub proof fn law_only_what_is_missing_is_listed(name: Seq<char>, p: PathView, present: bool)
    ensures
        present <==> paths::lacking(name, p, present).len() == 0,
        !present ==> paths::lacking(name, p, present).len() == 1 && paths::lacking(
            name,
            p,
            present,
        )[0].name == name && paths::lacking(name, p, present)[0].expected_at == p.spelled(),
{
}

/// A file is taken from the first root that has it, and expected under the
/// first root where none has.
pub proof fn law_files_are_taken_from_the_first_root(
    roots: Seq<PathView>,
    name: Seq<char>,
    present: Seq<bool>,
    k: int,
)
    requires
        roots.len() == present.len(),
        0 <= k <= present.len(),
        forall|j: int| 0 <= j < k ==> !#[trigger] present[j],
        k < present.len() ==> present[k],
    ensures
        k < present.len() ==> paths::found_at(roots, name, present) == roots[k].child(name),
        k == present.len() && k > 0 ==> paths::found_at(roots, name, present) == roots[0].child(
            name,
        ),
        k == 0 && present.len() == 0 ==> paths::found_at(roots, name, present).parts == seq![name]
            && paths::found_at(roots, name, present).root is None,
{
    lemma_first_present(present, 0, k);
}

proof fn lemma_first_present(present: Seq<bool>, i: int, k: int)
    requires
        0 <= i <= k <= present.len(),
        forall|j: int| i <= j < k ==> !#[trigger] present[j],
        k < present.len() ==> present[k],
    ensures
        k < present.len() ==> paths::first_present(present, i) == Some(k),
        k == present.len() ==> paths::first_present(present, i) is None,
    decreases k - i,
{
    if i < k {
        assert(!present[i]);
        lemma_first_present(present, i + 1, k);
    }
}

} // verus!
