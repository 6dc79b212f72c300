//! Driving mpv over its JSON IPC pipe.
//!
//! mpv runs as a child process rendering into a window of the player, and
//! everything after that happens over a pipe carrying one JSON object per
//! line. Here is what those lines say, either way, and what mpv is started
//! with. Times are milliseconds.

use vstd::prelude::*;
use vstd::string::StringExecFns;

use crate::args;
use crate::args::{Arg, Word};
use crate::json;
use crate::json::{Datum, DatumView, Json};
use crate::mpv_laws;
use crate::numbers;
use crate::reading;
use crate::text;

verus! {

// ---------------------------------------------------------------------------
// Starting mpv
// ---------------------------------------------------------------------------

/// What mpv is started with.
#[derive(Debug, Clone)]
pub struct MpvOptions {
    /// Native window handle mpv renders into.
    pub wid: i64,
    /// A conf file holding `vf=lavfi=[...]`.
    ///
    /// The filtergraph goes in a file rather than on the command line because
    /// it runs to tens of thousands of characters, well past the Windows
    /// command line limit.
    pub conf: Option<String>,
    pub start: Option<i64>,
    pub volume: i64,
    pub subtitle: Option<String>,
    pub sub_delay: i64,
    pub paused: bool,
}

/// What every mpv is told.
///
/// Hardware decoding is off because the censor filtergraph runs on CPU frames;
/// turning it on silently bypasses software filters on some drivers, which
/// would mean an uncovered picture.
pub const ALWAYS: [&'static str; 8] = [
    "--hwdec=no",
    "--keep-open=yes",
    "--osc=no",
    "--input-default-bindings=no",
    "--input-vo-keyboard=no",
    "--msg-level=all=error",
    "--force-seekable=yes",
    "--sub-auto=fuzzy",
];

/// A volume held to what mpv accepts.
pub open spec fn clamped_volume(volume: int) -> int {
    if volume < 0 {
        0
    } else if volume > 130 {
        130
    } else {
        volume
    }
}

fn clamp_volume(volume: i64) -> (v: i64)
    ensures
        v == clamped_volume(volume as int),
{
    if volume < 0 {
        0
    } else if volume > 130 {
        130
    } else {
        volume
    }
}

/// The name of the pipe that a player process uses for one of its mpvs.
pub open spec fn pipe_text(process: int, turn: int) -> Seq<char> {
    "\\\\.\\pipe\\scrim-"@ + text::int_text(process) + "-"@ + text::int_text(turn)
}

/// The name of the pipe that a player process uses for one of its mpvs.
pub fn pipe_name(process: u32, turn: u64) -> (name: String)
    ensures
        name@ == pipe_text(process as int, turn as int),
{
    let mut name: String = "\\\\.\\pipe\\scrim-".to_owned();
    text::push_int(&mut name, process as i64);
    name.append("-");
    text::push_digits(&mut name, turn);
    name
}

/// An option that is left out where there is nothing to say.
pub open spec fn option_word(name: Seq<char>, value: Option<String>) -> Seq<Word> {
    match value {
        Some(v) => seq![Word::Text(name + v@)],
        None => Seq::empty(),
    }
}

/// Where playback starts, unless at the start.
pub open spec fn start_word(start: Option<i64>) -> Seq<Word> {
    match start {
        Some(s) => if s > 0 {
            seq![Word::Text("--start="@ + text::seconds_text(s as int))]
        } else {
            Seq::empty()
        },
        None => Seq::empty(),
    }
}

/// How far subtitles are off, if they are.
pub open spec fn delay_word(delay: i64) -> Seq<Word> {
    if delay != 0 {
        seq![Word::Text("--sub-delay="@ + text::plain_text(delay as int))]
    } else {
        Seq::empty()
    }
}

/// The command line that mpv is started with.
pub open spec fn mpv_words(opts: MpvOptions, pipe: Seq<char>) -> Seq<Word> {
    seq![
        Word::Movie,
        Word::Text("--wid="@ + text::int_text(opts.wid as int)),
        Word::Text("--input-ipc-server="@ + pipe),
    ] + args::texts(ALWAYS@) + seq![
        Word::Text("--volume="@ + text::int_text(clamped_volume(opts.volume as int))),
        Word::Text(
            "--pause="@ + if opts.paused {
                "yes"@
            } else {
                "no"@
            },
        ),
    ] + option_word("--include="@, opts.conf) + start_word(opts.start) + option_word(
        "--sub-file="@,
        opts.subtitle,
    ) + delay_word(opts.sub_delay)
}

fn push_option(list: &mut Vec<Arg>, name: &str, value: &Option<String>)
    ensures
        args::words(final(list)@) == args::words(old(list)@) + option_word(name@, *value),
{
    match value {
        Some(v) => {
            let mut word: String = name.to_owned();
            word.append(v.as_str());
            args::push_text(list, word.as_str());
        },
        None => {},
    }
    assert(args::words(list@) =~= args::words(old(list)@) + option_word(name@, *value));
}

fn push_start(list: &mut Vec<Arg>, start: Option<i64>)
    ensures
        args::words(final(list)@) == args::words(old(list)@) + start_word(start),
{
    match start {
        Some(s) => {
            if s > 0 {
                let mut word: String = "--start=".to_owned();
                text::push_seconds(&mut word, s);
                args::push_text(list, word.as_str());
            }
        },
        None => {},
    }
    assert(args::words(list@) =~= args::words(old(list)@) + start_word(start));
}

fn push_delay(list: &mut Vec<Arg>, delay: i64)
    ensures
        args::words(final(list)@) == args::words(old(list)@) + delay_word(delay),
{
    if delay != 0 {
        let mut word: String = "--sub-delay=".to_owned();
        text::push_plain(&mut word, delay);
        args::push_text(list, word.as_str());
    }
    assert(args::words(list@) =~= args::words(old(list)@) + delay_word(delay));
}

/// The command line that mpv is started with.
pub fn mpv_args(opts: &MpvOptions, pipe: &str) -> (list: Vec<Arg>)
    ensures
        args::words(list@) == mpv_words(*opts, pipe@),
{
    let mut list: Vec<Arg> = Vec::new();
    let mut wid: String = "--wid=".to_owned();
    text::push_int(&mut wid, opts.wid);
    let mut server: String = "--input-ipc-server=".to_owned();
    server.append(pipe);
    let mut volume: String = "--volume=".to_owned();
    text::push_int(&mut volume, clamp_volume(opts.volume));
    let mut pause: String = "--pause=".to_owned();
    pause.append(
        if opts.paused {
            "yes"
        } else {
            "no"
        },
    );
    args::push_movie(&mut list);
    args::push_text(&mut list, wid.as_str());
    args::push_text(&mut list, server.as_str());
    args::push_texts(&mut list, ALWAYS.as_slice());
    args::push_text(&mut list, volume.as_str());
    args::push_text(&mut list, pause.as_str());
    let ghost head = args::words(list@);
    proof {
        assert(head =~= seq![
            Word::Movie,
            Word::Text("--wid="@ + text::int_text(opts.wid as int)),
            Word::Text("--input-ipc-server="@ + pipe@),
        ] + args::texts(ALWAYS@) + seq![
            Word::Text("--volume="@ + text::int_text(clamped_volume(opts.volume as int))),
            Word::Text(
                "--pause="@ + if opts.paused {
                    "yes"@
                } else {
                    "no"@
                },
            ),
        ]);
    }
    push_option(&mut list, "--include=", &opts.conf);
    push_start(&mut list, opts.start);
    push_option(&mut list, "--sub-file=", &opts.subtitle);
    push_delay(&mut list, opts.sub_delay);
    list
}

/// The conf file that holds a filtergraph.
pub open spec fn conf_text(graph: Seq<char>) -> Seq<char> {
    "vf=lavfi=["@ + graph + "]\nhwdec=no\n"@
}

/// The conf file that holds a filtergraph.
pub fn conf_file(graph: &str) -> (out: String)
    ensures
        out@ == conf_text(graph@),
{
    let mut out: String = "vf=lavfi=[".to_owned();
    out.append(graph);
    out.append("]\nhwdec=no\n");
    out
}

// ---------------------------------------------------------------------------
// Reaching it, and letting it go
// ---------------------------------------------------------------------------

/// Why there is no mpv.
#[derive(Debug, Clone)]
pub enum MpvError {
    Spawn(String),
    Connect(String),
}

impl MpvError {
    /// The message of an error, as shown to the viewer.
    pub open spec fn message_text(self) -> Seq<char> {
        match self {
            MpvError::Spawn(e) => "could not start mpv: "@ + e@,
            MpvError::Connect(e) => "could not reach mpv's IPC pipe: "@ + e@,
        }
    }

    /// The message of this error, as shown to the viewer.
    pub fn message(&self) -> (out: String)
        ensures
            out@ == self.message_text(),
    {
        match self {
            MpvError::Spawn(e) => {
                let mut out: String = "could not start mpv: ".to_owned();
                out.append(e.as_str());
                out
            },
            MpvError::Connect(e) => {
                let mut out: String = "could not reach mpv's IPC pipe: ".to_owned();
                out.append(e.as_str());
                out
            },
        }
    }
}

/// How often to try the pipe. mpv creates it once it is up.
pub const CONNECT_TRIES: u32 = 150;

/// Milliseconds to wait between two tries.
pub const CONNECT_WAIT: u64 = 40;

/// What to do after the pipe could not be opened.
#[derive(Debug, Clone)]
pub enum ConnectStep {
    /// Wait, then try again.
    Retry,
    Fail(MpvError),
}

/// What to do after try number `tries` has failed, counted from one. `exited`
/// is how mpv ended, if it has.
pub fn connect_step(tries: u32, exited: Option<String>) -> (step: ConnectStep)
    ensures
        match exited {
            Some(status) => step matches ConnectStep::Fail(MpvError::Connect(e)) && e@
                == "mpv exited with "@ + status@ + " before its pipe opened"@,
            None => if tries < CONNECT_TRIES {
                step is Retry
            } else {
                step matches ConnectStep::Fail(MpvError::Connect(e)) && e@
                    == "timed out waiting for the pipe"@
            },
        },
{
    match exited {
        Some(status) => {
            let mut e: String = "mpv exited with ".to_owned();
            e.append(status.as_str());
            e.append(" before its pipe opened");
            ConnectStep::Fail(MpvError::Connect(e))
        },
        None => {
            if tries < CONNECT_TRIES {
                ConnectStep::Retry
            } else {
                ConnectStep::Fail(
                    MpvError::Connect("timed out waiting for the pipe".to_owned()),
                )
            }
        },
    }
}

/// Milliseconds mpv gets to quit by itself.
pub const STOP_DEADLINE: u64 = 2000;

/// Milliseconds to wait between two looks at it.
pub const STOP_WAIT: u64 = 50;

/// What a look at mpv showed.
#[derive(Debug, Clone, Copy, PartialEq, Eq, Structural)]
pub enum ChildState {
    Exited,
    Running,
    Unknown,
}

/// What to do about an mpv that was asked to quit.
#[derive(Debug, Clone, Copy, PartialEq, Eq, Structural)]
pub enum StopStep {
    Done,
    /// Wait, then look again.
    Wait,
    Kill,
}

/// Decide what to do about an mpv that was asked to quit `waited` milliseconds
/// ago.
pub fn stop_step(state: ChildState, waited: u64) -> (step: StopStep)
    ensures
        step == match state {
            ChildState::Exited => StopStep::Done,
            ChildState::Running => if waited < STOP_DEADLINE {
                StopStep::Wait
            } else {
                StopStep::Kill
            },
            ChildState::Unknown => StopStep::Kill,
        },
{
    match state {
        ChildState::Exited => StopStep::Done,
        ChildState::Running => {
            if waited < STOP_DEADLINE {
                StopStep::Wait
            } else {
                StopStep::Kill
            }
        },
        ChildState::Unknown => StopStep::Kill,
    }
}

// ---------------------------------------------------------------------------
// What mpv says
// ---------------------------------------------------------------------------

/// Everything the player needs to hear about from mpv.
#[derive(Debug, Clone, Copy, PartialEq, Eq, Structural)]
pub enum MpvEvent {
    TimePos { seconds: i64 },
    Duration { seconds: i64 },
    Paused { paused: bool },
    EndOfFile,
    /// mpv is gone, whether it was asked to go or not.
    Exited,
}

/// The time that a scalar gives.
pub open spec fn time_of(d: DatumView) -> Option<int> {
    match d {
        DatumView::Number(s) => numbers::decimal(s),
        _ => None,
    }
}

/// What the change of a property tells the player.
pub open spec fn change_event(name: Seq<char>, data: DatumView) -> Option<MpvEvent> {
    if name == "time-pos"@ {
        match time_of(data) {
            Some(t) => Some(MpvEvent::TimePos { seconds: t as i64 }),
            None => None,
        }
    } else if name == "duration"@ {
        match time_of(data) {
            Some(t) => Some(MpvEvent::Duration { seconds: t as i64 }),
            None => None,
        }
    } else if name == "pause"@ {
        match data {
            DatumView::Flag(paused) => Some(MpvEvent::Paused { paused }),
            _ => None,
        }
    } else if name == "eof-reached"@ {
        match data {
            DatumView::Flag(true) => Some(MpvEvent::EndOfFile),
            _ => None,
        }
    } else {
        None
    }
}

/// What the fields of a message tell the player.
pub open spec fn event_of(
    event: Option<DatumView>,
    name: Option<DatumView>,
    data: Option<DatumView>,
) -> Option<MpvEvent> {
    match event {
        Some(DatumView::Text(kind)) => if kind == "property-change"@ {
            match (name, data) {
                (Some(DatumView::Text(n)), Some(d)) => change_event(n, d),
                _ => None,
            }
        } else if kind == "end-file"@ {
            Some(MpvEvent::EndOfFile)
        } else {
            None
        },
        _ => None,
    }
}

fn same(a: &String, b: &str) -> (r: bool)
    ensures
        r == (a@ == b@),
{
    *a == b.to_owned()
}

fn read_time(d: &Datum) -> (r: Option<i64>)
    ensures
        r is Some <==> time_of(d@) is Some,
        r matches Some(t) ==> time_of(d@) == Some(t as int),
{
    match d {
        Datum::Number(s) => {
            let chars: Vec<char> = reading::chars_of(s.as_str());
            numbers::read_decimal(chars.as_slice())
        },
        _ => None,
    }
}

fn read_change(name: &String, data: &Datum) -> (r: Option<MpvEvent>)
    ensures
        r == change_event(name@, data@),
{
    if same(name, "time-pos") {
        match read_time(data) {
            Some(seconds) => Some(MpvEvent::TimePos { seconds }),
            None => None,
        }
    } else if same(name, "duration") {
        match read_time(data) {
            Some(seconds) => Some(MpvEvent::Duration { seconds }),
            None => None,
        }
    } else if same(name, "pause") {
        match data {
            Datum::Flag(paused) => Some(MpvEvent::Paused { paused: *paused }),
            _ => None,
        }
    } else if same(name, "eof-reached") {
        match data {
            Datum::Flag(true) => Some(MpvEvent::EndOfFile),
            _ => None,
        }
    } else {
        None
    }
}

/// What a message tells the player, given its fields.
pub fn read_event(event: &Option<Datum>, name: &Option<Datum>, data: &Option<Datum>) -> (r: Option<
    MpvEvent,
>)
    ensures
        r == event_of(json::datum_view(*event), json::datum_view(*name), json::datum_view(*data)),
{
    match event {
        Some(Datum::Text(kind)) => {
            if same(kind, "property-change") {
                match (name, data) {
                    (Some(Datum::Text(n)), Some(d)) => read_change(n, d),
                    _ => None,
                }
            } else if same(kind, "end-file") {
                Some(MpvEvent::EndOfFile)
            } else {
                None
            }
        },
        _ => None,
    }
}

/// What a line from mpv tells the player.
pub fn decode(line: &str) -> (r: Option<MpvEvent>)
    ensures
        r == event_of(
            json::field_of(line@, "event"@),
            json::field_of(line@, "name"@),
            json::field_of(line@, "data"@),
        ),
{
    let event: Option<Datum> = json::field(line, "event");
    let name: Option<Datum> = json::field(line, "name");
    let data: Option<Datum> = json::field(line, "data");
    read_event(&event, &name, &data)
}

// ---------------------------------------------------------------------------
// What mpv is told
// ---------------------------------------------------------------------------

/// A part of a command.
#[derive(Debug, Clone)]
pub enum Item {
    Text(String),
    Number(i64),
    /// A time, spelled in seconds.
    Seconds(i64),
    Flag(bool),
    /// Anything else: null, a list, an object.
    Document(Json),
}

/// A part of a command as a mathematical value.
pub enum ItemView {
    Text(Seq<char>),
    Number(int),
    Seconds(int),
    Flag(bool),
    Document(Seq<char>),
}

impl View for Item {
    type V = ItemView;

    open spec fn view(&self) -> ItemView {
        match self {
            Item::Text(s) => ItemView::Text(s@),
            Item::Number(n) => ItemView::Number(*n as int),
            Item::Seconds(t) => ItemView::Seconds(*t as int),
            Item::Flag(b) => ItemView::Flag(*b),
            Item::Document(j) => ItemView::Document(j@),
        }
    }
}

impl ItemView {
    /// How a part is spelled in JSON.
    pub open spec fn spelled(self) -> Seq<char> {
        match self {
            ItemView::Text(s) => json::quoted(s),
            ItemView::Number(n) => text::int_text(n),
            ItemView::Seconds(t) => text::decimal_text(t),
            ItemView::Flag(b) => if b {
                "true"@
            } else {
                "false"@
            },
            ItemView::Document(s) => s,
        }
    }
}

/// Parts with commas between them.
pub open spec fn items_text(items: Seq<ItemView>) -> Seq<char>
    decreases items.len(),
{
    if items.len() == 0 {
        Seq::empty()
    } else if items.len() == 1 {
        items[0].spelled()
    } else {
        items_text(items.drop_last()) + ","@ + items.last().spelled()
    }
}

/// The line that tells mpv a command.
pub open spec fn command_text(items: Seq<ItemView>) -> Seq<char> {
    "{\"command\":["@ + items_text(items) + "]}"@
}

pub open spec fn item_views(items: Seq<Item>) -> Seq<ItemView> {
    Seq::new(items.len(), |i: int| items[i]@)
}

fn push_item(out: &mut String, item: &Item)
    ensures
        final(out)@ == old(out)@ + item@.spelled(),
        mpv_laws::document_on_one_line(item@),
{
    match item {
        Item::Text(s) => {
            let q: String = json::quote(s.as_str());
            out.append(q.as_str());
        },
        Item::Number(n) => {
            text::push_int(out, *n);
        },
        Item::Seconds(t) => {
            text::push_decimal(out, *t);
        },
        Item::Flag(b) => {
            out.append(
                if *b {
                    "true"
                } else {
                    "false"
                },
            );
        },
        Item::Document(j) => {
            out.append(j.spelled());
        },
    }
}

/// The line that tells mpv a command.
pub fn command_line(items: &Vec<Item>) -> (line: String)
    ensures
        line@ == command_text(item_views(items@)),
        json::one_line(line@),
{
    let ghost all = item_views(items@);
    let n: usize = items.len();
    let mut list: String = String::new();
    let mut i: usize = 0;
    assert(all.take(0) =~= Seq::empty());
    while i < n
        invariant
            i <= n,
            n == items@.len(),
            all == item_views(items@),
            list@ == items_text(all.take(i as int)),
            forall|k: int| 0 <= k < i ==> mpv_laws::document_on_one_line(#[trigger] all[k]),
        decreases n - i,
    {
        assert(all.take(i + 1).drop_last() =~= all.take(i as int));
        assert(all.take(i + 1).last() == items@[i as int]@);
        let ghost before = list@;
        if i > 0 {
            list.append(",");
        }
        assert(all[i as int] == items@[i as int]@);
        push_item(&mut list, &items[i]);
        assert(list@ =~= items_text(all.take(i + 1)));
        i += 1;
    }
    assert(all.take(n as int) =~= all);
    proof {
        mpv_laws::law_command_is_one_line(all);
    }
    let mut line: String = "{\"command\":[".to_owned();
    line.append(list.as_str());
    line.append("]}");
    line
}

/// A running mpv, as far as it is told what to do: the lines that wait to be
/// written to its pipe.
#[derive(Debug, Clone)]
pub struct Mpv {
    pub queue: Vec<String>,
    /// Distinguishes a deliberate shutdown from mpv dying on its own, so the
    /// player does not report a crash when the user pressed stop.
    pub stopping: bool,
}

/// Lines as mathematical values.
pub open spec fn line_views(lines: Seq<String>) -> Seq<Seq<char>> {
    Seq::new(lines.len(), |i: int| lines[i]@)
}

/// Whether one line, and nothing else, was queued.
pub open spec fn queued(before: Mpv, after: Mpv, line: Seq<char>) -> bool {
    &&& line_views(after.queue@) == line_views(before.queue@).push(line)
    &&& after.stopping == before.stopping
}

/// The command that sets a property.
pub open spec fn setting(name: Seq<char>, value: ItemView) -> Seq<ItemView> {
    seq![ItemView::Text("set_property"@), ItemView::Text(name), value]
}

/// The properties that the player follows.
pub const OBSERVED: [&'static str; 4] = ["time-pos", "duration", "pause", "eof-reached"];

/// The line that has mpv report a property.
pub open spec fn observing(k: int) -> Seq<char> {
    command_text(
        seq![
            ItemView::Text("observe_property"@),
            ItemView::Number(k + 1),
            ItemView::Text(OBSERVED@[k]@),
        ],
    )
}

/// What a filtergraph is handed to mpv as: an empty one as nothing at all,
/// which clears the filter.
pub open spec fn filter_value(graph: Seq<char>) -> Seq<char> {
    if graph.len() == 0 {
        Seq::empty()
    } else {
        "lavfi=["@ + graph + "]"@
    }
}

impl Mpv {
    /// An mpv that has just come up: it is asked to report what the player
    /// follows.
    pub fn started() -> (mpv: Mpv)
        ensures
            !mpv.stopping,
            line_views(mpv.queue@) == seq![observing(0), observing(1), observing(2), observing(3)],
    {
        let mut mpv: Mpv = Mpv { queue: Vec::new(), stopping: false };
        let mut k: usize = 0;
        assert(line_views(mpv.queue@) =~= Seq::new(0, |i: int| observing(i)));
        while k < 4
            invariant
                k <= 4,
                !mpv.stopping,
                line_views(mpv.queue@) == Seq::new(k as nat, |i: int| observing(i)),
            decreases 4 - k,
        {
            let items: Vec<Item> = vec![
                Item::Text("observe_property".to_owned()),
                Item::Number(k as i64 + 1),
                Item::Text(OBSERVED[k].to_owned()),
            ];
            assert(item_views(items@) =~= seq![
                ItemView::Text("observe_property"@),
                ItemView::Number(k + 1),
                ItemView::Text(OBSERVED@[k as int]@),
            ]);
            mpv.command(&items);
            assert(line_views(mpv.queue@) =~= Seq::new((k + 1) as nat, |i: int| observing(i)));
            k += 1;
        }
        assert(line_views(mpv.queue@) =~= seq![
            observing(0),
            observing(1),
            observing(2),
            observing(3),
        ]);
        mpv
    }

    /// Queue a command.
    pub fn command(&mut self, command: &Vec<Item>)
        ensures
            queued(*old(self), *final(self), command_text(item_views(command@))),
    {
        self.queue.push(command_line(command));
        assert(line_views(self.queue@) =~= line_views(old(self).queue@).push(
            command_text(item_views(command@)),
        ));
    }

    /// Take the lines that wait to be written.
    pub fn take_queue(&mut self) -> (lines: Vec<String>)
        ensures
            lines@ == old(self).queue@,
            final(self).queue@.len() == 0,
            final(self).stopping == old(self).stopping,
    {
        let mut lines: Vec<String> = Vec::new();
        lines.append(&mut self.queue);
        assert(lines@ =~= old(self).queue@);
        lines
    }

    pub fn set_property(&mut self, name: &str, value: Item)
        ensures
            queued(*old(self), *final(self), command_text(setting(name@, value@))),
    {
        let ghost v = value@;
        let items: Vec<Item> = vec![
            Item::Text("set_property".to_owned()),
            Item::Text(name.to_owned()),
            value,
        ];
        assert(item_views(items@) =~= setting(name@, v));
        self.command(&items);
    }

    pub fn toggle_pause(&mut self)
        ensures
            queued(
                *old(self),
                *final(self),
                command_text(seq![ItemView::Text("cycle"@), ItemView::Text("pause"@)]),
            ),
    {
        let items: Vec<Item> = vec![
            Item::Text("cycle".to_owned()),
            Item::Text("pause".to_owned()),
        ];
        assert(item_views(items@) =~= seq![ItemView::Text("cycle"@), ItemView::Text("pause"@)]);
        self.command(&items);
    }

    pub fn set_paused(&mut self, paused: bool)
        ensures
            queued(
                *old(self),
                *final(self),
                command_text(setting("pause"@, ItemView::Flag(paused))),
            ),
    {
        self.set_property("pause", Item::Flag(paused));
    }

    pub fn set_volume(&mut self, volume: i64)
        ensures
            queued(
                *old(self),
                *final(self),
                command_text(
                    setting("volume"@, ItemView::Number(clamped_volume(volume as int))),
                ),
            ),
    {
        self.set_property("volume", Item::Number(clamp_volume(volume)));
    }

    /// Seek while the handle is moving. Keyframe seeks are near instant, which
    /// is what makes scrubbing feel live; the exact seek lands on release.
    pub fn seek_scrub(&mut self, seconds: i64)
        ensures
            queued(
                *old(self),
                *final(self),
                command_text(
                    seq![
                        ItemView::Text("seek"@),
                        ItemView::Seconds(seconds as int),
                        ItemView::Text("absolute+keyframes"@),
                    ],
                ),
            ),
    {
        let items: Vec<Item> = vec![
            Item::Text("seek".to_owned()),
            Item::Seconds(seconds),
            Item::Text("absolute+keyframes".to_owned()),
        ];
        assert(item_views(items@) =~= seq![
            ItemView::Text("seek"@),
            ItemView::Seconds(seconds as int),
            ItemView::Text("absolute+keyframes"@),
        ]);
        self.command(&items);
    }

    pub fn seek_exact(&mut self, seconds: i64)
        ensures
            queued(
                *old(self),
                *final(self),
                command_text(setting("time-pos"@, ItemView::Seconds(seconds as int))),
            ),
    {
        self.set_property("time-pos", Item::Seconds(seconds));
    }

    /// Swap the censor filtergraph on a playing movie, with no restart and no
    /// rescan. An empty graph removes filtering entirely.
    pub fn set_filtergraph(&mut self, graph: &str)
        ensures
            queued(
                *old(self),
                *final(self),
                command_text(
                    seq![
                        ItemView::Text("vf"@),
                        ItemView::Text("set"@),
                        ItemView::Text(filter_value(graph@)),
                    ],
                ),
            ),
    {
        let mut value: String = String::new();
        if !graph.is_empty() {
            value.append("lavfi=[");
            value.append(graph);
            value.append("]");
        }
        assert(value@ =~= filter_value(graph@));
        let items: Vec<Item> = vec![
            Item::Text("vf".to_owned()),
            Item::Text("set".to_owned()),
            Item::Text(value),
        ];
        assert(item_views(items@) =~= seq![
            ItemView::Text("vf"@),
            ItemView::Text("set"@),
            ItemView::Text(filter_value(graph@)),
        ]);
        self.command(&items);
    }

    pub fn add_subtitle(&mut self, path: &str)
        ensures
            queued(
                *old(self),
                *final(self),
                command_text(
                    seq![
                        ItemView::Text("sub-add"@),
                        ItemView::Text(path@),
                        ItemView::Text("select"@),
                    ],
                ),
            ),
    {
        let items: Vec<Item> = vec![
            Item::Text("sub-add".to_owned()),
            Item::Text(path.to_owned()),
            Item::Text("select".to_owned()),
        ];
        assert(item_views(items@) =~= seq![
            ItemView::Text("sub-add"@),
            ItemView::Text(path@),
            ItemView::Text("select"@),
        ]);
        self.command(&items);
    }

    pub fn set_sub_delay(&mut self, seconds: i64)
        ensures
            queued(
                *old(self),
                *final(self),
                command_text(setting("sub-delay"@, ItemView::Seconds(seconds as int))),
            ),
    {
        self.set_property("sub-delay", Item::Seconds(seconds));
    }

    pub fn is_stopping(&self) -> (r: bool)
        ensures
            r == self.stopping,
    {
        self.stopping
    }

    /// Ask mpv to quit.
    pub fn stop(&mut self)
        ensures
            final(self).stopping,
            line_views(final(self).queue@) == line_views(old(self).queue@).push(
                command_text(seq![ItemView::Text("quit"@)]),
            ),
    {
        self.stopping = true;
        let items: Vec<Item> = vec![Item::Text("quit".to_owned())];
        assert(item_views(items@) =~= seq![ItemView::Text("quit"@)]);
        self.command(&items);
    }
}

} // verus!
