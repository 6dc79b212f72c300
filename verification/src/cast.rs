//! Casting to a Chromecast, without ever handing it the original file.
//!
//! The device is pointed at a local HTTP server. That server does not serve
//! the movie: it serves the output of an ffmpeg transcode with the censor
//! filtergraph applied, so the cover is **burned into the pixels** before
//! anything leaves this machine.
//!
//! That is the whole design. If the device received the original file plus
//! instructions about what to hide, hiding it would be the device's decision,
//! and there would be something to bypass. This way there is not.
//!
//! Times are milliseconds.

use vstd::prelude::*;
use vstd::string::StringExecFns;

use crate::args;
use crate::args::{Arg, Word};
use crate::reading;
use crate::text;

verus! {

/// What Chromecasts announce themselves as.
pub const CHROMECAST_SERVICE: &'static str = "_googlecast._tcp.local.";

/// The receiver that every device has.
pub const DEFAULT_RECEIVER: &'static str = "CC1AD845";

/// The port that Chromecasts listen on.
pub const CAST_PORT: u16 = 8009;

/// What is streamed.
pub const CONTENT_TYPE: &'static str = "video/mp4";

// ---------------------------------------------------------------------------
// Moving windows to where a cast starts
// ---------------------------------------------------------------------------

/// A span of the movie with a rectangle covered.
#[derive(Debug, Clone, Copy, PartialEq, Eq, Structural)]
pub struct Window {
    pub start: i64,
    pub end: i64,
    pub x: i64,
    pub y: i64,
    pub w: i64,
    pub h: i64,
}

/// When a moment shows, counted from `offset`; nothing lies before that.
pub open spec fn moved_start(start: int, offset: int) -> int {
    if start > offset {
        start - offset
    } else {
        0
    }
}

/// Windows with their times counted from `offset`. Those that are over by then
/// are left out. Only time moves: moving the rectangle too would uncover the
/// subject.
pub open spec fn shifted(windows: Seq<Window>, offset: int) -> Seq<Window>
    decreases windows.len(),
{
    if offset <= 0 || windows.len() == 0 {
        windows
    } else {
        let before = shifted(windows.drop_last(), offset);
        let w = windows.last();
        if w.end > offset {
            before.push(
                Window {
                    start: moved_start(w.start as int, offset) as i64,
                    end: (w.end - offset) as i64,
                    ..w
                },
            )
        } else {
            before
        }
    }
}

/// Shift censor timings so they stay correct when casting from part way in.
///
/// ffmpeg is told to seek, so its clock restarts at zero while the plan's
/// timings are relative to the start of the movie.
pub fn shift_windows(windows: &[Window], offset: i64) -> (out: Vec<Window>)
    ensures
        out@ == shifted(windows@, offset as int),
{
    let n: usize = windows.len();
    let mut out: Vec<Window> = Vec::new();
    let mut i: usize = 0;
    assert(windows@.take(0) =~= Seq::empty());
    while i < n
        invariant
            i <= n,
            n == windows@.len(),
            out@ =~= shifted(windows@.take(i as int), offset as int),
        decreases n - i,
    {
        let w: Window = windows[i];
        assert(windows@.take(i + 1).drop_last() =~= windows@.take(i as int));
        assert(windows@.take(i + 1).last() == w);
        if offset <= 0 {
            out.push(w);
        } else if w.end > offset {
            let start: i64 = if w.start > offset {
                w.start - offset
            } else {
                0
            };
            out.push(Window { start, end: w.end - offset, x: w.x, y: w.y, w: w.w, h: w.h });
        }
        i += 1;
    }
    assert(windows@.take(n as int) =~= windows@);
    out
}

// ---------------------------------------------------------------------------
// The transcode
// ---------------------------------------------------------------------------

/// How the covered picture is encoded. Fragmented MP4 so playback can begin
/// before the file exists.
pub const ENCODING: [&'static str; 23] = [
    "-c:v",
    "libx264",
    "-preset",
    "veryfast",
    "-crf",
    "21",
    "-maxrate",
    "8M",
    "-bufsize",
    "16M",
    "-pix_fmt",
    "yuv420p",
    "-c:a",
    "aac",
    "-b:a",
    "160k",
    "-ac",
    "2",
    "-movflags",
    "frag_keyframe+empty_moov+default_base_moof",
    "-f",
    "mp4",
    "pipe:1",
];

/// Milliseconds in hundredths of a second, to the nearest one, and of two as
/// near the even one.
pub open spec fn hundredths(ms: int) -> int {
    let q = ms / 10;
    let r = ms % 10;
    if r > 5 || (r == 5 && q % 2 == 1) {
        q + 1
    } else {
        q
    }
}

/// Hundredths of a second as seconds with exactly two decimals.
pub open spec fn hundredths_text(h: int) -> Seq<char> {
    text::digits((h / 100) as nat) + "."@ + seq![text::digit(h / 10 % 10), text::digit(h % 10)]
}

/// The seek in front of the movie, if there is one.
pub open spec fn seek_words(start: int) -> Seq<Word> {
    if start > 0 {
        seq![Word::Text("-ss"@), Word::Text(hundredths_text(hundredths(start)))]
    } else {
        Seq::empty()
    }
}

/// What is taken out of the movie: the picture as it is where there is nothing
/// to cover, and else the output of the filtergraph alone.
pub open spec fn picture_words(graph: Seq<char>) -> Seq<Word> {
    if graph.len() == 0 {
        args::texts(seq!["-map", "0:v:0", "-map", "0:a:0?"])
    } else {
        seq![Word::Text("-filter_complex"@), Word::Text("[0:v]"@ + graph + "[vout]"@)]
            + args::texts(seq!["-map", "[vout]", "-map", "0:a:0?"])
    }
}

/// The command line that has ffmpeg write the covered movie.
pub open spec fn transcode_words(graph: Seq<char>, start: int) -> Seq<Word> {
    args::texts(seq!["-v", "error"]) + seek_words(start) + seq![Word::Text("-i"@), Word::Movie]
        + picture_words(graph) + args::texts(ENCODING@)
}

fn push_hundredths(out: &mut String, h: i64)
    requires
        h >= 0,
    ensures
        final(out)@ == old(out)@ + hundredths_text(h as int),
{
    text::push_digits(out, (h / 100) as u64);
    out.append(".");
    out.push(text::digit_char((h / 10 % 10) as u64));
    out.push(text::digit_char((h % 10) as u64));
    assert(out@ =~= old(out)@ + hundredths_text(h as int));
}

/// Milliseconds in hundredths of a second.
fn round_hundredths(ms: i64) -> (h: i64)
    requires
        ms >= 0,
    ensures
        h == hundredths(ms as int),
        h >= 0,
{
    let q: i64 = ms / 10;
    let r: i64 = ms % 10;
    if r > 5 || (r == 5 && q % 2 == 1) {
        q + 1
    } else {
        q
    }
}

/// How far a cast's clock is behind the movie's: what ffmpeg seeks to, to the
/// hundredth of a second that it is told.
pub open spec fn seek_time(start: int) -> int {
    if start > 0 {
        10 * hundredths(start)
    } else {
        0
    }
}

/// By how much a cast that starts at `start` has its graph shifted. Held to
/// what a machine integer can count, past which there is nothing to cast.
pub fn seek_offset(start: i64) -> (offset: i64)
    ensures
        offset == if seek_time(start as int) <= i64::MAX {
            seek_time(start as int)
        } else {
            i64::MAX as int
        },
{
    if start <= 0 {
        return 0;
    }
    let offset: i128 = 10 * round_hundredths(start) as i128;
    if offset <= 0x7fff_ffff_ffff_ffff {
        offset as i64
    } else {
        i64::MAX
    }
}

fn push_seek(list: &mut Vec<Arg>, start: i64)
    ensures
        args::words(final(list)@) == args::words(old(list)@) + seek_words(start as int),
{
    if start > 0 {
        let h: i64 = round_hundredths(start);
        let mut at: String = String::new();
        push_hundredths(&mut at, h);
        args::push_text(list, "-ss");
        args::push_text(list, at.as_str());
        assert(at@ =~= hundredths_text(hundredths(start as int)));
    }
    assert(args::words(list@) =~= args::words(old(list)@) + seek_words(start as int));
}

fn push_picture(list: &mut Vec<Arg>, graph: &str)
    ensures
        args::words(final(list)@) == args::words(old(list)@) + picture_words(graph@),
{
    if graph.is_empty() {
        let plain: [&str; 4] = ["-map", "0:v:0", "-map", "0:a:0?"];
        args::push_texts(list, plain.as_slice());
        assert(plain@ =~= seq!["-map", "0:v:0", "-map", "0:a:0?"]);
    } else {
        let mut filter: String = "[0:v]".to_owned();
        filter.append(graph);
        filter.append("[vout]");
        let covered: [&str; 4] = ["-map", "[vout]", "-map", "0:a:0?"];
        args::push_text(list, "-filter_complex");
        args::push_text(list, filter.as_str());
        args::push_texts(list, covered.as_slice());
        assert(covered@ =~= seq!["-map", "[vout]", "-map", "0:a:0?"]);
    }
    assert(args::words(list@) =~= args::words(old(list)@) + picture_words(graph@));
}

/// What is cast.
#[derive(Debug, Clone)]
pub struct CastConfig {
    /// Censor filtergraph, already shifted for `start`: by `seek_offset`, which
    /// is what ffmpeg seeks to.
    pub graph: String,
    pub start: i64,
}

/// The command line that has ffmpeg write the covered movie.
///
/// Seeking before the movie is the fast path; the graph has already been
/// shifted to match, so the cover still lands on the right frames.
pub fn transcode_args(cfg: &CastConfig) -> (list: Vec<Arg>)
    ensures
        args::words(list@) == transcode_words(cfg.graph@, cfg.start as int),
{
    let mut list: Vec<Arg> = Vec::new();
    let head: [&str; 2] = ["-v", "error"];
    args::push_texts(&mut list, head.as_slice());
    assert(head@ =~= seq!["-v", "error"]);
    assert(args::words(list@) =~= args::texts(seq!["-v", "error"]));
    push_seek(&mut list, cfg.start);
    let ghost before = args::words(list@);
    args::push_text(&mut list, "-i");
    args::push_movie(&mut list);
    assert(args::words(list@) =~= before + seq![Word::Text("-i"@), Word::Movie]);
    push_picture(&mut list, cfg.graph.as_str());
    args::push_texts(&mut list, ENCODING.as_slice());
    list
}

// ---------------------------------------------------------------------------
// The stream
// ---------------------------------------------------------------------------

/// Where the stream is to be had.
pub open spec fn stream_url_text(ip: Seq<char>, port: int) -> Seq<char> {
    "http://"@ + ip + ":"@ + text::int_text(port) + "/stream.mp4"@
}

/// Where the stream is to be had.
pub fn stream_url(ip: &str, port: u16) -> (url: String)
    ensures
        url@ == stream_url_text(ip@, port as int),
{
    let mut url: String = "http://".to_owned();
    url.append(ip);
    url.append(":");
    text::push_int(&mut url, port as i64);
    url.append("/stream.mp4");
    url
}

/// A host and a port as one address.
pub open spec fn address_text(host: Seq<char>, port: int) -> Seq<char> {
    host + ":"@ + text::int_text(port)
}

/// A host and a port as one address.
pub fn address(host: &str, port: u16) -> (out: String)
    ensures
        out@ == address_text(host@, port as int),
{
    let mut out: String = host.to_owned();
    out.append(":");
    text::push_int(&mut out, port as i64);
    out
}

/// What to do with a request.
#[derive(Debug, Clone, Copy, PartialEq, Eq, Structural)]
pub enum Reply {
    /// Answer no more requests.
    Stop,
    NotFound,
    /// Answer with a live transcode.
    Stream,
}

impl Reply {
    /// The HTTP status of an answer, if there is one.
    pub fn status(self) -> (code: Option<u16>)
        ensures
            code == match self {
                Reply::Stop => None::<u16>,
                Reply::NotFound => Some(404u16),
                Reply::Stream => Some(200u16),
            },
    {
        match self {
            Reply::Stop => None,
            Reply::NotFound => Some(404),
            Reply::Stream => Some(200),
        }
    }
}

/// Decide what to do with a request for a path.
pub fn route(url: &str, stopped: bool) -> (r: Reply)
    ensures
        r == if stopped {
            Reply::Stop
        } else if reading::holds_at(url@, "/stream"@, 0) {
            Reply::Stream
        } else {
            Reply::NotFound
        },
{
    if stopped {
        return Reply::Stop;
    }
    let chars: Vec<char> = reading::chars_of(url);
    if reading::is_at(chars.as_slice(), "/stream", 0) {
        Reply::Stream
    } else {
        Reply::NotFound
    }
}

} // verus!
