//! Where the picture goes, and the smallest player that shows one.
//!
//! The picture has a borderless window of its own behind the interface. The
//! interface reports where the picture should be; until it has, the picture
//! fills it.

use vstd::prelude::*;
use vstd::string::StringExecFns;

use crate::args;
use crate::args::{Arg, Word};
use crate::text;

verus! {

/// A rectangle in the interface window, in physical pixels.
#[derive(Debug, Clone, Copy, PartialEq, Eq, Structural)]
pub struct Rect {
    pub x: i32,
    pub y: i32,
    pub width: i32,
    pub height: i32,
}

pub open spec fn at_least_one(v: i32) -> i32 {
    if v >= 1 {
        v
    } else {
        1
    }
}

/// Where to put the picture: where the interface last said, or over all of the
/// interface, whose size is given. A window is never without a size.
pub fn stage_rect(last: Option<Rect>, width: i32, height: i32) -> (r: Rect)
    ensures
        r == match last {
            Some(rect) => Rect {
                x: rect.x,
                y: rect.y,
                width: at_least_one(rect.width),
                height: at_least_one(rect.height),
            },
            None => Rect {
                x: 0,
                y: 0,
                width: at_least_one(width),
                height: at_least_one(height),
            },
        },
{
    let wanted: Rect = match last {
        Some(rect) => rect,
        None => Rect { x: 0, y: 0, width, height },
    };
    Rect {
        x: wanted.x,
        y: wanted.y,
        width: if wanted.width >= 1 {
            wanted.width
        } else {
            1
        },
        height: if wanted.height >= 1 {
            wanted.height
        } else {
            1
        },
    }
}

/// What the smallest player tells mpv. It starts in a span that is covered, so
/// that a screenshot shows cover and controls together.
pub const SPIKE: [&'static str; 7] = [
    "--hwdec=no",
    "--keep-open=yes",
    "--osc=no",
    "--input-default-bindings=no",
    "--msg-level=all=error",
    "--force-seekable=yes",
    "--start=858",
];

/// The command line of the smallest player.
pub open spec fn spike_words(wid: int, conf: Option<String>) -> Seq<Word> {
    seq![Word::Movie, Word::Text("--wid="@ + text::int_text(wid))] + args::texts(SPIKE@)
        + match conf {
        Some(c) => seq![Word::Text("--include="@ + c@)],
        None => Seq::empty(),
    }
}

/// The command line of the smallest player.
pub fn spike_args(wid: i64, conf: &Option<String>) -> (list: Vec<Arg>)
    ensures
        args::words(list@) == spike_words(wid as int, *conf),
{
    let mut list: Vec<Arg> = Vec::new();
    let mut window: String = "--wid=".to_owned();
    text::push_int(&mut window, wid);
    args::push_movie(&mut list);
    args::push_text(&mut list, window.as_str());
    args::push_texts(&mut list, SPIKE.as_slice());
    let ghost before = args::words(list@);
    match conf {
        Some(c) => {
            let mut word: String = "--include=".to_owned();
            word.append(c.as_str());
            args::push_text(&mut list, word.as_str());
        },
        None => {},
    }
    assert(args::words(list@) =~= spike_words(wid as int, *conf));
    list
}

/// What came of starting the smallest player.
#[derive(Debug, Clone)]
pub enum SpikeOutcome {
    Started { wid: i64 },
    NoStage,
    NoConf(String),
    NoMpv(String),
}

impl SpikeOutcome {
    pub open spec fn message_text(self) -> Seq<char> {
        match self {
            SpikeOutcome::Started { wid } => "mpv started on wid "@ + text::int_text(wid as int),
            SpikeOutcome::NoStage => "video stage was never created"@,
            SpikeOutcome::NoConf(e) => "writing mpv conf: "@ + e@,
            SpikeOutcome::NoMpv(e) => "could not start mpv ("@ + e@ + "). Is it on PATH?"@,
        }
    }

    /// How the outcome is reported: as a success only when mpv has started.
    pub fn report(&self) -> (r: Result<String, String>)
        ensures
            r is Ok <==> self is Started,
            r matches Ok(m) ==> m@ == self.message_text(),
            r matches Err(m) ==> m@ == self.message_text(),
    {
        match self {
            SpikeOutcome::Started { wid } => {
                let mut m: String = "mpv started on wid ".to_owned();
                text::push_int(&mut m, *wid);
                Ok(m)
            },
            SpikeOutcome::NoStage => Err("video stage was never created".to_owned()),
            SpikeOutcome::NoConf(e) => {
                let mut m: String = "writing mpv conf: ".to_owned();
                m.append(e.as_str());
                Err(m)
            },
            SpikeOutcome::NoMpv(e) => {
                let mut m: String = "could not start mpv (".to_owned();
                m.append(e.as_str());
                m.append("). Is it on PATH?");
                Err(m)
            },
        }
    }
}

} // verus!
