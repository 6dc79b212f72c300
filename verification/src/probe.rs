//! Reading a movie's dimensions, duration and frame rate.
//!
//! Everything needed is in the stream report that ffmpeg prints when asked to
//! open a file with no output.

use vstd::prelude::*;
use vstd::slice::slice_subrange;
use vstd::string::StringExecFns;

use crate::args;
use crate::args::{Arg, Word};
use crate::numbers;
use crate::reading;
use crate::reading::Cut;

verus! {

/// What a movie is like. Times are milliseconds, rates thousandths.
#[derive(Debug, Clone, Copy, PartialEq, Eq, Structural)]
pub struct VideoInfo {
    pub width: i64,
    pub height: i64,
    pub duration: i64,
    /// Frames per second; nothing, where the report does not say.
    pub fps: i64,
}

// ---------------------------------------------------------------------------
// What a report says
// ---------------------------------------------------------------------------

/// The first of `n` answers that is one.
pub open spec fn first_some<A>(n: nat, f: spec_fn(int) -> Option<A>) -> Option<A>
    decreases n,
{
    if n == 0 {
        None
    } else {
        match first_some((n - 1) as nat, f) {
            Some(a) => Some(a),
            None => f(n - 1),
        }
    }
}

/// A text up to its last digit.
pub open spec fn to_last_digit(s: Seq<char>) -> Seq<char>
    decreases s.len(),
{
    if s.len() > 0 && !numbers::is_digit(s.last()) {
        to_last_digit(s.drop_last())
    } else {
        s
    }
}

/// The dimensions that a word such as `1280x720` gives. Anything under 16 is
/// not a picture: `0x1` is a stream id.
pub open spec fn dims(word: Seq<char>) -> Option<(int, int)> {
    let x = reading::first_cut(word, Cut::At('x'));
    if x >= word.len() {
        None
    } else {
        match (
            numbers::integer(word.take(x)),
            numbers::integer(to_last_digit(word.skip(x + 1))),
        ) {
            (Some(w), Some(h)) => if w >= 16 && h >= 16 {
                Some((w, h))
            } else {
                None
            },
            _ => None,
        }
    }
}

/// A time held to what a machine integer can count.
pub open spec fn held(ms: int) -> int {
    if ms > numbers::LARGEST {
        numbers::LARGEST as int
    } else if ms < -numbers::LARGEST {
        -numbers::LARGEST
    } else {
        ms
    }
}

/// A quotient to the nearest whole, and of two as near the one further from
/// zero.
pub open spec fn nearest(v: int, unit: int) -> int {
    if v >= 0 {
        (v + unit / 2) / unit
    } else {
        -((-v + unit / 2) / unit)
    }
}

/// What a millisecond is in the unit that times are added up in.
pub const FINE_MILLISECOND: i128 = 1_000_000_000_000_000;

/// The time that `hours:minutes:seconds` gives. The parts are multiplied and
/// added up before the whole is rounded.
pub open spec fn hms(v: Seq<char>) -> Option<int> {
    let parts = reading::pieces(v, Cut::At(':'));
    if parts.len() < 3 {
        None
    } else {
        match (
            numbers::fine_decimal(reading::trimmed(parts[0])),
            numbers::fine_decimal(parts[1]),
            numbers::fine_decimal(parts[2]),
        ) {
            (Some(h), Some(m), Some(s)) => Some(
                held(nearest(3600 * h + 60 * m + s, FINE_MILLISECOND as int)),
            ),
            _ => None,
        }
    }
}

/// The duration that a line gives.
pub open spec fn line_duration(line: Seq<char>) -> Option<int> {
    let t = reading::trimmed(line);
    if reading::holds_at(t, "Duration:"@, 0) {
        let rest = t.skip("Duration:"@.len() as int);
        hms(reading::trimmed(reading::pieces(rest, Cut::At(','))[0]))
    } else {
        None
    }
}

/// The dimensions that the words of a field give.
pub open spec fn field_dims(field: Seq<char>) -> Option<(int, int)> {
    let words = reading::pieces(field, Cut::White);
    first_some(words.len(), |i: int| dims(words[i]))
}

/// The frame rate that a field gives.
pub open spec fn field_fps(field: Seq<char>) -> Option<int> {
    let t = reading::trimmed(field);
    let at = t.len() - " fps"@.len();
    if reading::holds_at(t, " fps"@, at) {
        numbers::decimal(reading::trimmed(t.take(at)))
    } else {
        None
    }
}

/// Whether a line is about a video stream.
pub open spec fn about_video(line: Seq<char>) -> bool {
    reading::holds(reading::trimmed(line), ": Video:"@)
}

/// The dimensions that a line gives.
pub open spec fn line_dims(line: Seq<char>) -> Option<(int, int)> {
    if about_video(line) {
        let fields = reading::pieces(reading::trimmed(line), Cut::At(','));
        first_some(fields.len(), |i: int| field_dims(fields[i]))
    } else {
        None
    }
}

/// The frame rate that a line gives.
pub open spec fn line_fps(line: Seq<char>) -> Option<int> {
    if about_video(line) {
        let fields = reading::pieces(reading::trimmed(line), Cut::At(','));
        first_some(fields.len(), |i: int| field_fps(fields[i]))
    } else {
        None
    }
}

pub open spec fn report_duration(text: Seq<char>) -> Option<int> {
    let lines = reading::pieces(text, Cut::At('\n'));
    first_some(lines.len(), |i: int| line_duration(lines[i]))
}

pub open spec fn report_dims(text: Seq<char>) -> Option<(int, int)> {
    let lines = reading::pieces(text, Cut::At('\n'));
    first_some(lines.len(), |i: int| line_dims(lines[i]))
}

pub open spec fn report_fps(text: Seq<char>) -> Option<int> {
    let lines = reading::pieces(text, Cut::At('\n'));
    first_some(lines.len(), |i: int| line_fps(lines[i]))
}

// ---------------------------------------------------------------------------
// Reading it
// ---------------------------------------------------------------------------

/// A machine value for a mathematical one.
pub open spec fn same_number(r: Option<i64>, v: Option<int>) -> bool {
    match r {
        Some(a) => v == Some(a as int),
        None => v is None,
    }
}

pub open spec fn same_dims(r: Option<(i64, i64)>, v: Option<(int, int)>) -> bool {
    match r {
        Some((a, b)) => v == Some((a as int, b as int)),
        None => v is None,
    }
}

fn digits_end(s: &[char]) -> (out: &[char])
    ensures
        out@ == to_last_digit(s@),
{
    let mut n: usize = s.len();
    assert(s@.take(n as int) =~= s@);
    while n > 0 && !('0' <= s[n - 1] && s[n - 1] <= '9')
        invariant
            n <= s@.len(),
            to_last_digit(s@) == to_last_digit(s@.take(n as int)),
        decreases n,
    {
        assert(s@.take(n as int).drop_last() =~= s@.take(n - 1));
        n -= 1;
    }
    assert(s@.subrange(0, n as int) =~= s@.take(n as int));
    slice_subrange(s, 0, n)
}

/// Read a word such as `1280x720`.
pub fn parse_dims(field: &[char]) -> (r: Option<(i64, i64)>)
    ensures
        same_dims(r, dims(field@)),
{
    let n: usize = field.len();
    let x: usize = reading::find_cut(field, Cut::At('x'));
    if x >= n {
        return None;
    }
    let left: &[char] = slice_subrange(field, 0, x);
    assert(left@ =~= field@.take(x as int));
    let right: &[char] = slice_subrange(field, x + 1, n);
    assert(right@ =~= field@.skip(x + 1));
    match (numbers::read_integer(left), numbers::read_integer(digits_end(right))) {
        (Some(w), Some(h)) => {
            if w >= 16 && h >= 16 {
                Some((w, h))
            } else {
                None
            }
        },
        _ => None,
    }
}

/// Read `hours:minutes:seconds`.
pub fn parse_hms(v: &[char]) -> (r: Option<i64>)
    ensures
        same_number(r, hms(v@)),
{
    let parts: Vec<Vec<char>> = reading::cut_up(v, Cut::At(':'));
    let ghost all = reading::pieces(v@, Cut::At(':'));
    assert(parts@.len() == all.len());
    if parts.len() < 3 {
        return None;
    }
    assert(all[0] == parts@[0]@ && all[1] == parts@[1]@ && all[2] == parts@[2]@);
    let h: Option<i128> = numbers::read_fine_decimal(reading::trim(parts[0].as_slice()));
    let m: Option<i128> = numbers::read_fine_decimal(parts[1].as_slice());
    let s: Option<i128> = numbers::read_fine_decimal(parts[2].as_slice());
    match (h, m, s) {
        (Some(h), Some(m), Some(s)) => {
            let v: i128 = 3600 * h + 60 * m + s;
            let half: i128 = FINE_MILLISECOND / 2;
            let ms: i128 = if v >= 0 {
                (v + half) / FINE_MILLISECOND
            } else {
                -((-v + half) / FINE_MILLISECOND)
            };
            Some(
                if ms > numbers::LARGEST as i128 {
                    numbers::LARGEST
                } else if ms < -(numbers::LARGEST as i128) {
                    -numbers::LARGEST
                } else {
                    ms as i64
                },
            )
        },
        _ => None,
    }
}

fn read_duration(line: &[char]) -> (r: Option<i64>)
    ensures
        same_number(r, line_duration(line@)),
{
    let t: &[char] = reading::trim(line);
    if !reading::is_at(t, "Duration:", 0) {
        return None;
    }
    proof {
        reveal_strlit("Duration:");
    }
    let n: usize = t.len();
    let rest: &[char] = slice_subrange(t, 9, n);
    assert(rest@ =~= t@.skip(9));
    let fields: Vec<Vec<char>> = reading::cut_up(rest, Cut::At(','));
    let ghost all = reading::pieces(rest@, Cut::At(','));
    proof {
        lemma_pieces(rest@, Cut::At(','));
        assert(all[0] == fields@[0]@);
    }
    parse_hms(reading::trim(fields[0].as_slice()))
}

proof fn lemma_pieces(s: Seq<char>, cut: Cut)
    ensures
        reading::pieces(s, cut).len() > 0,
    decreases s.len(),
{
    if s.len() > 0 {
        lemma_pieces(s.drop_last(), cut);
    }
}

fn read_field_dims(field: &[char]) -> (r: Option<(i64, i64)>)
    ensures
        same_dims(r, field_dims(field@)),
{
    let words: Vec<Vec<char>> = reading::cut_up(field, Cut::White);
    let ghost all = reading::pieces(field@, Cut::White);
    let ghost f = |i: int| dims(all[i]);
    let n: usize = words.len();
    let mut found: Option<(i64, i64)> = None;
    let mut i: usize = 0;
    while i < n
        invariant
            i <= n,
            n == words@.len(),
            reading::views(words@) == all,
            f == (|i: int| dims(all[i])),
            same_dims(found, first_some(i as nat, f)),
        decreases n - i,
    {
        if found.is_none() {
            assert(all[i as int] == words@[i as int]@);
            found = parse_dims(words[i].as_slice());
        }
        i += 1;
    }
    found
}

fn read_field_fps(field: &[char]) -> (r: Option<i64>)
    ensures
        same_number(r, field_fps(field@)),
{
    let t: &[char] = reading::trim(field);
    let n: usize = t.len();
    proof {
        reveal_strlit(" fps");
    }
    if n < 4 || !reading::is_at(t, " fps", n - 4) {
        return None;
    }
    let rest: &[char] = slice_subrange(t, 0, n - 4);
    assert(rest@ =~= t@.take(n - 4));
    numbers::read_decimal(reading::trim(rest))
}

/// What a line about a video stream gives.
fn read_video(line: &[char]) -> (r: (Option<(i64, i64)>, Option<i64>))
    ensures
        same_dims(r.0, line_dims(line@)),
        same_number(r.1, line_fps(line@)),
{
    let t: &[char] = reading::trim(line);
    if !reading::is_in(t, ": Video:") {
        return (None, None);
    }
    let fields: Vec<Vec<char>> = reading::cut_up(t, Cut::At(','));
    let ghost all = reading::pieces(t@, Cut::At(','));
    let ghost f = |i: int| field_dims(all[i]);
    let ghost g = |i: int| field_fps(all[i]);
    let n: usize = fields.len();
    let mut found: Option<(i64, i64)> = None;
    let mut fps: Option<i64> = None;
    let mut i: usize = 0;
    while i < n
        invariant
            i <= n,
            n == fields@.len(),
            reading::views(fields@) == all,
            f == (|i: int| field_dims(all[i])),
            g == (|i: int| field_fps(all[i])),
            same_dims(found, first_some(i as nat, f)),
            same_number(fps, first_some(i as nat, g)),
        decreases n - i,
    {
        assert(all[i as int] == fields@[i as int]@);
        if found.is_none() {
            found = read_field_dims(fields[i].as_slice());
        }
        if fps.is_none() {
            fps = read_field_fps(fields[i].as_slice());
        }
        i += 1;
    }
    (found, fps)
}

/// Pull dimensions, duration and frame rate out of ffmpeg's stream report.
///
/// The frame rate only labels the plan. Nothing about coverage depends on it,
/// so a missing one is not worth refusing to scan over.
pub fn parse(text: &str) -> (r: Option<VideoInfo>)
    ensures
        r is Some <==> report_dims(text@) is Some && report_duration(text@) is Some,
        r matches Some(info) ==> {
            &&& report_dims(text@) == Some((info.width as int, info.height as int))
            &&& report_duration(text@) == Some(info.duration as int)
            &&& info.fps == match report_fps(text@) {
                Some(fps) => fps,
                None => 0,
            }
        },
{
    let chars: Vec<char> = reading::chars_of(text);
    let lines: Vec<Vec<char>> = reading::cut_up(chars.as_slice(), Cut::At('\n'));
    let ghost all = reading::pieces(text@, Cut::At('\n'));
    let ghost f = |i: int| line_duration(all[i]);
    let ghost g = |i: int| line_dims(all[i]);
    let ghost h = |i: int| line_fps(all[i]);
    let n: usize = lines.len();
    let mut duration: Option<i64> = None;
    let mut found: Option<(i64, i64)> = None;
    let mut fps: Option<i64> = None;
    let mut i: usize = 0;
    while i < n
        invariant
            i <= n,
            n == lines@.len(),
            reading::views(lines@) == all,
            f == (|i: int| line_duration(all[i])),
            g == (|i: int| line_dims(all[i])),
            h == (|i: int| line_fps(all[i])),
            same_number(duration, first_some(i as nat, f)),
            same_dims(found, first_some(i as nat, g)),
            same_number(fps, first_some(i as nat, h)),
        decreases n - i,
    {
        assert(all[i as int] == lines@[i as int]@);
        if duration.is_none() {
            duration = read_duration(lines[i].as_slice());
        }
        let (line_found, line_rate): (Option<(i64, i64)>, Option<i64>) = read_video(
            lines[i].as_slice(),
        );
        if found.is_none() {
            found = line_found;
        }
        if fps.is_none() {
            fps = line_rate;
        }
        i += 1;
    }
    match (found, duration) {
        (Some((width, height)), Some(duration)) => Some(
            VideoInfo {
                width,
                height,
                duration,
                fps: match fps {
                    Some(v) => v,
                    None => 0,
                },
            },
        ),
        _ => None,
    }
}

/// What a file that cannot be read is answered with.
pub open spec fn unreadable(name: Seq<char>) -> Seq<char> {
    "could not read video properties from "@ + name
}

/// The properties of a movie, given ffmpeg's stream report on it.
pub fn probe(report: &str, file_name: &str) -> (r: Result<VideoInfo, String>)
    ensures
        r is Ok <==> report_dims(report@) is Some && report_duration(report@) is Some,
        r matches Ok(info) ==> {
            &&& report_dims(report@) == Some((info.width as int, info.height as int))
            &&& report_duration(report@) == Some(info.duration as int)
            &&& info.fps == match report_fps(report@) {
                Some(fps) => fps,
                None => 0,
            }
        },
        r matches Err(e) ==> e@ == unreadable(file_name@),
{
    match parse(report) {
        Some(info) => Ok(info),
        None => {
            let mut e: String = "could not read video properties from ".to_owned();
            e.append(file_name);
            Err(e)
        },
    }
}

/// The command line that has ffmpeg report on a movie.
pub open spec fn probe_words() -> Seq<Word> {
    args::texts(seq!["-hide_banner", "-i"]).push(Word::Movie)
}

/// The command line that has ffmpeg report on a movie.
pub fn probe_args() -> (list: Vec<Arg>)
    ensures
        args::words(list@) == probe_words(),
{
    let mut list: Vec<Arg> = Vec::new();
    let head: [&str; 2] = ["-hide_banner", "-i"];
    args::push_texts(&mut list, head.as_slice());
    args::push_movie(&mut list);
    proof {
        assert(head@ =~= seq!["-hide_banner", "-i"]);
        assert(args::words(list@) =~= probe_words());
    }
    list
}

} // verus!
