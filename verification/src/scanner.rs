//! The linear scanner.
//!
//! It walks a movie once at three frames a second, much faster than playback,
//! and publishes results as it goes so live mode can start playing before the
//! scan finishes.
//!
//! The **frontier** is the point the scanner has reached. Everything before it
//! has been looked at; everything after it has not. Live playback is fenced
//! against the frontier, and a plan is only complete when the frontier reaches
//! the end of the movie.

use vstd::prelude::*;
use vstd::string::StringExecFns;

use crate::args;
use crate::args::{Arg, Word};
use crate::nudenet;
use crate::plan::DetBox;
use crate::probe::VideoInfo;
use crate::text;

verus! {

/// Frames per second fed to the detector.
pub const SAMPLE_FPS: i64 = 3;

/// Confidence cutoff, in thousandths.
pub const THRESHOLD: i64 = 550;

/// Detections weaker than this are not written down at all: 0.35 as a score of
/// the model, to the nearest single-precision number.
///
/// Deliberately below the covering threshold. Plans store what was *seen*, and
/// coverage is derived from them afterwards, so recording a margin below the
/// cutoff is what lets someone lower the threshold later and have the extra
/// detections already be there.
pub const RECORD_FLOOR: i64 = 1_503_238_528;

/// The detector input is capped at this width to keep the pipe cheap.
pub const MAX_DETECT_WIDTH: i64 = 1280;

/// More sampled frames than a movie can have.
pub const FRAME_LIMIT: u64 = 0x100_0000_0000;

/// What a plan names as its maker.
pub const GENERATOR: &'static str = "scrim 0.1.0";

// ---------------------------------------------------------------------------
// Sizes
// ---------------------------------------------------------------------------

pub open spec fn even_part(v: int) -> int {
    v - v % 2
}

pub open spec fn at_least_two(v: int) -> int {
    if v >= 2 {
        v
    } else {
        2
    }
}

/// The width of the frames the detector gets, before it is kept from vanishing.
pub open spec fn capped_width(width: int) -> int {
    even_part(
        if width <= MAX_DETECT_WIDTH {
            width
        } else {
            MAX_DETECT_WIDTH as int
        },
    )
}

/// The size of the frames the detector gets: as wide as the movie or the cap,
/// in the movie's aspect, and even, because odd sizes break chroma
/// subsampling.
pub open spec fn detect_dims(width: int, height: int) -> (int, int) {
    let w = capped_width(width);
    (at_least_two(w), at_least_two(even_part(height * w / width)))
}

/// The detector runs on a smaller frame; boxes are scaled back afterwards.
pub fn detect_size(info: &VideoInfo) -> (size: (i64, i64))
    requires
        info.width > 0,
    ensures
        (size.0 as int, size.1 as int) == detect_dims(info.width as int, info.height as int),
        size.0 % 2 == 0,
        size.1 % 2 == 0,
        2 <= size.0 <= MAX_DETECT_WIDTH,
        2 <= size.1,
{
    let capped: i64 = if info.width <= MAX_DETECT_WIDTH {
        info.width
    } else {
        MAX_DETECT_WIDTH
    };
    let w: i64 = capped - capped % 2;
    let width: i64 = if w >= 2 {
        w
    } else {
        2
    };
    if info.height <= 0 {
        assert(info.height * w <= 0) by (nonlinear_arith)
            requires
                info.height <= 0,
                w >= 0,
        ;
        assert(info.height * w / (info.width as int) <= 0) by (nonlinear_arith)
            requires
                info.height * w <= 0,
                info.width > 0,
        ;
        return (width, 2);
    }
    assert(0 <= info.height * w <= info.height * info.width) by (nonlinear_arith)
        requires
            0 <= w <= info.width,
            0 < info.height,
    ;
    assert(info.height * info.width <= 0x4000_0000_0000_0000_0000_0000_0000_0000)
        by (nonlinear_arith)
        requires
            0 <= info.width <= 0x7fff_ffff_ffff_ffff,
            0 < info.height <= 0x7fff_ffff_ffff_ffff,
    ;
    let product: i128 = info.height as i128 * w as i128;
    assert(0 <= product / info.width as i128 <= info.height) by (nonlinear_arith)
        requires
            0 <= product <= info.height * info.width,
            info.width > 0,
            info.height > 0,
    ;
    let h: i128 = product / info.width as i128;
    let even: i64 = (h - h % 2) as i64;
    (
        width,
        if even >= 2 {
            even
        } else {
            2
        },
    )
}

/// How many bytes a frame of the detector has.
pub fn frame_bytes(width: i64, height: i64) -> (n: usize)
    requires
        width >= 0,
        height >= 0,
        width * height * 3 <= i64::MAX,
        width * height * 3 <= usize::MAX,
    ensures
        n == width * height * 3,
{
    assert(0 <= width * height) by (nonlinear_arith)
        requires
            width >= 0,
            height >= 0,
    ;
    (width * height * 3) as usize
}

/// The filter that ffmpeg samples and scales frames with.
pub open spec fn sample_filter(w: int, h: int) -> Seq<char> {
    "fps=3,scale="@ + text::int_text(w) + ":"@ + text::int_text(h)
}

/// The command line that has ffmpeg write a movie's frames, packed BGR.
pub open spec fn scan_words(w: int, h: int) -> Seq<Word> {
    args::texts(seq!["-v", "error", "-i"]).push(Word::Movie) + args::texts(
        seq!["-an", "-sn", "-vf"],
    ).push(Word::Text(sample_filter(w, h))) + args::texts(
        seq!["-f", "rawvideo", "-pix_fmt", "bgr24", "-"],
    )
}

/// The command line that has ffmpeg write a movie's frames.
pub fn scan_args(w: i64, h: i64) -> (list: Vec<Arg>)
    ensures
        args::words(list@) == scan_words(w as int, h as int),
{
    let mut filter: String = "fps=3,scale=".to_owned();
    text::push_int(&mut filter, w);
    filter.append(":");
    text::push_int(&mut filter, h);
    let mut list: Vec<Arg> = Vec::new();
    let head: [&str; 3] = ["-v", "error", "-i"];
    let middle: [&str; 3] = ["-an", "-sn", "-vf"];
    let tail: [&str; 5] = ["-f", "rawvideo", "-pix_fmt", "bgr24", "-"];
    args::push_texts(&mut list, head.as_slice());
    args::push_movie(&mut list);
    args::push_texts(&mut list, middle.as_slice());
    args::push_text(&mut list, filter.as_str());
    args::push_texts(&mut list, tail.as_slice());
    proof {
        assert(head@ =~= seq!["-v", "error", "-i"]);
        assert(middle@ =~= seq!["-an", "-sn", "-vf"]);
        assert(tail@ =~= seq!["-f", "rawvideo", "-pix_fmt", "bgr24", "-"]);
        assert(args::words(list@) =~= scan_words(w as int, h as int));
    }
    list
}

// ---------------------------------------------------------------------------
// Filling a frame
// ---------------------------------------------------------------------------

/// What came of one read from ffmpeg.
#[derive(Debug, Clone)]
pub enum ReadEvent {
    /// Some bytes, or none at the end of the stream.
    Bytes(Vec<u8>),
    Interrupted,
    Failed(String),
}

/// What to do after a read.
#[derive(Debug, Clone)]
pub enum ReadStep {
    /// Read again, at most `remaining()` bytes.
    More,
    /// The frame is whole.
    Frame,
    /// The stream is over.
    End,
    Error(String),
}

/// A frame being read.
#[derive(Debug, Clone)]
pub struct FrameFill {
    pub bytes: Vec<u8>,
    pub size: usize,
}

impl FrameFill {
    /// Never more than a frame.
    pub open spec fn wf(self) -> bool {
        self.bytes@.len() <= self.size
    }

    /// Start on a frame.
    pub fn new(size: usize) -> (fill: FrameFill)
        ensures
            fill.wf(),
            fill.size == size,
            fill.bytes@.len() == 0,
    {
        FrameFill { bytes: Vec::new(), size }
    }

    /// How many bytes the frame lacks.
    pub fn remaining(&self) -> (n: usize)
        requires
            self.wf(),
        ensures
            n == self.size - self.bytes@.len(),
    {
        self.size - self.bytes.len()
    }

    /// Take in what came of a read.
    ///
    /// A short read is end of stream, not a frame. Treating a partial buffer
    /// as a frame would feed the detector a torn image, and a missed detection
    /// there is exactly the failure that must not happen.
    pub fn accept(&mut self, event: ReadEvent) -> (step: ReadStep)
        requires
            old(self).wf(),
            old(self).bytes@.len() < old(self).size,
            event matches ReadEvent::Bytes(b) ==> old(self).bytes@.len() + b@.len() <= old(
                self,
            ).size,
        ensures
            final(self).wf(),
            final(self).size == old(self).size,
            match event {
                ReadEvent::Bytes(b) => {
                    &&& final(self).bytes@ == old(self).bytes@ + b@
                    &&& step is End <==> b@.len() == 0
                    &&& step is Frame <==> final(self).bytes@.len() == final(self).size
                    &&& step is More <==> b@.len() > 0 && final(self).bytes@.len()
                        < final(self).size
                },
                ReadEvent::Interrupted => step is More && *final(self) == *old(self),
                ReadEvent::Failed(e) => {
                    &&& *final(self) == *old(self)
                    &&& step matches ReadStep::Error(m) && m@ == "reading frames from ffmpeg: "@
                        + e@
                },
            },
    {
        match event {
            ReadEvent::Bytes(b) => {
                let mut b = b;
                let n: usize = b.len();
                let ghost got = b@;
                self.bytes.append(&mut b);
                assert(self.bytes@ == old(self).bytes@ + got);
                if n == 0 {
                    ReadStep::End
                } else if self.bytes.len() == self.size {
                    ReadStep::Frame
                } else {
                    ReadStep::More
                }
            },
            ReadEvent::Interrupted => ReadStep::More,
            ReadEvent::Failed(e) => {
                let mut m: String = "reading frames from ffmpeg: ".to_owned();
                m.append(e.as_str());
                ReadStep::Error(m)
            },
        }
    }
}

// ---------------------------------------------------------------------------
// What a frame adds to the plan
// ---------------------------------------------------------------------------

/// When a sampled frame shows, to the nearest millisecond.
pub open spec fn frame_time(index: int) -> int {
    (1000 * index + 1) / 3
}

/// How far the scan has looked once a frame has been: to the millisecond the
/// frame shows in, and no further.
pub open spec fn frontier_at(index: int) -> int {
    1000 * index / 3
}

/// A score of the model in thousandths, to the nearest one, and of two as near
/// the even one.
pub open spec fn score_thousandths(score: int) -> int {
    let q = score * 1000 / (nudenet::ONE as int);
    let r = score * 1000 % (nudenet::ONE as int);
    if 2 * r > nudenet::ONE || (2 * r == nudenet::ONE && q % 2 == 1) {
        q + 1
    } else {
        q
    }
}

/// A coordinate carried over to the movie's frame: cut off toward zero, and
/// held to the machine's integers.
pub open spec fn scaled(v: int, num: int, den: int) -> int {
    let s = if v >= 0 {
        v * num / den
    } else {
        -((-v) * num / den)
    };
    if s > i64::MAX {
        i64::MAX as int
    } else if s < i64::MIN {
        i64::MIN as int
    } else {
        s
    }
}

/// A detection of the model whose label and corners can be read.
pub open spec fn readable(d: nudenet::Detection) -> bool {
    &&& d.class_id < 18
    &&& i64::MIN <= d.x + d.w <= i64::MAX
    &&& i64::MIN <= d.y + d.h <= i64::MAX
}

/// Whether a detection of the model goes on record.
pub open spec fn on_record(d: nudenet::Detection) -> bool {
    nudenet::explicit(nudenet::LABELS@[d.class_id as int]@) && d.score >= RECORD_FLOOR
}

/// The detections of a frame that go on record, in order.
pub open spec fn recorded(found: Seq<nudenet::Detection>) -> Seq<nudenet::Detection>
    decreases found.len(),
{
    if found.len() == 0 {
        Seq::empty()
    } else if on_record(found.last()) {
        recorded(found.drop_last()).push(found.last())
    } else {
        recorded(found.drop_last())
    }
}

/// Whether a box of the plan is that of a detection of the model.
pub open spec fn box_of(b: DetBox, d: nudenet::Detection, info: VideoInfo) -> bool {
    let (dw, dh) = detect_dims(info.width as int, info.height as int);
    &&& b.bounds@[0] == scaled(d.x as int, info.width as int, dw)
    &&& b.bounds@[1] == scaled(d.y as int, info.height as int, dh)
    &&& b.bounds@[2] == scaled(d.x + d.w, info.width as int, dw)
    &&& b.bounds@[3] == scaled(d.y + d.h, info.height as int, dh)
    &&& b.label@ == nudenet::LABELS@[d.class_id as int]@
    &&& b.score == score_thousandths(d.score as int)
}

/// Whether boxes of the plan are those of detections of the model.
pub open spec fn boxes_of(
    boxes: Seq<DetBox>,
    found: Seq<nudenet::Detection>,
    info: VideoInfo,
) -> bool {
    &&& boxes.len() == found.len()
    &&& forall|i: int| 0 <= i < boxes.len() ==> box_of(#[trigger] boxes[i], found[i], info)
}

/// Whether a frame counts as found: something on record would be covered.
pub open spec fn covering(found: Seq<nudenet::Detection>) -> bool {
    exists|i: int|
        0 <= i < recorded(found).len() && score_thousandths(
            (#[trigger] recorded(found)[i]).score as int,
        ) >= THRESHOLD
}

fn round_score(score: i64) -> (r: i64)
    requires
        score >= 0,
    ensures
        r == score_thousandths(score as int),
{
    let v: i128 = score as i128 * 1000;
    let one: i128 = nudenet::ONE as i128;
    let q: i128 = v / one;
    let r: i128 = v % one;
    if 2 * r > one || (2 * r == one && q % 2 == 1) {
        (q + 1) as i64
    } else {
        q as i64
    }
}

fn scale(v: i64, num: i64, den: i64) -> (r: i64)
    requires
        num > 0,
        den > 0,
    ensures
        r == scaled(v as int, num as int, den as int),
{
    let size: i128 = if v >= 0 {
        v as i128
    } else {
        -(v as i128)
    };
    assert(0 <= size * num <= 0x4000_0000_0000_0000_0000_0000_0000_0000) by (nonlinear_arith)
        requires
            0 <= size <= 0x8000_0000_0000_0000,
            0 < num <= 0x7fff_ffff_ffff_ffff,
    ;
    let product: i128 = size * num as i128;
    assert(0 <= product / den as i128 <= product) by (nonlinear_arith)
        requires
            0 <= product,
            den > 0,
    ;
    let quotient: i128 = product / den as i128;
    let s: i128 = if v >= 0 {
        quotient
    } else {
        -quotient
    };
    if s > 0x7fff_ffff_ffff_ffff {
        i64::MAX
    } else if s < -0x8000_0000_0000_0000 {
        i64::MIN
    } else {
        s as i64
    }
}

fn make_box(d: &nudenet::Detection, info: &VideoInfo, size: (i64, i64)) -> (b: DetBox)
    requires
        readable(*d),
        d.score >= 0,
        info.width > 0,
        info.height > 0,
        size.0 > 0,
        size.1 > 0,
        (size.0 as int, size.1 as int) == detect_dims(info.width as int, info.height as int),
    ensures
        box_of(b, *d, *info),
{
    let c: [i64; 4] = d.corners();
    let x1: i64 = scale(c[0], info.width, size.0);
    let y1: i64 = scale(c[1], info.height, size.1);
    let x2: i64 = scale(c[2], info.width, size.0);
    let y2: i64 = scale(c[3], info.height, size.1);
    DetBox {
        bounds: [x1, y1, x2, y2],
        label: d.label().to_owned(),
        score: round_score(d.score),
    }
}

/// One more detection changes whether a frame counts only by itself.
proof fn lemma_covering(found: Seq<nudenet::Detection>, i: int)
    requires
        0 <= i < found.len(),
    ensures
        covering(found.take(i + 1)) == (covering(found.take(i)) || (on_record(found[i])
            && score_thousandths(found[i].score as int) >= THRESHOLD)),
{
    let here = found.take(i + 1);
    let before = recorded(found.take(i));
    let all = recorded(here);
    assert(here.drop_last() =~= found.take(i));
    assert(here.last() == found[i]);
    if covering(found.take(i)) {
        let k = choose|k: int|
            0 <= k < before.len() && score_thousandths((#[trigger] before[k]).score as int)
                >= THRESHOLD;
        assert(all[k] == before[k]);
    }
    if on_record(found[i]) {
        assert(all[all.len() - 1] == found[i]);
    }
    if covering(here) {
        let k = choose|k: int|
            0 <= k < all.len() && score_thousandths((#[trigger] all[k]).score as int) >= THRESHOLD;
        if k < before.len() {
            assert(before[k] == all[k]);
        }
    }
}

/// The boxes that a frame puts on record, and whether one of them would be
/// covered.
pub fn frame_boxes(found: &Vec<nudenet::Detection>, info: &VideoInfo) -> (r: (Vec<DetBox>, bool))
    requires
        info.width > 0,
        info.height > 0,
        forall|i: int| 0 <= i < found@.len() ==> readable(#[trigger] found@[i]),
    ensures
        boxes_of(r.0@, recorded(found@), *info),
        r.1 == covering(found@),
{
    let size: (i64, i64) = detect_size(info);
    let n: usize = found.len();
    let mut boxes: Vec<DetBox> = Vec::new();
    let mut covered: bool = false;
    let mut i: usize = 0;
    assert(found@.take(0) =~= Seq::empty());
    while i < n
        invariant
            i <= n,
            n == found@.len(),
            info.width > 0,
            info.height > 0,
            size.0 > 0,
            size.1 > 0,
            (size.0 as int, size.1 as int) == detect_dims(info.width as int, info.height as int),
            forall|k: int| 0 <= k < found@.len() ==> readable(#[trigger] found@[k]),
            boxes_of(boxes@, recorded(found@.take(i as int)), *info),
            covered == covering(found@.take(i as int)),
        decreases n - i,
    {
        let d: &nudenet::Detection = &found[i];
        proof {
            lemma_covering(found@, i as int);
        }
        let ghost before = recorded(found@.take(i as int));
        let ghost here = found@.take(i + 1);
        assert(readable(found@[i as int]));
        assert(here.drop_last() =~= found@.take(i as int));
        assert(here.last() == *d);
        if nudenet::is_explicit(d.label()) && d.score >= RECORD_FLOOR {
            assert(recorded(here) == before.push(*d));
            let b: DetBox = make_box(d, info, size);
            let strong: bool = b.score >= THRESHOLD;
            boxes.push(b);
            proof {
                let all = recorded(here);
                assert forall|k: int| 0 <= k < boxes@.len() implies box_of(
                    #[trigger] boxes@[k],
                    all[k],
                    *info,
                ) by {
                    if k < before.len() {
                        assert(all[k] == before[k]);
                    }
                }
            }
            covered = covered || strong;
        }
        i += 1;
    }
    assert(found@.take(n as int) =~= found@);
    (boxes, covered)
}

} // verus!
