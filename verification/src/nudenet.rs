//! Around the NudeNet model: what goes into it, and what its answer means.
//!
//!   1. pad the frame to a square by extending the **bottom and right** with
//!      black (not centred)
//!   2. resize that square to 320x320, bilinear
//!   3. scale to 0..1 and lay out as NCHW, channels passed straight through
//!   4. run the model, which returns 4 box values plus 18 class scores per
//!      candidate
//!   5. keep candidates over 0.2, map back to source pixels, and run one
//!      class-agnostic suppression pass at score 0.25 / overlap 0.45
//!
//! Running the model is left to the caller; the rest is exact integer
//! arithmetic. A pixel value is a number of 1/(640*640*255)ths, and a score or
//! coordinate of the model is a number of 1/2^32ths.

use vstd::prelude::*;

verus! {

pub const INPUT_SIZE: usize = 320;

/// One, as a score or coordinate of the model.
pub const ONE: i64 = 0x1_0000_0000;

/// Candidates below this are discarded before suppression even sees them: 0.2,
/// to the nearest single-precision number.
pub const RAW_SCORE_FLOOR: i64 = 858_993_472;

/// Candidates below this take no part in suppression: 0.25.
pub const NMS_SCORE_THRESHOLD: i64 = 0x4000_0000;

/// The largest frame, in pixels along a side, whose areas can be compared: more
/// than a million, and the most that 128 bits allow.
pub const LARGEST_SIDE: usize = 0x10_0000;

/// A pixel of a frame, in the unit that boxes are compared in.
pub const UNIT: i128 = 0x280_0000_0000;

/// Class order is the model's, so it is fixed, not a preference.
pub const LABELS: [&'static str; 18] = [
    "FEMALE_GENITALIA_COVERED",
    "FACE_FEMALE",
    "BUTTOCKS_EXPOSED",
    "FEMALE_BREAST_EXPOSED",
    "FEMALE_GENITALIA_EXPOSED",
    "MALE_BREAST_EXPOSED",
    "ANUS_EXPOSED",
    "FEET_EXPOSED",
    "BELLY_COVERED",
    "FEET_COVERED",
    "ARMPITS_COVERED",
    "ARMPITS_EXPOSED",
    "FACE_MALE",
    "BELLY_EXPOSED",
    "MALE_GENITALIA_EXPOSED",
    "ANUS_COVERED",
    "FEMALE_BREAST_COVERED",
    "BUTTOCKS_COVERED",
];

/// The only classes that get covered: explicit nudity and visible sex acts.
///
/// Kissing, suggestive scenes, covered bodies and violence are deliberately
/// not in this list, and widening it is a product decision, not a tuning one.
pub const EXPLICIT_LABELS: [&'static str; 5] = [
    "FEMALE_BREAST_EXPOSED",
    "FEMALE_GENITALIA_EXPOSED",
    "MALE_GENITALIA_EXPOSED",
    "BUTTOCKS_EXPOSED",
    "ANUS_EXPOSED",
];

/// Whether a label is one of those that get covered.
pub open spec fn explicit(label: Seq<char>) -> bool {
    exists|k: int| 0 <= k < 5 && (#[trigger] EXPLICIT_LABELS@[k])@ == label
}

fn same(a: &str, b: &str) -> (r: bool)
    ensures
        r == (a@ == b@),
{
    a.to_owned() == b.to_owned()
}

pub fn is_explicit(label: &str) -> (r: bool)
    ensures
        r == explicit(label@),
{
    let mut k: usize = 0;
    while k < 5
        invariant
            k <= 5,
            forall|j: int| 0 <= j < k ==> (#[trigger] EXPLICIT_LABELS@[j])@ != label@,
        decreases 5 - k,
    {
        if same(EXPLICIT_LABELS[k], label) {
            assert(EXPLICIT_LABELS@[k as int]@ == label@);
            return true;
        }
        k += 1;
    }
    false
}

/// Every class that gets covered is one the model can report.
pub proof fn law_explicit_labels_are_classes(label: Seq<char>)
    requires
        explicit(label),
    ensures
        exists|k: int| 0 <= k < 18 && (#[trigger] LABELS@[k])@ == label,
{
    assert(EXPLICIT_LABELS@[0] == LABELS@[3]);
    assert(EXPLICIT_LABELS@[1] == LABELS@[4]);
    assert(EXPLICIT_LABELS@[2] == LABELS@[14]);
    assert(EXPLICIT_LABELS@[3] == LABELS@[2]);
    assert(EXPLICIT_LABELS@[4] == LABELS@[6]);
    let k = choose|k: int| 0 <= k < 5 && (#[trigger] EXPLICIT_LABELS@[k])@ == label;
    assert(k == 0 || k == 1 || k == 2 || k == 3 || k == 4);
}

/// One thing the model found in a frame.
#[derive(Debug, Clone, Copy, PartialEq, Eq, Structural)]
pub struct Detection {
    pub class_id: usize,
    pub score: i64,
    /// Source pixels.
    pub x: i64,
    pub y: i64,
    pub w: i64,
    pub h: i64,
}

impl Detection {
    /// The name of the class.
    pub fn label(&self) -> (name: &'static str)
        requires
            self.class_id < 18,
        ensures
            name == LABELS@[self.class_id as int],
    {
        LABELS[self.class_id]
    }

    /// `[x1, y1, x2, y2]`, which is what the plan stores.
    pub fn corners(&self) -> (c: [i64; 4])
        requires
            i64::MIN <= self.x + self.w <= i64::MAX,
            i64::MIN <= self.y + self.h <= i64::MAX,
        ensures
            c@ == seq![
                self.x,
                self.y,
                (self.x + self.w) as i64,
                (self.y + self.h) as i64,
            ],
    {
        let c: [i64; 4] = [self.x, self.y, self.x + self.w, self.y + self.h];
        assert(c@ =~= seq![self.x, self.y, (self.x + self.w) as i64, (self.y + self.h) as i64]);
        c
    }
}

// ---------------------------------------------------------------------------
// What goes into the model
// ---------------------------------------------------------------------------

/// One channel of a pixel of the frame, padded with black to the bottom and
/// the right.
pub open spec fn channel(bgr: Seq<u8>, width: int, height: int, x: int, y: int, c: int) -> int {
    if x >= width || y >= height {
        0
    } else {
        bgr[(y * width + x) * 3 + c] as int
    }
}

/// A pixel of the frame. Outside the frame everything is black.
pub fn sample(bgr: &[u8], width: usize, height: usize, x: usize, y: usize) -> (p: [u8; 3])
    requires
        bgr@.len() >= width * height * 3,
    ensures
        forall|c: int|
            0 <= c < 3 ==> #[trigger] p@[c] == channel(
                bgr@,
                width as int,
                height as int,
                x as int,
                y as int,
                c,
            ),
{
    if x >= width || y >= height {
        return [0, 0, 0];
    }
    let n: usize = bgr.len();
    assert(width * height * 3 <= n);
    assert((y * width + x) * 3 + 2 < width * height * 3) by (nonlinear_arith)
        requires
            0 <= x < width,
            0 <= y < height,
    ;
    assert(0 <= y * width) by (nonlinear_arith)
        requires
            0 <= y,
            0 <= width,
    ;
    let i: usize = (y * width + x) * 3;
    [bgr[i], bgr[i + 1], bgr[i + 2]]
}

/// Where a model pixel's centre falls along a side of the padded square, in
/// 640ths of a source pixel.
pub open spec fn source_position(d: int, side: int) -> int {
    (2 * d + 1) * side - 320
}

/// A source position as a pixel and the weight, in 640ths, of the next one.
/// Positions before the first pixel or past the last are those pixels.
pub open spec fn split_position(f: int, side: int) -> (int, int) {
    let last = if side >= 1 {
        side - 1
    } else {
        0
    };
    if f <= 0 {
        (0, 0)
    } else if f / 640 >= last {
        (last, 0)
    } else {
        (f / 640, f % 640)
    }
}

/// The pixel after one, as far as the padded square goes.
pub open spec fn next_pixel(i: int, side: int) -> int {
    if i + 1 < side {
        i + 1
    } else if side >= 1 {
        side - 1
    } else {
        0
    }
}

/// Split a source position into its pixel and its interpolation weight.
pub fn split(f: i128, limit: usize) -> (r: (usize, u32))
    ensures
        (r.0 as int, r.1 as int) == split_position(f as int, limit as int),
{
    let last: usize = if limit >= 1 {
        limit - 1
    } else {
        0
    };
    if f <= 0 {
        return (0, 0);
    }
    let i: i128 = f / 640;
    if i >= last as i128 {
        return (last, 0);
    }
    (i as usize, (f % 640) as u32)
}

/// Four neighbours blended by weights in 640ths, the result in 1/(640*640)ths.
pub open spec fn blend(p00: int, p10: int, p01: int, p11: int, wx: int, wy: int) -> int {
    (p00 * (640 - wx) + p10 * wx) * (640 - wy) + (p01 * (640 - wx) + p11 * wx) * wy
}

/// One channel of one pixel as the model gets it, in 1/(640*640*255)ths.
pub open spec fn input_value(
    bgr: Seq<u8>,
    width: int,
    height: int,
    c: int,
    dx: int,
    dy: int,
) -> int {
    let side = if width >= height {
        width
    } else {
        height
    };
    let (x, wx) = split_position(source_position(dx, side), side);
    let (y, wy) = split_position(source_position(dy, side), side);
    let x1 = next_pixel(x, side);
    let y1 = next_pixel(y, side);
    blend(
        channel(bgr, width, height, x, y, c),
        channel(bgr, width, height, x1, y, c),
        channel(bgr, width, height, x, y1, c),
        channel(bgr, width, height, x1, y1, c),
        wx,
        wy,
    )
}

fn mix(p00: u8, p10: u8, p01: u8, p11: u8, wx: u32, wy: u32) -> (v: u32)
    requires
        wx < 640,
        wy < 640,
    ensures
        v == blend(p00 as int, p10 as int, p01 as int, p11 as int, wx as int, wy as int),
        v <= 640 * 640 * 255,
{
    proof {
        lemma_mix(p00 as int, p10 as int, wx as int, 255);
        lemma_mix(p01 as int, p11 as int, wx as int, 255);
        let top = p00 * (640 - wx) + p10 * wx;
        let bottom = p01 * (640 - wx) + p11 * wx;
        lemma_mix(top, bottom, wy as int, 163200);
    }
    let top: u32 = p00 as u32 * (640 - wx) + p10 as u32 * wx;
    let bottom: u32 = p01 as u32 * (640 - wx) + p11 as u32 * wx;
    top * (640 - wy) + bottom * wy
}

proof fn lemma_mix(a: int, b: int, w: int, top: int)
    requires
        0 <= a <= top,
        0 <= b <= top,
        0 <= w <= 640,
    ensures
        0 <= a * (640 - w) <= 640 * top,
        0 <= b * w <= 640 * top,
        0 <= a * (640 - w) + b * w <= 640 * top,
{
    assert(0 <= a * (640 - w) <= top * (640 - w)) by (nonlinear_arith)
        requires
            0 <= a <= top,
            0 <= w <= 640,
    ;
    assert(0 <= b * w <= top * w) by (nonlinear_arith)
        requires
            0 <= b <= top,
            0 <= w <= 640,
    ;
    assert(top * (640 - w) + top * w == 640 * top) by (nonlinear_arith);
    assert(0 <= top * w) by (nonlinear_arith)
        requires
            0 <= b <= top,
            0 <= w,
    ;
    assert(0 <= top * (640 - w)) by (nonlinear_arith)
        requires
            0 <= b <= top,
            w <= 640,
    ;
}

/// Pad to a square, resize to 320, and lay out channel by channel.
///
/// The channels keep their order. The weights were trained that way, and
/// swapping them costs enough confidence to leave borderline regions
/// uncovered.
pub fn preprocess(bgr: &[u8], width: usize, height: usize) -> (out: Vec<u32>)
    requires
        bgr@.len() >= width * height * 3,
    ensures
        out@.len() == 3 * 320 * 320,
        forall|k: int|
            0 <= k < out@.len() ==> #[trigger] out@[k] == input_value(
                bgr@,
                width as int,
                height as int,
                k / 102400,
                k % 320,
                (k / 320) % 320,
            ),
        forall|k: int| 0 <= k < out@.len() ==> #[trigger] out@[k] <= 640 * 640 * 255,
{
    let side: usize = if width >= height {
        width
    } else {
        height
    };
    let total: usize = 3 * INPUT_SIZE * INPUT_SIZE;
    let mut out: Vec<u32> = Vec::with_capacity(total);
    let mut k: usize = 0;
    while k < total
        invariant
            k <= total,
            total == 307200,
            bgr@.len() >= width * height * 3,
            side == if width >= height {
                width
            } else {
                height
            },
            out@.len() == k,
            forall|i: int|
                0 <= i < k ==> #[trigger] out@[i] == input_value(
                    bgr@,
                    width as int,
                    height as int,
                    i / 102400,
                    i % 320,
                    (i / 320) % 320,
                ),
            forall|i: int| 0 <= i < k ==> #[trigger] out@[i] <= 640 * 640 * 255,
        decreases total - k,
    {
        let c: usize = k / 102400;
        let dx: usize = k % 320;
        let dy: usize = (k / 320) % 320;
        let (x, wx): (usize, u32) = split(position(dx, side), side);
        let (y, wy): (usize, u32) = split(position(dy, side), side);
        let x1: usize = following(x, side);
        let y1: usize = following(y, side);
        let p00: [u8; 3] = sample(bgr, width, height, x, y);
        let p10: [u8; 3] = sample(bgr, width, height, x1, y);
        let p01: [u8; 3] = sample(bgr, width, height, x, y1);
        let p11: [u8; 3] = sample(bgr, width, height, x1, y1);
        out.push(mix(p00[c], p10[c], p01[c], p11[c], wx, wy));
        k += 1;
    }
    out
}

fn position(d: usize, side: usize) -> (f: i128)
    requires
        d < 320,
    ensures
        f == source_position(d as int, side as int),
{
    assert(0 <= (2 * d + 1) * side <= 639 * side) by (nonlinear_arith)
        requires
            0 <= d < 320,
            0 <= side,
    ;
    (2 * d as i128 + 1) * side as i128 - 320
}

fn following(i: usize, side: usize) -> (r: usize)
    requires
        i <= side,
    ensures
        r == next_pixel(i as int, side as int),
{
    if side >= 1 {
        if i < side - 1 {
            i + 1
        } else {
            side - 1
        }
    } else {
        0
    }
}

/// What the model is to be run on for a frame.
pub fn model_input(bgr: &[u8], width: usize, height: usize) -> (r: Result<Vec<u32>, String>)
    ensures
        r is Ok <==> bgr@.len() >= width * height * 3,
        r matches Ok(out) ==> out@.len() == 3 * 320 * 320 && forall|k: int|
            0 <= k < out@.len() ==> #[trigger] out@[k] == input_value(
                bgr@,
                width as int,
                height as int,
                k / 102400,
                k % 320,
                (k / 320) % 320,
            ),
        r matches Err(e) ==> e@ == "frame buffer is smaller than its stated dimensions"@,
{
    let n: usize = bgr.len();
    let needed: Option<usize> = match width.checked_mul(height) {
        Some(pixels) => pixels.checked_mul(3),
        None => None,
    };
    let enough: bool = match needed {
        Some(bytes) => n >= bytes,
        None => {
            proof {
                if width * height <= usize::MAX {
                } else {
                    assert(width * height * 3 >= width * height) by (nonlinear_arith)
                        requires
                            width >= 0,
                            height >= 0,
                    ;
                }
            }
            false
        },
    };
    if enough {
        Ok(preprocess(bgr, width, height))
    } else {
        Err("frame buffer is smaller than its stated dimensions".to_owned())
    }
}

// ---------------------------------------------------------------------------
// What the model answers
// ---------------------------------------------------------------------------

/// A rectangle of the frame, in `UNIT`ths of a pixel.
#[derive(Debug, Clone, Copy, PartialEq, Eq, Structural)]
pub struct Area {
    pub x: i128,
    pub y: i128,
    pub w: i128,
    pub h: i128,
}

/// A rectangle as a mathematical value.
pub struct Region {
    pub x: int,
    pub y: int,
    pub w: int,
    pub h: int,
}

impl View for Area {
    type V = Region;

    open spec fn view(&self) -> Region {
        Region { x: self.x as int, y: self.y as int, w: self.w as int, h: self.h as int }
    }
}

pub open spec fn least(a: int, b: int) -> int {
    if a <= b {
        a
    } else {
        b
    }
}

pub open spec fn most(a: int, b: int) -> int {
    if a >= b {
        a
    } else {
        b
    }
}

/// How far two stretches of a side run together.
pub open spec fn shared(a: int, a_len: int, b: int, b_len: int) -> int {
    most(least(a + a_len, b + b_len) - most(a, b), 0)
}

/// The size of what two rectangles have in common.
pub open spec fn overlap(a: Region, b: Region) -> int {
    shared(a.x, a.w, b.x, b.w) * shared(a.y, a.h, b.y, b.h)
}

/// The size of what two rectangles take up together.
pub open spec fn union_size(a: Region, b: Region) -> int {
    a.w * a.h + b.w * b.h - overlap(a, b)
}

/// Whether intersection over union is above 0.45.
pub open spec fn too_close(a: Region, b: Region) -> bool {
    union_size(a, b) > 0 && 20 * overlap(a, b) > 9 * union_size(a, b)
}

/// A number whose products with others like it can be added up.
pub open spec fn measurable(v: int) -> bool {
    -0x2800_0000_0000_0000 <= v <= 0x2800_0000_0000_0000
}

pub open spec fn region_measurable(r: Region) -> bool {
    measurable(r.x) && measurable(r.y) && measurable(r.w) && measurable(r.h)
}

fn shared_length(a: i128, a_len: i128, b: i128, b_len: i128) -> (r: i128)
    requires
        measurable(a as int),
        measurable(b as int),
        measurable(a_len as int),
        measurable(b_len as int),
    ensures
        r == shared(a as int, a_len as int, b as int, b_len as int),
        measurable(r as int),
{
    let end: i128 = if a + a_len <= b + b_len {
        a + a_len
    } else {
        b + b_len
    };
    let start: i128 = if a >= b {
        a
    } else {
        b
    };
    if end > start {
        end - start
    } else {
        0
    }
}

proof fn lemma_product(a: int, b: int)
    requires
        measurable(a),
        measurable(b),
    ensures
        -0x640_0000_0000_0000_0000_0000_0000_0000 <= a * b
            <= 0x640_0000_0000_0000_0000_0000_0000_0000,
{
    assert(-0x640_0000_0000_0000_0000_0000_0000_0000 <= a * b
        <= 0x640_0000_0000_0000_0000_0000_0000_0000) by (nonlinear_arith)
        requires
            -0x2800_0000_0000_0000 <= a <= 0x2800_0000_0000_0000,
            -0x2800_0000_0000_0000 <= b <= 0x2800_0000_0000_0000,
    ;
}

/// Intersection over union, as a fraction.
pub fn iou(a: &Area, b: &Area) -> (r: (i128, i128))
    requires
        region_measurable(a@),
        region_measurable(b@),
    ensures
        union_size(a@, b@) > 0 ==> r.0 == overlap(a@, b@) && r.1 == union_size(a@, b@),
        union_size(a@, b@) <= 0 ==> r == (0i128, 1i128),
{
    let sx: i128 = shared_length(a.x, a.w, b.x, b.w);
    let sy: i128 = shared_length(a.y, a.h, b.y, b.h);
    proof {
        lemma_product(sx as int, sy as int);
        lemma_product(a.w as int, a.h as int);
        lemma_product(b.w as int, b.h as int);
    }
    let inter: i128 = sx * sy;
    let union: i128 = a.w * a.h + b.w * b.h - inter;
    if union <= 0 {
        (0, 1)
    } else {
        (inter, union)
    }
}

/// A rectangle that starts in a frame and does not leave it to the right or
/// the bottom. Its sides may be negative: the model can answer anything.
pub open spec fn in_some_frame(r: Region) -> bool {
    &&& 0 <= r.x <= LARGEST_SIDE * UNIT
    &&& 0 <= r.y <= LARGEST_SIDE * UNIT
    &&& r.x + r.w <= LARGEST_SIDE * UNIT
    &&& r.y + r.h <= LARGEST_SIDE * UNIT
}

fn suppresses(a: &Area, b: &Area) -> (r: bool)
    requires
        in_some_frame(a@),
        in_some_frame(b@),
    ensures
        r == too_close(a@, b@),
{
    if a.w <= 0 || a.h <= 0 || b.w <= 0 || b.h <= 0 {
        assert(overlap(a@, b@) == 0) by (nonlinear_arith)
            requires
                shared(a@.x, a@.w, b@.x, b@.w) == 0 || shared(a@.y, a@.h, b@.y, b@.h) == 0,
                overlap(a@, b@) == shared(a@.x, a@.w, b@.x, b@.w) * shared(
                    a@.y,
                    a@.h,
                    b@.y,
                    b@.h,
                ),
        ;
        return false;
    }
    let (inter, union): (i128, i128) = iou(a, b);
    proof {
        lemma_product(shared(a@.x, a@.w, b@.x, b@.w), shared(a@.y, a@.h, b@.y, b@.h));
        lemma_product(a.w as int, a.h as int);
        lemma_product(b.w as int, b.h as int);
        assert(overlap(a@, b@) >= 0) by (nonlinear_arith)
            requires
                overlap(a@, b@) == shared(a@.x, a@.w, b@.x, b@.w) * shared(
                    a@.y,
                    a@.h,
                    b@.y,
                    b@.h,
                ),
                shared(a@.x, a@.w, b@.x, b@.w) >= 0,
                shared(a@.y, a@.h, b@.y, b@.h) >= 0,
        ;
    }
    20 * inter > 9 * union
}

/// A candidate of the model.
#[derive(Debug, Clone, Copy, PartialEq, Eq, Structural)]
pub struct Candidate {
    pub score: i64,
    pub class_id: usize,
    pub area: Area,
}

/// A candidate as a mathematical value.
pub struct Scored {
    pub score: int,
    pub class_id: int,
    pub region: Region,
}

impl View for Candidate {
    type V = Scored;

    open spec fn view(&self) -> Scored {
        Scored {
            score: self.score as int,
            class_id: self.class_id as int,
            region: self.area@,
        }
    }
}

pub open spec fn candidate_views(list: Seq<Candidate>) -> Seq<Scored> {
    Seq::new(list.len(), |i: int| list[i]@)
}

/// The answer of the model on a frame: `attrs` rows of `n` numbers, one column
/// for each candidate. The first four rows are the middle and the size of the
/// box, the others the scores of the classes.
pub struct Answer {
    pub data: Seq<i64>,
    pub attrs: int,
    pub n: int,
}

impl Answer {
    pub open spec fn at(self, row: int, i: int) -> int {
        self.data[row * self.n + i] as int
    }

    /// All rows are there, with at least one class.
    pub open spec fn whole(self) -> bool {
        &&& self.attrs >= 5
        &&& self.n >= 0
        &&& self.data.len() >= self.attrs * self.n
    }

    /// The class that scores highest among the first `classes`, the first of
    /// equals.
    pub open spec fn best_class(self, classes: int, i: int) -> int
        decreases classes,
    {
        if classes <= 1 {
            0
        } else {
            let best = self.best_class(classes - 1, i);
            if self.at(3 + classes, i) > self.at(4 + best, i) {
                classes - 1
            } else {
                best
            }
        }
    }

    /// Candidate `i` on a frame.
    pub open spec fn candidate(self, i: int, width: int, height: int) -> Scored {
        let side = most(width, height);
        let best = self.best_class(self.attrs - 4, i);
        let (x, w) = placed_side(self.at(0, i), self.at(2, i), side, width);
        let (y, h) = placed_side(self.at(1, i), self.at(3, i), side, height);
        Scored { score: self.at(4 + best, i), class_id: best, region: Region { x, y, w, h } }
    }

    /// The first `k` candidates that score high enough, strongest first, and
    /// of equals the earlier one first.
    pub open spec fn ranked(self, k: int, width: int, height: int) -> Seq<Scored>
        decreases k,
    {
        if k <= 0 {
            Seq::empty()
        } else {
            let before = self.ranked(k - 1, width, height);
            let c = self.candidate(k - 1, width, height);
            if strong_enough(c.score) {
                inserted(before, c)
            } else {
                before
            }
        }
    }

    /// What the model found.
    pub open spec fn found(self, width: int, height: int) -> Seq<Scored> {
        survivors(self.ranked(self.n, width, height))
    }
}

/// Where a side of a box starts, and how long it is, in the frame: `mid` and
/// `len` are the model's, `side` is that of the padded square and `limit` that
/// of the frame.
pub open spec fn placed_side(mid: int, len: int, side: int, limit: int) -> (int, int) {
    let start = most((2 * mid - len) * side, 0);
    let s = least(start, limit * UNIT);
    (s, least(2 * len * side, limit * UNIT - s))
}

pub open spec fn strong_enough(score: int) -> bool {
    score >= RAW_SCORE_FLOOR && score >= NMS_SCORE_THRESHOLD
}

/// A candidate put in its place among others, strongest first.
pub open spec fn inserted(sorted: Seq<Scored>, c: Scored) -> Seq<Scored>
    decreases sorted.len(),
{
    if sorted.len() == 0 || sorted.last().score >= c.score {
        sorted.push(c)
    } else {
        inserted(sorted.drop_last(), c).push(sorted.last())
    }
}

/// Whether one of the candidates covers nearly the same region.
pub open spec fn crowded(kept: Seq<Scored>, r: Region) -> bool {
    exists|j: int| 0 <= j < kept.len() && too_close((#[trigger] kept[j]).region, r)
}

/// Candidates that are left when each, in turn, suppresses the later ones that
/// overlap it too much, whatever their class.
pub open spec fn survivors(sorted: Seq<Scored>) -> Seq<Scored>
    decreases sorted.len(),
{
    if sorted.len() == 0 {
        Seq::empty()
    } else {
        let kept = survivors(sorted.drop_last());
        if crowded(kept, sorted.last().region) {
            kept
        } else {
            kept.push(sorted.last())
        }
    }
}

/// A length in whole pixels, cut off toward zero.
pub open spec fn whole_pixels(v: int) -> int {
    if v >= 0 {
        v / (UNIT as int)
    } else {
        -((-v) / (UNIT as int))
    }
}

/// Whether a detection reports a candidate.
pub open spec fn reports(d: Detection, s: Scored) -> bool {
    &&& d.class_id == s.class_id
    &&& d.score == s.score
    &&& d.x == whole_pixels(s.region.x)
    &&& d.y == whole_pixels(s.region.y)
    &&& d.w == whole_pixels(s.region.w)
    &&& d.h == whole_pixels(s.region.h)
}

/// The shape of an answer: rows and columns, with or without a batch of one in
/// front.
pub open spec fn dimensions(shape: Seq<i64>) -> Option<(int, int)> {
    if shape.len() == 3 {
        Some((shape[1] as int, shape[2] as int))
    } else if shape.len() == 2 {
        Some((shape[0] as int, shape[1] as int))
    } else {
        None
    }
}

/// What the model found, given the shape and the numbers of its answer:
/// nothing, if they do not fit together.
pub open spec fn answered(shape: Seq<i64>, data: Seq<i64>, width: int, height: int) -> Seq<Scored> {
    match dimensions(shape) {
        Some((attrs, n)) => {
            let answer = Answer { data, attrs, n };
            if answer.whole() {
                answer.found(width, height)
            } else {
                Seq::empty()
            }
        },
        None => Seq::empty(),
    }
}

proof fn lemma_cell(row: int, i: int, attrs: int, n: int)
    requires
        0 <= row < attrs,
        0 <= i < n,
    ensures
        0 <= row * n,
        0 <= row * n + i < attrs * n,
{
    assert(0 <= row * n && row * n + i < attrs * n) by (nonlinear_arith)
        requires
            0 <= row < attrs,
            0 <= i < n,
    ;
}

fn cell(data: &[i64], attrs: usize, n: usize, row: usize, i: usize) -> (v: i64)
    requires
        row < attrs,
        i < n,
        data@.len() >= attrs * n,
    ensures
        v == (Answer { data: data@, attrs: attrs as int, n: n as int }).at(row as int, i as int),
{
    let len: usize = data.len();
    proof {
        lemma_cell(row as int, i as int, attrs as int, n as int);
    }
    assert(attrs * n <= len);
    data[row * n + i]
}

fn strongest(data: &[i64], attrs: usize, n: usize, i: usize) -> (best: usize)
    requires
        attrs >= 5,
        i < n,
        data@.len() >= attrs * n,
    ensures
        best < attrs - 4,
        best == (Answer { data: data@, attrs: attrs as int, n: n as int }).best_class(
            attrs - 4,
            i as int,
        ),
{
    let ghost answer = Answer { data: data@, attrs: attrs as int, n: n as int };
    let mut best: usize = 0;
    let mut c: usize = 1;
    while c < attrs - 4
        invariant
            attrs >= 5,
            i < n,
            data@.len() >= attrs * n,
            1 <= c <= attrs - 4,
            best < c,
            answer == (Answer { data: data@, attrs: attrs as int, n: n as int }),
            best == answer.best_class(c as int, i as int),
        decreases attrs - c,
    {
        if cell(data, attrs, n, 4 + c, i) > cell(data, attrs, n, 4 + best, i) {
            best = c;
        }
        c += 1;
    }
    best
}

fn place(mid: i64, len: i64, side: usize, limit: usize) -> (r: (i128, i128))
    requires
        side <= LARGEST_SIDE,
        limit <= LARGEST_SIDE,
    ensures
        (r.0 as int, r.1 as int) == placed_side(
            mid as int,
            len as int,
            side as int,
            limit as int,
        ),
        0 <= r.0 <= limit * UNIT,
        r.0 + r.1 <= limit * UNIT,
        r.1 >= -0x20_0000_0000_0000_0000_0000,
{
    let m: i128 = mid as i128;
    let l: i128 = len as i128;
    let k: i128 = side as i128;
    assert(-0x40_0000_0000_0000_0000_0000 <= (2 * m - l) * k <= 0x40_0000_0000_0000_0000_0000
        && -0x20_0000_0000_0000_0000_0000 <= (2 * l) * k <= 0x20_0000_0000_0000_0000_0000)
        by (nonlinear_arith)
        requires
            -0x8000_0000_0000_0000 <= m <= 0x8000_0000_0000_0000,
            -0x8000_0000_0000_0000 <= l <= 0x8000_0000_0000_0000,
            0 <= k <= 0x10_0000,
    ;
    let start: i128 = (2 * m - l) * k;
    let length: i128 = 2 * l * k;
    let edge: i128 = limit as i128 * UNIT;
    let from: i128 = if start <= 0 {
        0
    } else {
        start
    };
    let s: i128 = if from <= edge {
        from
    } else {
        edge
    };
    if length <= edge - s {
        (s, length)
    } else {
        (s, edge - s)
    }
}

fn read_candidate(
    data: &[i64],
    attrs: usize,
    n: usize,
    i: usize,
    width: usize,
    height: usize,
) -> (c: Candidate)
    requires
        attrs >= 5,
        i < n,
        data@.len() >= attrs * n,
        width <= LARGEST_SIDE,
        height <= LARGEST_SIDE,
    ensures
        c@ == (Answer { data: data@, attrs: attrs as int, n: n as int }).candidate(
            i as int,
            width as int,
            height as int,
        ),
        reportable(c@.region),
{
    let side: usize = if width >= height {
        width
    } else {
        height
    };
    let best: usize = strongest(data, attrs, n, i);
    let (x, w): (i128, i128) = place(
        cell(data, attrs, n, 0, i),
        cell(data, attrs, n, 2, i),
        side,
        width,
    );
    let (y, h): (i128, i128) = place(
        cell(data, attrs, n, 1, i),
        cell(data, attrs, n, 3, i),
        side,
        height,
    );
    Candidate {
        score: cell(data, attrs, n, 4 + best, i),
        class_id: best,
        area: Area { x, y, w, h },
    }
}

/// A region whose whole pixels are machine integers.
pub open spec fn reportable(r: Region) -> bool {
    &&& in_some_frame(r)
    &&& r.w >= -0x20_0000_0000_0000_0000_0000
    &&& r.h >= -0x20_0000_0000_0000_0000_0000
}

fn insert(sorted: &mut Vec<Candidate>, c: Candidate)
    ensures
        candidate_views(final(sorted)@) == inserted(candidate_views(old(sorted)@), c@),
        forall|k: int|
            0 <= k < final(sorted)@.len() ==> (#[trigger] final(sorted)@[k]) == c || old(
                sorted,
            )@.contains(final(sorted)@[k]),
{
    let ghost before = sorted@;
    let mut k: usize = sorted.len();
    let ghost views = candidate_views(sorted@);
    assert(views.take(k as int) =~= views);
    assert(inserted(views, c@) =~= inserted(views, c@) + views.skip(k as int));
    while k > 0 && sorted[k - 1].score < c.score
        invariant
            k <= sorted@.len(),
            sorted@ == before,
            views == candidate_views(before),
            inserted(views, c@) == inserted(views.take(k as int), c@) + views.skip(k as int),
        decreases k,
    {
        proof {
            let head = views.take(k as int);
            assert(head.last() == before[k - 1]@);
            assert(head.drop_last() =~= views.take(k - 1));
            assert(seq![head.last()] + views.skip(k as int) =~= views.skip(k - 1));
            assert(inserted(head, c@) + views.skip(k as int) =~= inserted(views.take(k - 1), c@)
                + (seq![head.last()] + views.skip(k as int)));
        }
        k -= 1;
    }
    proof {
        let head = views.take(k as int);
        if k > 0 {
            assert(head.last() == before[k - 1]@);
        }
        assert(inserted(head, c@) == head.push(c@));
    }
    sorted.insert(k, c);
    assert(candidate_views(sorted@) =~= inserted(views, c@));
    assert forall|j: int| 0 <= j < sorted@.len() implies (#[trigger] sorted@[j]) == c
        || before.contains(sorted@[j]) by {
        if j < k {
            assert(sorted@[j] == before[j]);
        } else if j > k {
            assert(sorted@[j] == before[j - 1]);
        }
    }
}

fn rank(data: &[i64], attrs: usize, n: usize, width: usize, height: usize) -> (sorted: Vec<
    Candidate,
>)
    requires
        attrs >= 5,
        data@.len() >= attrs * n,
        width <= LARGEST_SIDE,
        height <= LARGEST_SIDE,
    ensures
        candidate_views(sorted@) == (Answer {
            data: data@,
            attrs: attrs as int,
            n: n as int,
        }).ranked(n as int, width as int, height as int),
        forall|k: int| 0 <= k < sorted@.len() ==> reportable((#[trigger] sorted@[k])@.region),
{
    let ghost answer = Answer { data: data@, attrs: attrs as int, n: n as int };
    let mut sorted: Vec<Candidate> = Vec::new();
    let mut i: usize = 0;
    assert(candidate_views(sorted@) =~= Seq::empty());
    while i < n
        invariant
            i <= n,
            attrs >= 5,
            data@.len() >= attrs * n,
            width <= LARGEST_SIDE,
            height <= LARGEST_SIDE,
            answer == (Answer { data: data@, attrs: attrs as int, n: n as int }),
            candidate_views(sorted@) == answer.ranked(i as int, width as int, height as int),
            forall|k: int| 0 <= k < sorted@.len() ==> reportable((#[trigger] sorted@[k])@.region),
        decreases n - i,
    {
        let c: Candidate = read_candidate(data, attrs, n, i, width, height);
        if c.score >= RAW_SCORE_FLOOR && c.score >= NMS_SCORE_THRESHOLD {
            let ghost before = sorted@;
            insert(&mut sorted, c);
            assert forall|k: int| 0 <= k < sorted@.len() implies reportable(
                (#[trigger] sorted@[k])@.region,
            ) by {
                if sorted@[k] != c {
                    let j = choose|j: int| 0 <= j < before.len() && before[j] == sorted@[k];
                    assert(reportable(before[j]@.region));
                }
            }
        }
        i += 1;
    }
    sorted
}

fn is_crowded(kept: &Vec<Candidate>, area: &Area) -> (r: bool)
    requires
        forall|k: int| 0 <= k < kept@.len() ==> reportable((#[trigger] kept@[k])@.region),
        reportable(area@),
    ensures
        r == crowded(candidate_views(kept@), area@),
{
    let n: usize = kept.len();
    let mut j: usize = 0;
    while j < n
        invariant
            j <= n,
            n == kept@.len(),
            forall|k: int| 0 <= k < kept@.len() ==> reportable((#[trigger] kept@[k])@.region),
            reportable(area@),
            forall|k: int|
                0 <= k < j ==> !too_close((#[trigger] candidate_views(kept@)[k]).region, area@),
        decreases n - j,
    {
        assert(reportable(kept@[j as int]@.region));
        assert(candidate_views(kept@)[j as int] == kept@[j as int]@);
        if suppresses(&kept[j].area, area) {
            return true;
        }
        j += 1;
    }
    false
}

fn keep(sorted: &Vec<Candidate>) -> (kept: Vec<Candidate>)
    requires
        forall|k: int| 0 <= k < sorted@.len() ==> reportable((#[trigger] sorted@[k])@.region),
    ensures
        candidate_views(kept@) == survivors(candidate_views(sorted@)),
        forall|k: int| 0 <= k < kept@.len() ==> reportable((#[trigger] kept@[k])@.region),
{
    let ghost views = candidate_views(sorted@);
    let n: usize = sorted.len();
    let mut kept: Vec<Candidate> = Vec::new();
    let mut i: usize = 0;
    assert(views.take(0) =~= Seq::empty());
    assert(candidate_views(kept@) =~= Seq::empty());
    while i < n
        invariant
            i <= n,
            n == sorted@.len(),
            views == candidate_views(sorted@),
            forall|k: int| 0 <= k < sorted@.len() ==> reportable((#[trigger] sorted@[k])@.region),
            forall|k: int| 0 <= k < kept@.len() ==> reportable((#[trigger] kept@[k])@.region),
            candidate_views(kept@) == survivors(views.take(i as int)),
        decreases n - i,
    {
        let c: Candidate = sorted[i];
        proof {
            assert(reportable(sorted@[i as int]@.region));
            assert(views.take(i + 1).drop_last() =~= views.take(i as int));
            assert(views.take(i + 1).last() == c@);
        }
        if !is_crowded(&kept, &c.area) {
            let ghost before = candidate_views(kept@);
            kept.push(c);
            assert(candidate_views(kept@) =~= before.push(c@));
        }
        i += 1;
    }
    assert(views.take(n as int) =~= views);
    kept
}

fn pixels(v: i128) -> (r: i64)
    requires
        -0x20_0000_0000_0000_0000_0000 <= v <= LARGEST_SIDE * UNIT,
    ensures
        r == whole_pixels(v as int),
{
    if v >= 0 {
        (v / UNIT) as i64
    } else {
        (-((-v) / UNIT)) as i64
    }
}

/// Read candidates, map them back to source pixels, and suppress those that
/// overlap a stronger one.
///
/// Suppression does not look at classes: a face overlapping a torso can
/// suppress it.
pub fn postprocess(shape: &[i64], data: &[i64], width: usize, height: usize) -> (found: Vec<
    Detection,
>)
    requires
        width <= LARGEST_SIDE,
        height <= LARGEST_SIDE,
    ensures
        found@.len() == answered(shape@, data@, width as int, height as int).len(),
        forall|k: int|
            0 <= k < found@.len() ==> reports(
                #[trigger] found@[k],
                answered(shape@, data@, width as int, height as int)[k],
            ),
{
    let mut found: Vec<Detection> = Vec::new();
    let (a, c): (i64, i64) = if shape.len() == 3 {
        (shape[1], shape[2])
    } else if shape.len() == 2 {
        (shape[0], shape[1])
    } else {
        return found;
    };
    if a < 5 || c < 0 {
        return found;
    }
    let len: usize = data.len();
    let product: i128 = times(a, c);
    if product > len as i128 {
        return found;
    }
    if c == 0 {
        assert((Answer { data: data@, attrs: a as int, n: c as int }).ranked(
            0,
            width as int,
            height as int,
        ) =~= Seq::empty());
        return found;
    }
    assert(a <= a * c && c <= a * c) by (nonlinear_arith)
        requires
            a >= 5,
            c >= 1,
    ;
    let sorted: Vec<Candidate> = rank(data, a as usize, c as usize, width, height);
    let kept: Vec<Candidate> = keep(&sorted);
    let ghost all = answered(shape@, data@, width as int, height as int);
    assert(candidate_views(kept@) == all);
    let n: usize = kept.len();
    let mut i: usize = 0;
    while i < n
        invariant
            i <= n,
            n == kept@.len(),
            candidate_views(kept@) == all,
            forall|k: int| 0 <= k < kept@.len() ==> reportable((#[trigger] kept@[k])@.region),
            found@.len() == i,
            forall|k: int| 0 <= k < i ==> reports(#[trigger] found@[k], all[k]),
        decreases n - i,
    {
        let k: Candidate = kept[i];
        assert(reportable(kept@[i as int]@.region));
        assert(all[i as int] == kept@[i as int]@);
        found.push(
            Detection {
                class_id: k.class_id,
                score: k.score,
                x: pixels(k.area.x),
                y: pixels(k.area.y),
                w: pixels(k.area.w),
                h: pixels(k.area.h),
            },
        );
        i += 1;
    }
    found
}

fn times(a: i64, b: i64) -> (r: i128)
    requires
        a >= 0,
        b >= 0,
    ensures
        r == a * b,
{
    assert(0 <= a * b <= 0x4000_0000_0000_0000_0000_0000_0000_0000) by (nonlinear_arith)
        requires
            0 <= a <= 0x7fff_ffff_ffff_ffff,
            0 <= b <= 0x7fff_ffff_ffff_ffff,
    ;
    a as i128 * b as i128
}

} // verus!
