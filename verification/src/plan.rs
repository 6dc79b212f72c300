//! The censor plan: what the detector *found*, not what the player will
//! *cover*.
//!
//! Keeping the two apart matters. The lead, hold, margin and threshold are
//! editable, so a plan of raw detections lets a change of one re-derive the
//! coverage at once instead of forcing a rescan of the whole movie.
//!
//! Box coordinates are source pixels. Times are whole milliseconds from the
//! start of the movie, which is the precision a plan file is written with;
//! scores and rates are thousandths.

use vstd::prelude::*;

use vstd::string::StringExecFns;

use crate::text;

verus! {

/// Written by this build. Version 2 added the label and confidence behind
/// every box; version 1 plans still load and simply have no reason to report.
pub const SCHEMA_VERSION: u32 = 2;

/// The oldest plan this build will read.
pub const MIN_SCHEMA_VERSION: u32 = 1;

/// A detection may lie this far past the reported end of the movie.
pub const DURATION_SLACK: i64 = 1000;

/// Everything a scan found in one movie.
#[derive(Debug, Clone)]
pub struct Plan {
    pub schema_version: u32,
    pub generator: String,
    pub created_at: String,
    pub source: Source,
    pub detector: Detector,
    /// False while a live scan is still running. A plan that is not complete
    /// must never be cast, and playback past its frontier must be fenced.
    pub complete: bool,
    pub detections: Vec<Detection>,
}

/// The movie a plan belongs to.
#[derive(Debug, Clone)]
pub struct Source {
    pub name: String,
    pub size_bytes: u64,
    /// Length in milliseconds.
    pub duration: i64,
    /// Frames per thousand seconds.
    pub fps: i64,
    pub width: i64,
    pub height: i64,
}

/// How the scan was made.
#[derive(Debug, Clone)]
pub struct Detector {
    /// Sampled frames per thousand seconds.
    pub sample_fps: i64,
    /// Confidence cutoff in thousandths.
    pub threshold: i64,
    pub detect_width: i64,
    pub detect_height: i64,
}

/// One sampled frame that had at least one explicit region in it.
#[derive(Debug, Clone)]
pub struct Detection {
    /// Milliseconds from the start of the movie.
    pub t: i64,
    pub boxes: Vec<DetBox>,
}

/// One region the detector found, and what it thought it was.
#[derive(Debug, Clone)]
pub struct DetBox {
    /// `[x1, y1, x2, y2]` in source pixels.
    pub bounds: [i64; 4],
    /// Empty in a version 1 plan, where the reason is unknown.
    pub label: String,
    /// Confidence in thousandths.
    pub score: i64,
}

/// A box as a plan file spells it: bare coordinates in version 1, coordinates
/// with their label and score in version 2.
#[derive(Debug, Clone)]
pub enum RawBox {
    Labelled { bounds: [i64; 4], label: String, score: i64 },
    Bare([i64; 4]),
}

impl DetBox {
    /// Read either spelling of a box, so that an older plan still loads.
    ///
    /// A bare box gets no label rather than a made-up one: its score of zero
    /// means "unknown", and callers tell it by the empty label.
    pub fn from_raw(raw: RawBox) -> (b: DetBox)
        ensures
            match raw {
                RawBox::Labelled { bounds, label, score } => b.bounds == bounds && b.label == label
                    && b.score == score,
                RawBox::Bare(bounds) => b.bounds == bounds && b.label@.len() == 0 && b.score == 0,
            },
    {
        match raw {
            RawBox::Labelled { bounds, label, score } => DetBox { bounds, label, score },
            RawBox::Bare(bounds) => DetBox { bounds, label: String::new(), score: 0 },
        }
    }

    /// Inverted or negative bounds make a box malformed.
    pub open spec fn well_shaped(self) -> bool {
        &&& 0 <= self.bounds@[0] < self.bounds@[2]
        &&& 0 <= self.bounds@[1] < self.bounds@[3]
    }

    pub fn width(&self) -> (w: i64)
        requires
            i64::MIN <= self.bounds@[2] - self.bounds@[0] <= i64::MAX,
        ensures
            w == self.bounds@[2] - self.bounds@[0],
    {
        self.bounds[2] - self.bounds[0]
    }

    pub fn height(&self) -> (h: i64)
        requires
            i64::MIN <= self.bounds@[3] - self.bounds@[1] <= i64::MAX,
        ensures
            h == self.bounds@[3] - self.bounds@[1],
    {
        self.bounds[3] - self.bounds[1]
    }
}

/// Why a plan cannot be trusted. Every one of these means refuse to play.
#[derive(Debug, Clone, Copy, PartialEq, Eq, Structural)]
pub enum PlanError {
    UnsupportedSchema(u32),
    BadDimensions,
    BadDuration,
    DetectionOutOfRange,
    MalformedBox,
}

impl PlanError {
    /// The message of an error, as shown to the viewer.
    pub open spec fn message_text(self) -> Seq<char> {
        match self {
            PlanError::UnsupportedSchema(v) => "plan schema version "@ + text::int_text(v as int)
                + " is not supported by this build"@,
            PlanError::BadDimensions => "plan has non-positive frame dimensions"@,
            PlanError::BadDuration => "plan has a non-positive duration"@,
            PlanError::DetectionOutOfRange => "plan has a detection outside the movie's duration"@,
            PlanError::MalformedBox => "plan has a box with inverted or negative bounds"@,
        }
    }

    /// The message of this error, as shown to the viewer.
    pub fn message(&self) -> (text: String)
        ensures
            text@ == self.message_text(),
    {
        match self {
            PlanError::UnsupportedSchema(v) => {
                let mut out: String = "plan schema version ".to_owned();
                text::push_int(&mut out, *v as i64);
                out.append(" is not supported by this build");
                out
            },
            PlanError::BadDimensions => "plan has non-positive frame dimensions".to_owned(),
            PlanError::BadDuration => "plan has a non-positive duration".to_owned(),
            PlanError::DetectionOutOfRange =>
                "plan has a detection outside the movie's duration".to_owned(),
            PlanError::MalformedBox => "plan has a box with inverted or negative bounds".to_owned(),
        }
    }
}

impl Detection {
    /// Whether the detection lies within the movie, give or take the slack.
    pub open spec fn in_range(self, duration: int) -> bool {
        0 <= self.t <= duration + DURATION_SLACK
    }

    /// Whether no box of this detection is malformed.
    pub open spec fn boxes_well_shaped(self) -> bool {
        forall|j: int| 0 <= j < self.boxes@.len() ==> (#[trigger] self.boxes@[j]).well_shaped()
    }
}

/// The first thing wrong with the detections from index `i` on, in file order.
pub open spec fn detections_fault(dets: Seq<Detection>, i: int, duration: int) -> Option<PlanError>
    decreases dets.len() - i,
{
    if i < 0 || i >= dets.len() {
        None
    } else if !dets[i].in_range(duration) {
        Some(PlanError::DetectionOutOfRange)
    } else if !dets[i].boxes_well_shaped() {
        Some(PlanError::MalformedBox)
    } else {
        detections_fault(dets, i + 1, duration)
    }
}

impl Plan {
    /// The reason to refuse this plan, if there is one: the schema is looked
    /// at first, then the frame, the duration, and the detections in order.
    pub open spec fn fault(self) -> Option<PlanError> {
        if !(MIN_SCHEMA_VERSION <= self.schema_version <= SCHEMA_VERSION) {
            Some(PlanError::UnsupportedSchema(self.schema_version))
        } else if self.source.width <= 0 || self.source.height <= 0 {
            Some(PlanError::BadDimensions)
        } else if self.source.duration <= 0 {
            Some(PlanError::BadDuration)
        } else {
            detections_fault(self.detections@, 0, self.source.duration as int)
        }
    }

    /// Nothing about the plan is questionable.
    pub open spec fn sound(self) -> bool {
        &&& MIN_SCHEMA_VERSION <= self.schema_version <= SCHEMA_VERSION
        &&& self.source.width > 0
        &&& self.source.height > 0
        &&& self.source.duration > 0
        &&& forall|i: int|
            0 <= i < self.detections@.len() ==> {
                &&& (#[trigger] self.detections@[i]).in_range(self.source.duration as int)
                &&& self.detections@[i].boxes_well_shaped()
            }
    }

    /// Fail closed. Anything questionable here refuses playback rather than
    /// risking a frame slipping past, so this is intentionally strict.
    pub fn validate(&self) -> (r: Result<(), PlanError>)
        ensures
            r == match self.fault() {
                Some(e) => Err::<(), PlanError>(e),
                None => Ok(()),
            },
            r is Ok <==> self.sound(),
    {
        proof {
            lemma_fault_iff_unsound(self.detections@, 0, self.source.duration as int);
        }
        if self.schema_version < MIN_SCHEMA_VERSION || self.schema_version > SCHEMA_VERSION {
            return Err(PlanError::UnsupportedSchema(self.schema_version));
        }
        if self.source.width <= 0 || self.source.height <= 0 {
            return Err(PlanError::BadDimensions);
        }
        if self.source.duration <= 0 {
            return Err(PlanError::BadDuration);
        }
        let duration: i64 = self.source.duration;
        let n: usize = self.detections.len();
        let mut i: usize = 0;
        while i < n
            invariant
                i <= n,
                n == self.detections@.len(),
                duration == self.source.duration,
                duration > 0,
                self.fault() == detections_fault(self.detections@, i as int, duration as int),
                self.fault() is None <==> self.sound(),
            decreases n - i,
        {
            let d: &Detection = &self.detections[i];
            if d.t < 0 || d.t - DURATION_SLACK > duration {
                return Err(PlanError::DetectionOutOfRange);
            }
            let m: usize = d.boxes.len();
            let mut j: usize = 0;
            while j < m
                invariant
                    i < n,
                    j <= m,
                    n == self.detections@.len(),
                    duration == self.source.duration,
                    *d == self.detections@[i as int],
                    m == d.boxes@.len(),
                    d.in_range(duration as int),
                    forall|k: int| 0 <= k < j ==> (#[trigger] d.boxes@[k]).well_shaped(),
                    self.fault() == detections_fault(self.detections@, i as int, duration as int),
                    self.fault() is None <==> self.sound(),
                decreases m - j,
            {
                let b: &DetBox = &d.boxes[j];
                if b.bounds[0] < 0 || b.bounds[1] < 0 || b.bounds[2] <= b.bounds[0] || b.bounds[3]
                    <= b.bounds[1] {
                    assert(!d.boxes@[j as int].well_shaped());
                    return Err(PlanError::MalformedBox);
                }
                j += 1;
            }
            i += 1;
        }
        Ok(())
    }

    /// How many sampled frames of the movie carry a detection.
    pub fn detection_count(&self) -> (n: usize)
        ensures
            n == self.detections@.len(),
    {
        self.detections.len()
    }
}

/// A walk over the detections finds a fault exactly when one of them has one.
proof fn lemma_fault_iff_unsound(dets: Seq<Detection>, i: int, duration: int)
    requires
        0 <= i <= dets.len(),
    ensures
        detections_fault(dets, i, duration) is None <==> (forall|k: int|
            i <= k < dets.len() ==> {
                &&& (#[trigger] dets[k]).in_range(duration)
                &&& dets[k].boxes_well_shaped()
            }),
    decreases dets.len() - i,
{
    if i < dets.len() {
        lemma_fault_iff_unsound(dets, i + 1, duration);
        if detections_fault(dets, i, duration) is Some {
            if dets[i].in_range(duration) && dets[i].boxes_well_shaped() {
                let k = choose|k: int|
                    i + 1 <= k < dets.len() && !((#[trigger] dets[k]).in_range(duration)
                        && dets[k].boxes_well_shaped());
                assert(!(dets[k].in_range(duration) && dets[k].boxes_well_shaped()));
            }
        }
    }
}

} // verus!
