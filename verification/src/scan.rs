//! A scan in flight: what it has found, and how far it has looked.

use vstd::prelude::*;

use crate::nudenet;
use crate::plan::{DetBox, Detection, Detector, Plan, Source, SCHEMA_VERSION};
use crate::probe::VideoInfo;
use crate::scanner;

verus! {

/// What the scan looks like from outside. Times are milliseconds.
#[derive(Debug, Clone)]
pub struct ScanProgress {
    pub frontier: i64,
    pub duration: i64,
    /// Frames so far in which something would be covered.
    pub detections: usize,
    pub done: bool,
    pub stopped: bool,
    pub error: Option<String>,
    /// Thousandths of realtime, for the live banner.
    pub speed: i64,
}

/// A scan in flight.
#[derive(Debug, Clone)]
pub struct Scan {
    /// The movie's file name.
    pub name: String,
    pub info: VideoInfo,
    pub progress: ScanProgress,
    pub detections: Vec<Detection>,
    /// Frames looked at so far.
    pub frames: u64,
}

/// The last frame of a movie may lie this far before its reported end.
pub const END_SLACK: i64 = 1000;

/// How fast a scan is, in thousandths of realtime.
pub open spec fn pace(frontier: int, elapsed: int) -> int {
    if elapsed > 0 {
        frontier * 1000 / elapsed
    } else {
        0
    }
}

/// Whether two detections say the same.
pub open spec fn same_detection(a: Detection, b: Detection) -> bool {
    a.t == b.t && a.boxes@ == b.boxes@
}

/// Whether two lists of detections say the same.
pub open spec fn same_detections(a: Seq<Detection>, b: Seq<Detection>) -> bool {
    &&& a.len() == b.len()
    &&& forall|i: int| 0 <= i < a.len() ==> same_detection(#[trigger] a[i], b[i])
}

fn copy_box(b: &DetBox) -> (c: DetBox)
    ensures
        c == *b,
{
    DetBox { bounds: b.bounds, label: b.label.clone(), score: b.score }
}

fn copy_detections(list: &Vec<Detection>) -> (out: Vec<Detection>)
    ensures
        same_detections(out@, list@),
{
    let n: usize = list.len();
    let mut out: Vec<Detection> = Vec::new();
    let mut i: usize = 0;
    while i < n
        invariant
            i <= n,
            n == list@.len(),
            out@.len() == i,
            forall|k: int| 0 <= k < i ==> same_detection(#[trigger] out@[k], list@[k]),
        decreases n - i,
    {
        let d: &Detection = &list[i];
        let m: usize = d.boxes.len();
        let mut boxes: Vec<DetBox> = Vec::new();
        let mut j: usize = 0;
        while j < m
            invariant
                j <= m,
                m == d.boxes@.len(),
                boxes@ =~= d.boxes@.take(j as int),
            decreases m - j,
        {
            boxes.push(copy_box(&d.boxes[j]));
            j += 1;
        }
        assert(boxes@ =~= d.boxes@);
        out.push(Detection { t: d.t, boxes });
        i += 1;
    }
    out
}

impl Scan {
    /// Whether the last frame looked at lies within a second of the end.
    pub open spec fn reached_the_end(self) -> bool {
        self.frames > 0 && scanner::frontier_at(self.frames - 1) + END_SLACK >= self.info.duration
    }

    /// What every scan keeps: the movie looks like one, what was found is in
    /// the order of time and has boxes, none of it lies past the last frame
    /// looked at, the frontier is where that frame shows, and a scan that is
    /// done has looked at the whole movie without error.
    pub open spec fn wf(self) -> bool {
        &&& self.info.width > 0
        &&& self.info.height > 0
        &&& self.info.duration > 0
        &&& self.progress.duration == self.info.duration
        &&& self.frames <= scanner::FRAME_LIMIT
        &&& self.detections@.len() <= self.frames
        &&& self.progress.detections <= self.detections@.len()
        &&& forall|i: int|
            0 <= i < self.detections@.len() ==> {
                &&& (#[trigger] self.detections@[i]).boxes@.len() > 0
                &&& 0 <= self.detections@[i].t < scanner::frame_time(self.frames as int)
            }
        &&& forall|i: int, j: int|
            0 <= i < j < self.detections@.len() ==> (#[trigger] self.detections@[i]).t < (
            #[trigger] self.detections@[j]).t
        &&& !self.progress.done ==> self.progress.frontier == if self.frames == 0 {
            0
        } else {
            scanner::frontier_at(self.frames - 1)
        }
        &&& self.progress.done ==> self.progress.frontier == self.info.duration
            && self.progress.error is None && self.reached_the_end()
    }

    /// Start on a movie.
    pub fn start(name: &str, info: VideoInfo) -> (r: Result<Scan, String>)
        ensures
            r is Ok <==> info.width > 0 && info.height > 0 && info.duration > 0,
            r matches Ok(scan) ==> {
                &&& scan.wf()
                &&& scan.name@ == name@
                &&& scan.info == info
                &&& scan.detections@.len() == 0
                &&& scan.frames == 0
                &&& scan.progress == (ScanProgress {
                    frontier: 0,
                    duration: info.duration,
                    detections: 0,
                    done: false,
                    stopped: false,
                    error: None,
                    speed: 0,
                })
            },
            r matches Err(e) ==> e@ == "this file does not look like a video"@,
    {
        if info.width <= 0 || info.height <= 0 || info.duration <= 0 {
            return Err("this file does not look like a video".to_owned());
        }
        Ok(
            Scan {
                name: name.to_owned(),
                info,
                progress: ScanProgress {
                    frontier: 0,
                    duration: info.duration,
                    detections: 0,
                    done: false,
                    stopped: false,
                    error: None,
                    speed: 0,
                },
                detections: Vec::new(),
                frames: 0,
            },
        )
    }

    /// Whether to go on to another frame.
    pub fn wants_frame(&self) -> (r: bool)
        ensures
            r == !self.progress.stopped,
    {
        !self.progress.stopped
    }

    /// Take in what the model found in the next frame, `elapsed` milliseconds
    /// after the scan started.
    pub fn look(&mut self, found: &Vec<nudenet::Detection>, elapsed: u64)
        requires
            old(self).wf(),
            !old(self).progress.done,
            old(self).frames < scanner::FRAME_LIMIT,
            forall|i: int| 0 <= i < found@.len() ==> scanner::readable(#[trigger] found@[i]),
        ensures
            final(self).wf(),
            final(self).name == old(self).name,
            final(self).info == old(self).info,
            final(self).frames == old(self).frames + 1,
            scanner::recorded(found@).len() == 0 ==> final(self).detections@ == old(
                self,
            ).detections@,
            scanner::recorded(found@).len() > 0 ==> {
                &&& final(self).detections@.len() == old(self).detections@.len() + 1
                &&& final(self).detections@.drop_last() == old(self).detections@
                &&& final(self).detections@.last().t == scanner::frame_time(
                    old(self).frames as int,
                )
                &&& scanner::boxes_of(
                    final(self).detections@.last().boxes@,
                    scanner::recorded(found@),
                    old(self).info,
                )
            },
            final(self).progress.frontier == scanner::frontier_at(old(self).frames as int),
            final(self).progress.detections == old(self).progress.detections + (
            if scanner::covering(found@) {
                1int
            } else {
                0int
            }),
            final(self).progress.speed == pace(
                scanner::frontier_at(old(self).frames as int),
                elapsed as int,
            ),
            final(self).progress.duration == old(self).progress.duration,
            final(self).progress.done == old(self).progress.done,
            final(self).progress.stopped == old(self).progress.stopped,
            final(self).progress.error == old(self).progress.error,
    {
        let index: u64 = self.frames;
        let t: i64 = ((1000 * index + 1) / 3) as i64;
        let frontier: i64 = (1000 * index / 3) as i64;
        let (boxes, covered): (Vec<DetBox>, bool) = scanner::frame_boxes(found, &self.info);
        let ghost before = self.detections@;
        if boxes.len() > 0 {
            self.detections.push(Detection { t, boxes });
            assert(self.detections@.drop_last() =~= before);
        }
        proof {
            if scanner::covering(found@) {
                let k = choose|k: int|
                    0 <= k < scanner::recorded(found@).len() && scanner::score_thousandths(
                        (#[trigger] scanner::recorded(found@)[k]).score as int,
                    ) >= scanner::THRESHOLD;
                assert(scanner::recorded(found@).len() > 0);
            }
        }
        self.progress.frontier = frontier;
        let n: usize = self.detections.len();
        if covered {
            assert(self.progress.detections < n);
            self.progress.detections = self.progress.detections + 1;
        }
        self.progress.speed = if elapsed > 0 {
            let v: u64 = frontier as u64 * 1000 / elapsed;
            v as i64
        } else {
            0
        };
        self.frames = index + 1;
    }

    /// The stream is over, or the scan failed.
    ///
    /// A scan is done only once the whole movie has been looked at. One that
    /// was stopped has not seen the end, and neither has one whose stream broke
    /// off early.
    pub fn finish(&mut self, error: Option<String>)
        requires
            old(self).wf(),
            !old(self).progress.done,
            old(self).progress.error is None,
        ensures
            final(self).wf(),
            final(self).name == old(self).name,
            final(self).info == old(self).info,
            final(self).frames == old(self).frames,
            final(self).detections == old(self).detections,
            final(self).progress.done == (error is None && !old(self).progress.stopped && old(
                self,
            ).reached_the_end()),
            final(self).progress == (ScanProgress {
                frontier: if final(self).progress.done {
                    old(self).info.duration
                } else {
                    old(self).progress.frontier
                },
                done: final(self).progress.done,
                error,
                ..old(self).progress
            }),
    {
        match error {
            Some(e) => {
                self.progress.error = Some(e);
            },
            None => {
                if !self.progress.stopped && self.frames > 0 && self.progress.frontier
                    + END_SLACK >= self.info.duration {
                    self.progress.frontier = self.info.duration;
                    self.progress.done = true;
                }
            },
        }
    }

    /// Ask the scan to end.
    pub fn stop(&mut self)
        ensures
            *final(self) == (Scan {
                progress: ScanProgress { stopped: true, ..old(self).progress },
                ..*old(self)
            }),
            old(self).wf() ==> final(self).wf(),
    {
        self.progress.stopped = true;
    }

    pub fn progress(&self) -> (p: ScanProgress)
        ensures
            p == self.progress,
    {
        ScanProgress {
            frontier: self.progress.frontier,
            duration: self.progress.duration,
            detections: self.progress.detections,
            done: self.progress.done,
            stopped: self.progress.stopped,
            error: match &self.progress.error {
                Some(e) => Some(e.clone()),
                None => None,
            },
            speed: self.progress.speed,
        }
    }

    pub fn detections(&self) -> (list: Vec<Detection>)
        ensures
            same_detections(list@, self.detections@),
    {
        copy_detections(&self.detections)
    }

    pub fn info(&self) -> (info: &VideoInfo)
        ensures
            *info == self.info,
    {
        &self.info
    }

    /// Build a plan from what has been found so far.
    ///
    /// `complete` is only true once the whole movie has been looked at, and
    /// nothing else is cast or played as a scanned plan. A partial plan is a
    /// record of progress, never a guarantee.
    pub fn plan(&self, size_bytes: u64) -> (plan: Plan)
        requires
            self.wf(),
        ensures
            plan.schema_version == SCHEMA_VERSION,
            plan.generator@ == scanner::GENERATOR@,
            plan.created_at@.len() == 0,
            plan.source == (Source {
                name: self.name,
                size_bytes,
                duration: self.info.duration,
                fps: self.info.fps,
                width: self.info.width,
                height: self.info.height,
            }),
            plan.detector.sample_fps == 1000 * scanner::SAMPLE_FPS,
            plan.detector.threshold == scanner::THRESHOLD,
            (plan.detector.detect_width as int, plan.detector.detect_height as int)
                == scanner::detect_dims(self.info.width as int, self.info.height as int),
            plan.complete == self.progress.done,
            plan.complete ==> self.reached_the_end(),
            same_detections(plan.detections@, self.detections@),
    {
        let (detect_width, detect_height): (i64, i64) = scanner::detect_size(&self.info);
        Plan {
            schema_version: SCHEMA_VERSION,
            generator: scanner::GENERATOR.to_owned(),
            created_at: String::new(),
            source: Source {
                name: self.name.clone(),
                size_bytes,
                duration: self.info.duration,
                fps: self.info.fps,
                width: self.info.width,
                height: self.info.height,
            },
            detector: Detector {
                sample_fps: 1000 * scanner::SAMPLE_FPS,
                threshold: scanner::THRESHOLD,
                detect_width,
                detect_height,
            },
            complete: self.progress.done,
            detections: self.detections(),
        }
    }
}

} // verus!
