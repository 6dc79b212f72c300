//! Keeping live playback behind the detection frontier.
//!
//! In live mode the movie is being watched and analysed at the same time. The
//! scanner normally stays well ahead, but "normally" is not a guarantee and
//! the viewer can seek anywhere they like.
//!
//! The frontier is how far detection has looked. Past it, nothing is known,
//! and showing an unexamined frame is the one thing that must never happen. So
//! playback is fenced:
//!
//! ```text
//!   .............................|--- 15s ---|-5s-|
//!   safe to watch                 pause here      frontier
//!                                                 |
//!   a seek past this point snaps back to frontier - 30s
//! ```
//!
//! Times are milliseconds.

use vstd::prelude::*;

verus! {

/// How close to the frontier a seek may land before it is refused.
pub const SEEK_LIMIT: i64 = 5000;

/// Where a refused seek is sent instead.
pub const SNAP_BACK: i64 = 30000;

/// Playback pauses this far short of the frontier.
pub const PAUSE_LIMIT: i64 = 15000;

/// And resumes once the scanner has opened up this much of a lead.
pub const RESUME_GAP: i64 = 45000;

/// What to do with playback.
#[derive(Debug, Clone, Copy, PartialEq, Eq, Structural)]
pub enum FenceAction {
    /// Leave playback alone.
    CarryOn,
    /// Playback is too close to the frontier; send it back here.
    SnapBack { to: i64 },
    /// Hold until detection gets further ahead.
    Pause,
    /// Detection has enough of a lead; carry on.
    Resume,
}

/// Where playback and detection are.
#[derive(Debug, Clone, Copy, PartialEq, Eq, Structural)]
pub struct FenceInput {
    pub position: i64,
    pub frontier: i64,
    pub scan_complete: bool,
    /// True when the fence, rather than the viewer, did the pausing.
    pub paused_by_fence: bool,
}

impl Default for FenceInput {
    fn default() -> (input: FenceInput)
        ensures
            input == (FenceInput {
                position: 0,
                frontier: 0,
                scan_complete: false,
                paused_by_fence: false,
            }),
    {
        FenceInput { position: 0, frontier: 0, scan_complete: false, paused_by_fence: false }
    }
}

impl FenceInput {
    /// How far detection is ahead of playback.
    pub open spec fn lead(self) -> int {
        self.frontier - self.position
    }
}

/// Where a refused seek is sent: behind the frontier, but never before the
/// start of the movie.
pub open spec fn snap_target(frontier: int) -> int {
    if frontier > SNAP_BACK {
        frontier - SNAP_BACK
    } else {
        0
    }
}

/// What to do with playback. A finished scan has looked at the whole movie, so
/// there is no frontier left to defend.
pub open spec fn decided(input: FenceInput) -> FenceAction {
    if input.paused_by_fence && (input.scan_complete || input.lead() >= RESUME_GAP) {
        FenceAction::Resume
    } else if input.scan_complete {
        FenceAction::CarryOn
    } else if input.lead() < SEEK_LIMIT {
        FenceAction::SnapBack { to: snap_target(input.frontier as int) as i64 }
    } else if input.lead() <= PAUSE_LIMIT && !input.paused_by_fence {
        FenceAction::Pause
    } else {
        FenceAction::CarryOn
    }
}

/// Decide what to do with playback.
pub fn decide(input: FenceInput) -> (action: FenceAction)
    ensures
        action == decided(input),
        action == FenceAction::Resume <==> input.paused_by_fence && (input.scan_complete
            || input.lead() >= RESUME_GAP),
        action == FenceAction::Pause <==> !input.scan_complete && !input.paused_by_fence
            && SEEK_LIMIT <= input.lead() <= PAUSE_LIMIT,
        action is SnapBack <==> !input.scan_complete && input.lead() < SEEK_LIMIT,
        action matches FenceAction::SnapBack { to } ==> to == snap_target(input.frontier as int),
{
    if input.scan_complete {
        return if input.paused_by_fence {
            FenceAction::Resume
        } else {
            FenceAction::CarryOn
        };
    }
    let lead: i128 = input.frontier as i128 - input.position as i128;
    if lead < SEEK_LIMIT as i128 {
        return FenceAction::SnapBack {
            to: if input.frontier > SNAP_BACK {
                input.frontier - SNAP_BACK
            } else {
                0
            },
        };
    }
    if lead <= PAUSE_LIMIT as i128 {
        return if input.paused_by_fence {
            FenceAction::CarryOn
        } else {
            FenceAction::Pause
        };
    }
    if input.paused_by_fence && lead >= RESUME_GAP as i128 {
        return FenceAction::Resume;
    }
    FenceAction::CarryOn
}

/// Milliseconds until playback is expected to resume, for the dialog's
/// countdown. `speed` is the scanner's, in thousandths of realtime.
///
/// An estimate only: it assumes the scanner keeps its current pace, and the
/// fence resumes on the real lead regardless of what this says. While paused
/// the lead grows at the scanner's full rate. A scanner that stands still has
/// no answer rather than a wrong one.
pub fn resume_estimate(input: FenceInput, speed: i64) -> (r: Option<i128>)
    ensures
        r == if !input.paused_by_fence || input.scan_complete {
            None::<i128>
        } else if input.lead() >= RESUME_GAP {
            Some(0i128)
        } else if speed <= 10 {
            None
        } else {
            Some(((RESUME_GAP - input.lead()) * 1000 / (speed as int)) as i128)
        },
        r matches Some(wait) ==> wait >= 0,
{
    if !input.paused_by_fence || input.scan_complete {
        return None;
    }
    let needed: i128 = RESUME_GAP as i128 - (input.frontier as i128 - input.position as i128);
    if needed <= 0 {
        return Some(0);
    }
    if speed <= 10 {
        return None;
    }
    assert(0 <= needed * 1000 / speed as int <= needed * 1000) by (nonlinear_arith)
        requires
            needed > 0,
            speed > 10,
    ;
    Some(needed * 1000 / speed as i128)
}

// ---------------------------------------------------------------------------
// The laws
// ---------------------------------------------------------------------------

/// Nothing past the frontier is shown: while the scan runs, any position
/// closer to the frontier than the seek limit is sent back.
pub proof fn law_unseen_frames_are_refused(input: FenceInput)
    requires
        !input.scan_complete,
        input.position > input.frontier - SEEK_LIMIT,
    ensures
        decided(input) is SnapBack,
{
}

/// Where a refused seek is sent, playback goes on at once, neither paused nor
/// sent back again, once more than fifteen seconds have been looked at.
pub proof fn law_snap_back_lands_safely(input: FenceInput)
    requires
        decided(input) is SnapBack,
        input.frontier > PAUSE_LIMIT,
    ensures
        decided(input) matches FenceAction::SnapBack { to } && 0 <= to && decided(
            FenceInput { position: to, paused_by_fence: false, ..input },
        ) == FenceAction::CarryOn,
{
}

/// Playback that has just been resumed is not held again on the spot.
pub proof fn law_resume_is_not_undone(input: FenceInput)
    requires
        decided(input) == FenceAction::Resume,
    ensures
        decided(FenceInput { paused_by_fence: false, ..input }) == FenceAction::CarryOn,
{
}

/// Playback that has just been held is not held again, nor let go, until
/// something changes.
pub proof fn law_pause_is_not_repeated(input: FenceInput)
    requires
        decided(input) == FenceAction::Pause,
    ensures
        decided(FenceInput { paused_by_fence: true, ..input }) == FenceAction::CarryOn,
{
}

/// Every fence lifts when the scan is complete, wherever playback is.
pub proof fn law_fences_lift_when_complete(input: FenceInput)
    requires
        input.scan_complete,
    ensures
        decided(input) == if input.paused_by_fence {
            FenceAction::Resume
        } else {
            FenceAction::CarryOn
        },
{
}

} // verus!
