//! What holds of every scan.

use vstd::prelude::*;

use crate::fence;
use crate::fence::FenceInput;
use crate::nudenet;
use crate::plan::Plan;
use crate::probe;
use crate::reading;
use crate::reading::Cut;
use crate::scan;
use crate::scan::Scan;
use crate::scanner;
use crate::window_laws;

verus! {

/// Whatever would be covered is on record.
pub proof fn law_what_would_be_covered_is_on_record(d: nudenet::Detection)
    requires
        nudenet::explicit(nudenet::LABELS@[d.class_id as int]@),
        scanner::score_thousandths(d.score as int) >= scanner::THRESHOLD,
    ensures
        scanner::on_record(d),
{
}

/// What goes on record of a frame is exactly what is explicit and strong
/// enough.
pub proof fn law_nothing_explicit_is_left_out(found: Seq<nudenet::Detection>, d: nudenet::Detection)
    ensures
        scanner::recorded(found).contains(d) <==> found.contains(d) && scanner::on_record(d),
    decreases found.len(),
{
    if found.len() > 0 {
        let prev = found.drop_last();
        let before = scanner::recorded(prev);
        let all = scanner::recorded(found);
        law_nothing_explicit_is_left_out(prev, d);
        if before.contains(d) {
            let k = choose|k: int| 0 <= k < before.len() && before[k] == d;
            assert(all[k] == d);
        }
        if prev.contains(d) {
            let k = choose|k: int| 0 <= k < prev.len() && prev[k] == d;
            assert(found[k] == d);
        }
        if found.contains(d) && scanner::on_record(d) {
            let k = choose|k: int| 0 <= k < found.len() && found[k] == d;
            if k < prev.len() {
                assert(prev[k] == d);
            } else {
                assert(all[all.len() - 1] == d);
            }
        }
        if all.contains(d) {
            let k = choose|k: int| 0 <= k < all.len() && all[k] == d;
            if k < before.len() {
                assert(before[k] == d);
            } else {
                assert(found[found.len() - 1] == d);
            }
        }
    }
}

/// A coordinate inside the detector's frame lands inside the movie's.
pub proof fn law_scaling_stays_in_the_frame(v: int, num: int, den: int)
    requires
        0 <= v <= den,
        0 < den,
        0 < num <= i64::MAX,
    ensures
        0 <= scanner::scaled(v, num, den) <= num,
{
    assert(0 <= v * num <= num * den) by (nonlinear_arith)
        requires
            0 <= v <= den,
            0 < num,
    ;
    assert(0 <= v * num / den <= num) by (nonlinear_arith)
        requires
            0 <= v * num <= num * den,
            0 < den,
    ;
}

/// Scaling keeps the order of coordinates.
pub proof fn law_scaling_keeps_order(u: int, v: int, num: int, den: int)
    requires
        0 <= u <= v,
        0 < den,
        0 < num,
    ensures
        scanner::scaled(u, num, den) <= scanner::scaled(v, num, den),
{
    assert(u * num <= v * num) by (nonlinear_arith)
        requires
            0 <= u <= v,
            0 < num,
    ;
    let a = u * num;
    let b = v * num;
    assert(a / den <= b / den) by (nonlinear_arith)
        requires
            a <= b,
            0 < den,
    ;
}

/// Frames come three a second: each shows later than the one before, the third
/// from any by exactly a second, and none lies past the frontier by more than
/// the rounding.
pub proof fn law_three_frames_a_second(index: int)
    requires
        index >= 0,
    ensures
        scanner::frame_time(index) < scanner::frame_time(index + 1),
        scanner::frame_time(index + 3) == scanner::frame_time(index) + 1000,
        scanner::frontier_at(index) <= scanner::frame_time(index) <= scanner::frontier_at(index)
            + 1,
{
}

/// A plan made from a scan lists its detections in the order of time.
pub proof fn law_scanned_plan_is_in_time_order(s: Scan, plan: Plan)
    requires
        s.wf(),
        scan::same_detections(plan.detections@, s.detections@),
    ensures
        window_laws::in_time_order(plan.detections@),
{
    let dets = plan.detections@;
    assert forall|i: int, j: int| 0 <= i <= j < dets.len() implies (#[trigger] dets[i]).t <= (
    #[trigger] dets[j]).t by {
        assert(scan::same_detection(dets[i], s.detections@[i]));
        assert(scan::same_detection(dets[j], s.detections@[j]));
        if i < j {
            assert(s.detections@[i].t < s.detections@[j].t);
        }
    }
}

/// Live playback never outruns detection: wherever the fence lets playback be
/// while the scan runs, every sampled frame up to there, and up to the seek
/// limit past it, has been looked at.
pub proof fn law_live_playback_stays_behind_detection(s: Scan, input: FenceInput, index: int)
    requires
        s.wf(),
        !s.progress.done,
        input.frontier == s.progress.frontier,
        input.scan_complete == s.progress.done,
        input.position >= 0,
        !(fence::decided(input) is SnapBack),
        0 <= index,
        scanner::frame_time(index) <= input.position + fence::SEEK_LIMIT,
    ensures
        index < s.frames,
{
}

proof fn lemma_first_some<A>(n: nat, f: spec_fn(int) -> Option<A>) -> (k: int)
    requires
        probe::first_some(n, f) is Some,
    ensures
        0 <= k < n,
        f(k) == probe::first_some(n, f),
    decreases n,
{
    if probe::first_some((n - 1) as nat, f) is Some {
        lemma_first_some((n - 1) as nat, f)
    } else {
        n - 1
    }
}

/// A stream id is never mistaken for dimensions: what a report gives as such
/// is at least sixteen either way.
pub proof fn law_dimensions_are_of_a_picture(text: Seq<char>)
    requires
        probe::report_dims(text) is Some,
    ensures
        probe::report_dims(text) matches Some((w, h)) && w >= 16 && h >= 16,
{
    let lines = reading::pieces(text, Cut::At('\n'));
    let f = |i: int| probe::line_dims(lines[i]);
    let i = lemma_first_some(lines.len(), f);
    assert(f(i) == probe::line_dims(lines[i]));
    let fields = reading::pieces(reading::trimmed(lines[i]), Cut::At(','));
    let g = |i: int| probe::field_dims(fields[i]);
    let j = lemma_first_some(fields.len(), g);
    assert(g(j) == probe::field_dims(fields[j]));
    let words = reading::pieces(fields[j], Cut::White);
    let h = |i: int| probe::dims(words[i]);
    let k = lemma_first_some(words.len(), h);
    assert(h(k) == probe::dims(words[k]));
}

} // verus!
