//! Promises that span several parts of the engine, on concrete movies.

use scrim::coverage::Coverage;
use scrim::fence::{decide, FenceAction, FenceInput};
use scrim::graph::CensorStyle;
use scrim::mpv::pipe_name;
use scrim::nudenet::{Detection as Found, ONE};
use scrim::plan::{DetBox, Detection, Plan, RawBox};
use scrim::playback::cast_config;
use scrim::probe::VideoInfo;
use scrim::scan::Scan;
use scrim::window::{build_windows, CensorWindow, WindowParams};

/// A scan of two minutes in which something is seen for a while, twice.
fn scanned() -> Scan {
    let info = VideoInfo { width: 1280, height: 720, duration: 120000, fps: 24000 };
    let mut scan = Scan::start("movie.mp4", info).unwrap();
    for i in 0..360 {
        let mut found = Vec::new();
        if (60..66).contains(&i) || (200..203).contains(&i) {
            let x = 100 + i;
            found.push(Found { class_id: 4, score: ONE / 10 * 7, x, y: 300, w: 60, h: 90 });
        }
        scan.look(&found, 10 * i as u64);
    }
    scan
}

fn plan() -> Plan {
    let mut scan = scanned();
    scan.finish(None);
    scan.plan(1)
}

/// The window that the graph shows at a moment.
fn shown(windows: &[CensorWindow], t: i64) -> Option<&CensorWindow> {
    windows.iter().filter(|w| w.contains(t)).next_back()
}

#[test]
fn a_scanned_movie_is_covered_wherever_something_was_seen() {
    let plan = plan();
    assert_eq!(plan.validate(), Ok(()));
    assert!(plan.complete);
    let coverage = Coverage::from_plan(&plan, &WindowParams::default());
    for d in &plan.detections {
        for t in [d.t - 1500, d.t, d.t + 1500] {
            let w = shown(&coverage.windows, t).expect("a window shows");
            for b in &d.boxes {
                assert!(w.x <= b.bounds[0] && w.y <= b.bounds[1]);
                assert!(b.bounds[2] <= w.x + w.w && b.bounds[3] <= w.y + w.h);
            }
        }
        for t in (d.t - 5000..d.t + 10000).step_by(100) {
            assert!(shown(&coverage.windows, t).is_some(), "nothing covers {t}");
        }
    }
    assert!(shown(&coverage.windows, 10000).is_none());
}

/// Where the graph puts its box at a moment, read back from its text.
fn box_at(graph: &str, t: i64) -> Option<(i64, i64, i64, i64)> {
    let between = |s: &str, from: &str, to: &str| {
        let at = s.find(from).unwrap() + from.len();
        s[at..at + s[at..].find(to).unwrap()].to_string()
    };
    let holds = |test: &str| {
        let (s, e) = test.split_once(',').unwrap();
        let ms = |v: &str| (v.parse::<f64>().unwrap() * 1000.0).round() as i64;
        ms(s) <= t && t <= ms(e)
    };
    let crop = between(graph, "[t]crop=", "',drawbox");
    let gate = between(graph, "enable='", "'");
    if !gate.split('+').any(|g| holds(&between(g, "between(t,", ")"))) {
        return None;
    }
    let pick = |expr: &str| -> i64 {
        for part in expr.split("if(between(t,").skip(1) {
            let (test, rest) = part.split_once("),").unwrap();
            if holds(test) {
                return rest.split_once(',').unwrap().0.parse().unwrap();
            }
        }
        0
    };
    let x = pick(&between(&crop, ":x='", "':y="));
    let y = pick(crop.split(":y='").nth(1).unwrap());
    let w = between(&crop, "w=", ":").parse().unwrap();
    let h = between(&crop, ":h=", ":").parse().unwrap();
    Some((x, y, w, h))
}

#[test]
fn no_detection_is_bare_while_another_run_leads_in() {
    // Two runs two seconds apart: at 20 s the second already leads in.
    let seen = |t: i64, x: i64| Detection {
        t,
        boxes: vec![DetBox::from_raw(RawBox::Bare([x, 100, x + 40, 140]))],
    };
    let mut plan = plan();
    plan.detections = vec![seen(20000, 100), seen(22000, 900), seen(60000, 500)];
    let p = WindowParams::default();
    let graph = Coverage::from_plan(&plan, &p).graph(1280, 720, CensorStyle::BlackBox);
    for d in &plan.detections {
        // All through the lead and the hold, every detection being alone in
        // its run.
        for t in (d.t - 5000..=d.t + 10000).step_by(250) {
            let (x, y, w, h) = box_at(&graph, t).expect("the overlay is on");
            let b = d.boxes[0].bounds;
            assert!(x <= b[0] && b[2] <= x + w, "at {t}: {x} {w}");
            assert!(y <= b[1] && b[3] <= y + h, "at {t}: {y} {h}");
        }
    }
    assert!(box_at(&graph, 45000).is_none());
    // Where only one run shows, its windows are as they were built.
    let alone = build_windows(&plan, &p);
    let coverage = Coverage::from_plan(&plan, &p);
    let place = |w: &CensorWindow| (w.start, w.end, w.x, w.y, w.w, w.h);
    assert_eq!(place(alone.last().unwrap()), place(coverage.windows.last().unwrap()));
}

#[test]
fn a_cast_from_part_way_in_hides_what_the_screen_hides() {
    let plan = plan();
    let p = WindowParams::default();
    let start = 18000;
    let cfg = cast_config(&plan, &p, start, CensorStyle::BlackBox).unwrap();
    for d in &plan.detections {
        if d.t <= start {
            continue;
        }
        let (x, y, w, h) = box_at(&cfg.graph, d.t - start).expect("the overlay is on");
        for b in &d.boxes {
            assert!(x <= b.bounds[0] && b.bounds[2] <= x + w);
            assert!(y <= b.bounds[1] && b.bounds[3] <= y + h);
        }
    }
}

#[test]
fn all_but_the_last_column_of_an_odd_frame_is_covered() {
    let mut plan = plan();
    plan.source.width = 1281;
    plan.source.height = 721;
    plan.detections = vec![Detection {
        t: 20000,
        boxes: vec![DetBox::from_raw(RawBox::Bare([1200, 600, 1281, 721]))],
    }];
    let p = WindowParams::default();
    let graph = Coverage::from_plan(&plan, &p).graph(1281, 721, CensorStyle::BlackBox);
    let (x, y, w, h) = box_at(&graph, 20000).unwrap();
    assert_eq!((x + w, y + h), (1280, 720));
    assert!(x <= 1200 && y <= 600);
}

#[test]
fn filters_do_not_multiply() {
    let plan = plan();
    for style in [CensorStyle::BlackBox, CensorStyle::BlurMedium] {
        let mut coverage = Coverage::from_plan(&plan, &WindowParams::default());
        coverage.full_runs = vec![(0, 1000), (2000, 3000)];
        let graph = coverage.graph(1280, 720, style);
        let count = |word: &str| graph.matches(word).count();
        assert_eq!((count("split="), count("crop="), count("overlay=")), (1, 1, 1));
        assert_eq!(count("drawbox") + count("boxblur"), 2);
    }
}

#[test]
fn fewer_windows_cover_every_moment_that_more_do() {
    let plan = plan();
    let short = build_windows(&plan, &WindowParams::default());
    let long = build_windows(&plan, &WindowParams { max_windows: 4, ..WindowParams::default() });
    assert!(long.len() <= 4 && short.len() > 4);
    for t in (0..120000).step_by(50) {
        assert_eq!(shown(&short, t).is_some(), shown(&long, t).is_some(), "at {t}");
    }
}

#[test]
fn the_graph_nests_once_for_each_window() {
    let plan = plan();
    let coverage = Coverage::from_plan(&plan, &WindowParams::default());
    let graph = coverage.graph(1280, 720, CensorStyle::BlackBox);
    // Two coordinates, each in the crop and in the overlay.
    assert_eq!(graph.matches("if(").count(), 4 * coverage.windows.len());
    assert_eq!(graph.split(';').count(), 3);
    assert!(coverage.windows.len() <= 90);
}

#[test]
fn live_playback_stays_behind_detection() {
    let scan = scanned();
    let p = scan.progress();
    assert_eq!(p.frontier, 119666);
    for position in (0..130000).step_by(500) {
        let input = FenceInput {
            position,
            frontier: p.frontier,
            scan_complete: p.done,
            paused_by_fence: false,
        };
        match decide(input) {
            FenceAction::SnapBack { to } => assert!(to + 30000 <= p.frontier),
            _ => assert!(position + 5000 <= p.frontier),
        }
    }
}

#[test]
fn no_two_players_share_a_pipe() {
    assert_eq!(pipe_name(7, 10), "\\\\.\\pipe\\scrim-7-10");
    assert_ne!(pipe_name(7, 1), pipe_name(7, 11));
    assert_ne!(pipe_name(7, 0), pipe_name(7, 18446744073709551615));
}
