use scrim::coverage::Coverage;
use scrim::graph::{build_graph, CensorStyle};
use scrim::plan::{DetBox, Detection, Detector, Plan, PlanError, RawBox, Source};
use scrim::plan::{MIN_SCHEMA_VERSION, SCHEMA_VERSION};
use scrim::playback::{cast_config, graph_for_plan, refusal, style_from_name, Refusal};
use scrim::spans::{merge_overlaps, merge_within};
use scrim::window::{
    build_windows, floor_even, plan_fits, union, CensorWindow, Reason, WindowParams,
};

fn labelled(bounds: [i64; 4], label: &str, score: i64) -> DetBox {
    DetBox::from_raw(RawBox::Labelled { bounds, label: label.to_string(), score })
}

fn bare(bounds: [i64; 4]) -> DetBox {
    DetBox::from_raw(RawBox::Bare(bounds))
}

fn seen(t: i64, boxes: Vec<DetBox>) -> Detection {
    Detection { t, boxes }
}

fn plan(duration: i64, width: i64, height: i64, detections: Vec<Detection>) -> Plan {
    Plan {
        schema_version: SCHEMA_VERSION,
        generator: "test".to_string(),
        created_at: String::new(),
        source: Source {
            name: "movie.mp4".to_string(),
            size_bytes: 1,
            duration,
            fps: 24000,
            width,
            height,
        },
        detector: Detector {
            sample_fps: 3000,
            threshold: 550,
            detect_width: width,
            detect_height: height,
        },
        complete: true,
        detections,
    }
}

fn window(start: i64, end: i64, x: i64, y: i64, w: i64, h: i64) -> CensorWindow {
    let reason = Reason { label: "A".to_string(), score: 600, t: start };
    CensorWindow { start, end, x, y, w, h, reason }
}

fn shape(w: &CensorWindow) -> (i64, i64, i64, i64, i64, i64) {
    (w.start, w.end, w.x, w.y, w.w, w.h)
}

#[test]
fn merge_overlaps_joins_touching_and_overlapping_spans() {
    assert_eq!(
        merge_overlaps(&[(0, 5000), (4000, 9000), (20000, 22000)]),
        vec![(0, 9000), (20000, 22000)]
    );
    // Touching exactly is still one span.
    assert_eq!(merge_overlaps(&[(0, 5000), (5000, 8000)]), vec![(0, 8000)]);
    // A span fully inside another does not shorten it.
    assert_eq!(merge_overlaps(&[(0, 10000), (2000, 4000)]), vec![(0, 10000)]);
    assert!(merge_overlaps(&[]).is_empty());
}

#[test]
fn spans_are_merged_in_any_order_and_across_a_slack() {
    assert_eq!(
        merge_overlaps(&[(20, 30), (0, 5), (4, 9), (0, 5)]),
        vec![(0, 9), (20, 30)]
    );
    assert_eq!(merge_within(&[(0, 5), (10, 12), (30, 31)], 5), vec![(0, 12), (30, 31)]);
    assert_eq!(merge_within(&[(0, 5), (10, 12), (30, 31)], 4), vec![(0, 5), (10, 12), (30, 31)]);
}

#[test]
fn blur_styles_are_see_through_and_boxes_are_not() {
    assert!(CensorStyle::BlackBox.is_opaque());
    assert!(CensorStyle::WhiteBox.is_opaque());
    assert!(!CensorStyle::BlurStrong.is_opaque());
    assert!(!CensorStyle::BlurLight.is_opaque());
}

#[test]
fn styles_have_their_labels() {
    assert_eq!(CensorStyle::BlackBox.label(), "Black box");
    assert_eq!(CensorStyle::WhiteBox.label(), "White box");
    assert_eq!(CensorStyle::BlurStrong.label(), "Blur strong");
    assert_eq!(CensorStyle::BlurMedium.label(), "Blur medium");
    assert_eq!(CensorStyle::BlurLight.label(), "Blur light");
}

#[test]
fn unknown_style_names_are_the_black_box() {
    assert_eq!(style_from_name("white_box"), CensorStyle::WhiteBox);
    assert_eq!(style_from_name("blur_strong"), CensorStyle::BlurStrong);
    assert_eq!(style_from_name("blur_medium"), CensorStyle::BlurMedium);
    assert_eq!(style_from_name("blur_light"), CensorStyle::BlurLight);
    assert_eq!(style_from_name("black_box"), CensorStyle::BlackBox);
    assert_eq!(style_from_name("sparkles"), CensorStyle::BlackBox);
}

#[test]
fn a_clean_movie_produces_no_filtergraph() {
    let plan = plan(120000, 1280, 720, vec![]);
    let windows = build_windows(&plan, &WindowParams::default());
    assert!(windows.is_empty(), "sample.mp4 has no detections");

    let graph = build_graph(
        &[],
        &windows,
        plan.source.width,
        plan.source.height,
        CensorStyle::BlackBox,
    );
    assert_eq!(graph, "", "no windows and no full runs means no filter at all");
}

#[test]
fn defaults_are_the_documented_ones() {
    let p = WindowParams::default();
    assert_eq!((p.pad_before, p.pad_after, p.gap_merge, p.window_max), (5000, 10000, 1500, 2000));
    assert_eq!((p.margin, p.max_windows, p.threshold), (80, 90, 550));
}

#[test]
fn one_detection_is_led_in_held_and_padded() {
    let plan = plan(100000, 1000, 500, vec![seen(20000, vec![bare([301, 101, 399, 199])])]);
    let windows = build_windows(&plan, &WindowParams::default());
    // From 15 s to 30 s, two seconds each.
    assert_eq!(windows.len(), 8);
    assert_eq!(windows[0].start, 15000);
    assert_eq!(windows[7].end, 30000);
    assert_eq!(windows[7].start, 29000);
    // Grown by 80 and 40 pixels, then cut to even ones.
    for w in &windows {
        assert_eq!((w.x, w.y, w.w, w.h), (220, 60, 258, 178));
    }
}

#[test]
fn the_cover_stays_inside_the_movie_and_the_frame() {
    let plan = plan(22000, 100, 100, vec![seen(2000, vec![bare([0, 0, 100, 100])])]);
    let windows = build_windows(&plan, &WindowParams::default());
    assert_eq!(windows[0].start, 0);
    assert_eq!(windows.last().unwrap().end, 12000);
    assert_eq!(shape(&windows[0]), (0, 2000, 0, 0, 100, 100));
}

#[test]
fn close_detections_are_one_run_and_far_ones_two() {
    let box_at = |x: i64| vec![bare([x, 10, x + 20, 30])];
    let near = plan(60000, 200, 200, vec![seen(20000, box_at(10)), seen(21500, box_at(100))]);
    let apart = plan(60000, 200, 200, vec![seen(20000, box_at(10)), seen(21501, box_at(100))]);
    let p = WindowParams::default();
    assert_eq!(build_windows(&near, &p).last().unwrap().end, 31500);
    // One run of 16.5 s, or two of 15 s.
    assert_eq!(build_windows(&near, &p).len(), 9);
    assert_eq!(build_windows(&apart, &p).len(), 16);
}

#[test]
fn a_hold_with_no_box_near_it_covers_the_whole_run() {
    let plan = plan(
        60000,
        400,
        400,
        vec![
            seen(20000, vec![bare([100, 100, 120, 120])]),
            seen(21000, vec![bare([300, 300, 320, 320])]),
        ],
    );
    let p = WindowParams { margin: 0, ..WindowParams::default() };
    let windows = build_windows(&plan, &p);
    let tail = windows.last().unwrap();
    assert_eq!((tail.x, tail.y, tail.w, tail.h), (100, 100, 220, 220));
}

#[test]
fn windows_carry_the_strongest_reason() {
    let plan = plan(
        60000,
        400,
        400,
        vec![
            seen(20000, vec![labelled([100, 100, 120, 120], "A", 600)]),
            seen(20333, vec![labelled([100, 100, 120, 120], "B", 900)]),
            seen(20667, vec![labelled([100, 100, 120, 120], "C", 900)]),
        ],
    );
    let windows = build_windows(&plan, &WindowParams::default());
    assert_eq!(windows[3].reason.label, "B");
    assert_eq!(windows[3].reason.score, 900);
    assert_eq!(windows[3].reason.t, 20333);
}

#[test]
fn boxes_below_the_threshold_are_on_record_but_not_covered() {
    let weak = vec![seen(20000, vec![labelled([100, 100, 120, 120], "A", 549)])];
    let strong = vec![seen(20000, vec![labelled([100, 100, 120, 120], "A", 550)])];
    let p = WindowParams::default();
    assert!(build_windows(&plan(60000, 400, 400, weak.clone()), &p).is_empty());
    assert!(!build_windows(&plan(60000, 400, 400, strong), &p).is_empty());
    // Lowering the cutoff later brings them back.
    let lower = WindowParams { threshold: 400, ..p };
    assert!(!build_windows(&plan(60000, 400, 400, weak), &lower).is_empty());
}

#[test]
fn too_many_windows_get_longer_instead_of_dropped() {
    // A minute of detections three a second, in one run of 75 s.
    let mut dets = Vec::new();
    for i in 0..180 {
        dets.push(seen(10000 + i * 333, vec![bare([100, 100, 120, 120])]));
    }
    let plan = plan(200000, 400, 400, dets);
    let all = WindowParams::default();
    assert_eq!(build_windows(&plan, &all).len(), 38);
    let few = WindowParams { max_windows: 10, ..all };
    let windows = build_windows(&plan, &few);
    assert_eq!(windows.len(), 10);
    assert_eq!(windows[0].end - windows[0].start, 8000);
    assert_eq!((windows[0].start, windows[9].end), (5000, 79607));
}

#[test]
fn a_dense_movie_stays_within_the_default_cap() {
    // Two hours with a run every forty seconds: even one window to a run is
    // too many, so neighbouring runs are merged.
    let mut dets = Vec::new();
    for i in 0..150 {
        dets.push(seen(i * 40000 + 20000, vec![bare([100 + i, 100, 120 + i, 120])]));
    }
    let plan = plan(7200000, 400, 400, dets);
    let windows = build_windows(&plan, &WindowParams::default());
    assert!(!windows.is_empty() && windows.len() <= 90, "{} windows", windows.len());
    let coverage = Coverage::from_plan(&plan, &WindowParams::default());
    assert_eq!(coverage.windows.len(), windows.len());
    for d in &plan.detections {
        let b = d.boxes[0].bounds;
        assert!(windows.iter().any(|w| w.start <= d.t - 5000
            && d.t + 10000 <= w.end
            && w.x <= b[0]
            && b[2] <= w.x + w.w));
    }
}

#[test]
fn the_cap_holds_however_low_it_is() {
    let dets = vec![
        seen(20000, vec![bare([100, 100, 120, 120])]),
        seen(70000, vec![bare([300, 300, 320, 320])]),
    ];
    let plan = plan(100000, 400, 400, dets);
    for cap in [0, 1] {
        let p = WindowParams { max_windows: cap, margin: 0, ..WindowParams::default() };
        let windows = build_windows(&plan, &p);
        assert_eq!(windows.len(), 1);
        assert_eq!(shape(&windows[0]), (15000, 80000, 100, 100, 220, 220));
    }
    let p = WindowParams { max_windows: 2, margin: 0, ..WindowParams::default() };
    assert_eq!(build_windows(&plan, &p).len(), 2);
}

#[test]
fn merging_harder_never_covers_less() {
    // The short windows of the hold cover the whole run; the longer ones that
    // replace them must too.
    let dets = vec![
        seen(10000, vec![bare([0, 0, 20, 20])]),
        seen(11000, vec![bare([300, 300, 320, 320])]),
        seen(40000, vec![bare([200, 0, 220, 20])]),
    ];
    let plan = plan(100000, 400, 400, dets);
    let covers = |ws: &[CensorWindow], t: i64, x: i64, y: i64| {
        ws.iter().any(|w| {
            w.contains(t) && w.x <= x && x < w.x + w.w && w.y <= y && y < w.y + w.h
        })
    };
    let many = build_windows(&plan, &WindowParams::default());
    assert!(covers(&many, 15000, 5, 5));
    for cap in [12, 8, 4, 2, 1] {
        let few = build_windows(&plan, &WindowParams { max_windows: cap, ..WindowParams::default() });
        assert!(few.len() <= cap);
        for t in (0..100000).step_by(500) {
            for x in (0..400).step_by(25) {
                for y in (0..400).step_by(25) {
                    assert!(!covers(&many, t, x, y) || covers(&few, t, x, y), "{cap}: {t} {x} {y}");
                }
            }
        }
    }
}

#[test]
fn detections_are_covered_whatever_their_order() {
    let dets = vec![
        seen(50000, vec![labelled([40, 40, 60, 60], "A", 900)]),
        seen(10000, vec![labelled([40, 40, 60, 60], "A", 900)]),
    ];
    let plan = plan(100000, 100, 100, dets);
    assert_eq!(plan.validate(), Ok(()));
    let windows = build_windows(&plan, &WindowParams::default());
    for t in [5000, 10000, 20000, 45000, 50000, 60000] {
        assert!(windows.iter().any(|w| w.contains(t)), "nothing at {t}");
    }
    assert!(windows.iter().all(|w| !w.contains(30000)));
    let mut sorted = plan.clone();
    sorted.detections.reverse();
    let again = build_windows(&sorted, &WindowParams::default());
    let shapes = |ws: &[CensorWindow]| ws.iter().map(shape).collect::<Vec<_>>();
    assert_eq!(shapes(&windows), shapes(&again));
}

#[test]
fn the_union_of_boxes_is_the_least_box_around_them() {
    assert_eq!(union(None, &[5, 6, 7, 8]), [5, 6, 7, 8]);
    assert_eq!(union(Some([0, 9, 3, 20]), &[5, 6, 7, 8]), [0, 6, 7, 20]);
    assert_eq!(union(Some([5, 6, 7, 8]), &[0, 9, 3, 20]), [0, 6, 7, 20]);
}

#[test]
fn a_frame_flagged_without_a_box_is_covered_edge_to_edge() {
    let plan = plan(60000, 400, 400, vec![seen(20000, vec![])]);
    let coverage = Coverage::from_plan(&plan, &WindowParams::default());
    assert!(coverage.windows.is_empty());
    assert_eq!(coverage.full_runs, vec![(15000, 30000)]);
    assert!(!coverage.is_empty());
    assert_eq!(coverage.covered_seconds(), 15000);
    assert_eq!(
        coverage.graph(400, 400, CensorStyle::BlackBox),
        "drawbox=x=0:y=0:w=iw:h=ih:color=black:t=fill:enable='between(t,15.000,30.000)'"
    );
}

#[test]
fn the_graph_of_one_window_is_a_single_moving_chain() {
    let graph = build_graph(&[], &[window(1000, 3500, 10, 20, 30, 40)], 640, 480, CensorStyle::WhiteBox);
    assert_eq!(
        graph,
        "split=2[m][t];\
         [t]crop=w=30:h=40:x='if(between(t,1.000,3.500),10,0)':y='if(between(t,1.000,3.500),20,0)',\
         drawbox=x=0:y=0:w=iw:h=ih:color=white:t=fill[b];\
         [m][b]overlay=x='if(between(t,1.000,3.500),10,0)':y='if(between(t,1.000,3.500),20,0)'\
         :eval=frame:enable='between(t,1.000,3.500)'"
    );
}

#[test]
fn the_newest_window_is_asked_for_first_and_the_box_fits_them_all() {
    let windows = [window(0, 2000, 100, 100, 40, 20), window(1000, 4000, 200, 40, 20, 60)];
    let graph = build_graph(&[(9000, 9500)], &windows, 640, 480, CensorStyle::BlurMedium);
    // The box is 40 by 60; each window is recentred inside it, on even pixels.
    let x = "if(between(t,1.000,4.000),190,if(between(t,0.000,2.000),100,0))";
    let y = "if(between(t,1.000,4.000),40,if(between(t,0.000,2.000),80,0))";
    let blur = "boxblur=luma_radius='min(16,(min(w,h)-1)/2)':luma_power=2\
                :chroma_radius='min(8,(min(cw,ch)-1)/2)':chroma_power=2";
    let gate = "between(t,0.000,2.000)+between(t,1.000,4.000)";
    assert_eq!(
        graph,
        format!(
            "split=2[m][t];[t]crop=w=40:h=60:x='{x}':y='{y}',{blur}[b];\
             [m][b]overlay=x='{x}':y='{y}':eval=frame:enable='{gate}'[o];\
             [o]{blur}:enable='between(t,9.000,9.500)'"
        )
    );
}

#[test]
fn the_reason_is_of_the_window_the_graph_shows() {
    let coverage = Coverage {
        windows: vec![window(0, 10000, 0, 0, 4, 4), window(8000, 12000, 0, 0, 4, 4)],
        full_runs: vec![],
    };
    assert_eq!(coverage.reason_at(500).unwrap().t, 0);
    assert_eq!(coverage.reason_at(9000).unwrap().t, 8000);
    assert_eq!(coverage.reason_at(10000).unwrap().t, 8000);
    // Both ends belong to a window.
    assert_eq!(coverage.reason_at(12000).unwrap().t, 8000);
    assert!(coverage.reason_at(12001).is_none());
    assert_eq!(coverage.windows[1].duration(), 4000);
    assert!(coverage.windows[1].contains(8000) && !coverage.windows[1].contains(7999));
    // The later in the list is shown, whichever starts first.
    let coverage = Coverage {
        windows: vec![window(19000, 21000, 0, 0, 4, 4), window(18500, 20500, 0, 0, 4, 4)],
        full_runs: vec![],
    };
    assert_eq!(coverage.reason_at(20000).unwrap().t, 18500);
}

#[test]
fn a_moment_covered_twice_counts_once() {
    let covered = |windows: Vec<CensorWindow>, full_runs: Vec<(i64, i64)>| {
        Coverage { windows, full_runs }.covered_seconds()
    };
    let two = vec![window(0, 10000, 0, 0, 4, 4), window(5000, 15000, 0, 0, 4, 4)];
    assert_eq!(covered(two.clone(), vec![]), 15000);
    assert_eq!(covered(two.clone(), vec![(14000, 16000), (20000, 21000)]), 17000);
    // What ends before it starts covers nothing.
    assert_eq!(covered(vec![window(9000, 8000, 0, 0, 4, 4)], vec![(5, 5)]), 0);
    assert_eq!(covered(vec![], vec![]), 0);
}

#[test]
fn even_numbers_are_rounded_down() {
    assert_eq!(floor_even(7), 6);
    assert_eq!(floor_even(-7), -8);
    assert_eq!(floor_even(-8), -8);
}

#[test]
fn plans_that_do_not_hold_together_are_refused() {
    let good = plan(60000, 400, 400, vec![seen(61000, vec![bare([0, 0, 4, 4])])]);
    assert_eq!(good.validate(), Ok(()));
    assert_eq!(good.detection_count(), 1);

    let mut p = good.clone();
    p.schema_version = 3;
    assert_eq!(p.validate(), Err(PlanError::UnsupportedSchema(3)));
    p.schema_version = MIN_SCHEMA_VERSION;
    assert_eq!(p.validate(), Ok(()));
    p.schema_version = 0;
    assert_eq!(p.validate(), Err(PlanError::UnsupportedSchema(0)));

    let mut p = good.clone();
    p.source.width = 0;
    assert_eq!(p.validate(), Err(PlanError::BadDimensions));

    let mut p = good.clone();
    p.source.duration = 0;
    assert_eq!(p.validate(), Err(PlanError::BadDuration));

    let mut p = good.clone();
    p.detections[0].t = 61001;
    assert_eq!(p.validate(), Err(PlanError::DetectionOutOfRange));
    p.detections[0].t = -1;
    assert_eq!(p.validate(), Err(PlanError::DetectionOutOfRange));

    for bad in [[4, 0, 4, 4], [0, 5, 4, 4], [-1, 0, 4, 4], [0, -1, 4, 4]] {
        let mut p = good.clone();
        p.detections[0].boxes[0].bounds = bad;
        assert_eq!(p.validate(), Err(PlanError::MalformedBox));
        let refused = graph_for_plan(&p, &WindowParams::default(), CensorStyle::BlackBox);
        assert!(matches!(refused, Err(Refusal::Unsound(PlanError::MalformedBox))));
    }
}

#[test]
fn errors_of_a_plan_have_their_messages() {
    assert_eq!(
        PlanError::UnsupportedSchema(7).message(),
        "plan schema version 7 is not supported by this build"
    );
    assert_eq!(PlanError::BadDimensions.message(), "plan has non-positive frame dimensions");
    assert_eq!(PlanError::BadDuration.message(), "plan has a non-positive duration");
    assert_eq!(
        PlanError::DetectionOutOfRange.message(),
        "plan has a detection outside the movie's duration"
    );
    assert_eq!(
        PlanError::MalformedBox.message(),
        "plan has a box with inverted or negative bounds"
    );
}

#[test]
fn old_boxes_load_without_a_reason() {
    let b = bare([12, 34, 56, 78]);
    assert_eq!((b.bounds, b.label.as_str(), b.score), ([12, 34, 56, 78], "", 0));
    assert_eq!((b.width(), b.height()), (44, 44));
    let b = labelled([12, 34, 56, 78], "A", 610);
    assert_eq!((b.label.as_str(), b.score), ("A", 610));
}

#[test]
fn a_plan_with_absurd_numbers_does_not_fit() {
    let p = WindowParams::default();
    let good = plan(60000, 400, 400, vec![seen(100, vec![bare([0, 0, 4, 4])])]);
    assert!(plan_fits(&good, &p));
    let mut far = good.clone();
    far.detections[0].boxes[0].bounds[2] = i64::MAX;
    assert!(!plan_fits(&far, &p));
    let mut wide = good.clone();
    wide.source.width = i64::MAX;
    assert!(!plan_fits(&wide, &p));
}

#[test]
fn the_graph_of_a_plan_is_that_of_its_coverage() {
    let plan = plan(60000, 400, 400, vec![seen(20000, vec![bare([100, 100, 120, 120])])]);
    let p = WindowParams::default();
    let coverage = Coverage::from_plan(&plan, &p);
    assert_eq!(
        graph_for_plan(&plan, &p, CensorStyle::BlurLight).unwrap(),
        coverage.graph(400, 400, CensorStyle::BlurLight)
    );
}

#[test]
fn only_a_finished_plan_is_played_or_cast() {
    let mut movie = plan(60000, 400, 400, vec![seen(20000, vec![])]);
    let p = WindowParams::default();
    assert_eq!(refusal(&movie), None);
    movie.complete = false;
    let refused = cast_config(&movie, &p, 0, CensorStyle::BlackBox);
    assert!(matches!(refused, Err(Refusal::Unfinished)));
    let refused = graph_for_plan(&movie, &p, CensorStyle::BlackBox);
    assert!(matches!(refused, Err(Refusal::Unfinished)));
    assert_eq!(Refusal::Unfinished.message(), "the scan of this movie is not finished");
    movie.complete = true;
    movie.source.height = 0;
    let refused = cast_config(&movie, &p, 0, CensorStyle::BlackBox);
    assert!(matches!(refused, Err(Refusal::Unsound(PlanError::BadDimensions))));
    assert_eq!(
        refusal(&movie).unwrap().message(),
        "plan has non-positive frame dimensions"
    );
}

#[test]
fn a_cast_from_part_way_in_is_shifted() {
    let movie = plan(60000, 400, 400, vec![seen(20000, vec![])]);
    let p = WindowParams::default();
    let cfg = cast_config(&movie, &p, 17000, CensorStyle::BlackBox).unwrap();
    assert_eq!(cfg.start, 17000);
    assert!(cfg.graph.ends_with("enable='between(t,0.000,13.000)'"));
    // The first second is no exception.
    let cfg = cast_config(&movie, &p, 600, CensorStyle::BlackBox).unwrap();
    assert!(cfg.graph.ends_with("enable='between(t,14.400,29.400)'"));
    // The shift is by what ffmpeg is told to seek to, in hundredths.
    let cfg = cast_config(&movie, &p, 1004, CensorStyle::BlackBox).unwrap();
    assert!(cfg.graph.ends_with("enable='between(t,14.000,29.000)'"));
    let cfg = cast_config(&movie, &p, i64::MAX, CensorStyle::BlackBox).unwrap();
    assert_eq!(cfg.graph, "");

    let boxed = plan(60000, 400, 400, vec![seen(20000, vec![bare([100, 100, 120, 120])])]);
    let whole = cast_config(&boxed, &p, 0, CensorStyle::BlackBox).unwrap();
    assert_eq!(whole.graph, graph_for_plan(&boxed, &p, CensorStyle::BlackBox).unwrap());
    let late = cast_config(&boxed, &p, 29500, CensorStyle::BlackBox).unwrap();
    assert!(late.graph.ends_with("enable='between(t,0.000,0.500)'"));
    let after = cast_config(&boxed, &p, 30000, CensorStyle::BlackBox).unwrap();
    assert_eq!(after.graph, "");
}
