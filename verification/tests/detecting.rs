use scrim::args::Arg;
use scrim::nudenet::{
    iou, is_explicit, model_input, postprocess, preprocess, sample, split, Area,
    Detection as Found, EXPLICIT_LABELS, LABELS, ONE,
};
use scrim::probe::{parse, parse_dims, parse_hms, probe, probe_args, VideoInfo};
use scrim::scan::Scan;
use scrim::scanner::{
    detect_size, frame_boxes, frame_bytes, scan_args, FrameFill, ReadEvent, ReadStep,
};

#[test]
fn explicit_labels_are_exactly_the_five_pureframe_used() {
    assert!(is_explicit("FEMALE_BREAST_EXPOSED"));
    assert!(is_explicit("ANUS_EXPOSED"));
    // Deliberately not covered.
    assert!(!is_explicit("FEMALE_BREAST_COVERED"));
    assert!(!is_explicit("BELLY_EXPOSED"));
    assert!(!is_explicit("FACE_FEMALE"));
    assert!(!is_explicit("ARMPITS_EXPOSED"));
    assert!(!is_explicit("FEET_EXPOSED"));
}

#[test]
fn every_explicit_label_exists_in_the_model_class_list() {
    // A typo here would silently stop covering a whole category.
    for label in EXPLICIT_LABELS {
        assert!(LABELS.contains(&label), "{label} is not a model class");
    }
}

fn area(x: i128, y: i128, w: i128, h: i128) -> Area {
    Area { x, y, w, h }
}

#[test]
fn iou_matches_hand_computed_overlap() {
    let a = area(0, 0, 10, 10);
    let (inter, union) = iou(&a, &a);
    assert_eq!(inter, union);
    // Half overlap: intersection 50, union 150.
    let b = area(5, 0, 10, 10);
    assert_eq!(iou(&a, &b), (50, 150));
    // Disjoint.
    assert_eq!(iou(&a, &area(20, 20, 5, 5)).0, 0);
    // Nothing at all.
    assert_eq!(iou(&area(0, 0, 0, 0), &area(0, 0, 0, 0)), (0, 1));
}

#[test]
fn sampling_outside_the_frame_reads_as_black_padding() {
    let frame = vec![255u8; 4 * 4 * 3];
    assert_eq!(sample(&frame, 4, 4, 0, 0), [255, 255, 255]);
    // NudeNet pads bottom and right, so those reads must be black.
    assert_eq!(sample(&frame, 4, 4, 9, 0), [0, 0, 0]);
    assert_eq!(sample(&frame, 4, 4, 0, 9), [0, 0, 0]);
}

#[test]
fn positions_split_into_a_pixel_and_a_weight() {
    assert_eq!(split(-5, 10), (0, 0));
    assert_eq!(split(0, 10), (0, 0));
    assert_eq!(split(640, 10), (1, 0));
    assert_eq!(split(960, 10), (1, 320));
    assert_eq!(split(9 * 640 + 1, 10), (9, 0));
    assert_eq!(split(5000, 0), (0, 0));
}

#[test]
fn a_frame_is_padded_to_the_right_and_kept_in_its_channel_order() {
    // A 160x320 frame of one colour fills the left half of the square.
    let mut frame = Vec::new();
    for _ in 0..160 * 320 {
        frame.push(10u8);
        frame.push(100u8);
        frame.push(250u8);
    }
    let out = preprocess(&frame, 160, 320);
    assert_eq!(out.len(), 3 * 320 * 320);
    let full = 640 * 640;
    assert_eq!(out[0], 10 * full);
    assert_eq!(out[102400], 100 * full);
    assert_eq!(out[204800], 250 * full);
    assert_eq!(out[159], 10 * full);
    assert_eq!(out[160], 0);
    assert_eq!(out[319], 0);
    assert_eq!(out[102400 + 320 * 200 + 80], 100 * full);
}

#[test]
fn a_large_frame_is_interpolated() {
    // 640 pixels to a side: each model pixel is the mean of four.
    let mut frame = vec![0u8; 640 * 640 * 3];
    for c in 0..3 {
        frame[c] = 200;
        frame[3 + c] = 100;
        frame[640 * 3 + c] = 40;
        frame[640 * 3 + 3 + c] = 60;
    }
    let out = preprocess(&frame, 640, 640);
    assert_eq!(out[0], 100 * 640 * 640);
    assert_eq!(out[1], 0);
}

#[test]
fn a_frame_that_is_too_short_is_refused() {
    let err = model_input(&[0u8; 11], 2, 2).unwrap_err();
    assert_eq!(err, "frame buffer is smaller than its stated dimensions");
    assert!(model_input(&[0u8; 12], 2, 2).is_ok());
    assert!(model_input(&[0u8; 12], usize::MAX, 3).is_err());
}

/// An answer of the model with the given boxes: middle, size, class, score.
fn answer(boxes: &[([i64; 4], usize, i64)]) -> (Vec<i64>, Vec<i64>) {
    let n = boxes.len();
    let mut data = vec![0i64; 22 * n];
    for (i, (b, class, score)) in boxes.iter().enumerate() {
        for r in 0..4 {
            data[r * n + i] = b[r] * ONE;
        }
        data[(4 + class) * n + i] = *score;
    }
    (vec![1, 22, n as i64], data)
}

const fn hundredths(v: i64) -> i64 {
    ONE / 100 * v
}

#[test]
fn candidates_come_back_in_source_pixels() {
    let (shape, data) = answer(&[([160, 80, 100, 60], 3, hundredths(70))]);
    let found = postprocess(&shape, &data, 640, 480);
    assert_eq!(found.len(), 1);
    let d = found[0];
    assert_eq!((d.x, d.y, d.w, d.h), (220, 100, 200, 120));
    assert_eq!(d.class_id, 3);
    assert_eq!(d.score, hundredths(70));
    assert_eq!(d.label(), "FEMALE_BREAST_EXPOSED");
    assert_eq!(d.corners(), [220, 100, 420, 220]);
    // Without a batch in front it is the same answer.
    assert_eq!(postprocess(&shape[1..], &data, 640, 480), found);
}

#[test]
fn candidates_are_kept_in_the_frame() {
    let (shape, data) = answer(&[([5, 315, 40, 40], 2, hundredths(70))]);
    let found = postprocess(&shape, &data, 320, 320);
    let d = found[0];
    assert_eq!((d.x, d.y, d.w, d.h), (0, 295, 40, 25));
}

#[test]
fn weak_candidates_are_dropped() {
    let (shape, data) = answer(&[
        ([100, 100, 20, 20], 2, ONE / 4),
        ([200, 200, 20, 20], 2, ONE / 4 - 1),
    ]);
    let found = postprocess(&shape, &data, 320, 320);
    assert_eq!(found.len(), 1);
    assert_eq!(found[0].x, 90);
}

#[test]
fn overlapping_candidates_lose_to_the_stronger_whatever_their_class() {
    let (shape, data) = answer(&[
        ([100, 100, 40, 40], 3, hundredths(60)),
        ([102, 100, 40, 40], 12, hundredths(80)),
        ([250, 250, 40, 40], 6, hundredths(50)),
    ]);
    let found = postprocess(&shape, &data, 320, 320);
    let classes: Vec<usize> = found.iter().map(|d| d.class_id).collect();
    assert_eq!(classes, vec![12, 6]);
}

#[test]
fn overlap_is_judged_at_nine_twentieths() {
    // 40 wide, shifted by 15: 25 of 55 is above 0.45; by 16: 24 of 56 is not.
    let near = answer(&[([100, 100, 40, 40], 3, hundredths(60)), ([115, 100, 40, 40], 3, hundredths(50))]);
    let apart = answer(&[([100, 100, 40, 40], 3, hundredths(60)), ([116, 100, 40, 40], 3, hundredths(50))]);
    assert_eq!(postprocess(&near.0, &near.1, 320, 320).len(), 1);
    assert_eq!(postprocess(&apart.0, &apart.1, 320, 320).len(), 2);
}

#[test]
fn equal_candidates_keep_their_order_and_classes_the_first() {
    let (shape, mut data) = answer(&[
        ([100, 100, 20, 20], 5, hundredths(60)),
        ([200, 200, 20, 20], 4, hundredths(60)),
    ]);
    data[(4 + 9) * 2] = hundredths(60);
    let found = postprocess(&shape, &data, 320, 320);
    assert_eq!(found[0].class_id, 5);
    assert_eq!(found[1].class_id, 4);
}

#[test]
fn an_answer_that_does_not_add_up_finds_nothing() {
    let (shape, data) = answer(&[([100, 100, 20, 20], 5, hundredths(60))]);
    assert!(postprocess(&[1], &data, 320, 320).is_empty());
    assert!(postprocess(&[1, 4, 1], &data, 320, 320).is_empty());
    assert!(postprocess(&shape, &data[..21], 320, 320).is_empty());
    assert!(postprocess(&[1, 22, 0], &data, 320, 320).is_empty());
    assert!(postprocess(&[1, 22, -1], &data, 320, 320).is_empty());
}

const REAL_OUTPUT: &str = r#"
Input #0, mov,mp4,m4a,3gp,3g2,mj2, from 'abc.mp4':
  Metadata:
    major_brand     : isom
  Duration: 01:01:37.00, start: 0.000000, bitrate: 1389 kb/s
  Stream #0:0[0x1](und): Video: h264 (High) (avc1 / 0x31637661), yuv420p(progressive), 1280x720 [SAR 1:1 DAR 16:9], 1257 kb/s, 23.98 fps, 23.98 tbr, 90k tbn (default)
  Stream #0:1[0x2](und): Audio: aac (LC) (mp4a / 0x6134706D), 48000 Hz, stereo, fltp, 127 kb/s (default)
"#;

#[test]
fn reads_the_real_ffmpeg_report_for_the_test_movie() {
    let info = parse(REAL_OUTPUT).expect("should parse");
    assert_eq!(info.width, 1280);
    assert_eq!(info.height, 720);
    assert_eq!(info.fps, 23980);
    // 01:01:37 is 3697 seconds, which is what its plan records.
    assert_eq!(info.duration, 3697000);
}

#[test]
fn the_stream_id_is_not_mistaken_for_dimensions() {
    // "0x1" and "0x31637661" both look like WxH if you are careless.
    let info = parse(REAL_OUTPUT).unwrap();
    assert_eq!((info.width, info.height), (1280, 720));
}

#[test]
fn a_report_with_no_video_stream_is_refused() {
    let audio_only =
        "  Duration: 00:03:21.00, start: 0.000000\n  Stream #0:0: Audio: mp3, 44100 Hz\n";
    assert!(parse(audio_only).is_none());
    assert_eq!(
        probe(audio_only, "song.mp3").unwrap_err(),
        "could not read video properties from song.mp3"
    );
    assert!(probe(REAL_OUTPUT, "abc.mp4").is_ok());
}

fn chars(s: &str) -> Vec<char> {
    s.chars().collect()
}

#[test]
fn dimensions_are_two_numbers_of_at_least_sixteen() {
    assert_eq!(parse_dims(&chars("1280x720")), Some((1280, 720)));
    assert_eq!(parse_dims(&chars("+640x480,")), Some((640, 480)));
    assert_eq!(parse_dims(&chars("16x16p")), Some((16, 16)));
    assert_eq!(parse_dims(&chars("15x720")), None);
    assert_eq!(parse_dims(&chars("0x31637661")), None);
    assert_eq!(parse_dims(&chars("1280")), None);
    assert_eq!(parse_dims(&chars("x720")), None);
    assert_eq!(parse_dims(&chars("1280x72x0")), None);
    assert_eq!(parse_dims(&chars("9223372036854775808x720")), None);
}

#[test]
fn times_are_hours_minutes_and_seconds() {
    assert_eq!(parse_hms(&chars("00:03:21.05")), Some(201050));
    assert_eq!(parse_hms(&chars(" 1 :0:0.5")), Some(3600500));
    assert_eq!(parse_hms(&chars("1:2:3:4")), Some(3723000));
    assert_eq!(parse_hms(&chars("0:0:1e1")), Some(10000));
    assert_eq!(parse_hms(&chars("0:0:.0015")), Some(2));
    assert_eq!(parse_hms(&chars("0:0:-2")), Some(-2000));
    assert_eq!(parse_hms(&chars("0.0004:00:00")), Some(1440));
    assert_eq!(parse_hms(&chars("0:0.0001:0.0004")), Some(6));
    assert_eq!(parse_hms(&chars("-0.5:10:0")), Some(-1200000));
    assert_eq!(parse_hms(&chars("1e12:0:0")), Some(3_600_000_000_000_000_000));
    assert_eq!(parse_hms(&chars("1e13:0:0")), Some(i64::MAX));
    assert_eq!(parse_hms(&chars("N/A")), None);
    assert_eq!(parse_hms(&chars("1:2")), None);
    assert_eq!(parse_hms(&chars("1: 2:3")), None);
    assert_eq!(parse_hms(&chars("1:2:")), None);
}

#[test]
fn a_missing_frame_rate_is_no_reason_to_refuse() {
    let report = "Duration: N/A\nDuration: 00:00:10.0\r\n Stream: Video: h264, 640x480, 25k fps";
    let info = parse(report).unwrap();
    assert_eq!(info, VideoInfo { width: 640, height: 480, duration: 10000, fps: 0 });
}

fn info(w: i64, h: i64) -> VideoInfo {
    VideoInfo { width: w, height: h, duration: 100000, fps: 24000 }
}

#[test]
fn detect_size_matches_livescan() {
    assert_eq!(detect_size(&info(1280, 720)), (1280, 720));
    assert_eq!(detect_size(&info(1920, 1080)), (1280, 720));
    assert_eq!(detect_size(&info(640, 480)), (640, 480));
}

#[test]
fn detect_size_is_always_even() {
    // Odd dimensions break chroma subsampling in the ffmpeg pipe.
    for (w, h) in [(1921, 1081), (1279, 719), (853, 481)] {
        let (dw, dh) = detect_size(&info(w, h));
        assert_eq!(dw % 2, 0, "{w}x{h} produced odd width {dw}");
        assert_eq!(dh % 2, 0, "{w}x{h} produced odd height {dh}");
    }
    assert_eq!(detect_size(&info(1, 1)), (2, 2));
    assert_eq!(detect_size(&info(640, -480)), (640, 2));
    assert_eq!(frame_bytes(640, 480), 921600);
}

fn read_exact_or_eof(r: &mut &[u8], buf: &mut Vec<u8>, chunk: usize) -> Result<bool, String> {
    let mut fill = FrameFill::new(buf.len());
    loop {
        let n = fill.remaining().min(chunk).min(r.len());
        let step = fill.accept(ReadEvent::Bytes(r[..n].to_vec()));
        *r = &r[n..];
        match step {
            ReadStep::More => {}
            ReadStep::Frame => {
                *buf = fill.bytes;
                return Ok(true);
            }
            ReadStep::End => return Ok(false),
            ReadStep::Error(e) => return Err(e),
        }
    }
}

#[test]
fn a_short_read_is_end_of_stream_not_a_torn_frame() {
    let data = vec![7u8; 10];
    let mut buf = vec![0u8; 16];
    assert_eq!(read_exact_or_eof(&mut data.as_slice(), &mut buf, 16), Ok(false));

    let full = vec![7u8; 16];
    let mut buf = vec![0u8; 16];
    assert_eq!(read_exact_or_eof(&mut full.as_slice(), &mut buf, 16), Ok(true));
    assert!(buf.iter().all(|b| *b == 7));
}

#[test]
fn a_frame_is_put_together_from_many_reads() {
    let data: Vec<u8> = (0..16).collect();
    let mut buf = vec![0u8; 16];
    assert_eq!(read_exact_or_eof(&mut data.as_slice(), &mut buf, 5), Ok(true));
    assert_eq!(buf, data);

    let mut fill = FrameFill::new(4);
    assert!(matches!(fill.accept(ReadEvent::Interrupted), ReadStep::More));
    assert!(matches!(fill.accept(ReadEvent::Bytes(vec![1])), ReadStep::More));
    assert_eq!(fill.remaining(), 3);
    match fill.accept(ReadEvent::Failed("pipe broke".to_string())) {
        ReadStep::Error(e) => assert_eq!(e, "reading frames from ffmpeg: pipe broke"),
        other => panic!("{other:?}"),
    }
}

fn spelled(args: &[Arg]) -> Vec<String> {
    args.iter()
        .map(|a| match a {
            Arg::Text(s) => s.clone(),
            Arg::Movie => "<movie>".to_string(),
        })
        .collect()
}

#[test]
fn ffmpeg_is_asked_for_packed_frames() {
    assert_eq!(
        spelled(&scan_args(1280, 720)).join(" "),
        "-v error -i <movie> -an -sn -vf fps=3,scale=1280:720 -f rawvideo -pix_fmt bgr24 -"
    );
    assert_eq!(spelled(&probe_args()).join(" "), "-hide_banner -i <movie>");
}

fn found(class_id: usize, score: i64, x: i64) -> Found {
    Found { class_id, score, x, y: 100, w: 50, h: 60 }
}

#[test]
fn boxes_are_scaled_back_and_weak_or_harmless_ones_left_out() {
    let movie = info(1920, 1080);
    let list = vec![
        found(3, hundredths(70), 100),
        found(12, hundredths(90), 200),
        found(2, hundredths(34), 300),
        found(2, hundredths(36), 301),
    ];
    let (boxes, covered) = frame_boxes(&list, &movie);
    assert!(covered);
    assert_eq!(boxes.len(), 2);
    assert_eq!(boxes[0].bounds, [150, 150, 225, 240]);
    assert_eq!(boxes[0].label, "FEMALE_BREAST_EXPOSED");
    assert_eq!(boxes[0].score, 700);
    assert_eq!(boxes[1].bounds, [451, 150, 526, 240]);
    assert_eq!(boxes[1].score, 360);
    let (boxes, covered) = frame_boxes(&vec![found(2, hundredths(40), 0)], &movie);
    assert_eq!((boxes.len(), covered), (1, false));
}

#[test]
fn scores_are_rounded_to_thousandths() {
    let movie = info(1280, 720);
    // 0.5625 lies between two thousandths; the even one is taken.
    let (boxes, _) = frame_boxes(&vec![found(2, ONE / 16 * 9, 0)], &movie);
    assert_eq!(boxes[0].score, 562);
    let (boxes, _) = frame_boxes(&vec![found(2, ONE / 16 * 11, 0)], &movie);
    assert_eq!(boxes[0].score, 688);
    // 0.55 in single precision.
    let (boxes, covered) = frame_boxes(&vec![found(2, 2_362_232_064, 0)], &movie);
    assert_eq!((boxes[0].score, covered), (550, true));
}

#[test]
fn a_scan_records_what_it_sees_and_when() {
    let mut scan = Scan::start("abc.mp4", info(1280, 720)).unwrap();
    assert!(scan.wants_frame());
    scan.look(&vec![], 100);
    scan.look(&vec![found(3, hundredths(70), 100)], 200);
    scan.look(&vec![found(3, hundredths(40), 100)], 222);
    let p = scan.progress();
    assert_eq!((p.frontier, p.detections, p.duration), (666, 1, 100000));
    assert_eq!(p.speed, 3000);
    assert!(!p.done && !p.stopped && p.error.is_none());
    let times: Vec<i64> = scan.detections().iter().map(|d| d.t).collect();
    assert_eq!(times, vec![333, 667]);
    assert_eq!(scan.info().width, 1280);

    let plan = scan.plan(42);
    assert!(!plan.complete);
    assert_eq!(plan.source.name, "abc.mp4");
    assert_eq!((plan.source.size_bytes, plan.source.duration), (42, 100000));
    assert_eq!((plan.detector.detect_width, plan.detector.detect_height), (1280, 720));
    assert_eq!((plan.detector.sample_fps, plan.detector.threshold), (3000, 550));
    assert_eq!(plan.detections.len(), 2);
    assert_eq!(plan.generator, "scrim 0.1.0");

    // The stream broke off early: most of the movie has not been looked at.
    scan.finish(None);
    assert_eq!(scan.progress().frontier, 666);
    assert!(!scan.progress().done && !scan.plan(42).complete);
}

#[test]
fn a_scan_is_complete_once_the_whole_movie_has_been_looked_at() {
    let movie = VideoInfo { duration: 2000, ..info(1280, 720) };
    let ended_after = |frames: u64| {
        let mut scan = Scan::start("abc.mp4", movie).unwrap();
        for i in 0..frames {
            scan.look(&vec![], i);
        }
        scan.finish(None);
        scan
    };
    // The fourth frame shows a second before the end.
    assert!(!ended_after(0).plan(1).complete);
    assert!(!ended_after(3).plan(1).complete);
    let done = ended_after(4);
    assert!(done.plan(1).complete);
    assert_eq!(done.progress().frontier, 2000);
    assert_eq!(done.plan(1).validate(), Ok(()));
}

#[test]
fn a_scan_that_was_stopped_or_failed_is_not_complete() {
    let mut stopped = Scan::start("abc.mp4", info(1280, 720)).unwrap();
    stopped.stop();
    assert!(!stopped.wants_frame());
    stopped.finish(None);
    assert!(!stopped.progress().done && stopped.progress().stopped);
    assert_eq!(stopped.progress().frontier, 0);

    let mut failed = Scan::start("abc.mp4", info(1280, 720)).unwrap();
    failed.finish(Some("inference failed".to_string()));
    assert!(!failed.progress().done);
    assert_eq!(failed.progress().error.as_deref(), Some("inference failed"));
}

#[test]
fn a_file_without_a_picture_is_not_scanned() {
    for bad in [
        VideoInfo { width: 0, ..info(10, 10) },
        VideoInfo { height: -1, ..info(10, 10) },
        VideoInfo { duration: 0, ..info(10, 10) },
    ] {
        assert_eq!(
            Scan::start("x", bad).unwrap_err(),
            "this file does not look like a video"
        );
    }
}
