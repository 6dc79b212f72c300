use scrim::args::Arg;
use scrim::cast::{
    address, route, seek_offset, shift_windows, stream_url, transcode_args, CastConfig, Reply, Window,
};
use scrim::devices::{
    hear, sort_devices, Address, Announcement, CastFault, CastSession, CastStep, Device, RouteFault,
};
use scrim::fence::{decide, resume_estimate, FenceAction, FenceInput};
use scrim::json::{Datum, Field, Json};
use scrim::mpv::{
    command_line, conf_file, connect_step, decode, mpv_args, pipe_name, read_event, stop_step,
    ChildState, ConnectStep, Item, Mpv, MpvError, MpvEvent, MpvOptions, StopStep,
};
use scrim::paths::{find, search_roots, FilePath, Paths, Presence};
use scrim::stage::{spike_args, stage_rect, Rect, SpikeOutcome};
use scrim::store::{
    plan_name, plan_path, without_marks, Library, MovieState, Settings, StateEntry, Store,
};

fn spelled(args: &[Arg]) -> Vec<String> {
    args.iter()
        .map(|a| match a {
            Arg::Text(s) => s.clone(),
            Arg::Movie => "<movie>".to_string(),
        })
        .collect()
}

// --- casting ---------------------------------------------------------------

fn w(start: i64, end: i64) -> Window {
    Window { start, end, x: 10, y: 20, w: 30, h: 40 }
}

#[test]
fn shifting_drops_windows_entirely_behind_the_start_point() {
    let windows = vec![w(0, 10000), w(50000, 60000), w(100000, 110000)];
    let shifted = shift_windows(&windows, 55000);
    // The first is gone, the second is clipped, the third moves back.
    assert_eq!(shifted.len(), 2);
    assert_eq!((shifted[0].start, shifted[0].end), (0, 5000));
    assert_eq!((shifted[1].start, shifted[1].end), (45000, 55000));
}

#[test]
fn shifting_keeps_the_box_untouched() {
    // Only time moves. Moving the rectangle too would uncover the subject.
    let shifted = shift_windows(&[w(100000, 110000)], 50000);
    assert_eq!((shifted[0].x, shifted[0].y, shifted[0].w, shifted[0].h), (10, 20, 30, 40));
}

#[test]
fn no_offset_is_a_passthrough() {
    let windows = vec![w(0, 10000), w(50000, 60000)];
    assert_eq!(shift_windows(&windows, 0), windows);
    assert_eq!(shift_windows(&windows, -5000), windows);
}

#[test]
fn a_window_ending_exactly_at_the_start_point_is_dropped() {
    // It covers nothing of what will be sent, and keeping it would produce
    // a zero-length window in the graph.
    assert!(shift_windows(&[w(10000, 50000)], 50000).is_empty());
}

#[test]
fn a_cast_takes_only_the_covered_picture() {
    let cfg = CastConfig { graph: "split=2[m][t]".to_string(), start: 61235 };
    assert_eq!(
        spelled(&transcode_args(&cfg)).join(" "),
        "-v error -ss 61.24 -i <movie> -filter_complex [0:v]split=2[m][t][vout] \
         -map [vout] -map 0:a:0? -c:v libx264 -preset veryfast -crf 21 -maxrate 8M \
         -bufsize 16M -pix_fmt yuv420p -c:a aac -b:a 160k -ac 2 \
         -movflags frag_keyframe+empty_moov+default_base_moof -f mp4 pipe:1"
    );
}

#[test]
fn a_movie_with_nothing_to_cover_is_cast_as_it_is() {
    let cfg = CastConfig { graph: String::new(), start: 0 };
    let args = spelled(&transcode_args(&cfg)).join(" ");
    assert!(args.starts_with("-v error -i <movie> -map 0:v:0 -map 0:a:0? -c:v libx264"));
}

#[test]
fn every_cast_from_past_the_start_seeks_there() {
    let seek = |ms: i64| {
        let cfg = CastConfig { graph: "split".to_string(), start: ms };
        spelled(&transcode_args(&cfg))[2..5].to_vec()
    };
    for (ms, text, offset) in [
        (1, "0.00", 0),
        (600, "0.60", 600),
        (1000, "1.00", 1000),
        (1004, "1.00", 1000),
        (1005, "1.00", 1000),
        (1015, "1.02", 1020),
        (1016, "1.02", 1020),
        (3600994, "3600.99", 3600990),
    ] {
        assert_eq!(seek(ms), vec!["-ss", text, "-i"]);
        assert_eq!(seek_offset(ms), offset);
    }
    assert_eq!(seek(0)[0], "-i");
    assert_eq!(seek(-5)[0], "-i");
    assert_eq!((seek_offset(0), seek_offset(-5), seek_offset(i64::MAX)), (0, 0, i64::MAX));
}

#[test]
fn requests_are_answered_with_the_stream_or_not_at_all() {
    assert_eq!(stream_url("192.168.1.5", 8123), "http://192.168.1.5:8123/stream.mp4");
    assert_eq!(address("10.0.0.9", 8009), "10.0.0.9:8009");
    assert_eq!(route("/stream.mp4", false), Reply::Stream);
    assert_eq!(route("/favicon.ico", false), Reply::NotFound);
    assert_eq!(route("stream", false), Reply::NotFound);
    assert_eq!(route("/stream.mp4", true), Reply::Stop);
    assert_eq!(Reply::Stream.status(), Some(200));
    assert_eq!(Reply::NotFound.status(), Some(404));
    assert_eq!(Reply::Stop.status(), None);
}

fn announcement(name: Option<&str>, host: &str, v4: bool) -> Announcement {
    Announcement {
        addresses: vec![
            Address { text: "fe80::1".to_string(), is_ipv4: false },
            Address { text: host.to_string(), is_ipv4: v4 },
        ],
        friendly: name.map(str::to_string),
        fullname: "Chromecast-abc._googlecast._tcp.local.".to_string(),
        port: 8009,
    }
}

#[test]
fn devices_are_listed_once_and_by_name() {
    let mut list: Vec<Device> = Vec::new();
    hear(&mut list, &announcement(Some("Kitchen"), "10.0.0.2", true));
    hear(&mut list, &announcement(None, "10.0.0.3", true));
    hear(&mut list, &announcement(Some("Again"), "10.0.0.2", true));
    hear(&mut list, &announcement(Some("Unreachable"), "fe80::2", false));
    hear(&mut list, &announcement(Some("Bedroom"), "10.0.0.4", true));
    let sorted = sort_devices(&list);
    let names: Vec<&str> = sorted.iter().map(|d| d.name.as_str()).collect();
    assert_eq!(names, vec!["Bedroom", "Chromecast-abc._googlecast._tcp.local.", "Kitchen"]);
    assert_eq!((sorted[0].host.as_str(), sorted[0].port), ("10.0.0.4", 8009));
}

#[test]
fn names_are_ordered_character_by_character() {
    let mut list: Vec<Device> = Vec::new();
    for (i, name) in ["b", "ab", "a", "Z", "\u{e9}", "ab"].iter().enumerate() {
        let host = format!("10.0.0.{i}");
        hear(&mut list, &announcement(Some(name), &host, true));
    }
    let sorted = sort_devices(&list);
    let names: Vec<&str> = sorted.iter().map(|d| d.name.as_str()).collect();
    assert_eq!(names, vec!["Z", "a", "ab", "ab", "b", "\u{e9}"]);
    assert_eq!((sorted[2].host.as_str(), sorted[3].host.as_str()), ("10.0.0.1", "10.0.0.5"));
}

fn device() -> Device {
    Device { name: "TV".to_string(), host: "10.0.0.2".to_string(), port: 8009 }
}

#[test]
fn a_cast_is_set_up_step_by_step() {
    let mut step = CastStep::FindMovie;
    let mut taken = 1;
    while let Ok(Some(next)) = step.next(&device(), None) {
        step = next;
        taken += 1;
    }
    assert_eq!((step, taken), (CastStep::Load, 8));
}

#[test]
fn a_step_that_fails_says_so() {
    let fails = |step: CastStep| step.next(&device(), Some("why".to_string())).unwrap_err().message();
    assert_eq!(fails(CastStep::FindMovie), "the movie file has moved or been deleted");
    assert_eq!(fails(CastStep::OpenServer), "could not open the local stream server: why");
    assert_eq!(fails(CastStep::FindRoute), "why");
    assert_eq!(fails(CastStep::ReachDevice), "could not reach TV: why");
    assert_eq!(fails(CastStep::Connect), "cast connect failed: why");
    assert_eq!(fails(CastStep::Launch), "could not start the receiver app: why");
    assert_eq!(fails(CastStep::JoinSession), "cast session connect failed: why");
    assert_eq!(fails(CastStep::Load), "the device refused the stream: why");
    assert_eq!(CastFault::NoDiscovery("x".to_string()).message(), "mDNS unavailable: x");
    assert_eq!(CastFault::NoBrowsing("x".to_string()).message(), "mDNS browse failed: x");
    assert_eq!(RouteFault::Socket("x".to_string()).message(), "socket: x");
    assert_eq!(
        RouteFault::NotAnAddress("tv".to_string()).message(),
        "tv is not an address we can route to"
    );
    assert_eq!(RouteFault::Connect("x".to_string()).message(), "connect: x");
    assert_eq!(RouteFault::LocalAddress("x".to_string()).message(), "local_addr: x");
}

#[test]
fn a_cast_is_stopped_once() {
    let mut cast = CastSession::started(&device(), "url".to_string(), "t-1".to_string(), Some(7));
    assert_eq!((cast.device_name(), cast.url(), cast.stopped), ("TV", "url", false));
    assert_eq!(cast.stop_cast(), Some(("t-1".to_string(), 7)));
    assert!(cast.stopped);
    assert_eq!(cast.stop_cast(), None);
    let mut idle = CastSession::started(&device(), "url".to_string(), "t-1".to_string(), None);
    assert_eq!(idle.stop_cast(), None);
}

// --- mpv -------------------------------------------------------------------

fn options() -> MpvOptions {
    MpvOptions {
        wid: 66,
        conf: None,
        start: None,
        volume: 80,
        subtitle: None,
        sub_delay: 0,
        paused: false,
    }
}

#[test]
fn mpv_is_started_without_hardware_decoding() {
    let args = spelled(&mpv_args(&options(), &pipe_name(12, 3))).join(" ");
    assert_eq!(
        args,
        "<movie> --wid=66 --input-ipc-server=\\\\.\\pipe\\scrim-12-3 --hwdec=no --keep-open=yes \
         --osc=no --input-default-bindings=no --input-vo-keyboard=no --msg-level=all=error \
         --force-seekable=yes --sub-auto=fuzzy --volume=80 --pause=no"
    );
}

#[test]
fn mpv_is_told_what_there_is_to_tell() {
    let opts = MpvOptions {
        conf: Some("C:\\x.conf".to_string()),
        start: Some(61005),
        volume: 500,
        subtitle: Some("a.srt".to_string()),
        sub_delay: -1250,
        paused: true,
        ..options()
    };
    let args = spelled(&mpv_args(&opts, "p"));
    assert_eq!(
        args[11..].join(" "),
        "--volume=130 --pause=yes --include=C:\\x.conf --start=61.005 --sub-file=a.srt \
         --sub-delay=-1.25"
    );
    let opts = MpvOptions { start: Some(0), sub_delay: 2000, volume: -3, ..options() };
    let args = spelled(&mpv_args(&opts, "p"));
    assert_eq!(args[11..].join(" "), "--volume=0 --pause=no --sub-delay=2");
    assert_eq!(conf_file("split"), "vf=lavfi=[split]\nhwdec=no\n");
}

fn last(mpv: &mut Mpv) -> String {
    mpv.take_queue().pop().unwrap()
}

#[test]
fn an_empty_graph_clears_the_filter_rather_than_setting_an_empty_one() {
    // `vf set lavfi=[]` is not valid; clearing needs an empty string. A
    // movie with nothing flagged goes through this path on every play.
    let mut mpv = Mpv::started();
    mpv.set_filtergraph("");
    let sent = last(&mut mpv);
    assert!(sent.contains(r#"["vf","set",""]"#), "got {sent}");

    mpv.set_filtergraph("split=2[m][t]");
    let sent = last(&mut mpv);
    assert!(sent.contains(r#"lavfi=[split=2[m][t]]"#), "got {sent}");
}

#[test]
fn volume_is_clamped_to_what_mpv_accepts() {
    let mut mpv = Mpv::started();
    mpv.set_volume(500);
    assert!(last(&mut mpv).contains("130"));
    mpv.set_volume(-20);
    assert_eq!(last(&mut mpv), r#"{"command":["set_property","volume",0]}"#);
}

#[test]
fn mpv_is_asked_to_report() {
    let mut mpv = Mpv::started();
    assert_eq!(
        mpv.take_queue(),
        vec![
            r#"{"command":["observe_property",1,"time-pos"]}"#,
            r#"{"command":["observe_property",2,"duration"]}"#,
            r#"{"command":["observe_property",3,"pause"]}"#,
            r#"{"command":["observe_property",4,"eof-reached"]}"#,
        ]
    );
    assert!(mpv.take_queue().is_empty());
}

#[test]
fn commands_are_spelled_as_mpv_reads_them() {
    let mut mpv = Mpv::started();
    mpv.toggle_pause();
    assert_eq!(last(&mut mpv), r#"{"command":["cycle","pause"]}"#);
    mpv.set_paused(true);
    assert_eq!(last(&mut mpv), r#"{"command":["set_property","pause",true]}"#);
    mpv.seek_scrub(61500);
    assert_eq!(last(&mut mpv), r#"{"command":["seek",61.5,"absolute+keyframes"]}"#);
    mpv.seek_exact(5000);
    assert_eq!(last(&mut mpv), r#"{"command":["set_property","time-pos",5.0]}"#);
    mpv.set_sub_delay(-250);
    assert_eq!(last(&mut mpv), r#"{"command":["set_property","sub-delay",-0.25]}"#);
    mpv.set_property("osd-level", Item::Number(-1));
    assert_eq!(last(&mut mpv), r#"{"command":["set_property","osd-level",-1]}"#);
    assert_eq!(command_line(&vec![]), r#"{"command":[]}"#);
    assert!(!mpv.is_stopping());
    mpv.stop();
    assert!(mpv.is_stopping());
    assert_eq!(last(&mut mpv), r#"{"command":["quit"]}"#);
}

#[test]
fn a_command_can_hold_any_document() {
    let mut mpv = Mpv::started();
    let table = Json::object(&vec![
        Field { key: "name".to_string(), value: Json::text("a\nb") },
        Field { key: "at".to_string(), value: Json::seconds(1500) },
        Field { key: "rest".to_string(), value: Json::list(&vec![]) },
    ]);
    let list = Json::list(&vec![Json::null(), Json::flag(false), Json::number(-3), table]);
    mpv.set_property("user-data", Item::Document(list));
    let sent = last(&mut mpv);
    assert_eq!(
        sent,
        r#"{"command":["set_property","user-data",[null,false,-3,{"name":"a\nb","at":1.5,"rest":[]}]]}"#
    );
    assert!(serde_json::from_str::<serde_json::Value>(&sent).is_ok());
    assert_eq!(Json::object(&vec![]).clone().spelled(), "{}");
}

#[test]
fn texts_are_escaped_and_stay_on_one_line() {
    let mut mpv = Mpv::started();
    let path = "C:\\a \"b\"\n\r\t\u{8}\u{c}\u{1}\u{1f}\u{7f}\u{e9}.srt";
    mpv.add_subtitle(path);
    let sent = last(&mut mpv);
    assert_eq!(
        sent,
        "{\"command\":[\"sub-add\",\"C:\\\\a \\\"b\\\"\\n\\r\\t\\b\\f\\u0001\\u001f\u{7f}\u{e9}.srt\",\"select\"]}"
    );
    assert_eq!(sent.lines().count(), 1);
    // And it reads back as it was.
    let back: serde_json::Value = serde_json::from_str(&sent).unwrap();
    assert_eq!(back["command"][1].as_str(), Some(path));
}

#[test]
fn lines_from_mpv_are_understood() {
    let time = |name: &str, data: &str| {
        decode(&format!(r#"{{"event":"property-change","id":1,"name":"{name}","data":{data}}}"#))
    };
    assert_eq!(time("time-pos", "12.345678"), Some(MpvEvent::TimePos { seconds: 12346 }));
    assert_eq!(time("time-pos", "7"), Some(MpvEvent::TimePos { seconds: 7000 }));
    assert_eq!(time("time-pos", "1e-3"), Some(MpvEvent::TimePos { seconds: 1 }));
    assert_eq!(time("time-pos", "null"), None);
    assert_eq!(time("time-pos", "\"7\""), None);
    assert_eq!(time("duration", "3697.0"), Some(MpvEvent::Duration { seconds: 3697000 }));
    assert_eq!(time("pause", "true"), Some(MpvEvent::Paused { paused: true }));
    assert_eq!(time("pause", "false"), Some(MpvEvent::Paused { paused: false }));
    assert_eq!(time("pause", "1"), None);
    assert_eq!(time("eof-reached", "true"), Some(MpvEvent::EndOfFile));
    assert_eq!(time("eof-reached", "false"), None);
    assert_eq!(time("volume", "50"), None);
    assert_eq!(decode(r#"{"event":"end-file"}"#), Some(MpvEvent::EndOfFile));
    assert_eq!(decode(r#"{"event":"idle"}"#), None);
    assert_eq!(decode(r#"{"error":"success"}"#), None);
    assert_eq!(decode(r#"["event"]"#), None);
    assert_eq!(decode("not json"), None);
    let name = Some(Datum::Text("pause".to_string()));
    let kind = Some(Datum::Text("property-change".to_string()));
    assert_eq!(
        read_event(&kind, &name, &Some(Datum::Flag(true))),
        Some(MpvEvent::Paused { paused: true })
    );
    assert_eq!(read_event(&kind, &name, &None), None);
    assert_eq!(read_event(&kind, &None, &Some(Datum::Flag(true))), None);
}

#[test]
fn the_pipe_is_tried_until_mpv_is_gone_or_time_is_up() {
    assert!(matches!(connect_step(1, None), ConnectStep::Retry));
    assert!(matches!(connect_step(149, None), ConnectStep::Retry));
    let ConnectStep::Fail(e) = connect_step(150, None) else {
        panic!("should give up");
    };
    assert_eq!(e.message(), "could not reach mpv's IPC pipe: timed out waiting for the pipe");
    let ConnectStep::Fail(e) = connect_step(1, Some("exit code: 2".to_string())) else {
        panic!("should give up");
    };
    assert_eq!(
        e.message(),
        "could not reach mpv's IPC pipe: mpv exited with exit code: 2 before its pipe opened"
    );
    assert_eq!(MpvError::Spawn("no".to_string()).message(), "could not start mpv: no");
}

#[test]
fn mpv_is_killed_when_it_does_not_quit() {
    assert_eq!(stop_step(ChildState::Exited, 9999), StopStep::Done);
    assert_eq!(stop_step(ChildState::Running, 1999), StopStep::Wait);
    assert_eq!(stop_step(ChildState::Running, 2000), StopStep::Kill);
    assert_eq!(stop_step(ChildState::Unknown, 0), StopStep::Kill);
}

// --- fences ----------------------------------------------------------------

fn at(position: i64, frontier: i64) -> FenceInput {
    FenceInput { position, frontier, scan_complete: false, paused_by_fence: false }
}

#[test]
fn playing_well_behind_the_frontier_is_left_alone() {
    assert_eq!(decide(at(100000, 600000)), FenceAction::CarryOn);
}

#[test]
fn seeking_past_the_frontier_snaps_back_thirty_seconds_behind_it() {
    // The viewer dragged to 700s but only 600s has been looked at.
    assert_eq!(decide(at(700000, 600000)), FenceAction::SnapBack { to: 570000 });
    // Just inside the five second limit is still refused.
    assert_eq!(decide(at(596000, 600000)), FenceAction::SnapBack { to: 570000 });
}

#[test]
fn snapping_back_never_goes_before_the_start_of_the_movie() {
    // Early in a live scan, frontier - 30 is negative.
    assert_eq!(decide(at(18000, 20000)), FenceAction::SnapBack { to: 0 });
}

#[test]
fn playback_pauses_fifteen_seconds_short_of_the_frontier() {
    assert_eq!(decide(at(590000, 600000)), FenceAction::Pause);
}

#[test]
fn a_fence_pause_is_not_repeated_while_it_holds() {
    let held = FenceInput { paused_by_fence: true, ..at(590000, 600000) };
    assert_eq!(decide(held), FenceAction::CarryOn);
}

#[test]
fn playback_resumes_once_the_scanner_is_forty_five_seconds_ahead() {
    let held = FenceInput { paused_by_fence: true, ..at(590000, 700000) };
    assert_eq!(decide(held), FenceAction::Resume);

    // Not yet: only a forty second lead.
    let still_held = FenceInput { paused_by_fence: true, ..at(590000, 630000) };
    assert_eq!(decide(still_held), FenceAction::CarryOn);
}

#[test]
fn every_fence_lifts_when_the_scan_finishes() {
    // Position past the frontier would normally snap back; a complete scan
    // means the frontier is meaningless and seeking is free again.
    let done = FenceInput { scan_complete: true, ..at(3000000, 600000) };
    assert_eq!(decide(done), FenceAction::CarryOn);

    let held = FenceInput { scan_complete: true, paused_by_fence: true, ..at(590000, 600000) };
    assert_eq!(decide(held), FenceAction::Resume);
}

#[test]
fn the_pause_and_snap_thresholds_do_not_overlap() {
    // Between 15s and 5s of the frontier we pause; inside 5s we snap. A
    // position cannot be eligible for both, or playback would oscillate.
    for pos in [586000, 590000, 594000, 594900] {
        assert_eq!(decide(at(pos, 600000)), FenceAction::Pause, "at {pos}");
    }
    for pos in [595100, 599000, 620000] {
        assert!(
            matches!(decide(at(pos, 600000)), FenceAction::SnapBack { .. }),
            "at {pos}"
        );
    }
}

#[test]
fn snapping_back_lands_somewhere_that_will_not_immediately_pause() {
    // frontier - 30 must be comfortably behind the pause line at
    // frontier - 15, otherwise a refused seek would pause instantly and
    // the viewer would be stuck.
    let FenceAction::SnapBack { to } = decide(at(700000, 600000)) else {
        panic!("expected a snap back");
    };
    assert_eq!(decide(at(to, 600000)), FenceAction::CarryOn);
}

#[test]
fn resume_countdown_reflects_the_scanners_pace() {
    let held = FenceInput { paused_by_fence: true, ..at(590000, 600000) };
    // 35 more seconds of lead needed, at 7x realtime, is five seconds.
    assert_eq!(resume_estimate(held, 7000), Some(5000));
    // A stalled scanner has no answer rather than a wrong one.
    assert_eq!(resume_estimate(held, 0), None);
    // Nothing to report when playback was not fenced.
    assert_eq!(resume_estimate(at(100000, 600000), 7000), None);
    let ready = FenceInput { paused_by_fence: true, ..at(590000, 635000) };
    assert_eq!(resume_estimate(ready, 0), Some(0));
    assert_eq!(resume_estimate(FenceInput::default(), 7000), None);
}

#[test]
fn the_edges_of_the_fence_are_where_they_are_said_to_be() {
    assert_eq!(decide(at(595000, 600000)), FenceAction::Pause);
    assert_eq!(decide(at(585000, 600000)), FenceAction::Pause);
    assert_eq!(decide(at(584999, 600000)), FenceAction::CarryOn);
    assert_eq!(decide(at(i64::MAX, i64::MIN)), FenceAction::SnapBack { to: 0 });
    let held = FenceInput { paused_by_fence: true, ..at(555000, 600000) };
    assert_eq!(decide(held), FenceAction::Resume);
    let held = FenceInput { paused_by_fence: true, ..at(555001, 600000) };
    assert_eq!(decide(held), FenceAction::CarryOn);
}

// --- the library -----------------------------------------------------------

fn path(root: Option<&str>, parts: &[&str]) -> FilePath {
    FilePath {
        root: root.map(str::to_string),
        parts: parts.iter().map(|p| p.to_string()).collect(),
    }
}

#[test]
fn plans_sit_next_to_the_movie_and_keep_its_full_name() {
    // "a.mkv" and "a.mp4" in one folder must not share a plan.
    let mkv = plan_path(&path(Some("C:\\"), &["films", "a.mkv"]));
    let mp4 = plan_path(&path(Some("C:\\"), &["films", "a.mp4"]));
    assert!(!mkv.same(&mp4));
    assert!(mkv.display().ends_with("a.mkv.scrimplan.json"));
    assert_eq!(mkv.display(), "C:\\films\\a.mkv.scrimplan.json");
    assert_eq!(plan_name("a.mkv"), "a.mkv.scrimplan.json");
    assert_eq!(plan_path(&path(None, &["a", ".."])).display(), "a\\..\\.scrimplan.json");
    assert_eq!(plan_path(&path(None, &["."])).display(), ".\\.scrimplan.json");
}

#[test]
fn a_byte_order_mark_is_taken_off() {
    let json = "\u{feff}{\"movies\":[],\"state\":{\"x\":{\"subDelay\":0.5}}}";
    assert!(serde_json::from_str::<serde_json::Value>(json).is_err());
    let parsed: serde_json::Value = serde_json::from_str(&without_marks(json)).unwrap();
    assert_eq!(parsed["state"].as_object().unwrap().len(), 1);
    assert_eq!(without_marks("\u{feff}\u{feff}a\u{feff}"), "a\u{feff}");
    assert_eq!(without_marks(""), "");
}

#[test]
fn settings_start_at_their_defaults() {
    let s = Settings::default();
    assert_eq!((s.theme.as_str(), s.censor_style.as_str()), ("system", "black_box"));
    assert_eq!((s.volume, s.head_start_minutes), (100, 5));
    assert_eq!((s.lead_before, s.hold_after, s.margin, s.threshold), (5000, 10000, 80, 550));
}

fn store() -> Store {
    Store::loaded(Library::default(), Settings::default(), &vec![])
}

#[test]
fn movies_are_added_once_and_only_if_they_exist() {
    let a = path(None, &["a.mkv"]);
    let b = path(None, &["b.mkv"]);
    let gone = path(None, &["gone.mkv"]);
    let mut store = store();
    let more = vec![a.copied(), b.copied(), a.copied(), gone.copied()];
    assert_eq!(store.add(&more, &vec![true, true, true, false]), 2);
    assert_eq!(store.add(&more, &vec![true, true, true, false]), 0);
    let names: Vec<String> = store.library.movies.iter().map(|p| p.display()).collect();
    assert_eq!(names, vec!["a.mkv", "b.mkv"]);
    store.remove(&a, "a.mkv");
    let names: Vec<String> = store.library.movies.iter().map(|p| p.display()).collect();
    assert_eq!(names, vec!["b.mkv"]);
}

#[test]
fn movies_that_are_gone_are_dropped_on_load() {
    let library = Library {
        movies: vec![path(None, &["a"]), path(None, &["b"]), path(None, &["c"])],
        state: vec![StateEntry { key: "b".to_string(), state: MovieState::default() }],
    };
    let store = Store::loaded(library, Settings::default(), &vec![true, false, true]);
    let names: Vec<String> = store.library.movies.iter().map(|p| p.display()).collect();
    assert_eq!(names, vec!["a", "c"]);
    assert_eq!(store.library.state.len(), 1);
}

#[test]
fn what_is_remembered_of_a_movie_is_found_again() {
    let mut store = store();
    let fresh = store.state_of("a");
    assert_eq!((fresh.subtitle, fresh.sub_delay, fresh.position), (None, 0, 0));
    store.update_state("a", |s| MovieState { position: 1234, ..s });
    store.update_state("b", |s| MovieState { sub_delay: 250, ..s });
    store.update_state("a", |s| MovieState { subtitle: Some("a.srt".to_string()), ..s });
    let a = store.state_of("a");
    assert_eq!((a.subtitle.as_deref(), a.sub_delay, a.position), (Some("a.srt"), 0, 1234));
    assert_eq!(store.state_of("b").sub_delay, 250);
    assert_eq!(store.library.state.len(), 2);
    store.remove(&path(None, &["a"]), "a");
    assert_eq!(store.state_of("a").position, 0);
    assert_eq!(store.state_of("b").sub_delay, 250);
}

// --- paths and the stage ---------------------------------------------------

#[test]
fn resources_are_looked_for_beside_the_program() {
    let exe = path(Some("C:\\"), &["repo", "target", "debug", "scrim.exe"]);
    let cwd = path(Some("D:\\"), &["work"]);
    let roots = search_roots(&Some(exe), &Some(cwd));
    let names: Vec<String> = roots.iter().map(|p| p.display()).collect();
    assert_eq!(
        names,
        vec![
            "C:\\repo\\target\\debug\\resources",
            "C:\\repo\\target\\debug",
            "C:\\repo\\resources",
            "C:\\resources",
            "D:\\work\\resources",
        ]
    );
    let near_top = path(Some("C:\\"), &["scrim.exe"]);
    assert_eq!(search_roots(&Some(near_top), &None).len(), 2);
    assert!(search_roots(&None, &None).is_empty());
}

#[test]
fn a_file_is_where_it_is_or_where_it_should_be() {
    let roots = vec![path(None, &["a"]), path(None, &["b"])];
    assert_eq!(find(&roots, "x", &vec![false, true]).display(), "b\\x");
    assert_eq!(find(&roots, "x", &vec![true, true]).display(), "a\\x");
    assert_eq!(find(&roots, "x", &vec![false, false]).display(), "a\\x");
    assert_eq!(find(&vec![], "x", &vec![]).display(), "x");
}

#[test]
fn what_is_missing_is_named_with_its_place() {
    let roots = vec![path(None, &["r"])];
    let no = vec![false];
    let present = Presence {
        mpv: no.clone(),
        ffmpeg: vec![true],
        model: no.clone(),
        onnxruntime: no,
    };
    let paths = Paths::discover(path(Some("C:\\"), &["data"]), &roots, &present);
    let missing = paths.missing(false, true, false, false);
    let list: Vec<(&str, &str)> =
        missing.iter().map(|m| (m.name.as_str(), m.expected_at.as_str())).collect();
    assert_eq!(
        list,
        vec![
            ("mpv", "r\\mpv.exe"),
            ("detection model", "r\\320n.onnx"),
            ("ONNX Runtime", "r\\onnxruntime.dll"),
        ]
    );
    assert_eq!(paths.ffmpeg.display(), "r\\ffmpeg.exe");
    assert_eq!(paths.playback_conf().display(), "C:\\data\\current_play.conf");
    assert_eq!(paths.library_file().display(), "C:\\data\\library.json");
    assert_eq!(paths.settings_file().display(), "C:\\data\\settings.json");
}

#[test]
fn the_picture_is_where_the_interface_wants_it() {
    let rect = Rect { x: 5, y: -7, width: 640, height: 0 };
    assert_eq!(stage_rect(Some(rect), 100, 100), Rect { height: 1, ..rect });
    assert_eq!(stage_rect(None, 800, 600), Rect { x: 0, y: 0, width: 800, height: 600 });
    assert_eq!(stage_rect(None, -1, 0), Rect { x: 0, y: 0, width: 1, height: 1 });
}

#[test]
fn the_smallest_player_reports_what_came_of_it() {
    assert_eq!(
        spelled(&spike_args(9, &Some("c.conf".to_string()))).join(" "),
        "<movie> --wid=9 --hwdec=no --keep-open=yes --osc=no --input-default-bindings=no \
         --msg-level=all=error --force-seekable=yes --start=858 --include=c.conf"
    );
    assert_eq!(spelled(&spike_args(9, &None)).len(), 9);
    assert_eq!(SpikeOutcome::Started { wid: 9 }.report(), Ok("mpv started on wid 9".to_string()));
    assert_eq!(SpikeOutcome::NoStage.report(), Err("video stage was never created".to_string()));
    assert_eq!(
        SpikeOutcome::NoConf("e".to_string()).report(),
        Err("writing mpv conf: e".to_string())
    );
    assert_eq!(
        SpikeOutcome::NoMpv("e".to_string()).report(),
        Err("could not start mpv (e). Is it on PATH?".to_string())
    );
}
