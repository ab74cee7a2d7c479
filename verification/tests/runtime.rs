use hark::import::{finish_import, read_failure, video_stream_listed};
use hark::detector::{app_allowed, gate, probe_audio, Gate};
use hark::live::{Caption, LiveFeed};
use hark::media::{clip_file_name, copied_when_moving, exported_media_name, server_needed, source_media_choice};
use hark::search::fts_query_any;
use hark::windows::{corner_position, tray_label, unload_idle};

fn cap(start: i64, text: &str, is_final: bool) -> Caption {
    Caption { start_ms: start, end_ms: start + 4_000, text: text.into(), is_final }
}

#[test]
fn live_feed_collects_finals_and_notes_catch_up() {
    let mut f = LiveFeed::begin("m1".into());
    assert!(f.pending().is_none());
    f.push(cap(0, "hel", false));
    assert!(f.partial.is_some());
    assert!(f.pending().is_none());
    f.push(cap(0, "hello there", true));
    f.push(cap(65_000, "next point", true));
    assert!(f.partial.is_none());
    let (text, through, newest_end) = f.pending().unwrap();
    assert_eq!(text, "[0:00] hello there\n[1:05] next point");
    assert_eq!(through, 2);
    assert_eq!(newest_end, 69_000);
    f.notes_done("- greeted".into(), through, 70_000);
    assert!(f.pending().is_none());
    assert_eq!(f.notes_updated_ms, Some(70_000));
    f.push(cap(80_000, "and then", true));
    let (text, through, _) = f.pending().unwrap();
    assert_eq!(text, "[1:20] and then");
    assert_eq!(through, 3);
}

#[test]
fn detector_gates_and_filters() {
    assert_eq!(gate(false, false, None, 5), Gate::Reset);
    assert_eq!(gate(true, true, None, 5), Gate::Reset);
    assert_eq!(gate(true, false, Some(10), 5), Gate::Snoozed);
    assert_eq!(gate(true, false, Some(10), 10), Gate::Look { clear_snooze: true });
    assert_eq!(gate(true, false, None, 10), Gate::Look { clear_snooze: false });
    let never = vec!["zoom".to_string()];
    assert!(!app_allowed(&never, "zoom"));
    assert!(app_allowed(&never, "teams"));
    assert!(probe_audio(false, true, 10_000));
    assert!(!probe_audio(true, true, 10_000));
    assert!(!probe_audio(false, true, 9_999));
}

#[test]
fn media_choices_and_names() {
    assert_eq!(source_media_choice(true, true), Ok(true));
    assert_eq!(source_media_choice(false, true), Ok(false));
    assert_eq!(source_media_choice(false, false), Err("no media for this meeting".to_string()));
    assert_eq!(clip_file_name("abc", true), "abc.mp4");
    assert_eq!(clip_file_name("abc", false), "abc.mp3");
    assert_eq!(exported_media_name(false), "recording.wav");
    assert!(server_needed(&vec![false, true]));
    assert!(!server_needed(&vec![false, false]));
    assert!(!copied_when_moving("hark.db-wal"));
    assert!(copied_when_moving("hark.db"));
}

#[test]
fn windows_tray_and_engines() {
    assert_eq!(corner_position(0, 0, 1920, 1080, 400, 200, true, true), (1504, 816));
    assert_eq!(corner_position(100, 50, 1920, 1080, 400, 200, false, false), (116, 66));
    assert_eq!(tray_label(true), "Stop recording");
    assert_eq!(tray_label(false), "Start recording");
    assert!(unload_idle(false, Some(600_001)));
    assert!(!unload_idle(true, Some(600_001)));
    assert!(!unload_idle(false, Some(600_000)));
    assert!(!unload_idle(false, None));
}

#[test]
fn retrieval_query_matches_any_word() {
    assert_eq!(fts_query_any("budget \"hire\""), "\"budget\"* OR \"hire\"*");
    assert_eq!(fts_query_any("  "), "");
}

fn event(uid: &str, start: i64, title: &str) -> hark::events::CalEvent {
    hark::events::CalEvent { uid: uid.into(), title: title.into(), start, end: start + 1_800_000, attendees: Vec::new() }
}

#[test]
fn calendar_events_merge_in_start_order() {
    let merged = hark::events::merge_events(vec![
        event("b", 300, "Standup"),
        event("a", 100, "Planning"),
        event("b", 300, "Standup (copy)"),
        event("c", 100, "Lunch"),
        event("a", 200, "Planning moved"),
    ]);
    let got: Vec<(String, i64, String)> = merged.into_iter().map(|e| (e.uid, e.start, e.title)).collect();
    assert_eq!(
        got,
        vec![
            ("a".to_string(), 100, "Planning".to_string()),
            ("c".to_string(), 100, "Lunch".to_string()),
            ("a".to_string(), 200, "Planning moved".to_string()),
            ("b".to_string(), 300, "Standup".to_string()),
        ]
    );
    assert!(hark::events::merge_events(Vec::new()).is_empty());
}

#[test]
fn imports_check_streams_and_audio() {
    let report = "Input #0, mov\n  Stream #0:0: Audio: aac\n  Stream #0:1: Video: h264\n";
    assert!(video_stream_listed(report));
    assert!(!video_stream_listed("  Stream #0:0: Audio: mp3\n  Stream #0:1: Video: mjpeg (attached pic)\n"));
    assert!(!video_stream_listed(""));
    assert_eq!(read_failure("a.mp3", ""), "could not read a.mp3: unsupported format");
    assert_eq!(read_failure("a.mp3", "bad header"), "could not read a.mp3: bad header");
    let mut m = hark::meetings::Meeting::new_recording("Voice 010", None);
    assert_eq!(finish_import(&mut m, Some(1_000), 499), Err("the file has no audio".to_string()));
    assert_eq!(finish_import(&mut m, Some(1_000), 60_000), Ok(()));
    assert_eq!((m.started_at, m.duration_ms, m.ended_at), (1_000, 60_000, Some(61_000)));
    assert_eq!(m.status, hark::meetings::MeetingStatus::Processing);
    assert!(!m.title_auto);
}

#[test]
fn engines_are_tried_preferred_then_largest_first() {
    let preferred = vec!["whisper-small".to_string()];
    let present = vec![
        ("whisper-base".to_string(), 140),
        ("whisper-medium".to_string(), 1_500),
        ("whisper-tiny".to_string(), 140),
        ("whisper-small".to_string(), 460),
    ];
    assert_eq!(
        hark::models::engine_order(&preferred, &present),
        vec!["whisper-small", "whisper-medium", "whisper-small", "whisper-base", "whisper-tiny"]
    );
}
