use hark::ai::Template;
use hark::bundle::{bundle_media, clean_text_updates, export_media, imported_meeting, record_import, ImportReport};
use hark::calendar::{calendar_sources, fetch_url, source_error};
use hark::chat::{chat_history, chat_reply, followup_notes, followup_sender, pass_whole, ChatEnd};
use hark::commands::{
    add_never_app, chat_scope_ok, chat_title, chat_title_from, dismiss_mode, is_remote_source, recording_state,
    recording_title, refresh_minutes, required_text, share_kind, template_to_save, validate_template, webhook_url_ok,
    Dismiss,
};
use hark::devices::{monitor_label, window_sources, WindowInfo};
use hark::import::{ffmpeg_video_args, import_title, title_from_stem};
use hark::meetings::{Meeting, MeetingStatus};
use hark::models::{model_roles, pick_model, speed_key};
use hark::notes::{next_wait, notes_due, notes_input, stamp as notes_stamp};
use hark::pipeline::{
    app_label, capitalize, cluster_names, diarize_failure_shown, merge_names, participants_text, recorded_duration_ms,
    recover_meeting, speech_captions, transcript_segments, Recovery,
};
use hark::recorder::{event_participants, highlights_key, retranscribe_meeting, start_title, stop_meeting};
use hark::search::Segment;
use hark::settings::{gpu_layers, Settings};
use std::collections::BTreeMap;

fn template(name: &str, body: &str) -> Template {
    Template { id: String::new(), name: name.into(), description: String::new(), body: body.into(), builtin: true }
}

fn segment(id: i64, clean: Option<&str>) -> Segment {
    Segment {
        id,
        meeting_id: "m".into(),
        start_ms: 0,
        end_ms: 1000,
        speaker: None,
        text: "um hello".into(),
        clean_text: clean.map(|c| c.to_string()),
    }
}

#[test]
fn speakers_are_named_by_first_appearance() {
    let names = cluster_names(&[Some(3), None, Some(1), Some(3), Some(7)], Some(1), "  Dana ");
    assert_eq!(names.get(&3).map(|s| s.as_str()), Some("Speaker 1"));
    assert_eq!(names.get(&1).map(|s| s.as_str()), Some("Dana"));
    assert_eq!(names.get(&7).map(|s| s.as_str()), Some("Speaker 2"));
    assert_eq!(names.len(), 3);
    let anon = cluster_names(&[Some(1)], Some(1), "   ");
    assert_eq!(anon.get(&1).map(|s| s.as_str()), Some("Me"));
}

#[test]
fn transcript_lines_carry_their_cluster_names() {
    let caps = speech_captions(vec![
        (0, 1000, "hello".to_string()),
        (1000, 2000, "   ".to_string()),
        (2000, 3000, "bye".to_string()),
    ]);
    assert_eq!(caps, vec![(0, 1000, "hello".to_string()), (2000, 3000, "bye".to_string())]);
    let mut names = BTreeMap::new();
    names.insert(4, "Speaker 1".to_string());
    let segs = transcript_segments(&caps, &vec![Some(4)], &names);
    assert_eq!(segs.len(), 2);
    assert_eq!(segs[0].speaker.as_deref(), Some("Speaker 1"));
    assert_eq!(segs[1].speaker, None);
    assert_eq!(segs[1].text, "bye");
    assert!(diarize_failure_shown("sidecar exited with 1"));
    assert!(!diarize_failure_shown("speaker models not downloaded"));
}

#[test]
fn scraped_names_merge_without_case_duplicates() {
    let merged = merge_names(vec!["Ann".to_string()], &vec!["ann".to_string(), "Bob".to_string(), "BOB".to_string()]);
    assert_eq!(merged, vec!["Ann", "Bob"]);
    assert_eq!(participants_text(&vec!["Ann".to_string(), "Bob".to_string()]), "Ann, Bob");
}

#[test]
fn interrupted_meetings_are_recovered_from_disk() {
    let mut m = Meeting::new_recording("call", None);
    assert_eq!(recover_meeting(&mut m, true, 500, 9, false), Recovery::GiveUp);
    assert_eq!(m.status, MeetingStatus::Failed);
    assert_eq!(m.error.as_deref(), Some("Recording was interrupted before any audio was saved."));

    let mut m = Meeting::new_recording("call", None);
    assert_eq!(recover_meeting(&mut m, true, 4000, 9, true), Recovery::Finish);
    assert_eq!(m.status, MeetingStatus::Processing);
    assert_eq!(m.duration_ms, 4000);
    assert_eq!(m.ended_at, Some(9));
    assert!(m.has_video);

    assert_eq!(recover_meeting(&mut m, true, 0, 0, false), Recovery::Resume);
    assert_eq!(recover_meeting(&mut m, false, 0, 0, false), Recovery::GiveUp);
    assert_eq!(m.error.as_deref(), Some("Processing was interrupted and the audio file is missing."));
    assert_eq!(recover_meeting(&mut m, false, 0, 0, false), Recovery::Skip);
    assert_eq!(recorded_duration_ms(32_000, 16_000, 2), 1000);
    assert_eq!(recorded_duration_ms(5, 0, 0), 5000);
}

#[test]
fn apps_are_labelled_and_titled() {
    assert_eq!(app_label("teams"), "Microsoft Teams");
    assert_eq!(app_label("other"), "other");
    assert_eq!(capitalize("zoom"), "Zoom");
    assert_eq!(capitalize(""), "");
    assert_eq!(recording_title(Some("zoom"), "Mar 3, 2:05 PM"), "Zoom call - Mar 3, 2:05 PM");
    assert_eq!(recording_title(None, "Mar 3, 2:05 PM"), "Recording - Mar 3, 2:05 PM");
}

#[test]
fn templates_are_checked_before_saving() {
    assert_eq!(validate_template(&template("  ", "{{transcript}}")), Err("template needs a name".to_string()));
    assert_eq!(
        validate_template(&template("Notes", "no placeholder")),
        Err("template must contain {{transcript}}".to_string())
    );
    assert_eq!(validate_template(&template("Notes", "Summarise {{transcript}} please")), Ok(()));
    let saved = template_to_save(template("Notes", "{{transcript}}"), None);
    assert!(!saved.id.is_empty());
    assert!(!saved.builtin);
    let mut kept = template("Notes", "{{transcript}}");
    kept.id = "general".into();
    let saved = template_to_save(kept, Some(true));
    assert_eq!(saved.id, "general");
    assert!(saved.builtin);
}

#[test]
fn command_inputs_are_checked() {
    assert_eq!(required_text("  hi ", "empty"), Ok("hi".to_string()));
    assert_eq!(required_text("   ", "empty"), Err("empty".to_string()));
    assert!(chat_scope_ok("meeting") && chat_scope_ok("all") && !chat_scope_ok("folder"));
    assert_eq!(chat_title(None), "New chat");
    assert_eq!(chat_title(Some("Q")), "Q");
    assert_eq!(chat_title_from("  what did we decide about the budget for next quarter?"), "what did we decide about the budget for next q");
    assert_eq!(share_kind(Some(1), Some(2)), "clip");
    assert_eq!(share_kind(Some(1), None), "meeting");
    assert_eq!(dismiss_mode("never"), Dismiss::Never);
    assert_eq!(dismiss_mode("snooze"), Dismiss::Snooze);
    assert_eq!(dismiss_mode("x"), Dismiss::Now);
    assert_eq!(add_never_app(vec!["zoom".to_string()], "zoom".to_string()), vec!["zoom"]);
    assert_eq!(add_never_app(vec!["zoom".to_string()], "teams".to_string()), vec!["zoom", "teams"]);
    assert!(webhook_url_ok("https://x.test/hook") && !webhook_url_ok("ftp://x"));
    assert!(is_remote_source("webcal://x/cal.ics") && !is_remote_source("C:/cal.ics"));
    assert_eq!(refresh_minutes(0), 1);
    assert_eq!(refresh_minutes(5000), 1440);
    assert_eq!(refresh_minutes(15), 15);
}

#[test]
fn recording_state_payloads() {
    let idle = recording_state(None);
    assert_eq!((idle.state, idle.meeting_id, idle.elapsed_ms), ("idle", None, 0));
    let p = recording_state(Some(("m".to_string(), Some((true, 42)))));
    assert_eq!((p.state, p.meeting_id.as_deref(), p.elapsed_ms), ("paused", Some("m"), 42));
    let r = recording_state(Some(("m".to_string(), None)));
    assert_eq!((r.state, r.elapsed_ms), ("recording", 0));
}

#[test]
fn bundles_list_media_and_restore_clean_text() {
    assert_eq!(bundle_media(&vec![true, false, true, true]), vec!["mix.wav", "sys.wav", "screen.mp4"]);
    let media = vec!["mix.wav".to_string(), "screen.mp4".to_string()];
    assert_eq!(export_media(media.clone(), false), vec!["mix.wav"]);
    assert_eq!(export_media(media.clone(), true), vec!["mix.wav", "screen.mp4"]);
    let mut m = Meeting::new_recording("Budget", Some("zoom"));
    m.folder_id = Some("f".into());
    let m = imported_meeting(m, &media);
    assert!(m.folder_id.is_none());
    assert!(m.has_video);
    let ups = clean_text_updates(&vec![segment(10, None), segment(11, None)], &vec![segment(1, Some("Hello.")), segment(2, None)]);
    assert_eq!(ups, vec![(10, "Hello.".to_string())]);
    let mut report = ImportReport::default();
    record_import(&mut report, "Budget", Ok(()));
    record_import(&mut report, "Hiring", Err("bad zip".to_string()));
    assert_eq!(report.imported, 1);
    assert_eq!(report.errors, vec!["Hiring: bad zip"]);
}

#[test]
fn imports_are_titled_and_converted() {
    assert_eq!(title_from_stem("2026-09-15_team-sync"), "2026 09 15 team sync");
    assert_eq!(title_from_stem(" _ "), "Imported recording");
    assert_eq!(import_title(Some("Given"), "fallback".to_string()), "Given");
    let v = ffmpeg_video_args("in.mkv", "screen.mp4");
    assert_eq!(v[5], "in.mkv");
    assert!(v.windows(2).any(|w| w == ["-c:v", "copy"]));
    assert_eq!(v.last().unwrap(), "screen.mp4");
}

#[test]
fn notes_refresh_on_schedule() {
    assert!(notes_due(None, 45_000, 0));
    assert!(notes_due(Some(120_000), 45_000, 0));
    assert!(notes_due(Some(50_000), 45_000, 10));
    assert!(!notes_due(Some(50_000), 45_000, 0));
    assert!(!notes_due(Some(10_000), 45_000, 10));
    assert_eq!(next_wait(45_000, 70_000), 90_000);
    assert_eq!(next_wait(90_000, 70_000), 120_000);
    assert_eq!(next_wait(90_000, 1_000), 45_000);
    assert_eq!(notes_stamp(65_000).into_iter().collect::<String>(), "1:05");
    assert_eq!(notes_input(&vec![(5_000, "hi".to_string()), (65_000, "bye".to_string())]), "[0:05] hi\n[1:05] bye");
}

#[test]
fn models_are_picked_for_the_recording() {
    assert_eq!(speed_key("whisper-small"), "asr_speed:whisper-small");
    let present = vec![
        ("whisper-base".to_string(), true),
        ("whisper-small".to_string(), true),
        ("whisper-medium".to_string(), false),
    ];
    assert_eq!(pick_model("whisper-medium", &present, false, Some("whisper-base".into())), "whisper-small");
    assert_eq!(pick_model("whisper-medium", &present, true, None), "whisper-medium");
    let with_large = vec![
        ("whisper-small".to_string(), true),
        ("whisper-medium".to_string(), false),
        ("whisper-large-v3-turbo".to_string(), true),
    ];
    assert_eq!(pick_model("whisper-medium", &with_large, false, None), "whisper-large-v3-turbo");
    assert_eq!(pick_model("whisper-large-v3-turbo", &present, false, None), "whisper-large-v3-turbo");
    let slow = vec![("whisper-small".to_string(), false), ("whisper-medium".to_string(), false)];
    assert_eq!(pick_model("whisper-medium", &slow, false, Some("whisper-small".into())), "whisper-small");
    assert_eq!(model_roles("a", "a", "b", "a", true, true), vec!["live", "llm", "search"]);
    assert_eq!(model_roles("c", "a", "b", "a", true, false), vec!["speakers"]);
    assert!(model_roles("c", "a", "b", "a", false, false).is_empty());
}

#[test]
fn recordings_start_stop_and_rerun() {
    let att = vec!["Dana".to_string(), "ann".to_string(), "DANA".to_string()];
    assert_eq!(event_participants(&att, " dana "), vec!["ann"]);
    assert_eq!(start_title(None, Some("Standup".into()), "Recording".into()), "Standup");
    assert_eq!(start_title(Some("Mine".into()), Some("Standup".into()), "Recording".into()), "Mine");
    assert_eq!(start_title(None, None, "Recording".into()), "Recording");
    let mut m = Meeting::new_recording("call", None);
    assert_eq!(retranscribe_meeting(&mut m), Err("still recording".to_string()));
    stop_meeting(&mut m, 77, 4200);
    assert_eq!((m.ended_at, m.duration_ms, m.status), (Some(77), 4200, MeetingStatus::Processing));
    m.status = MeetingStatus::Ready;
    assert_eq!(retranscribe_meeting(&mut m), Ok(()));
    assert_eq!(m.status, MeetingStatus::Processing);
    assert_eq!(highlights_key("abc"), "highlights:abc");
}

#[test]
fn chat_turns_and_followups() {
    let msgs = vec![
        ("user".to_string(), "hi".to_string()),
        ("assistant".to_string(), String::new()),
        ("assistant".to_string(), "hello".to_string()),
    ];
    assert_eq!(chat_history(&msgs), vec![(false, "hi".to_string()), (true, "hello".to_string())]);
    assert_eq!(chat_reply(ChatEnd::Done("full".into()), " part "), ("full".to_string(), None));
    assert_eq!(chat_reply(ChatEnd::Cancelled, " part "), ("part".to_string(), None));
    assert_eq!(chat_reply(ChatEnd::Failed("boom".into()), " part "), ("part".to_string(), Some("boom".to_string())));
    assert!(pass_whole(12) && !pass_whole(13));
    assert_eq!(followup_sender(" ME "), "");
    assert_eq!(followup_sender("Dana"), "Dana");
    assert_eq!(followup_notes(Some("## Notes".into()), "t", 10), Ok(("## Notes".to_string(), false)));
    assert_eq!(followup_notes(Some("  ".into()), "abcdefghijkl", 5), Ok(("abcde".to_string(), true)));
    assert_eq!(
        followup_notes(None, "   ", 5),
        Err("Nothing to write from yet: the meeting has no transcript.".to_string())
    );
}

#[test]
fn calendar_sources_and_addresses() {
    let list = vec!["  webcal://x/a.ics ".to_string(), "   ".to_string(), "C:/b.ics".to_string()];
    assert_eq!(calendar_sources(&list), vec!["webcal://x/a.ics", "C:/b.ics"]);
    assert_eq!(fetch_url("webcal://x/a.ics"), "https://x/a.ics");
    assert_eq!(fetch_url("https://x/webcal://y"), "https://x/https://y");
    assert_eq!(fetch_url("http://x"), "http://x");
    assert_eq!(source_error("a.ics", "HTTP 404"), "a.ics: HTTP 404");
}

#[test]
fn video_sources_list_meeting_window_first() {
    let w = |t: &str, p: &str, pid: u32| WindowInfo { title: t.into(), process: p.into(), pid };
    let wins = vec![
        w("Notes", "notepad", 0),
        w("  ", "x", 1),
        w("Hark", "hark", 2),
        w("Zoom Meeting", "zoom", 7),
        w("Notes", "other", 3),
    ];
    let srcs = window_sources(&wins, Some("Zoom Meeting".into()));
    assert_eq!(srcs.len(), 2);
    assert_eq!(srcs[0].title, "Zoom Meeting");
    assert!(srcs[0].is_meeting);
    assert_eq!(srcs[0].pid, Some(7));
    assert_eq!(srcs[1].title, "Notes");
    assert_eq!(srcs[1].pid, None);
    let long = "x".repeat(100);
    let srcs = window_sources(&vec![w(&long, "p", 1)], None);
    assert_eq!(srcs[0].label.chars().count(), 70);
    assert_eq!(monitor_label("Screen 1", 1920, 1080, true), "Screen 1 (1920x1080), primary");
    assert_eq!(monitor_label("Screen 2", 0, 0, false), "Screen 2");
}

#[test]
fn settings_defaults_and_keys() {
    let s = Settings::default();
    assert_eq!(s.user_name, "Me");
    assert_eq!(s.share_port, 47123);
    assert_eq!(s.default_template_id, "general");
    assert_eq!(s.llm_key("qwen"), "bundled|qwen");
    let mut o = Settings::default();
    o.llm_backend = "openai".into();
    assert_eq!(o.llm_key("qwen"), "openai|http://localhost:11434/v1|qwen3:8b|false");
    assert_eq!(s.webhook_target(), Err("webhook disabled".to_string()));
    o.webhook_enabled = true;
    o.webhook_url = "  https://h.test/x ".into();
    assert_eq!(o.webhook_target(), Ok("https://h.test/x".to_string()));
    let (l, q, m) = s.model_ids(&"a".to_string(), &"b".to_string(), &"c".to_string());
    assert_eq!((l.as_str(), q.as_str(), m.as_str()), ("a", "b", "c"));
    assert_eq!(gpu_layers(true), 999);
    assert_eq!(gpu_layers(false), 0);
}
