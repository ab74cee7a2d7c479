use hark::ai::{summary_template, summary_template_id, Template, NO_TEMPLATE};
use hark::bundle::{tally, ImportOutcome};
use hark::guards::{
    ai_check, chat_message_check, download_check, start_check, stop_check, ALREADY_DOWNLOADING, ALREADY_RECORDING,
    CHAT_NOT_FOUND, EMPTY_MESSAGE, MEETING_NOT_FOUND, NOT_RECORDING, NO_MODEL, UNKNOWN_MODEL,
};
use hark::import::{import_check, title_from_path, title_from_stem, NO_FFMPEG};
use hark::organize::{folder_subtree, Folder};
use hark::pipeline::{capitalize, runs_cleanup, runs_diarization, stage_after, stage_label, Stage};
use hark::recorder::{session_step, Session, SessionEvent};
use hark::speakers::{speaker_name, voiceprint_update, Voiceprint};

fn folder(id: &str, parent: Option<&str>) -> Folder {
    Folder {
        id: id.into(),
        name: id.into(),
        parent_id: parent.map(|p| p.to_string()),
        default_template_id: None,
        meeting_count: 0,
    }
}

#[test]
fn chat_message_refusals() {
    assert_eq!(chat_message_check(false, "hi", true), Err(CHAT_NOT_FOUND.to_string()));
    assert_eq!(chat_message_check(true, "   ", true), Err(EMPTY_MESSAGE.to_string()));
    assert_eq!(chat_message_check(true, " hi ", false), Err(NO_MODEL.to_string()));
    assert_eq!(chat_message_check(true, " hi there ", true), Ok("hi there".to_string()));
}

#[test]
fn ai_refusals_follow_the_order_of_checks() {
    assert_eq!(ai_check(true, true, false), Ok(()));
    assert_eq!(ai_check(false, true, false), Err(MEETING_NOT_FOUND.to_string()));
    assert_eq!(ai_check(false, false, false), Err(MEETING_NOT_FOUND.to_string()));
    assert_eq!(ai_check(false, false, true), Err(NO_MODEL.to_string()));
    assert_eq!(ai_check(true, false, false), Err(NO_MODEL.to_string()));
}

#[test]
fn recording_and_download_refusals() {
    assert_eq!(start_check(false), Ok(()));
    assert_eq!(start_check(true), Err(ALREADY_RECORDING.to_string()));
    assert_eq!(stop_check(true), Ok(()));
    assert_eq!(stop_check(false), Err(NOT_RECORDING.to_string()));
    assert_eq!(download_check(true, false), Ok(()));
    assert_eq!(download_check(false, true), Err(UNKNOWN_MODEL.to_string()));
    assert_eq!(download_check(true, true), Err(ALREADY_DOWNLOADING.to_string()));
}

#[test]
fn renamed_speaker_keeps_known_spelling() {
    assert_eq!(speaker_name("  dana ", Some("Dana".to_string())), "Dana");
    assert_eq!(speaker_name("  Dana  Lee ", None), "Dana  Lee");
    assert_eq!(voiceprint_update(4, None), Voiceprint::Keep);
    assert_eq!(voiceprint_update(4, Some(0)), Voiceprint::Keep);
    assert_eq!(voiceprint_update(4, Some(4)), Voiceprint::Blend);
    assert_eq!(voiceprint_update(4, Some(3)), Voiceprint::Replace);
}

#[test]
fn import_tally_counts_every_meeting() {
    let r = tally(vec![
        ("A".to_string(), ImportOutcome::Imported),
        ("B".to_string(), ImportOutcome::Skipped),
        ("C".to_string(), ImportOutcome::Failed("bad audio".to_string())),
        ("D".to_string(), ImportOutcome::Imported),
    ]);
    assert_eq!(r.imported, 2);
    assert_eq!(r.skipped_existing, 1);
    assert_eq!(r.errors, vec!["C: bad audio".to_string()]);
    assert_eq!(r.imported + r.skipped_existing + r.errors.len(), 4);
}

#[test]
fn processing_stages_run_in_order() {
    assert_eq!(stage_after(Stage::Mux, false), Stage::Transcribe);
    assert_eq!(stage_after(Stage::Transcribe, true), Stage::Diarize);
    assert_eq!(stage_after(Stage::Transcribe, false), Stage::Failed);
    assert_eq!(stage_after(Stage::Diarize, true), Stage::Cleanup);
    assert_eq!(stage_after(Stage::Diarize, false), Stage::Failed);
    assert_eq!(stage_after(Stage::Cleanup, false), Stage::Done);
    assert_eq!(stage_label(Stage::Diarize), ("diarize", 450));
    assert_eq!(stage_label(Stage::Failed), ("failed", 1000));
    assert!(runs_diarization(true, 3));
    assert!(!runs_diarization(true, 0));
    assert!(!runs_cleanup(false, 5));
    assert!(runs_cleanup(true, 5));
}

#[test]
fn folder_subtree_is_breadth_first() {
    let fs = vec![
        folder("a", None),
        folder("c", Some("b")),
        folder("b", Some("a")),
        folder("d", Some("a")),
        folder("e", Some("d")),
    ];
    assert_eq!(folder_subtree("a", &fs), vec!["a", "b", "d", "c", "e"]);
}

#[test]
fn titles_have_no_separators_or_stray_spaces() {
    assert_eq!(title_from_stem("__team--sync..notes__"), "team sync notes");
    assert_eq!(title_from_stem(" _-. "), "Imported recording");
    assert_eq!(title_from_path(""), "Imported recording");
    assert_eq!(title_from_path("weekly_sync-2024"), "weekly sync 2024");
}

#[test]
fn title_comes_from_the_file_stem() {
    assert_eq!(title_from_path("C:/x/2026-09-15_team-sync.mp3"), "2026 09 15 team sync");
    assert_eq!(title_from_path("/home/ann/recordings/notes.tar.gz"), "notes tar");
    assert_eq!(title_from_path("rec/.hidden"), "hidden");
    assert_eq!(title_from_path("rec/take..mp3"), "take");
}

#[test]
fn capitalize_leaves_non_letters() {
    assert_eq!(capitalize("1on1 sync"), "1on1 sync");
    assert_eq!(capitalize("teams"), "Teams");
    assert_eq!(capitalize("Zoom"), "Zoom");
}

fn template(id: &str) -> Template {
    Template {
        id: id.to_string(),
        name: id.to_string(),
        description: String::new(),
        body: "{{transcript}}".to_string(),
        builtin: true,
    }
}

#[test]
fn summary_template_falls_back_to_general() {
    assert_eq!(summary_template_id(Some("standup"), "general"), "standup");
    assert_eq!(summary_template_id(None, "one-on-one"), "one-on-one");
    assert_eq!(summary_template(Some(template("standup")), Some(template("general"))).map(|t| t.id), Ok("standup".to_string()));
    assert_eq!(summary_template(None, Some(template("general"))).map(|t| t.id), Ok("general".to_string()));
    assert_eq!(summary_template(None, None).map(|t| t.id), Err(NO_TEMPLATE.to_string()));
}

#[test]
fn import_refusals() {
    assert_eq!(import_check("/tmp/a.mp3", true, true), Ok(()));
    assert_eq!(import_check("/tmp/dir", false, true), Err("/tmp/dir is not a file".to_string()));
    assert_eq!(import_check("/tmp/a.mp3", true, false), Err(NO_FFMPEG.to_string()));
}

#[test]
fn session_start_pause_stop() {
    let idle = Session { active: None, capture_paused: false, detection_paused: false };
    let s = session_step(idle, SessionEvent::Start("m1".to_string())).ok().unwrap();
    assert_eq!(s.active.as_deref(), Some("m1"));
    assert!(s.detection_paused && !s.capture_paused);
    let s = session_step(s, SessionEvent::Pause).ok().unwrap();
    assert!(s.capture_paused);
    let again = Session { active: s.active.clone(), capture_paused: true, detection_paused: true };
    assert_eq!(session_step(again, SessionEvent::Start("m2".to_string())).err(), Some(ALREADY_RECORDING.to_string()));
    let s = session_step(s, SessionEvent::Stop).ok().unwrap();
    assert!(s.active.is_none() && !s.capture_paused && !s.detection_paused);
    assert_eq!(session_step(s, SessionEvent::Stop).err(), Some(NOT_RECORDING.to_string()));
    let idle = Session { active: None, capture_paused: false, detection_paused: false };
    let s = session_step(idle, SessionEvent::Pause).ok().unwrap();
    assert!(!s.capture_paused);
    let s = session_step(s, SessionEvent::ToggleDetection).ok().unwrap();
    assert!(s.detection_paused);
}
