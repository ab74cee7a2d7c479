use hark::html::{md_to_html, render_standalone, PageData};
use hark::import::{ffmpeg_audio_args, title_from_path};
use hark::meetings::Meeting;
use hark::models::{default_factor_tenths, quality_rank};
use hark::search::{fts_query, Segment};

fn text(v: Vec<char>) -> String {
    v.into_iter().collect()
}

#[test]
fn fts_query_quotes_and_prefixes() {
    assert_eq!(fts_query("hello wor\"ld"), "\"hello\"* \"world\"*");
    assert_eq!(fts_query("   "), "");
}

#[test]
fn renders_escaped_page_with_clip_offsets() {
    let mut m = Meeting::new_recording("Q&A <script>", None);
    m.duration_ms = 90_000;
    let segs = vec![
        Segment {
            id: 1,
            meeting_id: m.id.clone(),
            start_ms: 0,
            end_ms: 5_000,
            speaker: Some("Sam".into()),
            text: "before".into(),
            clean_text: None,
        },
        Segment {
            id: 2,
            meeting_id: m.id.clone(),
            start_ms: 30_000,
            end_ms: 35_000,
            speaker: Some("Sam".into()),
            text: "<b>inside</b>".into(),
            clean_text: Some("inside clean".into()),
        },
    ];
    let html = render_standalone(&PageData {
        meeting: &m,
        segments: &segs,
        summary: None,
        media_url: Some("clip.mp3"),
        is_video: false,
        clip: Some((30_000, 60_000)),
    });
    assert!(html.contains("Q&amp;A &lt;script&gt;"));
    assert!(!html.contains("before"));
    assert!(html.contains("inside clean"));
    assert!(html.contains("data-ms=\"0\""), "clip segments are re-based to 0");
    assert!(html.contains("<audio"));
}

#[test]
fn markdown_summary_with_timestamps() {
    let h = text(md_to_html("## Key moments\n- [1:05] **Sam** agreed\n\nDone."));
    assert!(h.contains("<h3>Key moments</h3>"));
    assert!(h.contains("data-ms=\"65000\""));
    assert!(h.contains("<b>Sam</b>"));
    assert!(h.contains("<p>Done.</p>"));
}

#[test]
fn titles_come_from_the_file_name() {
    assert_eq!(title_from_path("C:/x/2026-09-15_team-sync.mp3"), "2026 09 15 team sync");
    assert_eq!(title_from_path("Voice 010.m4a"), "Voice 010");
    assert_eq!(title_from_path(""), "Imported recording");
}

#[test]
fn audio_args_force_16k_mono_pcm() {
    let a = ffmpeg_audio_args("in.mp4", "out.wav");
    assert!(a.windows(2).any(|w| w == ["-ar", "16000"]));
    assert!(a.windows(2).any(|w| w == ["-ac", "1"]));
    assert!(a.contains(&"-vn".to_string()));
    assert_eq!(a.last().unwrap(), "out.wav");
}

#[test]
fn defaults_rank_speed_and_quality_consistently() {
    assert!(default_factor_tenths("whisper-base") < default_factor_tenths("whisper-small"));
    assert!(default_factor_tenths("whisper-small") < default_factor_tenths("whisper-medium"));
    assert!(quality_rank("whisper-medium") > quality_rank("whisper-small"));
}
