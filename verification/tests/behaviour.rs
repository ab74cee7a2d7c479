use hark::chunks::build_chunks;
use hark::meetings::{apply_title, normalize_participants, Meeting, MeetingStatus};
use hark::organize::{filter_meetings, find_share, folder_subtree, tag_name, Folder, MeetingFilter, Share};
use hark::search::{merge_title_hits, title_like_pattern, SearchHit, Segment};
use hark::share::{new_share_token, share_media, share_url_on, valid_token, ShareMedia};
use hark::stamp::{parse_stamp, stamp};

fn chars(s: &str) -> Vec<char> {
    s.chars().collect()
}

fn text(v: Vec<char>) -> String {
    v.into_iter().collect()
}

fn seg(id: i64, start: i64, t: &str) -> Segment {
    Segment {
        id,
        meeting_id: "m1".into(),
        start_ms: start,
        end_ms: start + 10_000,
        speaker: Some("A".into()),
        text: t.into(),
        clean_text: None,
    }
}

fn folder(id: &str, parent: Option<&str>) -> Folder {
    Folder {
        id: id.into(),
        name: id.into(),
        parent_id: parent.map(|p| p.to_string()),
        default_template_id: None,
        meeting_count: 0,
    }
}

#[test]
fn participants_are_trimmed_and_deduplicated_ignoring_case() {
    let names = vec!["Ann".to_string(), " ann ".to_string(), "Bob".to_string(), "  ".to_string()];
    assert_eq!(normalize_participants(&names), vec!["Ann", "Bob"]);
}

#[test]
fn user_titles_pin_and_auto_titles_yield() {
    let mut m = Meeting::new_recording("Zoom call", Some("zoom"));
    assert!(apply_title(&mut m, "Auto title", false));
    assert_eq!(m.title, "Auto title");
    assert!(m.title_auto);
    assert!(apply_title(&mut m, "Mine", true));
    assert!(!apply_title(&mut m, "Auto again", false));
    assert_eq!(m.title, "Mine");
    assert!(!m.title_auto);
}

#[test]
fn new_recording_starts_fresh() {
    let m = Meeting::new_recording("x", None);
    assert_eq!(m.status, MeetingStatus::Recording);
    assert_eq!(m.duration_ms, 0);
    assert_eq!(m.started_at, m.created_at);
    assert!(m.app.is_none());
    assert!(!m.id.is_empty());
}

#[test]
fn status_names_round_trip() {
    for s in [MeetingStatus::Recording, MeetingStatus::Processing, MeetingStatus::Ready, MeetingStatus::Failed] {
        assert_eq!(MeetingStatus::parse(s.as_str()), s);
    }
    assert_eq!(MeetingStatus::Ready.as_str(), "ready");
}

#[test]
fn chunks_cover_45_second_windows() {
    let segs: Vec<Segment> = (0..12)
        .map(|i| seg(i + 1, i * 10_000, if i == 7 { "we agreed to cut marketing" } else { "filler talk" }))
        .collect();
    let chunks = build_chunks(&segs);
    assert_eq!(chunks.len(), 3);
    assert_eq!((chunks[0].0, chunks[0].1), (0, 40_000));
    assert_eq!((chunks[1].0, chunks[1].1), (40_000, 80_000));
    assert_eq!((chunks[2].0, chunks[2].1), (80_000, 120_000));
    assert!(chunks[1].2.contains("A: we agreed"));
    assert_eq!(chunks[1].2, "A: filler talk\nA: filler talk\nA: filler talk\nA: we agreed to cut marketing");
}

#[test]
fn chunk_uses_clean_text_and_bare_lines() {
    let mut a = seg(1, 0, "um hello");
    a.clean_text = Some("Hello.".into());
    let mut b = seg(2, 10_000, "bye");
    b.speaker = None;
    let chunks = build_chunks(&vec![a, b]);
    assert_eq!(chunks, vec![(0, 20_000, "A: Hello.\nbye".to_string())]);
}

#[test]
fn title_hits_join_after_segment_hits() {
    let hits = vec![SearchHit {
        meeting_id: "m1".into(),
        meeting_title: "Budget".into(),
        segment_id: 4,
        start_ms: 1500,
        snippet: "cut <b>marketing</b>".into(),
    }];
    let titles = vec![("m1".to_string(), "Budget".to_string()), ("m2".to_string(), "Marketing plan".to_string())];
    let r = merge_title_hits(hits, titles, 10);
    assert_eq!(r.len(), 2);
    assert_eq!(r[0].segment_id, 4);
    assert_eq!(r[1].meeting_id, "m2");
    assert_eq!(r[1].segment_id, 0);
    assert_eq!(r[1].snippet, "Marketing plan");
    let one = merge_title_hits(Vec::new(), vec![("m2".to_string(), "Marketing plan".to_string())], 0);
    assert!(one.is_empty());
}

#[test]
fn title_pattern_trims_the_query() {
    assert_eq!(title_like_pattern("  quarterly "), "%quarterly%");
}

#[test]
fn subtree_lists_root_first_and_each_folder_once() {
    let fs = vec![folder("a", None), folder("b", Some("a")), folder("c", Some("b")), folder("d", None)];
    let t = folder_subtree("a", &fs);
    assert_eq!(t[0], "a");
    let mut sorted = t.clone();
    sorted.sort();
    assert_eq!(sorted, vec!["a", "b", "c"]);
    assert_eq!(folder_subtree("d", &fs), vec!["d"]);
    assert_eq!(folder_subtree("zz", &fs), vec!["zz"]);
}

#[test]
fn folder_filter_reaches_nested_meetings() {
    let fs = vec![folder("clients", None), folder("acme", Some("clients"))];
    let mut m = Meeting::new_recording("call", None);
    m.folder_id = Some("acme".into());
    let unfiled = Meeting::new_recording("loose", None);
    let all = vec![m, unfiled];
    let in_root = filter_meetings(
        all.iter().map(clone_meeting).collect(),
        &MeetingFilter { folder: Some(Some("clients".into())), tag_id: None },
        &fs,
        &None,
    );
    assert_eq!(in_root.len(), 1);
    assert_eq!(in_root[0].title, "call");
    let loose = filter_meetings(
        all.iter().map(clone_meeting).collect(),
        &MeetingFilter { folder: Some(None), tag_id: None },
        &fs,
        &None,
    );
    assert_eq!(loose.len(), 1);
    assert_eq!(loose[0].title, "loose");
    let tagged_id = all[1].id.clone();
    let by_tag = filter_meetings(
        all.iter().map(clone_meeting).collect(),
        &MeetingFilter { folder: None, tag_id: Some("t".into()) },
        &fs,
        &Some(vec![tagged_id]),
    );
    assert_eq!(by_tag.len(), 1);
    assert_eq!(by_tag[0].title, "loose");
}

fn clone_meeting(m: &Meeting) -> Meeting {
    Meeting {
        id: m.id.clone(),
        title: m.title.clone(),
        app: m.app.clone(),
        started_at: m.started_at,
        ended_at: m.ended_at,
        duration_ms: m.duration_ms,
        has_video: m.has_video,
        status: m.status,
        folder_id: m.folder_id.clone(),
        created_at: m.created_at,
        error: m.error.clone(),
        title_auto: m.title_auto,
        participants: m.participants.clone(),
        calendar_uid: m.calendar_uid.clone(),
    }
}

#[test]
fn tags_are_stored_trimmed() {
    assert_eq!(tag_name(" Sales "), "Sales");
}

fn share(token: &str, enabled: bool) -> Share {
    Share {
        token: token.into(),
        meeting_id: "m".into(),
        meeting_title: "call".into(),
        kind: "clip".into(),
        start_ms: Some(1000),
        end_ms: Some(5000),
        enabled,
        created_at: 0,
    }
}

#[test]
fn disabled_shares_are_not_found() {
    let t = new_share_token();
    assert_eq!(t.len(), 32);
    assert_eq!(t.chars().nth(12), Some('4'));
    assert!(matches!(t.chars().nth(16), Some('8' | '9' | 'a' | 'b')));
    assert!(valid_token(&t));
    assert!(find_share(vec![share(&t, true)], &t).is_some());
    assert!(find_share(vec![share(&t, false)], &t).is_none());
    assert!(find_share(vec![share(&t, true)], "nope").is_none());
}

#[test]
fn tokens_are_32_hex_characters() {
    assert!(valid_token("0123456789abcdefABCDEF0123456789"));
    assert!(!valid_token("nope"));
    assert!(!valid_token("0123456789abcdefABCDEF012345678g"));
    assert_ne!(new_share_token(), new_share_token());
}

#[test]
fn share_links_name_host_port_and_token() {
    assert_eq!(share_url_on("192.168.1.5", 47123, "abc"), "http://192.168.1.5:47123/s/abc");
}

#[test]
fn shares_serve_the_best_file() {
    assert_eq!(share_media(true, true, true, true), ShareMedia::ClipVideo);
    assert_eq!(share_media(true, false, true, true), ShareMedia::ClipAudio);
    assert_eq!(share_media(true, false, false, true), ShareMedia::Missing);
    assert_eq!(share_media(false, false, false, true), ShareMedia::Video);
    assert_eq!(share_media(false, true, true, false), ShareMedia::Audio);
}

#[test]
fn stamps_read_back() {
    assert_eq!(text(stamp(65_000)), "1:05");
    assert_eq!(text(stamp(3_725_999)), "1:02:05");
    assert_eq!(text(stamp(-5)), "0:00");
    assert_eq!(parse_stamp(&chars("1:05")), Some(65_000));
    assert_eq!(parse_stamp(&chars("1:02:05")), Some(3_725_000));
    assert_eq!(parse_stamp(&chars(" 2 : 03 ")), Some(123_000));
    assert_eq!(parse_stamp(&chars("abc")), None);
    assert_eq!(parse_stamp(&chars("1:2:3:4")), None);
    for ms in [0i64, 999, 59_999, 60_000, 3_599_999, 3_600_000, 86_399_000] {
        assert_eq!(parse_stamp(&stamp(ms)), Some(ms / 1000 * 1000));
    }
}

#[test]
fn pages_are_dated_from_the_meeting_start() {
    let mut m = Meeting::new_recording("Retro", None);
    m.started_at = 1_700_000_000_000;
    m.duration_ms = 65_000;
    let html = hark::html::render_standalone(&hark::html::PageData {
        meeting: &m,
        segments: &[],
        summary: None,
        media_url: None,
        is_video: false,
        clip: None,
    });
    assert!(html.contains("Nov 14, 2023"));
    assert!(html.contains("1:05"));
    assert!(!html.contains("<audio"));
}
