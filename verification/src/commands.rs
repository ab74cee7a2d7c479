//! What the app's commands check and decide before they touch storage,
//! and the payloads they send to the windows.

use vstd::prelude::*;
use crate::ai::Template;
use crate::text::{extend_str, from_chars, slice_chars, str_eq, to_chars, trim, trim_chars, trim_str};

verus! {

/// Commands report errors as readable text.
pub fn err<E: std::fmt::Display>(e: E) -> (r: String)
    ensures
        vstd::string::to_string_from_display_ensures::<E>(&e, r),
{
    e.to_string()
}

// ---------------------------------------------------------------- payloads

/// Recording state sent to the windows: "idle", "recording" or "paused".
pub struct RecordingStatePayload {
    pub state: &'static str,
    pub meeting_id: Option<String>,
    pub elapsed_ms: u64,
}

/// Download progress of a model.
pub struct ModelProgressPayload {
    pub id: String,
    pub done: u64,
    pub total: u64,
    pub status: &'static str,
    pub error: Option<String>,
}

/// A message for the user ("info", "warning" or "error").
pub struct NoticePayload {
    pub level: &'static str,
    pub message: String,
}

/// Running notes of the recording in progress.
pub struct LiveNotesPayload {
    pub meeting_id: String,
    pub notes: String,
    pub updated_ms: u64,
}

/// A piece of a streamed chat reply.
pub struct ChatTokenPayload {
    pub chat_id: String,
    pub message_id: String,
    pub delta: String,
}

/// Media files of a meeting for the player.
pub struct Media {
    pub audio: String,
    pub video: Option<String>,
}

/// Where the data lives and how much room it takes.
pub struct DataInfo {
    pub data_dir: String,
    pub recordings_bytes: u64,
    pub models_bytes: u64,
}

/// The state shown for a recording: idle without one; paused or recording
/// (with its elapsed time) while one runs; a recording whose recorder is
/// gone counts as running for 0 ms.
pub open spec fn recording_state_of(active: Option<(String, Option<(bool, u64)>)>) -> (Seq<char>, Option<Seq<char>>, u64) {
    match active {
        None => ("idle"@, None, 0),
        Some((id, rec)) => match rec {
            Some((paused, elapsed)) => (if paused { "paused"@ } else { "recording"@ }, Some(id@), elapsed),
            None => ("recording"@, Some(id@), 0),
        },
    }
}

/// The payload describing the current recording: `active` is its meeting id
/// and, when its recorder runs, whether it is paused and its elapsed milliseconds.
pub fn recording_state(active: Option<(String, Option<(bool, u64)>)>) -> (p: RecordingStatePayload)
    ensures
        (p.state@, match p.meeting_id {
            Some(m) => Some(m@),
            None => None,
        }, p.elapsed_ms) == recording_state_of(active),
{
    match active {
        None => RecordingStatePayload { state: "idle", meeting_id: None, elapsed_ms: 0 },
        Some((id, rec)) => match rec {
            Some((paused, elapsed)) => RecordingStatePayload {
                state: if paused { "paused" } else { "recording" },
                meeting_id: Some(id),
                elapsed_ms: elapsed,
            },
            None => RecordingStatePayload { state: "recording", meeting_id: Some(id), elapsed_ms: 0 },
        },
    }
}

// ---------------------------------------------------------------- text checks

/// `s` trimmed, or `msg` as the error when nothing is left.
pub fn required_text(s: &str, msg: &str) -> (r: Result<String, String>)
    ensures
        trim(s@).len() > 0 ==> r.is_ok() && r.unwrap()@ == trim(s@),
        trim(s@).len() == 0 ==> r.is_err() && r->Err_0@ == msg@,
{
    let t = trim_str(s);
    if t.len() == 0 {
        Err(msg.to_owned())
    } else {
        Ok(from_chars(&t))
    }
}

/// `s` has `p` somewhere in it.
pub open spec fn has_sub(s: Seq<char>, p: Seq<char>) -> bool {
    exists|i: int| 0 <= i && i + p.len() <= s.len() && #[trigger] s.subrange(i, i + p.len()) == p
}

pub(crate) fn contains_sub(s: &Vec<char>, p: &Vec<char>) -> (r: bool)
    ensures
        r == has_sub(s@, p@),
{
    if p.len() > s.len() {
        return false;
    }
    let last = s.len() - p.len();
    let mut i: usize = 0;
    loop
        invariant
            p.len() <= s.len(),
            last == s.len() - p.len(),
            i <= last,
            forall|k: int| 0 <= k < i ==> #[trigger] s@.subrange(k, k + p@.len()) != p@,
        ensures
            forall|k: int| 0 <= k <= last ==> #[trigger] s@.subrange(k, k + p@.len()) != p@,
        decreases last - i,
    {
        let w = slice_chars(s, i, i + p.len());
        if crate::text::chars_eq(&w, p) {
            return true;
        }
        if i == last {
            break;
        }
        i += 1;
    }
    assert forall|k: int| 0 <= k && k + p@.len() <= s@.len() implies #[trigger] s@.subrange(
        k,
        k + p@.len(),
    ) != p@ by {
        assert(k <= last);
    }
    false
}

/// A template needs a name.
pub const TEMPLATE_NEEDS_NAME: &'static str = "template needs a name";

/// A template's body must hold the transcript placeholder.
pub const TEMPLATE_NEEDS_TRANSCRIPT: &'static str = "template must contain {{transcript}}";

/// Check a template before saving: it needs a non-blank name, and its body
/// must contain `{{transcript}}`.
pub fn validate_template(t: &Template) -> (r: Result<(), String>)
    ensures
        trim(t.name@).len() == 0 ==> r.is_err() && r->Err_0@ == TEMPLATE_NEEDS_NAME@,
        trim(t.name@).len() > 0 && !has_sub(t.body@, "{{transcript}}"@) ==> r.is_err()
            && r->Err_0@ == TEMPLATE_NEEDS_TRANSCRIPT@,
        trim(t.name@).len() > 0 && has_sub(t.body@, "{{transcript}}"@) ==> r.is_ok(),
{
    let n = trim_str(t.name.as_str());
    if n.len() == 0 {
        return Err(TEMPLATE_NEEDS_NAME.to_owned());
    }
    let body = to_chars(t.body.as_str());
    let p = to_chars("{{transcript}}");
    if !contains_sub(&body, &p) {
        return Err(TEMPLATE_NEEDS_TRANSCRIPT.to_owned());
    }
    Ok(())
}

/// A template as saved: a blank id is replaced by a fresh one, and it is
/// built-in exactly when the stored template with its id is (`existing`).
pub fn template_to_save(t: Template, existing: Option<bool>) -> (r: Template)
    ensures
        trim(t.id@).len() > 0 ==> r.id@ == t.id@,
        trim(t.id@).len() == 0 ==> crate::meetings::uuid_text(r.id@),
        r.name@ == t.name@,
        r.description@ == t.description@,
        r.body@ == t.body@,
        r.builtin == (match existing {
            Some(b) => b,
            None => false,
        }),
{
    let mut t = t;
    let id = trim_str(t.id.as_str());
    if id.len() == 0 {
        t.id = crate::meetings::new_uuid();
    }
    t.builtin = match existing {
        Some(b) => b,
        None => false,
    };
    t
}

/// Chats are about one meeting or all of them.
pub fn chat_scope_ok(scope_kind: &str) -> (r: bool)
    ensures
        r == (scope_kind@ == "meeting"@ || scope_kind@ == "all"@),
{
    str_eq(scope_kind, "meeting") || str_eq(scope_kind, "all")
}

/// The title of a new chat: the given one, else "New chat".
pub fn chat_title<'a>(title: Option<&'a str>) -> (r: &'a str)
    ensures
        r@ == (match title {
            Some(t) => t@,
            None => "New chat"@,
        }),
{
    match title {
        Some(t) => t,
        None => "New chat",
    }
}

/// The title a chat gets from its first message: its first 48 characters, trimmed.
pub fn chat_title_from(text: &str) -> (r: String)
    ensures
        r@ == trim(text@.take(if text@.len() < 48 { text@.len() as int } else { 48 })),
{
    let v = to_chars(text);
    let n = if v.len() < 48 { v.len() } else { 48 };
    let head = slice_chars(&v, 0, n);
    assert(head@ == text@.take(n as int));
    let t = trim_chars(&head);
    from_chars(&t)
}

/// A clip must end after it starts.
pub fn clip_range_ok(start_ms: i64, end_ms: i64) -> (r: bool)
    ensures
        r == (end_ms > start_ms),
{
    end_ms > start_ms
}

/// A share with both ends is a clip; otherwise it shares the whole meeting.
pub fn share_kind(start_ms: Option<i64>, end_ms: Option<i64>) -> (r: &'static str)
    ensures
        r@ == (if start_ms.is_some() && end_ms.is_some() {
            "clip"@
        } else {
            "meeting"@
        }),
{
    if start_ms.is_some() && end_ms.is_some() {
        "clip"
    } else {
        "meeting"
    }
}

/// How a detection popup is dismissed.
#[derive(Clone, Copy, Debug, PartialEq, Eq, Structural)]
pub enum Dismiss {
    /// Hide the popup.
    Now,
    /// Hide it and never offer this app again.
    Never,
    /// Hide it and pause detection for an hour.
    Snooze,
}

/// Read a dismiss mode; anything unknown just hides the popup.
pub fn dismiss_mode(mode: &str) -> (r: Dismiss)
    ensures
        r == (if mode@ == "never"@ {
            Dismiss::Never
        } else if mode@ == "snooze"@ {
            Dismiss::Snooze
        } else {
            Dismiss::Now
        }),
{
    if str_eq(mode, "never") {
        Dismiss::Never
    } else if str_eq(mode, "snooze") {
        Dismiss::Snooze
    } else {
        Dismiss::Now
    }
}

/// The never-list with `app` added unless it is there already.
pub fn add_never_app(list: Vec<String>, app: String) -> (r: Vec<String>)
    ensures
        crate::meetings::strs(list@).contains(app@) ==> crate::meetings::strs(r@) == crate::meetings::strs(list@),
        !crate::meetings::strs(list@).contains(app@) ==> crate::meetings::strs(r@) == crate::meetings::strs(list@).push(app@),
{
    let mut v: Vec<String> = Vec::new();
    v.push(app);
    let r = crate::pipeline::add_speakers(list, &v);
    proof {
        let s = crate::meetings::strs(v@);
        assert(s.len() == 1 && s[0] == v@[0]@);
        assert(s.drop_last() =~= Seq::<Seq<char>>::empty());
        assert(crate::pipeline::with_speakers(crate::meetings::strs(list@), s.drop_last())
            == crate::meetings::strs(list@));
    }
    r
}

/// URLs a webhook can post to.
pub fn webhook_url_ok(url: &str) -> (r: bool)
    ensures
        r == (crate::html::starts_with(url@, "http://"@) || crate::html::starts_with(url@, "https://"@)),
{
    let v = to_chars(url);
    let a = to_chars("http://");
    let b = to_chars("https://");
    starts_with_chars(&v, &a) || starts_with_chars(&v, &b)
}

fn starts_with_chars(t: &Vec<char>, p: &Vec<char>) -> (r: bool)
    ensures
        r == crate::html::starts_with(t@, p@),
{
    if t.len() < p.len() {
        return false;
    }
    let pre = slice_chars(t, 0, p.len());
    crate::text::chars_eq(&pre, p)
}

/// A calendar source fetched over the network (else read as a local file).
pub fn is_remote_source(src: &str) -> (r: bool)
    ensures
        r == (crate::html::starts_with(src@, "http://"@) || crate::html::starts_with(src@, "https://"@)
            || crate::html::starts_with(src@, "webcal://"@)),
{
    let v = to_chars(src);
    let a = to_chars("http://");
    let b = to_chars("https://");
    let c = to_chars("webcal://");
    starts_with_chars(&v, &a) || starts_with_chars(&v, &b) || starts_with_chars(&v, &c)
}

/// Minutes between calendar refreshes: the setting, kept within 1 minute and a day.
pub fn refresh_minutes(setting: u64) -> (r: u64)
    ensures
        r == (if setting < 1 {
            1
        } else if setting > 1440 {
            1440
        } else {
            setting
        }),
{
    if setting < 1 {
        1
    } else if setting > 1440 {
        1440
    } else {
        setting
    }
}

/// The title of a recording started without one: "<App> call - <when>" for
/// a detected app, else "Recording - <when>".
pub fn recording_title(app: Option<&str>, when: &str) -> (r: String)
    ensures
        r@ == (match app {
            Some(a) => crate::pipeline::capitalized(a@) + " call - "@ + when@,
            None => "Recording - "@ + when@,
        }),
{
    match app {
        Some(a) => {
            let c = crate::pipeline::capitalize(a);
            let mut v = to_chars(c.as_str());
            extend_str(&mut v, " call - ");
            extend_str(&mut v, when);
            from_chars(&v)
        },
        None => {
            let mut v = to_chars("Recording - ");
            extend_str(&mut v, when);
            from_chars(&v)
        },
    }
}

} // verus!
