//! Meetings: their status, fresh recordings, titles and attendees.

use vstd::prelude::*;
use crate::text::{chars_eq_ignore_case, eq_ignore_case, from_chars, str_eq, trim, trim_str, views};

verus! {

/// Where a meeting is in its life.
#[derive(Clone, Copy, Debug, PartialEq, Eq, Structural)]
pub enum MeetingStatus {
    Recording,
    Processing,
    Ready,
    Failed,
}

/// The stored name of a status.
pub open spec fn status_name(s: MeetingStatus) -> Seq<char> {
    match s {
        MeetingStatus::Recording => "recording"@,
        MeetingStatus::Processing => "processing"@,
        MeetingStatus::Ready => "ready"@,
        MeetingStatus::Failed => "failed"@,
    }
}

/// The status a stored name stands for; anything unknown reads as failed.
pub open spec fn status_from_name(s: Seq<char>) -> MeetingStatus {
    if s == "recording"@ {
        MeetingStatus::Recording
    } else if s == "processing"@ {
        MeetingStatus::Processing
    } else if s == "ready"@ {
        MeetingStatus::Ready
    } else {
        MeetingStatus::Failed
    }
}

impl MeetingStatus {
    /// Lowercase name, as stored and serialized.
    pub fn as_str(self) -> (r: &'static str)
        ensures
            r@ == status_name(self),
    {
        match self {
            MeetingStatus::Recording => "recording",
            MeetingStatus::Processing => "processing",
            MeetingStatus::Ready => "ready",
            MeetingStatus::Failed => "failed",
        }
    }

    /// Read a stored name back.
    pub fn parse(s: &str) -> (r: Self)
        ensures
            r == status_from_name(s@),
    {
        if str_eq(s, "recording") {
            MeetingStatus::Recording
        } else if str_eq(s, "processing") {
            MeetingStatus::Processing
        } else if str_eq(s, "ready") {
            MeetingStatus::Ready
        } else {
            MeetingStatus::Failed
        }
    }
}

/// Every status reads back as itself from its stored name.
pub proof fn lemma_status_roundtrip(s: MeetingStatus)
    ensures
        status_from_name(status_name(s)) == s,
{
    reveal_strlit("recording");
    reveal_strlit("processing");
    reveal_strlit("ready");
    reveal_strlit("failed");
    assert("recording"@[0] != "processing"@[0]);
    assert("recording"@[2] != "ready"@[2]);
    assert("processing"@ != "ready"@);
    assert("failed"@ != "recording"@);
    assert("failed"@ != "processing"@);
    assert("failed"@ != "ready"@);
}

/// Serde default of `title_auto`: a meeting's title is automatic until a user sets one.
pub fn default_true() -> (r: bool)
    ensures
        r,
{
    true
}

/// A meeting. Times are milliseconds since the Unix epoch (UTC).
pub struct Meeting {
    pub id: String,
    pub title: String,
    pub app: Option<String>,
    pub started_at: i64,
    pub ended_at: Option<i64>,
    pub duration_ms: i64,
    pub has_video: bool,
    pub status: MeetingStatus,
    pub folder_id: Option<String>,
    pub created_at: i64,
    /// Last processing error (cleared when a re-run succeeds).
    pub error: Option<String>,
    /// True until the user renames the meeting; auto-titles only replace auto titles.
    pub title_auto: bool,
    /// Attendee names seen in the meeting window or calendar event.
    pub participants: Vec<String>,
    pub calendar_uid: Option<String>,
}

/// A fresh random identifier in the hyphenated form.
pub open spec fn uuid_text(s: Seq<char>) -> bool {
    &&& s.len() == 36
    &&& forall|i: int|
        0 <= i < 36 ==> if i == 8 || i == 13 || i == 18 || i == 23 {
            #[trigger] s[i] == '-'
        } else {
            crate::text::is_hex(s[i])
        }
}

/// `uuid::Uuid::new_v4().to_string()`: a fresh random UUID written as 36
/// characters, lowercase hexadecimal digits with hyphens after the 8th,
/// 12th, 16th and 20th digit (the `Hyphenated` format that `Display` uses).
/// `new_v4` sets the version digit to 4 and the variant digit to one of
/// 8, 9, a, b.
#[verifier::external_body]
pub(crate) fn new_uuid() -> (r: String)
    ensures
        uuid_text(r@),
        r@[14] == '4',
        r@[19] == '8' || r@[19] == '9' || r@[19] == 'a' || r@[19] == 'b',
{
    uuid::Uuid::new_v4().to_string()
}

/// `chrono::Utc::now().timestamp_millis()`: the current time.
#[verifier::external_body]
pub(crate) fn now_millis() -> i64 {
    chrono::Utc::now().timestamp_millis()
}

pub fn opt_str_to_string(s: Option<&str>) -> (r: Option<String>)
    ensures
        r.is_some() == s.is_some(),
        r.is_some() ==> r.unwrap()@ == s.unwrap()@,
{
    match s {
        Some(x) => Some(x.to_owned()),
        None => None,
    }
}

impl Meeting {
    /// A fresh meeting that is being recorded right now: a new random id,
    /// start and creation time now, no duration, status `Recording`.
    pub fn new_recording(title: &str, app: Option<&str>) -> (m: Meeting)
        ensures
            uuid_text(m.id@),
            m.title@ == title@,
            m.app.is_some() == app.is_some(),
            m.app.is_some() ==> m.app.unwrap()@ == app.unwrap()@,
            m.started_at == m.created_at,
            m.ended_at.is_none(),
            m.duration_ms == 0,
            !m.has_video,
            m.status == MeetingStatus::Recording,
            m.folder_id.is_none(),
            m.error.is_none(),
            m.title_auto,
            m.participants@.len() == 0,
            m.calendar_uid.is_none(),
    {
        let now = now_millis();
        Meeting {
            id: new_uuid(),
            title: title.to_owned(),
            app: opt_str_to_string(app),
            started_at: now,
            ended_at: None,
            duration_ms: 0,
            has_video: false,
            status: MeetingStatus::Recording,
            folder_id: None,
            created_at: now,
            error: None,
            title_auto: true,
            participants: Vec::new(),
            calendar_uid: None,
        }
    }
}

/// What setting a title does: a user's title always lands and pins the
/// title; an automatic one lands only while the title is still automatic.
pub open spec fn title_lands(title_auto: bool, by_user: bool) -> bool {
    by_user || title_auto
}

/// `set_title` on a stored meeting. Returns whether the title changed hands.
pub fn apply_title(m: &mut Meeting, title: &str, by_user: bool) -> (changed: bool)
    ensures
        changed == title_lands(old(m).title_auto, by_user),
        changed ==> final(m).title@ == title@,
        changed ==> final(m).title_auto == (old(m).title_auto && !by_user),
        !changed ==> *final(m) == *old(m),
        *final(m) == (Meeting { title: final(m).title, title_auto: final(m).title_auto, ..*old(m) }),
{
    if by_user {
        m.title = title.to_owned();
        m.title_auto = false;
        true
    } else if m.title_auto {
        m.title = title.to_owned();
        true
    } else {
        false
    }
}

/// A user's title always lands, and once the user has titled a meeting no
/// automatic title replaces it.
pub proof fn lemma_user_title_sticks(title_auto: bool)
    ensures
        title_lands(title_auto, true),
        !title_lands(title_auto && !true, false),
{
}

/// The character sequences of a vector of strings.
pub open spec fn strs(v: Seq<String>) -> Seq<Seq<char>> {
    v.map_values(|s: String| s@)
}

/// Some element of `list` equals `name` ignoring ASCII case.
pub open spec fn has_name(list: Seq<Seq<char>>, name: Seq<char>) -> bool {
    exists|i: int| 0 <= i < list.len() && eq_ignore_case(#[trigger] list[i], name)
}

/// The attendee list `set_participants` stores: names trimmed, empty ones
/// dropped, and a name kept only when no earlier one equals it ignoring case.
pub open spec fn participants_of(names: Seq<Seq<char>>) -> Seq<Seq<char>>
    decreases names.len(),
{
    if names.len() == 0 {
        Seq::empty()
    } else {
        let prev = participants_of(names.drop_last());
        let t = trim(names.last());
        if t.len() > 0 && !has_name(prev, t) {
            prev.push(t)
        } else {
            prev
        }
    }
}

/// Is `name` in `list`, ignoring ASCII case?
pub fn contains_name(list: &Vec<Vec<char>>, name: &Vec<char>) -> (r: bool)
    ensures
        r == has_name(views(list@), name@),
{
    let mut i: usize = 0;
    while i < list.len()
        invariant
            i <= list.len(),
            forall|k: int| 0 <= k < i ==> !eq_ignore_case(#[trigger] views(list@)[k], name@),
        decreases list.len() - i,
    {
        if chars_eq_ignore_case(&list[i], name) {
            assert(views(list@)[i as int] == list@[i as int]@);
            return true;
        }
        i += 1;
    }
    false
}

/// The stored attendee list for `names` (deduplicated, order kept).
pub fn normalize_participants(names: &Vec<String>) -> (out: Vec<String>)
    ensures
        strs(out@) == participants_of(strs(names@)),
{
    let mut out: Vec<String> = Vec::new();
    let mut seen: Vec<Vec<char>> = Vec::new();
    let mut i: usize = 0;
    while i < names.len()
        invariant
            i <= names.len(),
            strs(out@) == participants_of(strs(names@).take(i as int)),
            views(seen@) == strs(out@),
        decreases names.len() - i,
    {
        let t = trim_str(names[i].as_str());
        proof {
            let s = strs(names@).take(i + 1);
            assert(s.drop_last() == strs(names@).take(i as int));
            assert(s.last() == names@[i as int]@);
        }
        if t.len() > 0 && !contains_name(&seen, &t) {
            let ghost o = strs(out@);
            let ghost sv = views(seen@);
            let ts = from_chars(&t);
            out.push(ts);
            seen.push(t);
            assert(strs(out@) =~= o.push(t@));
            assert(views(seen@) =~= sv.push(t@));
        }
        i += 1;
    }
    assert(strs(names@).take(names.len() as int) == strs(names@));
    out
}

/// Every stored attendee is a given name trimmed, and every given name that
/// is not blank is stored, in its own spelling or in an earlier one equal
/// to it ignoring ASCII case.
pub proof fn lemma_participants_kept(names: Seq<Seq<char>>)
    ensures
        forall|i: int|
            0 <= i < participants_of(names).len() ==> exists|j: int|
                0 <= j < names.len() && #[trigger] participants_of(names)[i] == trim(#[trigger] names[j]),
        forall|j: int|
            0 <= j < names.len() && trim(#[trigger] names[j]).len() > 0 ==> exists|i: int|
                0 <= i < participants_of(names).len() && eq_ignore_case(
                    #[trigger] participants_of(names)[i],
                    trim(names[j]),
                ),
    decreases names.len(),
{
    if names.len() > 0 {
        let p = names.drop_last();
        lemma_participants_kept(p);
        let r0 = participants_of(p);
        let r = participants_of(names);
        let t = trim(names.last());
        assert forall|i: int| 0 <= i < r.len() implies exists|j: int|
            0 <= j < names.len() && #[trigger] r[i] == trim(#[trigger] names[j]) by {
            if i < r0.len() {
                assert(r[i] == r0[i]);
                let j = choose|j: int| 0 <= j < p.len() && #[trigger] r0[i] == trim(#[trigger] p[j]);
                assert(names[j] == p[j]);
            } else {
                assert(names[names.len() - 1] == names.last());
            }
        }
        assert forall|j: int| 0 <= j < names.len() && trim(#[trigger] names[j]).len() > 0 implies exists|i: int|
            0 <= i < r.len() && eq_ignore_case(#[trigger] r[i], trim(names[j])) by {
            if j < names.len() - 1 {
                assert(names[j] == p[j]);
                let i = choose|i: int| 0 <= i < r0.len() && eq_ignore_case(#[trigger] r0[i], trim(p[j]));
                assert(r[i] == r0[i]);
            } else if has_name(r0, t) {
                let i = choose|i: int| 0 <= i < r0.len() && eq_ignore_case(#[trigger] r0[i], t);
                assert(r[i] == r0[i]);
            } else {
                assert(r[r.len() - 1] == t);
                assert(eq_ignore_case(t, t));
            }
        }
    }
}

/// No two stored attendees are the same name up to ASCII case, and every
/// stored name is non-empty and has no surrounding whitespace.
pub proof fn lemma_participants_distinct(names: Seq<Seq<char>>)
    ensures
        forall|i: int, j: int|
            0 <= i < j < participants_of(names).len() ==> !eq_ignore_case(
                #[trigger] participants_of(names)[i],
                #[trigger] participants_of(names)[j],
            ),
        forall|i: int|
            0 <= i < participants_of(names).len() ==> #[trigger] participants_of(names)[i].len()
                > 0,
    decreases names.len(),
{
    if names.len() > 0 {
        lemma_participants_distinct(names.drop_last());
        let prev = participants_of(names.drop_last());
        let t = trim(names.last());
        if t.len() > 0 && !has_name(prev, t) {
            let p = prev.push(t);
            assert forall|i: int, j: int|
                0 <= i < j < p.len() implies !eq_ignore_case(#[trigger] p[i], #[trigger] p[j]) by {
                if j == p.len() - 1 {
                    assert(p[i] == prev[i]);
                    if eq_ignore_case(p[i], p[j]) {
                        assert(eq_ignore_case(prev[i], t));
                    }
                } else {
                    assert(p[i] == prev[i] && p[j] == prev[j]);
                }
            }
        }
    }
}

} // verus!
