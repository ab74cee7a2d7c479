//! Decisions around one recording: its title and attendees when it starts,
//! what stopping it or re-transcribing it does to the meeting.

use vstd::prelude::*;
use crate::meetings::{strs, Meeting, MeetingStatus};
use crate::text::{chars_eq_ignore_case, eq_ignore_case, extend_str, from_chars, to_chars, trim, trim_str};

verus! {

/// Calendar attendees other than the user (compared ignoring ASCII case,
/// against the user's name without surrounding whitespace).
pub open spec fn others_of(attendees: Seq<Seq<char>>, user: Seq<char>) -> Seq<Seq<char>>
    decreases attendees.len(),
{
    if attendees.len() == 0 {
        Seq::empty()
    } else {
        let prev = others_of(attendees.drop_last(), user);
        if eq_ignore_case(attendees.last(), trim(user)) {
            prev
        } else {
            prev.push(attendees.last())
        }
    }
}

/// The user is never among the participants taken from an event, and every
/// other attendee is, in the event's order.
pub proof fn lemma_user_left_out(attendees: Seq<Seq<char>>, user: Seq<char>)
    ensures
        forall|i: int|
            0 <= i < others_of(attendees, user).len() ==> !eq_ignore_case(
                #[trigger] others_of(attendees, user)[i],
                trim(user),
            ),
        forall|x: Seq<char>|
            #[trigger] others_of(attendees, user).contains(x) <==> (attendees.contains(x) && !eq_ignore_case(
                x,
                trim(user),
            )),
    decreases attendees.len(),
{
    if attendees.len() > 0 {
        let prev = attendees.drop_last();
        lemma_user_left_out(prev, user);
        let o = others_of(attendees, user);
        let op = others_of(prev, user);
        assert forall|i: int| 0 <= i < o.len() implies !eq_ignore_case(#[trigger] o[i], trim(user)) by {
            if i < op.len() {
                assert(o[i] == op[i]);
            }
        }
        assert forall|x: Seq<char>| #[trigger] o.contains(x) <==> (attendees.contains(x) && !eq_ignore_case(x, trim(user))) by {
            if attendees.contains(x) {
                let i = choose|i: int| 0 <= i < attendees.len() && attendees[i] == x;
                if i < attendees.len() - 1 {
                    assert(prev[i] == x);
                }
            }
            if prev.contains(x) {
                let i = choose|i: int| 0 <= i < prev.len() && prev[i] == x;
                assert(attendees[i] == x);
            }
            if op.contains(x) {
                let i = choose|i: int| 0 <= i < op.len() && op[i] == x;
                assert(o[i] == x);
            }
            if o.contains(x) && o != op {
                let i = choose|i: int| 0 <= i < o.len() && o[i] == x;
                if i < op.len() {
                    assert(op[i] == x);
                }
            }
            if attendees.last() == x && !eq_ignore_case(x, trim(user)) {
                assert(o[o.len() - 1] == x);
            }
        }
    }
}

/// The participants a recording starts with when it matches a calendar event.
pub fn event_participants(attendees: &Vec<String>, user_name: &str) -> (r: Vec<String>)
    ensures
        strs(r@) == others_of(strs(attendees@), user_name@),
{
    let me = trim_str(user_name);
    let mut out: Vec<String> = Vec::new();
    let mut i: usize = 0;
    while i < attendees.len()
        invariant
            i <= attendees.len(),
            me@ == trim(user_name@),
            strs(out@) == others_of(strs(attendees@).take(i as int), user_name@),
        decreases attendees.len() - i,
    {
        proof {
            let t = strs(attendees@).take(i + 1);
            assert(t.drop_last() == strs(attendees@).take(i as int));
            assert(t.last() == attendees@[i as int]@);
        }
        let a = to_chars(attendees[i].as_str());
        if !chars_eq_ignore_case(&a, &me) {
            let ghost before = strs(out@);
            out.push(attendees[i].clone());
            assert(strs(out@) =~= before.push(attendees@[i as int]@));
        }
        i += 1;
    }
    assert(strs(attendees@).take(attendees.len() as int) == strs(attendees@));
    out
}

/// The title a recording starts with: the one given, else the calendar
/// event's, else the fallback.
pub fn start_title(given: Option<String>, event_title: Option<String>, fallback: String) -> (r: String)
    ensures
        r@ == (match given {
            Some(t) => t@,
            None => match event_title {
                Some(t) => t@,
                None => fallback@,
            },
        }),
{
    match given {
        Some(t) => t,
        None => match event_title {
            Some(t) => t,
            None => fallback,
        },
    }
}

/// A stopped recording: it ended at `ended_at`, lasted `duration_ms`, and
/// now waits for the post-call pipeline. Nothing else changes.
pub fn stop_meeting(m: &mut Meeting, ended_at: i64, duration_ms: i64)
    ensures
        *final(m) == (Meeting {
            ended_at: Some(ended_at),
            duration_ms,
            status: MeetingStatus::Processing,
            ..*old(m)
        }),
{
    m.ended_at = Some(ended_at);
    m.duration_ms = duration_ms;
    m.status = MeetingStatus::Processing;
}

/// Error for re-transcribing a meeting that is still being recorded.
pub const STILL_RECORDING: &'static str = "still recording";

/// Queue a stored meeting for transcription again: refused while it is
/// still recording, else it turns `Processing`.
pub fn retranscribe_meeting(m: &mut Meeting) -> (r: Result<(), String>)
    ensures
        old(m).status == MeetingStatus::Recording <==> r.is_err(),
        r.is_err() ==> r->Err_0@ == STILL_RECORDING@ && *final(m) == *old(m),
        r.is_ok() ==> *final(m) == (Meeting { status: MeetingStatus::Processing, ..*old(m) }),
{
    if m.status == MeetingStatus::Recording {
        return Err(STILL_RECORDING.to_owned());
    }
    m.status = MeetingStatus::Processing;
    Ok(())
}

/// The settings key under which a meeting's highlight marks are kept.
pub fn highlights_key(meeting_id: &str) -> (r: String)
    ensures
        r@ == "highlights:"@ + meeting_id@,
{
    let mut v = to_chars("highlights:");
    extend_str(&mut v, meeting_id);
    from_chars(&v)
}

// ---------------------------------------------------------------- session

/// The recording session as the app holds it: the meeting being recorded
/// (its id), whether its capture is paused, and whether meeting detection
/// is paused.
pub struct Session {
    pub active: Option<String>,
    pub capture_paused: bool,
    pub detection_paused: bool,
}

/// What can happen to the session.
pub enum SessionEvent {
    /// Start recording the meeting with this id.
    Start(String),
    Stop,
    /// Pause or resume the capture (nothing happens when idle).
    Pause,
    Resume,
    /// The tray's "Pause detection" / "Resume detection".
    ToggleDetection,
}

pub open spec fn session_view(s: Session) -> (Option<Seq<char>>, bool, bool) {
    (
        match s.active {
            Some(id) => Some(id@),
            None => None,
        },
        s.capture_paused,
        s.detection_paused,
    )
}

/// The session after an event, or the refusal: starting pauses detection,
/// stopping resumes it; a second start and a stop while idle are refused.
pub open spec fn session_next(s: (Option<Seq<char>>, bool, bool), e: SessionEvent) -> Result<
    (Option<Seq<char>>, bool, bool),
    Seq<char>,
> {
    match e {
        SessionEvent::Start(id) => if s.0 is Some {
            Err(crate::guards::ALREADY_RECORDING@)
        } else {
            Ok((Some(id@), false, true))
        },
        SessionEvent::Stop => if s.0 is Some {
            Ok((None, false, false))
        } else {
            Err(crate::guards::NOT_RECORDING@)
        },
        SessionEvent::Pause => if s.0 is Some {
            Ok((s.0, true, s.2))
        } else {
            Ok(s)
        },
        SessionEvent::Resume => if s.0 is Some {
            Ok((s.0, false, s.2))
        } else {
            Ok(s)
        },
        SessionEvent::ToggleDetection => Ok((s.0, s.1, !s.2)),
    }
}

/// Apply an event to the session.
pub fn session_step(s: Session, e: SessionEvent) -> (r: Result<Session, String>)
    ensures
        match r {
            Ok(n) => session_next(session_view(s), e) == Ok::<(Option<Seq<char>>, bool, bool), Seq<char>>(
                session_view(n),
            ),
            Err(m) => session_next(session_view(s), e) == Err::<(Option<Seq<char>>, bool, bool), Seq<char>>(m@),
        },
{
    match e {
        SessionEvent::Start(id) => match crate::guards::start_check(s.active.is_some()) {
            Err(m) => Err(m),
            Ok(()) => Ok(Session { active: Some(id), capture_paused: false, detection_paused: true }),
        },
        SessionEvent::Stop => match crate::guards::stop_check(s.active.is_some()) {
            Err(m) => Err(m),
            Ok(()) => Ok(Session { active: None, capture_paused: false, detection_paused: false }),
        },
        SessionEvent::Pause => if s.active.is_some() {
            Ok(Session { active: s.active, capture_paused: true, detection_paused: s.detection_paused })
        } else {
            Ok(s)
        },
        SessionEvent::Resume => if s.active.is_some() {
            Ok(Session { active: s.active, capture_paused: false, detection_paused: s.detection_paused })
        } else {
            Ok(s)
        },
        SessionEvent::ToggleDetection => Ok(
            Session { active: s.active, capture_paused: s.capture_paused, detection_paused: !s.detection_paused },
        ),
    }
}

/// On an active session, pausing pauses the capture and resuming unpauses
/// it; neither changes the meeting or detection, and a pause followed by a
/// resume gives back an unpaused session.
pub proof fn lemma_pause_resume(s: (Option<Seq<char>>, bool, bool))
    requires
        s.0 is Some,
    ensures
        session_next(s, SessionEvent::Pause) matches Ok(n) && n.1 && n.0 == s.0 && n.2 == s.2,
        session_next(s, SessionEvent::Resume) matches Ok(n) && !n.1 && n.0 == s.0 && n.2 == s.2,
        session_next(s, SessionEvent::Pause) matches Ok(n) && session_next(n, SessionEvent::Resume) matches Ok(
            n2,
        ) && n2 == (s.0, false, s.2),
{
}

/// Without a recording, pausing and resuming change nothing, and detection
/// toggles flip only the detection flag (twice gives it back).
pub proof fn lemma_idle_events(s: (Option<Seq<char>>, bool, bool))
    ensures
        s.0 is None ==> session_next(s, SessionEvent::Pause) == Ok::<(Option<Seq<char>>, bool, bool), Seq<char>>(s),
        s.0 is None ==> session_next(s, SessionEvent::Resume) == Ok::<(Option<Seq<char>>, bool, bool), Seq<char>>(s),
        session_next(s, SessionEvent::ToggleDetection) matches Ok(n) && n.0 == s.0 && n.1 == s.1 && n.2 == !s.2,
        session_next(s, SessionEvent::ToggleDetection) matches Ok(n) && session_next(n, SessionEvent::ToggleDetection)
            == Ok::<(Option<Seq<char>>, bool, bool), Seq<char>>(s),
{
}

/// A start is refused exactly while recording, a stop exactly while idle.
pub proof fn lemma_start_stop_refusals(s: (Option<Seq<char>>, bool, bool), id: String)
    ensures
        session_next(s, SessionEvent::Start(id)) is Err <==> s.0 is Some,
        session_next(s, SessionEvent::Stop) is Err <==> s.0 is None,
        session_next(s, SessionEvent::Start(id)) matches Ok(n) ==> n == (Some(id@), false, true),
        session_next(s, SessionEvent::Stop) matches Ok(n) ==> n == (None::<Seq<char>>, false, false),
{
}

/// An idle session is never paused: every event keeps that so.
pub proof fn lemma_idle_not_paused(s: (Option<Seq<char>>, bool, bool), e: SessionEvent)
    requires
        s.0 is None ==> !s.1,
    ensures
        session_next(s, e) matches Ok(n) ==> (n.0 is None ==> !n.1),
{
}

/// Starting a recording from idle and then stopping it ends idle, unpaused,
/// with detection running, whatever detection was before.
pub proof fn lemma_start_then_stop(s: (Option<Seq<char>>, bool, bool), id: String)
    requires
        s.0 is None,
    ensures
        session_next(s, SessionEvent::Start(id)) == Ok::<(Option<Seq<char>>, bool, bool), Seq<char>>(
            (Some(id@), false, true),
        ),
        session_next((Some(id@), false, true), SessionEvent::Stop) == Ok::<
            (Option<Seq<char>>, bool, bool),
            Seq<char>,
        >((None, false, false)),
{
}

} // verus!
