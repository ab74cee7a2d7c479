//! What a chat turn and a follow-up draft are built from, and what a
//! finished reply stores.

use vstd::prelude::*;
use crate::meetings::strs;
use crate::text::{chars_eq_ignore_case, from_chars, slice_chars, str_eq, to_chars, eq_ignore_case, trim, trim_str};

verus! {

/// Earlier turns of a chat, oldest first: the non-empty messages, each as
/// (from the assistant, content). Any role but "assistant" is the user's.
pub open spec fn history_of(msgs: Seq<(String, String)>) -> Seq<(bool, Seq<char>)>
    decreases msgs.len(),
{
    if msgs.len() == 0 {
        Seq::empty()
    } else {
        let prev = history_of(msgs.drop_last());
        let m = msgs.last();
        if m.1@.len() > 0 {
            prev.push((m.0@ == "assistant"@, m.1@))
        } else {
            prev
        }
    }
}

/// The history holds exactly the non-empty messages, each with its content
/// and marked as the assistant's exactly when its role is "assistant".
pub proof fn lemma_history(msgs: Seq<(String, String)>)
    ensures
        history_of(msgs).len() <= msgs.len(),
        forall|i: int|
            0 <= i < history_of(msgs).len() ==> (#[trigger] history_of(msgs)[i]).1.len() > 0 && exists|j: int|
                0 <= j < msgs.len() && history_of(msgs)[i] == ((#[trigger] msgs[j]).0@ == "assistant"@, msgs[j].1@),
        forall|j: int|
            0 <= j < msgs.len() && (#[trigger] msgs[j]).1@.len() > 0 ==> history_of(msgs).contains(
                (msgs[j].0@ == "assistant"@, msgs[j].1@),
            ),
    decreases msgs.len(),
{
    if msgs.len() > 0 {
        let p = msgs.drop_last();
        lemma_history(p);
        let r0 = history_of(p);
        let r = history_of(msgs);
        assert forall|i: int| 0 <= i < r.len() implies (#[trigger] r[i]).1.len() > 0 && exists|j: int|
            0 <= j < msgs.len() && r[i] == ((#[trigger] msgs[j]).0@ == "assistant"@, msgs[j].1@) by {
            if i < r0.len() {
                assert(r[i] == r0[i]);
                let j = choose|j: int| 0 <= j < p.len() && r0[i] == ((#[trigger] p[j]).0@ == "assistant"@, p[j].1@);
                assert(msgs[j] == p[j]);
            } else {
                assert(msgs[msgs.len() - 1] == msgs.last());
            }
        }
        assert forall|j: int| 0 <= j < msgs.len() && (#[trigger] msgs[j]).1@.len() > 0 implies r.contains(
            (msgs[j].0@ == "assistant"@, msgs[j].1@),
        ) by {
            if j < msgs.len() - 1 {
                assert(msgs[j] == p[j]);
                assert(r0.contains((p[j].0@ == "assistant"@, p[j].1@)));
                let t = choose|t: int| 0 <= t < r0.len() && r0[t] == (p[j].0@ == "assistant"@, p[j].1@);
                assert(r[t] == r0[t]);
            } else {
                assert(r[r.len() - 1] == (msgs[j].0@ == "assistant"@, msgs[j].1@));
            }
        }
    }
}

/// A turn by what it holds.
pub open spec fn turn_views(v: Seq<(bool, String)>) -> Seq<(bool, Seq<char>)> {
    v.map_values(|t: (bool, String)| (t.0, t.1@))
}

/// The history handed to the model, from stored (role, content) messages.
pub fn chat_history(msgs: &Vec<(String, String)>) -> (r: Vec<(bool, String)>)
    ensures
        turn_views(r@) == history_of(msgs@),
{
    let mut out: Vec<(bool, String)> = Vec::new();
    let mut i: usize = 0;
    while i < msgs.len()
        invariant
            i <= msgs.len(),
            turn_views(out@) == history_of(msgs@.take(i as int)),
        decreases msgs.len() - i,
    {
        proof {
            assert(msgs@.take(i + 1).drop_last() == msgs@.take(i as int));
            assert(msgs@.take(i + 1).last() == msgs@[i as int]);
        }
        let content = to_chars(msgs[i].1.as_str());
        if content.len() > 0 {
            let ghost before = turn_views(out@);
            let assistant = str_eq(msgs[i].0.as_str(), "assistant");
            out.push((assistant, msgs[i].1.clone()));
            assert(turn_views(out@) =~= before.push((msgs@[i as int].0@ == "assistant"@, msgs@[i as int].1@)));
        }
        i += 1;
    }
    assert(msgs@.take(msgs.len() as int) == msgs@);
    out
}

/// How the model's reply ended.
pub enum ChatEnd {
    /// The whole reply.
    Done(String),
    /// The user stopped it.
    Cancelled,
    /// It failed with this error.
    Failed(String),
}

/// What is stored for a reply, and the error shown with it: a finished
/// reply as it came; a stopped or failed one as what streamed so far,
/// trimmed, with the error of a failure.
pub fn chat_reply(end: ChatEnd, streamed: &str) -> (r: (String, Option<String>))
    ensures
        match end {
            ChatEnd::Done(s) => r.0@ == s@ && r.1.is_none(),
            ChatEnd::Cancelled => r.0@ == trim(streamed@) && r.1.is_none(),
            ChatEnd::Failed(e) => r.0@ == trim(streamed@) && r.1.is_some() && r.1.unwrap()@ == e@,
        },
{
    match end {
        ChatEnd::Done(s) => (s, None),
        ChatEnd::Cancelled => {
            let t = trim_str(streamed);
            (from_chars(&t), None)
        },
        ChatEnd::Failed(e) => {
            let t = trim_str(streamed);
            (from_chars(&t), Some(e))
        },
    }
}

/// A meeting-scoped chat passes a short meeting (at most this many chunks) whole.
pub const WHOLE_MEETING_CHUNKS: usize = 12;

/// Whether a meeting with `chunks` chunks goes to the model whole, not by retrieval.
pub fn pass_whole(chunks: usize) -> (r: bool)
    ensures
        r == (chunks <= WHOLE_MEETING_CHUNKS),
{
    chunks <= WHOLE_MEETING_CHUNKS
}

/// The name a follow-up email is signed with: the user's name, unless it
/// is the placeholder "me" (any case, surrounding whitespace ignored).
pub open spec fn sender_of(user_name: Seq<char>) -> Seq<char> {
    if eq_ignore_case(trim(user_name), "me"@) {
        Seq::empty()
    } else {
        user_name
    }
}

/// The sender of a follow-up email.
pub fn followup_sender(user_name: &str) -> (r: String)
    ensures
        r@ == sender_of(user_name@),
{
    let t = trim_str(user_name);
    let me = to_chars("me");
    if chars_eq_ignore_case(&t, &me) {
        String::new()
    } else {
        user_name.to_owned()
    }
}

/// Error when a follow-up has nothing to be written from.
pub const NOTHING_TO_WRITE: &'static str = "Nothing to write from yet: the meeting has no transcript.";

/// The notes a follow-up is written from: the summary when it has text,
/// else the first `limit` characters of the transcript (and the flag that
/// says so). Blank notes are refused.
pub open spec fn followup_notes_of(summary: Option<Seq<char>>, transcript: Seq<char>, limit: nat) -> Result<(Seq<char>, bool), Seq<char>> {
    let (notes, is_transcript) = match summary {
        Some(md) if trim(md).len() > 0 => (md, false),
        _ => (transcript.take(if transcript.len() < limit { transcript.len() as int } else { limit as int }), true),
    };
    if trim(notes).len() == 0 {
        Err(NOTHING_TO_WRITE@)
    } else {
        Ok((notes, is_transcript))
    }
}

/// The notes for a follow-up draft.
pub fn followup_notes(summary: Option<String>, transcript: &str, limit: usize) -> (r: Result<(String, bool), String>)
    ensures
        match followup_notes_of(
            match summary {
                Some(s) => Some(s@),
                None => None,
            },
            transcript@,
            limit as nat,
        ) {
            Ok((n, t)) => r.is_ok() && r.unwrap().0@ == n && r.unwrap().1 == t,
            Err(e) => r.is_err() && r->Err_0@ == e,
        },
{
    let from_summary: Option<String> = match summary {
        Some(md) => {
            let t = trim_str(md.as_str());
            if t.len() > 0 {
                Some(md)
            } else {
                None
            }
        },
        None => None,
    };
    let (notes, is_transcript) = match from_summary {
        Some(md) => (md, false),
        None => {
            let v = to_chars(transcript);
            let n = if v.len() < limit { v.len() } else { limit };
            let head = slice_chars(&v, 0, n);
            assert(head@ == transcript@.take(n as int));
            (from_chars(&head), true)
        },
    };
    let t = trim_str(notes.as_str());
    if t.len() == 0 {
        Err(NOTHING_TO_WRITE.to_owned())
    } else {
        Ok((notes, is_transcript))
    }
}

} // verus!
