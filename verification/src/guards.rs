//! The refusals commands answer before they do any work.

use vstd::prelude::*;
use crate::text::{from_chars, trim, trim_str};

verus! {

/// Error when a language model is needed and none is available.
pub const NO_MODEL: &'static str = "No language model available. Download one in Settings or connect an endpoint.";

/// Error for a chat that does not exist.
pub const CHAT_NOT_FOUND: &'static str = "chat not found";

/// Error for a message with nothing in it.
pub const EMPTY_MESSAGE: &'static str = "empty message";

/// Error for a meeting that does not exist.
pub const MEETING_NOT_FOUND: &'static str = "meeting not found";

/// Error for starting a recording while one runs.
pub const ALREADY_RECORDING: &'static str = "already recording";

/// Error for stopping (or marking) when nothing records.
pub const NOT_RECORDING: &'static str = "not recording";

/// Error for a model id the catalog does not know.
pub const UNKNOWN_MODEL: &'static str = "unknown model";

/// Error for downloading a model that is being downloaded.
pub const ALREADY_DOWNLOADING: &'static str = "already downloading";

/// A chat message is taken when the chat exists, the message has text, and
/// a language model is available, checked in that order; the message is
/// kept trimmed.
pub fn chat_message_check(chat_exists: bool, text: &str, has_model: bool) -> (r: Result<String, String>)
    ensures
        !chat_exists ==> r.is_err() && r->Err_0@ == CHAT_NOT_FOUND@,
        chat_exists && trim(text@).len() == 0 ==> r.is_err() && r->Err_0@ == EMPTY_MESSAGE@,
        chat_exists && trim(text@).len() > 0 && !has_model ==> r.is_err() && r->Err_0@ == NO_MODEL@,
        chat_exists && trim(text@).len() > 0 && has_model ==> r.is_ok() && r.unwrap()@ == trim(text@),
{
    if !chat_exists {
        return Err(CHAT_NOT_FOUND.to_owned());
    }
    let t = trim_str(text);
    if t.len() == 0 {
        return Err(EMPTY_MESSAGE.to_owned());
    }
    if !has_model {
        return Err(NO_MODEL.to_owned());
    }
    Ok(from_chars(&t))
}

/// A summary (or a follow-up draft) is made for an existing meeting when a
/// language model is available. `model_first` is the order the command
/// checks in: the follow-up draft asks for the model first.
pub fn ai_check(meeting_exists: bool, has_model: bool, model_first: bool) -> (r: Result<(), String>)
    ensures
        meeting_exists && has_model <==> r.is_ok(),
        r.is_err() ==> r->Err_0@ == (if !has_model && (model_first || meeting_exists) {
            NO_MODEL@
        } else {
            MEETING_NOT_FOUND@
        }),
{
    if model_first && !has_model {
        return Err(NO_MODEL.to_owned());
    }
    if !meeting_exists {
        return Err(MEETING_NOT_FOUND.to_owned());
    }
    if !has_model {
        return Err(NO_MODEL.to_owned());
    }
    Ok(())
}

/// A recording starts only when none is running.
pub fn start_check(recording: bool) -> (r: Result<(), String>)
    ensures
        r.is_ok() <==> !recording,
        r.is_err() ==> r->Err_0@ == ALREADY_RECORDING@,
{
    if recording {
        Err(ALREADY_RECORDING.to_owned())
    } else {
        Ok(())
    }
}

/// A recording stops only when one is running.
pub fn stop_check(recording: bool) -> (r: Result<(), String>)
    ensures
        r.is_ok() <==> recording,
        r.is_err() ==> r->Err_0@ == NOT_RECORDING@,
{
    if recording {
        Ok(())
    } else {
        Err(NOT_RECORDING.to_owned())
    }
}

/// A download starts for a model the catalog knows that is not already
/// being downloaded.
pub fn download_check(known: bool, downloading: bool) -> (r: Result<(), String>)
    ensures
        r.is_ok() <==> known && !downloading,
        !known ==> r.is_err() && r->Err_0@ == UNKNOWN_MODEL@,
        known && downloading ==> r.is_err() && r->Err_0@ == ALREADY_DOWNLOADING@,
{
    if !known {
        return Err(UNKNOWN_MODEL.to_owned());
    }
    if downloading {
        return Err(ALREADY_DOWNLOADING.to_owned());
    }
    Ok(())
}

} // verus!
