//! Which media file stands for a meeting when it is clipped, exported or
//! shared, and what its copies are called.

use vstd::prelude::*;
use crate::text::{extend_str, from_chars, str_eq, to_chars};

verus! {

/// Error when a meeting has neither a screen video nor an audio mix.
pub const NO_MEDIA: &'static str = "no media for this meeting";

/// The source of a clip or export: the screen video when there is one
/// (`Ok(true)`), else the audio mix (`Ok(false)`), else an error.
pub fn source_media_choice(video_exists: bool, audio_exists: bool) -> (r: Result<bool, String>)
    ensures
        video_exists ==> r == Ok::<bool, String>(true),
        !video_exists && audio_exists ==> r == Ok::<bool, String>(false),
        !video_exists && !audio_exists ==> r.is_err() && r->Err_0@ == NO_MEDIA@,
{
    if video_exists {
        Ok(true)
    } else if audio_exists {
        Ok(false)
    } else {
        Err(NO_MEDIA.to_owned())
    }
}

/// The rendered clip of a share: `<token>.mp4` for video, `<token>.mp3` for audio.
pub fn clip_file_name(token: &str, is_video: bool) -> (r: String)
    ensures
        r@ == token@ + (if is_video { ".mp4"@ } else { ".mp3"@ }),
{
    let mut v = to_chars(token);
    extend_str(&mut v, if is_video { ".mp4" } else { ".mp3" });
    from_chars(&v)
}

/// The media file written beside an exported page.
pub fn exported_media_name(is_video: bool) -> (r: &'static str)
    ensures
        r@ == (if is_video { "recording.mp4"@ } else { "recording.wav"@ }),
{
    if is_video { "recording.mp4" } else { "recording.wav" }
}

/// The share server keeps running while some share is enabled.
pub fn server_needed(enabled: &Vec<bool>) -> (r: bool)
    ensures
        r == enabled@.contains(true),
{
    let mut i: usize = 0;
    while i < enabled.len()
        invariant
            i <= enabled.len(),
            forall|k: int| 0 <= k < i ==> !enabled@[k],
        decreases enabled.len() - i,
    {
        if enabled[i] {
            assert(enabled@[i as int] == true);
            return true;
        }
        i += 1;
    }
    false
}

/// Moving the data folder copies every file but the database's write-ahead
/// log and shared-memory files (the database is checkpointed first).
pub fn copied_when_moving(file_name: &str) -> (r: bool)
    ensures
        r == (file_name@ != "hark.db-wal"@ && file_name@ != "hark.db-shm"@),
{
    !str_eq(file_name, "hark.db-wal") && !str_eq(file_name, "hark.db-shm")
}

} // verus!
