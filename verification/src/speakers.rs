//! Naming a speaker: which spelling is kept and what becomes of the voiceprint.

use vstd::prelude::*;
use crate::text::{from_chars, trim, trim_str};

verus! {

/// The name a renamed speaker gets: the spelling of the known speaker with
/// that name (matched ignoring case by the store), else the name trimmed.
pub fn speaker_name(requested: &str, existing: Option<String>) -> (r: String)
    ensures
        r@ == (match existing {
            Some(e) => e@,
            None => trim(requested@),
        }),
{
    match existing {
        Some(e) => e,
        None => {
            let t = trim_str(requested);
            from_chars(&t)
        },
    }
}

/// What renaming does to a known speaker's voiceprint.
#[derive(Clone, Copy, Debug, PartialEq, Eq, Structural)]
pub enum Voiceprint {
    /// No new voiceprint: the old one stays.
    Keep,
    /// The new one has the old one's size: they are averaged.
    Blend,
    /// The new one has another size: it replaces the old one.
    Replace,
}

/// The update of a known speaker's voiceprint of `old_len` values, given the
/// new one's size (`None` when there is none).
pub fn voiceprint_update(old_len: usize, new_len: Option<usize>) -> (r: Voiceprint)
    ensures
        r == (match new_len {
            Some(n) => if n == 0 {
                Voiceprint::Keep
            } else if n == old_len {
                Voiceprint::Blend
            } else {
                Voiceprint::Replace
            },
            None => Voiceprint::Keep,
        }),
{
    match new_len {
        Some(n) => if n == 0 {
            Voiceprint::Keep
        } else if n == old_len {
            Voiceprint::Blend
        } else {
            Voiceprint::Replace
        },
        None => Voiceprint::Keep,
    }
}

} // verus!
