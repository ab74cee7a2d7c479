//! Decisions of the meeting detector that polls for meeting apps.

use vstd::prelude::*;
use crate::meetings::strs;
use crate::text::str_eq;

verus! {

/// Milliseconds between two probes of the audio levels.
pub const AUDIO_PROBE_EVERY_MS: u64 = 10_000;

/// The app id of a call found only by audio activity.
pub const UNKNOWN_APP: &'static str = "unknown";

/// What one poll of the detector does before it looks at the windows.
#[derive(Clone, Copy, Debug, PartialEq, Eq, Structural)]
pub enum Gate {
    /// Detection is off or paused: forget what was seen and wait.
    Reset,
    /// Detection is snoozed: wait.
    Snoozed,
    /// Look for a meeting; `clear_snooze` when a snooze has just run out.
    Look { clear_snooze: bool },
}

/// What a poll does at time `now_ms`: detection may be off, paused while
/// recording, or snoozed until `snooze_until_ms`.
pub fn gate(detection_enabled: bool, paused: bool, snooze_until_ms: Option<u64>, now_ms: u64) -> (r: Gate)
    ensures
        r == (if !detection_enabled || paused {
            Gate::Reset
        } else {
            match snooze_until_ms {
                Some(until) => if now_ms < until {
                    Gate::Snoozed
                } else {
                    Gate::Look { clear_snooze: true }
                },
                None => Gate::Look { clear_snooze: false },
            }
        }),
{
    if !detection_enabled || paused {
        return Gate::Reset;
    }
    match snooze_until_ms {
        Some(until) => if now_ms < until {
            Gate::Snoozed
        } else {
            Gate::Look { clear_snooze: true }
        },
        None => Gate::Look { clear_snooze: false },
    }
}

/// A detected app is offered unless the user asked never to be offered it.
pub fn app_allowed(never_apps: &Vec<String>, app: &str) -> (r: bool)
    ensures
        r == !strs(never_apps@).contains(app@),
{
    let mut i: usize = 0;
    while i < never_apps.len()
        invariant
            i <= never_apps.len(),
            forall|k: int| 0 <= k < i ==> strs(never_apps@)[k] != app@,
        decreases never_apps.len() - i,
    {
        if str_eq(never_apps[i].as_str(), app) {
            assert(strs(never_apps@)[i as int] == app@);
            return false;
        }
        i += 1;
    }
    true
}

/// Audio levels are probed only when no app matched, the fallback is on,
/// and the last probe is at least `AUDIO_PROBE_EVERY_MS` old.
pub fn probe_audio(app_matched: bool, audio_activity_enabled: bool, since_probe_ms: u64) -> (r: bool)
    ensures
        r == (!app_matched && audio_activity_enabled && since_probe_ms >= AUDIO_PROBE_EVERY_MS),
{
    !app_matched && audio_activity_enabled && since_probe_ms >= AUDIO_PROBE_EVERY_MS
}

} // verus!
