//! Where the small windows go, what the tray says, and when idle engines
//! are unloaded.

use vstd::prelude::*;

verus! {

/// Gap between a corner window and the screen edge.
pub const MARGIN: i32 = 16;

/// Room left for a taskbar below a bottom window.
pub const TASKBAR: i32 = 48;

/// Top-left position of a `win_w` x `win_h` window in a corner of the
/// monitor at (`mon_x`, `mon_y`) of size `mon_w` x `mon_h`: right or left,
/// bottom (above the taskbar) or top, `MARGIN` from the edges.
pub open spec fn corner_of(
    mon_x: int, mon_y: int, mon_w: int, mon_h: int, win_w: int, win_h: int, bottom: bool, right: bool,
) -> (int, int) {
    (
        if right { mon_x + mon_w - win_w - MARGIN } else { mon_x + MARGIN },
        if bottom { mon_y + mon_h - win_h - MARGIN - TASKBAR } else { mon_y + MARGIN },
    )
}

/// The corner position of a window (screen coordinates in `i32`).
pub fn corner_position(
    mon_x: i32, mon_y: i32, mon_w: i32, mon_h: i32, win_w: i32, win_h: i32, bottom: bool, right: bool,
) -> (r: (i32, i32))
    requires
        right ==> i32::MIN <= mon_x + mon_w <= i32::MAX && i32::MIN <= mon_x + mon_w - win_w <= i32::MAX
            && i32::MIN <= mon_x + mon_w - win_w - MARGIN <= i32::MAX,
        !right ==> mon_x + MARGIN <= i32::MAX,
        bottom ==> i32::MIN <= mon_y + mon_h <= i32::MAX && i32::MIN <= mon_y + mon_h - win_h <= i32::MAX
            && i32::MIN <= mon_y + mon_h - win_h - MARGIN <= i32::MAX && i32::MIN <= mon_y + mon_h - win_h
            - MARGIN - TASKBAR <= i32::MAX,
        !bottom ==> mon_y + MARGIN <= i32::MAX,
    ensures
        r.0 as int == corner_of(mon_x as int, mon_y as int, mon_w as int, mon_h as int, win_w as int, win_h as int, bottom, right).0,
        r.1 as int == corner_of(mon_x as int, mon_y as int, mon_w as int, mon_h as int, win_w as int, win_h as int, bottom, right).1,
{
    let x = if right { mon_x + mon_w - win_w - MARGIN } else { mon_x + MARGIN };
    let y = if bottom { mon_y + mon_h - win_h - MARGIN - TASKBAR } else { mon_y + MARGIN };
    (x, y)
}

/// The tray's recording item.
pub fn tray_label(recording: bool) -> (r: &'static str)
    ensures
        r@ == (if recording { "Stop recording"@ } else { "Start recording"@ }),
{
    if recording { "Stop recording" } else { "Start recording" }
}

/// Engines unused for this long are unloaded.
pub const IDLE_UNLOAD_MS: u64 = 600_000;

/// Whether to unload the loaded engines: never while recording, and only
/// when they were last used more than `IDLE_UNLOAD_MS` ago.
pub fn unload_idle(recording: bool, since_used_ms: Option<u64>) -> (r: bool)
    ensures
        r == (!recording && match since_used_ms {
            Some(t) => t > IDLE_UNLOAD_MS,
            None => false,
        }),
{
    if recording {
        return false;
    }
    match since_used_ms {
        Some(t) => t > IDLE_UNLOAD_MS,
        None => false,
    }
}

} // verus!
