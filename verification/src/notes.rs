//! Running notes during a recording: when to refresh them and what to send.

use vstd::prelude::*;
use crate::meetings::strs;
use crate::text::{dec, dec_u64, extend_chars, extend_str, from_chars, join, pad2, pad2_u64, to_chars, views};

verus! {

/// Refresh the notes this soon after a new committed line...
pub const SOON_MS: u64 = 45_000;

/// ...and no later than this while new lines keep arriving.
pub const AT_MOST_MS: u64 = 120_000;

/// A pass slower than this doubles the wait.
pub const SLOW_PASS_MS: u64 = 60_000;

/// A notes pass is due when the cap has passed since the last one (or there
/// was none), or the wait has passed and the newest line has ended after 0.
pub open spec fn notes_due_of(since_last_ms: Option<u64>, wait_ms: u64, newest_end_ms: i64) -> bool {
    let since = match since_last_ms {
        Some(s) => s,
        None => u64::MAX,
    };
    since >= AT_MOST_MS || (since >= wait_ms && newest_end_ms > 0)
}

/// Is a notes pass due?
pub fn notes_due(since_last_ms: Option<u64>, wait_ms: u64, newest_end_ms: i64) -> (r: bool)
    ensures
        r == notes_due_of(since_last_ms, wait_ms, newest_end_ms),
{
    let since = match since_last_ms {
        Some(s) => s,
        None => u64::MAX,
    };
    since >= AT_MOST_MS || (since >= wait_ms && newest_end_ms > 0)
}

/// The wait before the next pass: doubled (up to the cap) after a slow
/// pass, back to `SOON_MS` otherwise.
pub fn next_wait(wait_ms: u64, pass_ms: u64) -> (r: u64)
    requires
        wait_ms <= u64::MAX / 2,
    ensures
        r == (if pass_ms > SLOW_PASS_MS {
            if wait_ms * 2 < AT_MOST_MS {
                (wait_ms * 2) as u64
            } else {
                AT_MOST_MS
            }
        } else {
            SOON_MS
        }),
        r <= AT_MOST_MS,
{
    if pass_ms > SLOW_PASS_MS {
        let w = wait_ms * 2;
        if w < AT_MOST_MS {
            w
        } else {
            AT_MOST_MS
        }
    } else {
        SOON_MS
    }
}

/// `{m}:{s:02}` of the whole seconds in `ms` (negative times read as 0).
pub open spec fn live_stamp_of(ms: int) -> Seq<char> {
    let s = if ms < 0 { 0nat } else { (ms / 1000) as nat };
    dec(s / 60) + seq![':'] + pad2(s % 60)
}

/// Timestamp of a caption in the notes input.
pub fn stamp(ms: i64) -> (r: Vec<char>)
    ensures
        r@ == live_stamp_of(ms as int),
{
    let s: u64 = if ms < 0 { 0 } else { (ms / 1000) as u64 };
    let mut v = dec_u64(s / 60);
    v.push(':');
    let p = pad2_u64(s % 60);
    extend_chars(&mut v, &p);
    v
}

/// One caption line of the notes input: `[m:ss] text`.
pub open spec fn caption_line(start_ms: i64, text: Seq<char>) -> Seq<char> {
    seq!['['] + live_stamp_of(start_ms as int) + "] "@ + text
}

pub open spec fn caption_lines(cs: Seq<(i64, String)>) -> Seq<Seq<char>> {
    cs.map_values(|c: (i64, String)| caption_line(c.0, c.1@))
}

/// The new captions since the last pass, one `[m:ss] text` line each.
pub fn notes_input(captions: &Vec<(i64, String)>) -> (r: String)
    ensures
        r@ == join(caption_lines(captions@), seq!['\n']),
{
    let mut lines: Vec<Vec<char>> = Vec::new();
    let mut i: usize = 0;
    while i < captions.len()
        invariant
            i <= captions.len(),
            views(lines@) == caption_lines(captions@).take(i as int),
        decreases captions.len() - i,
    {
        let mut l: Vec<char> = Vec::new();
        l.push('[');
        let st = stamp(captions[i].0);
        extend_chars(&mut l, &st);
        extend_str(&mut l, "] ");
        extend_str(&mut l, captions[i].1.as_str());
        let ghost before = views(lines@);
        lines.push(l);
        assert(views(lines@) =~= before.push(caption_line(captions@[i as int].0, captions@[i as int].1@)));
        assert(caption_lines(captions@).take(i + 1) =~= caption_lines(captions@).take(i as int).push(
            caption_line(captions@[i as int].0, captions@[i as int].1@),
        ));
        i += 1;
    }
    assert(caption_lines(captions@).take(captions.len() as int) == caption_lines(captions@));
    let mut sep: Vec<char> = Vec::new();
    sep.push('\n');
    assert(sep@ == seq!['\n']);
    let j = crate::text::join_chars(&lines, &sep);
    from_chars(&j)
}

} // verus!
