//! Windows offered as screen-recording sources.

use vstd::prelude::*;
use crate::text::{chars_eq, dec, dec_u64, extend_chars, extend_str, from_chars, slice_chars, str_eq, to_chars, trim, trim_str};

verus! {

/// The label of a display: its name, then its size and whether it is the
/// primary one when the size is known.
pub open spec fn monitor_label_of(name: Seq<char>, width: u32, height: u32, primary: bool) -> Seq<char> {
    if width > 0 {
        name + " ("@ + dec(width as nat) + "x"@ + dec(height as nat) + ")"@ + if primary {
            ", primary"@
        } else {
            Seq::empty()
        }
    } else {
        name
    }
}

/// The label offered for a display, as in `Screen 1 (1920x1080), primary`.
pub fn monitor_label(name: &str, width: u32, height: u32, primary: bool) -> (r: String)
    ensures
        r@ == monitor_label_of(name@, width, height, primary),
{
    let mut out = to_chars(name);
    if width > 0 {
        extend_str(&mut out, " (");
        let w = dec_u64(width as u64);
        extend_chars(&mut out, &w);
        extend_str(&mut out, "x");
        let h = dec_u64(height as u64);
        extend_chars(&mut out, &h);
        extend_str(&mut out, ")");
        if primary {
            extend_str(&mut out, ", primary");
        }
    }
    proof {
        if width > 0 && !primary {
            assert(out@ == out@ + Seq::<char>::empty());
        }
    }
    from_chars(&out)
}

/// A visible window.
pub struct WindowInfo {
    pub title: String,
    pub process: String,
    /// Owning process id (0 when unknown).
    pub pid: u32,
}

/// A window offered as a video source.
pub struct WindowSource {
    pub title: String,
    /// The title cut to 70 characters.
    pub label: String,
    /// The window of the meeting app that was just detected.
    pub is_meeting: bool,
    pub pid: Option<u32>,
}

/// Most windows offered.
pub const MAX_WINDOWS: usize = 40;

/// Windows worth offering: titled, and not Hark's own.
pub open spec fn eligible(w: WindowInfo) -> bool {
    trim(w.title@).len() > 0 && w.process@ != "hark.exe"@ && w.process@ != "hark"@
}

/// Eligible windows, each title once (the first window with it).
pub open spec fn distinct_windows(ws: Seq<WindowInfo>) -> Seq<WindowInfo>
    decreases ws.len(),
{
    if ws.len() == 0 {
        Seq::empty()
    } else {
        let prev = distinct_windows(ws.drop_last());
        let w = ws.last();
        if eligible(w) && !(exists|i: int| 0 <= i < prev.len() && (#[trigger] prev[i]).title@ == w.title@) {
            prev.push(w)
        } else {
            prev
        }
    }
}

/// What a source says: title, label, meeting flag and pid.
pub open spec fn source_view(s: WindowSource) -> (Seq<char>, Seq<char>, bool, Option<u32>) {
    (s.title@, s.label@, s.is_meeting, s.pid)
}

/// The source for a window.
pub open spec fn source_of(w: WindowInfo, meeting_title: Option<Seq<char>>) -> (Seq<char>, Seq<char>, bool, Option<u32>) {
    (
        w.title@,
        w.title@.take(if w.title@.len() < 70 { w.title@.len() as int } else { 70 }),
        meeting_title == Some(w.title@),
        if w.pid != 0 { Some(w.pid) } else { None },
    )
}

/// The sources among `ws` whose meeting flag is `flag`, in order.
pub open spec fn with_flag(ws: Seq<WindowInfo>, meeting_title: Option<Seq<char>>, flag: bool) -> Seq<(Seq<char>, Seq<char>, bool, Option<u32>)>
    decreases ws.len(),
{
    if ws.len() == 0 {
        Seq::empty()
    } else {
        let prev = with_flag(ws.drop_last(), meeting_title, flag);
        if source_of(ws.last(), meeting_title).2 == flag {
            prev.push(source_of(ws.last(), meeting_title))
        } else {
            prev
        }
    }
}

/// The first 40 distinct eligible windows as sources, the meeting's window first.
pub open spec fn window_sources_of(ws: Seq<WindowInfo>, meeting_title: Option<Seq<char>>) -> Seq<(Seq<char>, Seq<char>, bool, Option<u32>)> {
    let d = distinct_windows(ws);
    let kept = d.take(if d.len() < 40 { d.len() as int } else { 40 });
    with_flag(kept, meeting_title, true) + with_flag(kept, meeting_title, false)
}

/// Windows whose titles are pairwise different.
pub open spec fn titles_distinct(ws: Seq<WindowInfo>) -> bool {
    forall|i: int, j: int| 0 <= i < j < ws.len() ==> (#[trigger] ws[i]).title@ != (#[trigger] ws[j]).title@
}

proof fn lemma_distinct_windows(ws: Seq<WindowInfo>)
    ensures
        titles_distinct(distinct_windows(ws)),
        forall|i: int| 0 <= i < distinct_windows(ws).len() ==> eligible(#[trigger] distinct_windows(ws)[i]),
        distinct_windows(ws).len() <= ws.len(),
    decreases ws.len(),
{
    if ws.len() > 0 {
        lemma_distinct_windows(ws.drop_last());
        let prev = distinct_windows(ws.drop_last());
        let d = distinct_windows(ws);
        if d != prev {
            assert(d == prev.push(ws.last()));
            assert forall|i: int, j: int| 0 <= i < j < d.len() implies (#[trigger] d[i]).title@ != (#[trigger] d[j]).title@ by {
                if j == d.len() - 1 {
                    assert(d[i] == prev[i]);
                    if prev[i].title@ == ws.last().title@ {
                        assert(0 <= i < prev.len() && prev[i].title@ == ws.last().title@);
                    }
                } else {
                    assert(d[i] == prev[i] && d[j] == prev[j]);
                }
            }
            assert forall|i: int| 0 <= i < d.len() implies eligible(#[trigger] d[i]) by {
                if i < prev.len() {
                    assert(d[i] == prev[i]);
                }
            }
        }
    }
}

proof fn lemma_with_flag(ws: Seq<WindowInfo>, mt: Option<Seq<char>>, f: bool)
    ensures
        forall|i: int|
            0 <= i < with_flag(ws, mt, f).len() ==> exists|k: int|
                0 <= k < ws.len() && #[trigger] with_flag(ws, mt, f)[i] == source_of(ws[k], mt) && source_of(ws[k], mt).2 == f,
        with_flag(ws, mt, f).len() <= ws.len(),
    decreases ws.len(),
{
    if ws.len() > 0 {
        let prev = ws.drop_last();
        lemma_with_flag(prev, mt, f);
        let wp = with_flag(prev, mt, f);
        let w = with_flag(ws, mt, f);
        assert forall|i: int| 0 <= i < w.len() implies exists|k: int|
            0 <= k < ws.len() && #[trigger] w[i] == source_of(ws[k], mt) && source_of(ws[k], mt).2 == f by {
            if i < wp.len() {
                assert(w[i] == wp[i]);
                let k = choose|k: int| 0 <= k < prev.len() && wp[i] == source_of(prev[k], mt) && source_of(prev[k], mt).2 == f;
                assert(ws[k] == prev[k]);
            } else {
                assert(w[i] == source_of(ws[ws.len() - 1], mt));
            }
        }
    }
}

proof fn lemma_with_flag_distinct(ws: Seq<WindowInfo>, mt: Option<Seq<char>>, f: bool)
    requires
        titles_distinct(ws),
    ensures
        forall|i: int, j: int|
            0 <= i < j < with_flag(ws, mt, f).len() ==> (#[trigger] with_flag(ws, mt, f)[i]).0 != (#[trigger] with_flag(ws, mt, f)[j]).0,
    decreases ws.len(),
{
    if ws.len() > 0 {
        let prev = ws.drop_last();
        assert(titles_distinct(prev)) by {
            assert forall|i: int, j: int| 0 <= i < j < prev.len() implies (#[trigger] prev[i]).title@ != (#[trigger] prev[j]).title@ by {
                assert(prev[i] == ws[i] && prev[j] == ws[j]);
            }
        }
        lemma_with_flag_distinct(prev, mt, f);
        lemma_with_flag(prev, mt, f);
        let wp = with_flag(prev, mt, f);
        let w = with_flag(ws, mt, f);
        if w != wp {
            assert forall|i: int, j: int| 0 <= i < j < w.len() implies (#[trigger] w[i]).0 != (#[trigger] w[j]).0 by {
                if j == w.len() - 1 {
                    assert(w[i] == wp[i]);
                    let k = choose|k: int| 0 <= k < prev.len() && wp[i] == source_of(prev[k], mt) && source_of(prev[k], mt).2 == f;
                    assert(prev[k] == ws[k]);
                    assert(ws[k].title@ != ws[ws.len() - 1].title@);
                } else {
                    assert(w[i] == wp[i] && w[j] == wp[j]);
                }
            }
        }
    }
}

proof fn lemma_flags_apart(ws: Seq<WindowInfo>, mt: Option<Seq<char>>)
    requires
        titles_distinct(ws),
    ensures
        forall|i: int, j: int|
            0 <= i < with_flag(ws, mt, true).len() && 0 <= j < with_flag(ws, mt, false).len() ==> (#[trigger] with_flag(ws, mt, true)[i]).0
                != (#[trigger] with_flag(ws, mt, false)[j]).0,
{
    lemma_with_flag(ws, mt, true);
    lemma_with_flag(ws, mt, false);
    let a = with_flag(ws, mt, true);
    let b = with_flag(ws, mt, false);
    assert forall|i: int, j: int| 0 <= i < a.len() && 0 <= j < b.len() implies (#[trigger] a[i]).0 != (#[trigger] b[j]).0 by {
        let k = choose|k: int| 0 <= k < ws.len() && a[i] == source_of(ws[k], mt) && source_of(ws[k], mt).2 == true;
        let l = choose|l: int| 0 <= l < ws.len() && b[j] == source_of(ws[l], mt) && source_of(ws[l], mt).2 == false;
        assert(k != l);
        if k < l {
            assert(ws[k].title@ != ws[l].title@);
        } else {
            assert(ws[l].title@ != ws[k].title@);
        }
    }
}

/// The windows offered are at most 40, each title once, and the meeting's
/// window comes before every other.
pub proof fn lemma_window_sources(ws: Seq<WindowInfo>, meeting_title: Option<Seq<char>>)
    ensures
        window_sources_of(ws, meeting_title).len() <= MAX_WINDOWS,
        forall|i: int, j: int|
            0 <= i < j < window_sources_of(ws, meeting_title).len() ==> (#[trigger] window_sources_of(ws, meeting_title)[i]).0
                != (#[trigger] window_sources_of(ws, meeting_title)[j]).0,
        forall|i: int, j: int|
            0 <= i < j < window_sources_of(ws, meeting_title).len() && (#[trigger] window_sources_of(ws, meeting_title)[j]).2
                ==> (#[trigger] window_sources_of(ws, meeting_title)[i]).2,
{
    let d = distinct_windows(ws);
    let kept = d.take(if d.len() < 40 { d.len() as int } else { 40 });
    lemma_distinct_windows(ws);
    assert(titles_distinct(kept)) by {
        assert forall|i: int, j: int| 0 <= i < j < kept.len() implies (#[trigger] kept[i]).title@ != (#[trigger] kept[j]).title@ by {
            assert(kept[i] == d[i] && kept[j] == d[j]);
        }
    }
    let a = with_flag(kept, meeting_title, true);
    let b = with_flag(kept, meeting_title, false);
    lemma_with_flag(kept, meeting_title, true);
    lemma_with_flag(kept, meeting_title, false);
    lemma_with_flag_distinct(kept, meeting_title, true);
    lemma_with_flag_distinct(kept, meeting_title, false);
    lemma_flags_apart(kept, meeting_title);
    lemma_flag_count(kept, meeting_title);
    let r = a + b;
    assert(r == window_sources_of(ws, meeting_title));
    assert forall|i: int, j: int| 0 <= i < j < r.len() implies (#[trigger] r[i]).0 != (#[trigger] r[j]).0 by {
        if j < a.len() {
            assert(r[i] == a[i] && r[j] == a[j]);
        } else if i < a.len() {
            assert(r[i] == a[i] && r[j] == b[j - a.len()]);
        } else {
            assert(r[i] == b[i - a.len()] && r[j] == b[j - a.len()]);
        }
    }
    assert forall|i: int, j: int| 0 <= i < j < r.len() && (#[trigger] r[j]).2 implies (#[trigger] r[i]).2 by {
        if j < a.len() {
            assert(r[i] == a[i]);
            let k = choose|k: int| 0 <= k < kept.len() && a[i] == source_of(kept[k], meeting_title) && source_of(kept[k], meeting_title).2 == true;
        } else {
            assert(r[j] == b[j - a.len()]);
            let k = choose|k: int| 0 <= k < kept.len() && b[j - a.len()] == source_of(kept[k], meeting_title) && source_of(kept[k], meeting_title).2 == false;
        }
    }
}

proof fn lemma_flag_count(ws: Seq<WindowInfo>, mt: Option<Seq<char>>)
    ensures
        with_flag(ws, mt, true).len() + with_flag(ws, mt, false).len() == ws.len(),
    decreases ws.len(),
{
    if ws.len() > 0 {
        lemma_flag_count(ws.drop_last(), mt);
    }
}

fn eligible_exec(w: &WindowInfo) -> (r: bool)
    ensures
        r == eligible(*w),
{
    let t = trim_str(w.title.as_str());
    t.len() > 0 && !str_eq(w.process.as_str(), "hark.exe") && !str_eq(w.process.as_str(), "hark")
}

fn source_exec(w: &WindowInfo, meeting: &Option<Vec<char>>) -> (r: WindowSource)
    ensures
        source_view(r) == source_of(*w, match meeting {
            Some(m) => Some(m@),
            None => None,
        }),
{
    let t = to_chars(w.title.as_str());
    let n = if t.len() < 70 { t.len() } else { 70 };
    let label = slice_chars(&t, 0, n);
    let is_meeting = match meeting {
        Some(m) => chars_eq(m, &t),
        None => false,
    };
    WindowSource {
        title: w.title.clone(),
        label: from_chars(&label),
        is_meeting,
        pid: if w.pid != 0 { Some(w.pid) } else { None },
    }
}

/// An optional string by its characters.
pub open spec fn opt_view(o: Option<String>) -> Option<Seq<char>> {
    match o {
        Some(m) => Some(m@),
        None => None,
    }
}

/// The sources by what they say.
pub open spec fn source_views(v: Seq<WindowSource>) -> Seq<(Seq<char>, Seq<char>, bool, Option<u32>)> {
    v.map_values(|s: WindowSource| source_view(s))
}

/// Windows to offer as video sources: up to 40 distinct titled windows that
/// are not Hark's, the detected meeting's window (titled `meeting_title`) first.
pub fn window_sources(windows: &Vec<WindowInfo>, meeting_title: Option<String>) -> (r: Vec<WindowSource>)
    ensures
        source_views(r@) == window_sources_of(windows@, opt_view(meeting_title)),
{
    let ghost mt = opt_view(meeting_title);
    let meeting: Option<Vec<char>> = match &meeting_title {
        Some(m) => Some(to_chars(m.as_str())),
        None => None,
    };
    // Distinct eligible windows.
    let mut kept: Vec<usize> = Vec::new();
    let mut titles: Vec<Vec<char>> = Vec::new();
    let ghost mut d: Seq<WindowInfo> = Seq::empty();
    let mut i: usize = 0;
    while i < windows.len()
        invariant
            i <= windows.len(),
            d == distinct_windows(windows@.take(i as int)),
            kept@.len() == d.len(),
            titles@.len() == d.len(),
            forall|k: int| 0 <= k < d.len() ==> 0 <= #[trigger] kept@[k] < windows@.len() && windows@[kept@[k] as int] == d[k],
            forall|k: int| 0 <= k < d.len() ==> (#[trigger] titles@[k])@ == d[k].title@,
        decreases windows.len() - i,
    {
        let w = &windows[i];
        assert(windows@.take(i + 1).drop_last() == windows@.take(i as int));
        assert(windows@.take(i + 1).last() == windows@[i as int]);
        if eligible_exec(w) {
            let t = to_chars(w.title.as_str());
            let mut seen = false;
            let mut k: usize = 0;
            while k < titles.len()
                invariant
                    k <= titles.len(),
                    titles@.len() == d.len(),
                    forall|j: int| 0 <= j < d.len() ==> (#[trigger] titles@[j])@ == d[j].title@,
                    t@ == w.title@,
                    seen == (exists|j: int| 0 <= j < k && (#[trigger] d[j]).title@ == w.title@),
                decreases titles.len() - k,
            {
                if chars_eq(&titles[k], &t) {
                    assert(d[k as int].title@ == w.title@);
                    seen = true;
                }
                k += 1;
            }
            if !seen {
                kept.push(i);
                titles.push(t);
                proof {
                    d = d.push(windows@[i as int]);
                }
            }
        }
        i += 1;
    }
    assert(windows@.take(windows.len() as int) == windows@);
    let n = if kept.len() < MAX_WINDOWS { kept.len() } else { MAX_WINDOWS };
    let ghost top = d.take(n as int);
    // Meeting windows first, then the rest, each in order.
    let mut out: Vec<WindowSource> = Vec::new();
    let mut pass: usize = 0;
    while pass < 2
        invariant
            pass <= 2,
            n <= kept@.len(),
            kept@.len() == d.len(),
            top == d.take(n as int),
            forall|k: int| 0 <= k < d.len() ==> 0 <= #[trigger] kept@[k] < windows@.len() && windows@[kept@[k] as int] == d[k],
            pass == 0 ==> source_views(out@) == Seq::<(Seq<char>, Seq<char>, bool, Option<u32>)>::empty(),
            pass == 1 ==> source_views(out@) == with_flag(top, mt, true),
            pass == 2 ==> source_views(out@) == with_flag(top, mt, true) + with_flag(top, mt, false),
            (match meeting {
                Some(m) => Some(m@),
                None => None::<Seq<char>>,
            }) == mt,
        decreases 2 - pass,
    {
        let flag = pass == 0;
        let ghost start = source_views(out@);
        let mut j: usize = 0;
        while j < n
            invariant
                j <= n,
                n <= kept@.len(),
                kept@.len() == d.len(),
                top == d.take(n as int),
                forall|k: int| 0 <= k < d.len() ==> 0 <= #[trigger] kept@[k] < windows@.len() && windows@[kept@[k] as int] == d[k],
                source_views(out@) == start + with_flag(top.take(j as int), mt, flag),
                (match meeting {
                    Some(m) => Some(m@),
                    None => None::<Seq<char>>,
                }) == mt,
            decreases n - j,
        {
            let w = &windows[kept[j]];
            let s = source_exec(w, &meeting);
            proof {
                assert(top.take(j + 1).drop_last() == top.take(j as int));
                assert(top.take(j + 1).last() == d[j as int]);
            }
            if s.is_meeting == flag {
                let ghost before = source_views(out@);
                out.push(s);
                assert(source_views(out@) =~= before.push(source_view(s)));
            }
            j += 1;
        }
        assert(top.take(n as int) == top);
        if pass == 0 {
            assert(start + with_flag(top, mt, true) =~= with_flag(top, mt, true));
        }
        pass += 1;
    }
    out
}

} // verus!
