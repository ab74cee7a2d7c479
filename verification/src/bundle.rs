//! `.hark` bundles: what an export lists and how an import merges meetings.

use vstd::prelude::*;
use crate::meetings::{strs, Meeting};
use crate::search::Segment;
use crate::text::str_eq;

verus! {

/// Format version of a bundle.
pub const BUNDLE_VERSION: u32 = 1;

/// What an import did.
#[derive(Debug, Clone, PartialEq, Default)]
pub struct ImportReport {
    pub imported: usize,
    pub skipped_existing: usize,
    pub errors: Vec<String>,
}

/// The media files a bundle may carry for a meeting, in this order.
pub open spec fn media_names() -> Seq<Seq<char>> {
    seq!["mix.wav"@, "mic.wav"@, "sys.wav"@, "screen.mp4"@]
}

/// The names in `media_names()` whose file exists (`exists` lines up with them).
pub open spec fn present_media(exists: Seq<bool>) -> Seq<Seq<char>>
    decreases exists.len(),
{
    if exists.len() == 0 || exists.len() > 4 {
        Seq::empty()
    } else {
        let prev = present_media(exists.drop_last());
        if exists.last() {
            prev.push(media_names()[exists.len() - 1])
        } else {
            prev
        }
    }
}

/// `name` when `b` holds, else nothing.
pub open spec fn if_present(b: bool, name: Seq<char>) -> Seq<Seq<char>> {
    if b {
        seq![name]
    } else {
        Seq::empty()
    }
}

/// The media of a meeting lists each of mix.wav, mic.wav, sys.wav and
/// screen.mp4 exactly when its file exists, in that order, and nothing
/// else: as many names as files exist.
pub proof fn lemma_bundle_media(e: Seq<bool>)
    requires
        e.len() == 4,
    ensures
        present_media(e) == if_present(e[0], "mix.wav"@) + if_present(e[1], "mic.wav"@) + if_present(e[2], "sys.wav"@)
            + if_present(e[3], "screen.mp4"@),
        present_media(e).len() == (if e[0] { 1int } else { 0int }) + (if e[1] { 1int } else { 0int }) + (if e[2] {
            1int
        } else {
            0int
        }) + (if e[3] { 1int } else { 0int }),
        forall|i: int| 0 <= i < 4 && #[trigger] e[i] ==> present_media(e).contains(media_names()[i]),
{
    let e1 = e.take(1);
    let e2 = e.take(2);
    let e3 = e.take(3);
    assert(e1.drop_last() =~= Seq::<bool>::empty());
    assert(e2.drop_last() =~= e1);
    assert(e3.drop_last() =~= e2);
    assert(e.drop_last() =~= e3);
    assert(present_media(Seq::<bool>::empty()) == Seq::<Seq<char>>::empty());
    let p1 = if_present(e[0], "mix.wav"@);
    assert(present_media(e1) =~= p1);
    let p2 = p1 + if_present(e[1], "mic.wav"@);
    assert(present_media(e2) =~= p2);
    let p3 = p2 + if_present(e[2], "sys.wav"@);
    assert(present_media(e3) =~= p3);
    let p4 = p3 + if_present(e[3], "screen.mp4"@);
    assert(present_media(e) =~= p4);
    assert forall|i: int| 0 <= i < 4 && #[trigger] e[i] implies present_media(e).contains(media_names()[i]) by {
        let n1: int = if e[0] { 1 } else { 0 };
        let n2: int = n1 + if e[1] { 1int } else { 0int };
        let n3: int = n2 + if e[2] { 1int } else { 0int };
        if i == 0 {
            assert(p4[0] == media_names()[0]);
        } else if i == 1 {
            assert(p4[n1] == media_names()[1]);
        } else if i == 2 {
            assert(p4[n2] == media_names()[2]);
        } else {
            assert(p4[n3] == media_names()[3]);
        }
    }
}

/// The media file names of a meeting, given which of mix/mic/sys/screen exist.
pub fn bundle_media(exists: &Vec<bool>) -> (r: Vec<String>)
    requires
        exists.len() == 4,
    ensures
        strs(r@) == present_media(exists@),
{
    let names: [&str; 4] = ["mix.wav", "mic.wav", "sys.wav", "screen.mp4"];
    let mut r: Vec<String> = Vec::new();
    let mut i: usize = 0;
    assert(exists@.take(0) =~= Seq::<bool>::empty());
    while i < 4
        invariant
            i <= 4,
            exists.len() == 4,
            names@ == seq!["mix.wav", "mic.wav", "sys.wav", "screen.mp4"],
            strs(r@) == present_media(exists@.take(i as int)),
        decreases 4 - i,
    {
        assert(exists@.take(i + 1).drop_last() == exists@.take(i as int));
        if exists[i] {
            let ghost before = strs(r@);
            r.push(names[i].to_owned());
            assert(strs(r@) =~= before.push(media_names()[i as int]));
        }
        i += 1;
    }
    assert(exists@.take(4) == exists@);
    r
}

/// Without video, an export leaves out `screen.mp4`.
pub open spec fn export_media_of(media: Seq<Seq<char>>, include_video: bool) -> Seq<Seq<char>>
    decreases media.len(),
{
    if media.len() == 0 {
        media
    } else {
        let prev = export_media_of(media.drop_last(), include_video);
        if !include_video && media.last() == "screen.mp4"@ {
            prev
        } else {
            prev.push(media.last())
        }
    }
}

/// An export with video writes every media file; one without writes every
/// file but `screen.mp4`, and never that one.
pub proof fn lemma_export_media(media: Seq<Seq<char>>)
    ensures
        export_media_of(media, true) == media,
        forall|x: Seq<char>|
            #[trigger] export_media_of(media, false).contains(x) <==> (media.contains(x) && x != "screen.mp4"@),
    decreases media.len(),
{
    if media.len() > 0 {
        let prev = media.drop_last();
        lemma_export_media(prev);
        assert(prev.push(media.last()) =~= media);
        let e = export_media_of(media, false);
        let ep = export_media_of(prev, false);
        assert forall|x: Seq<char>| #[trigger] e.contains(x) <==> (media.contains(x) && x != "screen.mp4"@) by {
            if media.contains(x) {
                let i = choose|i: int| 0 <= i < media.len() && media[i] == x;
                if i < media.len() - 1 {
                    assert(prev[i] == x);
                }
            }
            if prev.contains(x) {
                let i = choose|i: int| 0 <= i < prev.len() && prev[i] == x;
                assert(media[i] == x);
            }
            if ep.contains(x) {
                let i = choose|i: int| 0 <= i < ep.len() && ep[i] == x;
                if e != ep {
                    assert(e[i] == x);
                }
            }
            if e.contains(x) && e != ep {
                let i = choose|i: int| 0 <= i < e.len() && e[i] == x;
                if i < ep.len() {
                    assert(ep[i] == x);
                }
            }
            if media.last() == x && x != "screen.mp4"@ {
                assert(e[e.len() - 1] == x);
            }
        }
    }
}

/// The media an export writes for a meeting.
pub fn export_media(media: Vec<String>, include_video: bool) -> (r: Vec<String>)
    ensures
        strs(r@) == export_media_of(strs(media@), include_video),
{
    let mut r: Vec<String> = Vec::new();
    let mut i: usize = 0;
    while i < media.len()
        invariant
            i <= media.len(),
            strs(r@) == export_media_of(strs(media@).take(i as int), include_video),
        decreases media.len() - i,
    {
        proof {
            let t = strs(media@).take(i + 1);
            assert(t.drop_last() == strs(media@).take(i as int));
            assert(t.last() == media@[i as int]@);
        }
        if include_video || !str_eq(media[i].as_str(), "screen.mp4") {
            let ghost before = strs(r@);
            r.push(media[i].clone());
            assert(strs(r@) =~= before.push(media@[i as int]@));
        }
        i += 1;
    }
    assert(strs(media@).take(media.len() as int) == strs(media@));
    r
}

/// A meeting as imported: folders are local, so it lands unfiled, and it
/// has video exactly when the bundle carries `screen.mp4` for it.
pub fn imported_meeting(m: Meeting, media: &Vec<String>) -> (r: Meeting)
    ensures
        r == (Meeting { folder_id: None, has_video: strs(media@).contains("screen.mp4"@), ..m }),
{
    let mut m = m;
    m.folder_id = None;
    let mut found = false;
    let mut i: usize = 0;
    while i < media.len()
        invariant
            i <= media.len(),
            found == strs(media@).take(i as int).contains("screen.mp4"@),
        decreases media.len() - i,
    {
        assert(strs(media@).take(i + 1) == strs(media@).take(i as int).push(media@[i as int]@));
        if str_eq(media[i].as_str(), "screen.mp4") {
            assert(strs(media@).take(i + 1)[i as int] == "screen.mp4"@);
            found = true;
        }
        i += 1;
    }
    assert(strs(media@).take(media.len() as int) == strs(media@));
    m.has_video = found;
    m
}

/// Cleaned texts to restore after an import: the stored segments pair up
/// with the bundle's segments in order, and each bundle segment with a
/// cleaned text gives it to its stored counterpart.
pub open spec fn clean_updates_of(stored: Seq<Segment>, original: Seq<Segment>) -> Seq<(i64, Seq<char>)>
    decreases stored.len(),
{
    let n = if stored.len() < original.len() { stored.len() } else { original.len() };
    if n == 0 {
        Seq::empty()
    } else {
        let prev = clean_updates_of(stored.take(n - 1), original.take(n - 1));
        match original[n - 1].clean_text {
            Some(c) => prev.push((stored[n - 1].id, c@)),
            None => prev,
        }
    }
}

/// `u` gives the cleaned text of a bundle segment to the stored segment in
/// the same place.
pub open spec fn update_from(stored: Seq<Segment>, original: Seq<Segment>, u: (i64, Seq<char>)) -> bool {
    exists|k: int|
        0 <= k < stored.len() && k < original.len() && (#[trigger] original[k]).clean_text is Some && u == (
            stored[k].id,
            original[k].clean_text->Some_0@,
        )
}

/// Each update gives the cleaned text of a bundle segment to the stored
/// segment in the same place, and every bundle segment with a cleaned text
/// (that has a stored counterpart) gives one.
pub proof fn lemma_clean_updates(stored: Seq<Segment>, original: Seq<Segment>)
    ensures
        forall|i: int|
            0 <= i < clean_updates_of(stored, original).len() ==> update_from(
                stored,
                original,
                #[trigger] clean_updates_of(stored, original)[i],
            ),
        forall|k: int|
            0 <= k < stored.len() && k < original.len() && (#[trigger] original[k]).clean_text is Some
                ==> clean_updates_of(stored, original).contains((stored[k].id, original[k].clean_text->Some_0@)),
    decreases stored.len(),
{
    let n = if stored.len() < original.len() { stored.len() } else { original.len() };
    if n > 0 {
        let s0 = stored.take(n - 1);
        let o0 = original.take(n - 1);
        lemma_clean_updates(s0, o0);
        let r0 = clean_updates_of(s0, o0);
        let r = clean_updates_of(stored, original);
        assert forall|i: int| 0 <= i < r.len() implies update_from(stored, original, #[trigger] r[i]) by {
            if i < r0.len() {
                assert(r[i] == r0[i]);
                assert(update_from(s0, o0, r0[i]));
                let k = choose|k: int|
                    0 <= k < s0.len() && k < o0.len() && (#[trigger] o0[k]).clean_text is Some && r0[i] == (
                        s0[k].id,
                        o0[k].clean_text->Some_0@,
                    );
                assert(o0[k] == original[k] && s0[k] == stored[k]);
            } else {
                assert(original[n - 1].clean_text is Some);
                assert(r[i] == (stored[n - 1].id, original[n - 1].clean_text->Some_0@));
            }
        }
        assert forall|k: int|
            0 <= k < stored.len() && k < original.len() && (#[trigger] original[k]).clean_text is Some implies r.contains(
            (stored[k].id, original[k].clean_text->Some_0@),
        ) by {
            if k < n - 1 {
                assert(o0[k] == original[k] && s0[k] == stored[k]);
                assert(r0.contains((s0[k].id, o0[k].clean_text->Some_0@)));
                let t = choose|t: int| 0 <= t < r0.len() && r0[t] == (s0[k].id, o0[k].clean_text->Some_0@);
                assert(r[t] == r0[t]);
            } else {
                assert(r[r.len() - 1] == (stored[k].id, original[k].clean_text->Some_0@));
            }
        }
    } else {
        assert(clean_updates_of(stored, original) == Seq::<(i64, Seq<char>)>::empty());
    }
}

pub open spec fn update_views(v: Seq<(i64, String)>) -> Seq<(i64, Seq<char>)> {
    v.map_values(|u: (i64, String)| (u.0, u.1@))
}

/// Pair stored segments with the bundle's segments to restore cleaned text.
pub fn clean_text_updates(stored: &Vec<Segment>, original: &Vec<Segment>) -> (r: Vec<(i64, String)>)
    ensures
        update_views(r@) == clean_updates_of(stored@, original@),
{
    let n = if stored.len() < original.len() { stored.len() } else { original.len() };
    let mut r: Vec<(i64, String)> = Vec::new();
    let mut i: usize = 0;
    while i < n
        invariant
            i <= n,
            n == (if stored.len() < original.len() { stored.len() } else { original.len() }),
            update_views(r@) == clean_updates_of(stored@.take(i as int), original@.take(i as int)),
        decreases n - i,
    {
        proof {
            let s1 = stored@.take(i + 1);
            let o1 = original@.take(i + 1);
            assert(s1.take(i as int) == stored@.take(i as int));
            assert(o1.take(i as int) == original@.take(i as int));
            assert(s1[i as int] == stored@[i as int]);
            assert(o1[i as int] == original@[i as int]);
        }
        match &original[i].clean_text {
            Some(c) => {
                let ghost before = update_views(r@);
                r.push((stored[i].id, c.clone()));
                assert(update_views(r@) =~= before.push((stored@[i as int].id, c@)));
            },
            None => {},
        }
        i += 1;
    }
    proof {
        assert(stored@.take(n as int).len() == n);
        if stored.len() < original.len() {
            assert(stored@.take(n as int) == stored@);
            assert(clean_updates_of(stored@, original@) == clean_updates_of(stored@, original@.take(n as int))) by {
                lemma_clean_updates_trim(stored@, original@);
            }
        } else {
            assert(original@.take(n as int) == original@);
            assert(clean_updates_of(stored@, original@) == clean_updates_of(stored@.take(n as int), original@)) by {
                lemma_clean_updates_trim(stored@, original@);
            }
        }
    }
    r
}

proof fn lemma_clean_updates_trim(stored: Seq<Segment>, original: Seq<Segment>)
    ensures
        ({
            let n = if stored.len() < original.len() { stored.len() } else { original.len() };
            clean_updates_of(stored, original) == clean_updates_of(stored.take(n as int), original.take(n as int))
        }),
{
    let n = if stored.len() < original.len() { stored.len() } else { original.len() };
    let s = stored.take(n as int);
    let o = original.take(n as int);
    if n > 0 {
        assert(s.take(n - 1) == stored.take(n - 1));
        assert(o.take(n - 1) == original.take(n - 1));
        assert(s[n - 1] == stored[n - 1]);
        assert(o[n - 1] == original[n - 1]);
    }
}

/// Count one meeting of an import: imported, or its error noted under its title.
pub fn record_import(report: &mut ImportReport, title: &str, outcome: Result<(), String>)
    requires
        old(report).imported < usize::MAX,
    ensures
        outcome.is_ok() ==> final(report).imported == old(report).imported + 1
            && final(report).errors@ == old(report).errors@,
        outcome.is_err() ==> final(report).imported == old(report).imported && strs(
            final(report).errors@,
        ) == strs(old(report).errors@).push(title@ + ": "@ + outcome->Err_0@),
        final(report).skipped_existing == old(report).skipped_existing,
{
    match outcome {
        Ok(()) => {
            report.imported = report.imported + 1;
        },
        Err(e) => {
            let mut v = crate::text::to_chars(title);
            crate::text::extend_str(&mut v, ": ");
            crate::text::extend_str(&mut v, e.as_str());
            let ghost before = strs(report.errors@);
            report.errors.push(crate::text::from_chars(&v));
            assert(strs(report.errors@) =~= before.push(title@ + ": "@ + e@));
        },
    }
}

} // verus!

verus! {

/// What became of one meeting of a bundle.
pub enum ImportOutcome {
    /// A meeting with its id already exists.
    Skipped,
    Imported,
    /// Importing it failed with this error.
    Failed(String),
}

/// Counts of imported and skipped meetings, and an error line
/// (`<title>: <error>`) for each failure, over (title, outcome) pairs.
pub open spec fn tally_of(outcomes: Seq<(String, ImportOutcome)>) -> (nat, nat, Seq<Seq<char>>)
    decreases outcomes.len(),
{
    if outcomes.len() == 0 {
        (0, 0, Seq::empty())
    } else {
        let (i, s, e) = tally_of(outcomes.drop_last());
        match outcomes.last().1 {
            ImportOutcome::Skipped => (i, s + 1, e),
            ImportOutcome::Imported => (i + 1, s, e),
            ImportOutcome::Failed(err) => (i, s, e.push(outcomes.last().0@ + ": "@ + err@)),
        }
    }
}

/// Every meeting of a bundle is counted once: imported, skipped or failed.
pub proof fn lemma_tally_counts_all(outcomes: Seq<(String, ImportOutcome)>)
    ensures
        tally_of(outcomes).0 + tally_of(outcomes).1 + tally_of(outcomes).2.len() == outcomes.len(),
    decreases outcomes.len(),
{
    if outcomes.len() > 0 {
        lemma_tally_counts_all(outcomes.drop_last());
    }
}

/// The report of an import, from what became of each meeting in order.
pub fn tally(outcomes: Vec<(String, ImportOutcome)>) -> (r: ImportReport)
    ensures
        (r.imported as nat, r.skipped_existing as nat, strs(r.errors@)) == tally_of(outcomes@),
{
    let mut r = ImportReport { imported: 0, skipped_existing: 0, errors: Vec::new() };
    let mut i: usize = 0;
    while i < outcomes.len()
        invariant
            i <= outcomes.len(),
            (r.imported as nat, r.skipped_existing as nat, strs(r.errors@)) == tally_of(outcomes@.take(i as int)),
        decreases outcomes.len() - i,
    {
        proof {
            assert(outcomes@.take(i + 1).drop_last() =~= outcomes@.take(i as int));
            assert(outcomes@.take(i + 1).last() == outcomes@[i as int]);
            lemma_tally_counts_all(outcomes@.take(i as int));
        }
        match &outcomes[i].1 {
            ImportOutcome::Skipped => {
                r.skipped_existing = r.skipped_existing + 1;
            },
            ImportOutcome::Imported => {
                r.imported = r.imported + 1;
            },
            ImportOutcome::Failed(e) => {
                let mut v = crate::text::to_chars(outcomes[i].0.as_str());
                crate::text::extend_str(&mut v, ": ");
                crate::text::extend_str(&mut v, e.as_str());
                let ghost before = strs(r.errors@);
                r.errors.push(crate::text::from_chars(&v));
                assert(strs(r.errors@) =~= before.push(outcomes@[i as int].0@ + ": "@ + e@));
            },
        }
        i += 1;
    }
    assert(outcomes@.take(outcomes.len() as int) =~= outcomes@);
    r
}

} // verus!
