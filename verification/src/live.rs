//! What a meeting shows while it is still being recorded: the captions so
//! far and running notes that are refreshed from the newest lines.

use vstd::prelude::*;
use crate::notes::{caption_line, caption_lines, notes_input};
use crate::text::join;

verus! {

/// A caption from live transcription; a final one no longer changes.
pub struct Caption {
    pub start_ms: i64,
    pub end_ms: i64,
    pub text: String,
    pub is_final: bool,
}

/// The live feed of the meeting being recorded.
pub struct LiveFeed {
    pub meeting_id: String,
    pub finals: Vec<Caption>,
    /// The caption still being transcribed, if any.
    pub partial: Option<Caption>,
    pub notes: String,
    /// When the notes were last refreshed, in ms since recording began.
    pub notes_updated_ms: Option<u64>,
    /// How many final captions the notes already cover.
    pub notes_through: usize,
}

/// A caption by what it holds.
pub open spec fn caption_view(c: Caption) -> (i64, i64, Seq<char>, bool) {
    (c.start_ms, c.end_ms, c.text@, c.is_final)
}

pub open spec fn caption_views(cs: Seq<Caption>) -> Seq<(i64, i64, Seq<char>, bool)> {
    cs.map_values(|c: Caption| caption_view(c))
}

/// (start, text) of each caption, as the notes input takes them.
pub open spec fn starts_and_texts(cs: Seq<Caption>) -> Seq<(i64, String)> {
    cs.map_values(|c: Caption| (c.start_ms, c.text))
}

impl LiveFeed {
    /// The notes never cover more captions than there are.
    pub open spec fn wf(&self) -> bool {
        self.notes_through <= self.finals.len()
    }

    /// A fresh feed for a meeting that starts recording.
    pub fn begin(meeting_id: String) -> (f: LiveFeed)
        ensures
            f.wf(),
            f.meeting_id@ == meeting_id@,
            f.finals.len() == 0,
            f.partial.is_none(),
            f.notes@.len() == 0,
            f.notes_updated_ms.is_none(),
            f.notes_through == 0,
    {
        LiveFeed {
            meeting_id,
            finals: Vec::new(),
            partial: None,
            notes: String::new(),
            notes_updated_ms: None,
            notes_through: 0,
        }
    }

    /// Take a caption: a final one is appended to the finals and clears the
    /// partial one; any other replaces the partial one.
    pub fn push(&mut self, c: Caption)
        requires
            old(self).wf(),
        ensures
            final(self).wf(),
            c.is_final ==> caption_views(final(self).finals@) == caption_views(old(self).finals@).push(caption_view(c))
                && final(self).partial.is_none(),
            !c.is_final ==> final(self).finals@ == old(self).finals@ && final(self).partial == Some(c),
            final(self).notes == old(self).notes,
            final(self).notes_through == old(self).notes_through,
            final(self).notes_updated_ms == old(self).notes_updated_ms,
            final(self).meeting_id == old(self).meeting_id,
    {
        if c.is_final {
            self.partial = None;
            let ghost before = caption_views(self.finals@);
            self.finals.push(c);
            assert(caption_views(self.finals@) =~= before.push(caption_view(c)));
        } else {
            self.partial = Some(c);
        }
    }

    /// The input of the next notes pass: the final captions the notes do
    /// not cover yet, one `[m:ss] text` line each, with how many finals the
    /// pass will then cover and when the newest one ended. `None` when
    /// nothing new was said.
    pub fn pending(&self) -> (r: Option<(String, usize, i64)>)
        requires
            self.wf(),
        ensures
            self.finals.len() <= self.notes_through <==> r.is_none(),
            r matches Some((text, through, newest_end)) ==> {
                &&& text@ == join(
                    caption_lines(starts_and_texts(self.finals@.skip(self.notes_through as int))),
                    seq!['\n'],
                )
                &&& through == self.finals.len()
                &&& newest_end == self.finals@.last().end_ms
            },
    {
        if self.finals.len() <= self.notes_through {
            return None;
        }
        let mut lines: Vec<(i64, String)> = Vec::new();
        let mut i = self.notes_through;
        while i < self.finals.len()
            invariant
                self.notes_through <= i <= self.finals.len(),
                lines@ == starts_and_texts(self.finals@.subrange(self.notes_through as int, i as int)),
            decreases self.finals.len() - i,
        {
            let ghost before = lines@;
            lines.push((self.finals[i].start_ms, self.finals[i].text.clone()));
            assert(self.finals@.subrange(self.notes_through as int, i + 1) =~= self.finals@.subrange(
                self.notes_through as int,
                i as int,
            ).push(self.finals@[i as int]));
            assert(lines@ =~= starts_and_texts(self.finals@.subrange(self.notes_through as int, i + 1)));
            i += 1;
        }
        assert(self.finals@.subrange(self.notes_through as int, self.finals.len() as int) =~= self.finals@.skip(
            self.notes_through as int,
        ));
        let text = notes_input(&lines);
        let last = self.finals.len() - 1;
        Some((text, self.finals.len(), self.finals[last].end_ms))
    }

    /// Store the result of a notes pass that covered the first `through`
    /// finals, made `elapsed_ms` after recording began.
    pub fn notes_done(&mut self, notes: String, through: usize, elapsed_ms: u64)
        requires
            old(self).wf(),
            through <= old(self).finals.len(),
        ensures
            final(self).wf(),
            final(self).notes@ == notes@,
            final(self).notes_through == through,
            final(self).notes_updated_ms == Some(elapsed_ms),
            final(self).finals@ == old(self).finals@,
            final(self).partial == old(self).partial,
            final(self).meeting_id == old(self).meeting_id,
    {
        self.notes = notes;
        self.notes_through = through;
        self.notes_updated_ms = Some(elapsed_ms);
    }
}

/// A pass that covers what `pending` offered leaves nothing pending until
/// a new final caption arrives.
pub proof fn lemma_pass_catches_up(f: LiveFeed, g: LiveFeed)
    requires
        f.wf(),
        g.notes_through == f.finals.len(),
        g.finals@ == f.finals@,
    ensures
        g.wf(),
        g.finals.len() <= g.notes_through,
{
}

} // verus!
