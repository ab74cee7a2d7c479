//! Transcript segments and full-text search over them.

use vstd::prelude::*;
use crate::text::{extend_chars, from_chars, join, join_chars, split_words, to_chars, trim, trim_str, views, words};

verus! {

/// One transcribed line of a meeting.
pub struct Segment {
    pub id: i64,
    pub meeting_id: String,
    pub start_ms: i64,
    pub end_ms: i64,
    pub speaker: Option<String>,
    pub text: String,
    pub clean_text: Option<String>,
}

/// A line to store for a meeting (the store assigns the id).
pub struct NewSegment {
    pub start_ms: i64,
    pub end_ms: i64,
    pub speaker: Option<String>,
    pub text: String,
}

/// One search result; title matches have segment id 0 and the title as snippet.
pub struct SearchHit {
    pub meeting_id: String,
    pub meeting_title: String,
    pub segment_id: i64,
    pub start_ms: i64,
    pub snippet: String,
}

// ---------------------------------------------------------------- FTS5 query

/// A word without its double quotes.
pub open spec fn strip_quotes(w: Seq<char>) -> Seq<char>
    decreases w.len(),
{
    if w.len() == 0 {
        w
    } else {
        let p = strip_quotes(w.drop_last());
        if w.last() == '"' {
            p
        } else {
            p.push(w.last())
        }
    }
}

/// The FTS5 terms for some words: each word without quotes, dropped when
/// nothing is left, then quoted and marked as a prefix (`"word"*`).
pub open spec fn fts_terms(ws: Seq<Seq<char>>) -> Seq<Seq<char>>
    decreases ws.len(),
{
    if ws.len() == 0 {
        Seq::empty()
    } else {
        let prev = fts_terms(ws.drop_last());
        let w = strip_quotes(ws.last());
        if w.len() == 0 {
            prev
        } else {
            prev.push(seq!['"'] + w + seq!['"', '*'])
        }
    }
}

proof fn lemma_strip_quotes(w: Seq<char>)
    ensures
        !strip_quotes(w).contains('"'),
    decreases w.len(),
{
    if w.len() > 0 {
        lemma_strip_quotes(w.drop_last());
        let p = strip_quotes(w.drop_last());
        if w.last() != '"' {
            assert forall|i: int| 0 <= i < p.push(w.last()).len() implies p.push(w.last())[i] != '"' by {
                if i < p.len() {
                    assert(p.push(w.last())[i] == p[i]);
                }
            }
        }
    }
}

/// Every term of a query is a quoted, non-empty word with no quote inside,
/// marked as a prefix: user text cannot break out of its quotes.
pub proof fn lemma_terms_quoted(ws: Seq<Seq<char>>)
    ensures
        forall|k: int|
            0 <= k < fts_terms(ws).len() ==> exists|w: Seq<char>|
                w.len() > 0 && !w.contains('"') && #[trigger] fts_terms(ws)[k] == seq!['"'] + w + seq!['"', '*'],
    decreases ws.len(),
{
    if ws.len() > 0 {
        lemma_terms_quoted(ws.drop_last());
        lemma_strip_quotes(ws.last());
        let prev = fts_terms(ws.drop_last());
        let t = fts_terms(ws);
        assert forall|k: int| 0 <= k < t.len() implies exists|w: Seq<char>|
            w.len() > 0 && !w.contains('"') && #[trigger] t[k] == seq!['"'] + w + seq!['"', '*'] by {
            if k < prev.len() {
                assert(t[k] == prev[k]);
            } else {
                let w = strip_quotes(ws.last());
                assert(t[k] == seq!['"'] + w + seq!['"', '*']);
            }
        }
    }
}

/// Free text as a safe FTS5 query: the terms of its words, AND-ed (space separated).
pub open spec fn fts_query_of(input: Seq<char>) -> Seq<char> {
    join(fts_terms(words(input)), seq![' '])
}

fn strip_quotes_exec(w: &Vec<char>) -> (r: Vec<char>)
    ensures
        r@ == strip_quotes(w@),
{
    let mut r: Vec<char> = Vec::new();
    let mut i: usize = 0;
    while i < w.len()
        invariant
            i <= w.len(),
            r@ == strip_quotes(w@.take(i as int)),
        decreases w.len() - i,
    {
        assert(w@.take(i + 1).drop_last() == w@.take(i as int));
        if w[i] != '"' {
            r.push(w[i]);
        }
        i += 1;
    }
    assert(w@.take(w.len() as int) == w@);
    r
}

/// The FTS5 terms of free text.
fn terms_of(input: &str) -> (r: Vec<Vec<char>>)
    ensures
        views(r@) == fts_terms(words(input@)),
{
    let chars = to_chars(input);
    let ws = split_words(&chars);
    let mut terms: Vec<Vec<char>> = Vec::new();
    let mut i: usize = 0;
    while i < ws.len()
        invariant
            i <= ws.len(),
            views(terms@) == fts_terms(views(ws@).take(i as int)),
        decreases ws.len() - i,
    {
        let w = strip_quotes_exec(&ws[i]);
        proof {
            let t = views(ws@).take(i + 1);
            assert(t.drop_last() == views(ws@).take(i as int));
            assert(t.last() == ws@[i as int]@);
        }
        if w.len() > 0 {
            let mut term: Vec<char> = Vec::new();
            term.push('"');
            extend_chars(&mut term, &w);
            term.push('"');
            term.push('*');
            let ghost tv = views(terms@);
            assert(term@ == seq!['"'] + w@ + seq!['"', '*']);
            terms.push(term);
            assert(views(terms@) =~= tv.push(seq!['"'] + w@ + seq!['"', '*']));
        }
        i += 1;
    }
    assert(views(ws@).take(ws.len() as int) == views(ws@));
    terms
}

/// Turn free text into a safe FTS5 query: each word quoted, prefix-matched, AND-ed.
pub fn fts_query(input: &str) -> (q: String)
    ensures
        q@ == fts_query_of(input@),
{
    let terms = terms_of(input);
    let mut sep: Vec<char> = Vec::new();
    sep.push(' ');
    let q = join_chars(&terms, &sep);
    assert(sep@ == seq![' ']);
    from_chars(&q)
}

/// Free text as an FTS5 query that matches any of its words: the same
/// terms, OR-ed.
pub open spec fn fts_query_any_of(input: Seq<char>) -> Seq<char> {
    join(fts_terms(words(input)), " OR "@)
}

/// The query for retrieval: each word quoted and prefix-matched, any of them.
pub fn fts_query_any(input: &str) -> (q: String)
    ensures
        q@ == fts_query_any_of(input@),
{
    let terms = terms_of(input);
    let sep = to_chars(" OR ");
    let q = join_chars(&terms, &sep);
    from_chars(&q)
}

/// The `LIKE` pattern for title search: `%<trimmed query>%`.
pub open spec fn like_pattern_of(query: Seq<char>) -> Seq<char> {
    seq!['%'] + trim(query) + seq!['%']
}

/// `format!("%{}%", query.trim())`.
pub fn title_like_pattern(query: &str) -> (p: String)
    ensures
        p@ == like_pattern_of(query@),
{
    let t = trim_str(query);
    let mut v: Vec<char> = Vec::new();
    v.push('%');
    extend_chars(&mut v, &t);
    v.push('%');
    from_chars(&v)
}

// ---------------------------------------------------------------- merging hits

/// What a search hit says: meeting id, title, segment id, start and snippet.
pub open spec fn hit_view(h: SearchHit) -> (Seq<char>, Seq<char>, i64, i64, Seq<char>) {
    (h.meeting_id@, h.meeting_title@, h.segment_id, h.start_ms, h.snippet@)
}

pub open spec fn hit_views(hs: Seq<SearchHit>) -> Seq<(Seq<char>, Seq<char>, i64, i64, Seq<char>)> {
    hs.map_values(|h: SearchHit| hit_view(h))
}

/// Some hit is for meeting `id`.
pub open spec fn has_meeting(hs: Seq<(Seq<char>, Seq<char>, i64, i64, Seq<char>)>, id: Seq<char>) -> bool {
    exists|i: int| 0 <= i < hs.len() && (#[trigger] hs[i]).0 == id
}

/// Segment hits followed by a title hit for each title match whose meeting
/// has no hit yet, in the order the title matches came.
pub open spec fn with_title_hits(
    hs: Seq<(Seq<char>, Seq<char>, i64, i64, Seq<char>)>,
    titles: Seq<(Seq<char>, Seq<char>)>,
) -> Seq<(Seq<char>, Seq<char>, i64, i64, Seq<char>)>
    decreases titles.len(),
{
    if titles.len() == 0 {
        hs
    } else {
        let prev = with_title_hits(hs, titles.drop_last());
        let (id, title) = titles.last();
        if has_meeting(prev, id) {
            prev
        } else {
            prev.push((id, title, 0i64, 0i64, title))
        }
    }
}

/// Merging keeps the segment hits first and in order, and each added title
/// hit is for a meeting no earlier hit is for.
pub proof fn lemma_title_hits_after(
    hs: Seq<(Seq<char>, Seq<char>, i64, i64, Seq<char>)>,
    titles: Seq<(Seq<char>, Seq<char>)>,
)
    ensures
        with_title_hits(hs, titles).len() >= hs.len(),
        with_title_hits(hs, titles).subrange(0, hs.len() as int) == hs,
        forall|i: int, k: int|
            hs.len() <= i < with_title_hits(hs, titles).len() && 0 <= k < i ==> (#[trigger] with_title_hits(
                hs,
                titles,
            )[k]).0 != (#[trigger] with_title_hits(hs, titles)[i]).0,
    decreases titles.len(),
{
    if titles.len() > 0 {
        lemma_title_hits_after(hs, titles.drop_last());
        let prev = with_title_hits(hs, titles.drop_last());
        let w = with_title_hits(hs, titles);
        if w != prev {
            let (id, title) = titles.last();
            assert(w == prev.push((id, title, 0i64, 0i64, title)));
            assert(w.subrange(0, hs.len() as int) =~= prev.subrange(0, hs.len() as int));
            assert forall|i: int, k: int| hs.len() <= i < w.len() && 0 <= k < i implies (#[trigger] w[k]).0 != (#[trigger] w[i]).0 by {
                if i == w.len() - 1 {
                    assert(w[k] == prev[k]);
                    assert(!has_meeting(prev, id));
                    if prev[k].0 == id {
                        assert(0 <= k < prev.len() && prev[k].0 == id);
                    }
                } else {
                    assert(w[k] == prev[k] && w[i] == prev[i]);
                }
            }
        }
    }
}

pub open spec fn pair_views(ts: Seq<(String, String)>) -> Seq<(Seq<char>, Seq<char>)> {
    ts.map_values(|t: (String, String)| (t.0@, t.1@))
}

fn has_meeting_exec(hits: &Vec<SearchHit>, id: &String) -> (r: bool)
    ensures
        r == has_meeting(hit_views(hits@), id@),
{
    let idc = to_chars(id.as_str());
    let mut i: usize = 0;
    while i < hits.len()
        invariant
            i <= hits.len(),
            idc@ == id@,
            forall|k: int| 0 <= k < i ==> (#[trigger] hit_views(hits@)[k]).0 != id@,
        decreases hits.len() - i,
    {
        let hc = to_chars(hits[i].meeting_id.as_str());
        if crate::text::chars_eq(&hc, &idc) {
            assert(hit_views(hits@)[i as int].0 == id@);
            return true;
        }
        i += 1;
    }
    false
}

/// Merge the title matches of a search into its segment hits and keep at most `limit`.
pub fn merge_title_hits(hits: Vec<SearchHit>, titles: Vec<(String, String)>, limit: usize) -> (r: Vec<SearchHit>)
    ensures
        hit_views(r@) == with_title_hits(hit_views(hits@), pair_views(titles@)).take(
            if limit < with_title_hits(hit_views(hits@), pair_views(titles@)).len() {
                limit as int
            } else {
                with_title_hits(hit_views(hits@), pair_views(titles@)).len() as int
            },
        ),
{
    let ghost h0 = hit_views(hits@);
    let mut out = hits;
    let mut i: usize = 0;
    while i < titles.len()
        invariant
            i <= titles.len(),
            hit_views(out@) == with_title_hits(h0, pair_views(titles@).take(i as int)),
        decreases titles.len() - i,
    {
        let id = titles[i].0.clone();
        let title = titles[i].1.clone();
        proof {
            let t = pair_views(titles@).take(i + 1);
            assert(t.drop_last() == pair_views(titles@).take(i as int));
            assert(t.last() == (titles@[i as int].0@, titles@[i as int].1@));
        }
        if !has_meeting_exec(&out, &id) {
            let ghost before = hit_views(out@);
            let snippet = title.clone();
            let h = SearchHit { meeting_id: id, meeting_title: title, segment_id: 0, start_ms: 0, snippet };
            out.push(h);
            assert(hit_views(out@) =~= before.push(hit_view(h)));
        }
        i += 1;
    }
    assert(pair_views(titles@).take(titles.len() as int) == pair_views(titles@));
    let ghost full = hit_views(out@);
    out.truncate(limit);
    assert(hit_views(out@) =~= full.take(if limit < full.len() { limit as int } else { full.len() as int }));
    out
}

} // verus!
