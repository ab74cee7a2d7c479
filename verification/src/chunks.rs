//! Retrieval chunks: a meeting's transcript cut into ~45 s windows.

use vstd::prelude::*;
use crate::search::Segment;
use crate::text::{extend_chars, extend_str, from_chars, to_chars};

verus! {

/// Window length for retrieval chunks.
pub const CHUNK_MS: i64 = 45_000;

/// What a segment contributes to a chunk: start, end, and its line
/// (`"<speaker>: <text>"`, or just the text without a speaker), where the
/// text is the cleaned text when there is one.
pub open spec fn seg_line(s: Segment) -> Seq<char> {
    let text = if s.clean_text.is_some() {
        s.clean_text.unwrap()@
    } else {
        s.text@
    };
    if s.speaker.is_some() {
        s.speaker.unwrap()@ + ": "@ + text
    } else {
        text
    }
}

/// Chunking state after some segments: finished chunks `(start, end, text)`,
/// the start of the chunk in progress, the end of its last segment, and its text.
pub struct ChunkState {
    pub done: Seq<(i64, i64, Seq<char>)>,
    pub cur_start: Option<i64>,
    pub cur_end: i64,
    pub cur_text: Seq<char>,
}

/// Add one segment: a segment ending more than `CHUNK_MS` after the current
/// chunk's start closes that chunk and starts the next one at its own start;
/// its line is then appended (newline-separated) to the chunk in progress.
pub open spec fn chunk_step(st: ChunkState, s: Segment) -> ChunkState {
    let (done, cur_start, cur_text) = match st.cur_start {
        Some(start) => if s.end_ms - start > CHUNK_MS {
            (st.done.push((start, st.cur_end, st.cur_text)), Some(s.start_ms), Seq::<char>::empty())
        } else {
            (st.done, st.cur_start, st.cur_text)
        },
        None => (st.done, Some(s.start_ms), st.cur_text),
    };
    let text = if cur_text.len() > 0 {
        cur_text.push('\n') + seg_line(s)
    } else {
        cur_text + seg_line(s)
    };
    ChunkState { done, cur_start, cur_end: s.end_ms, cur_text: text }
}

pub open spec fn chunk_fold(segs: Seq<Segment>) -> ChunkState
    decreases segs.len(),
{
    if segs.len() == 0 {
        ChunkState { done: Seq::empty(), cur_start: None, cur_end: 0, cur_text: Seq::empty() }
    } else {
        chunk_step(chunk_fold(segs.drop_last()), segs.last())
    }
}

/// The chunks of a transcript (segments in start order): the finished ones,
/// then the one in progress if it has any text.
pub open spec fn chunks_of(segs: Seq<Segment>) -> Seq<(i64, i64, Seq<char>)> {
    let st = chunk_fold(segs);
    match st.cur_start {
        Some(start) => if st.cur_text.len() > 0 {
            st.done.push((start, st.cur_end, st.cur_text))
        } else {
            st.done
        },
        None => st.done,
    }
}

/// How many segments went into each finished chunk, and into the chunk in
/// progress.
pub open spec fn chunk_sizes(segs: Seq<Segment>) -> (Seq<nat>, nat)
    decreases segs.len(),
{
    if segs.len() == 0 {
        (Seq::empty(), 0)
    } else {
        let (done, cur) = chunk_sizes(segs.drop_last());
        match chunk_fold(segs.drop_last()).cur_start {
            Some(start) => if segs.last().end_ms - start > CHUNK_MS {
                (done.push(cur), 1)
            } else {
                (done, cur + 1)
            },
            None => (done, 1),
        }
    }
}

/// How many segments went into each chunk of `chunks_of(segs)`.
pub open spec fn sizes_of(segs: Seq<Segment>) -> Seq<nat> {
    let st = chunk_fold(segs);
    let (done, cur) = chunk_sizes(segs);
    match st.cur_start {
        Some(start) => if st.cur_text.len() > 0 {
            done.push(cur)
        } else {
            done
        },
        None => done,
    }
}

proof fn lemma_sizes_fold(segs: Seq<Segment>)
    ensures
        chunk_sizes(segs).0.len() == chunk_fold(segs).done.len(),
        forall|k: int|
            0 <= k < chunk_sizes(segs).0.len() ==> #[trigger] chunk_sizes(segs).0[k] >= 1 && (chunk_sizes(segs).0[k]
                >= 2 ==> chunk_fold(segs).done[k].1 - chunk_fold(segs).done[k].0 <= CHUNK_MS),
        chunk_fold(segs).cur_start.is_some() <==> chunk_sizes(segs).1 >= 1,
        chunk_fold(segs).cur_start matches Some(start) ==> (chunk_sizes(segs).1 >= 2 ==> chunk_fold(segs).cur_end
            - start <= CHUNK_MS),
    decreases segs.len(),
{
    if segs.len() > 0 {
        lemma_sizes_fold(segs.drop_last());
        let st = chunk_fold(segs.drop_last());
        let (done, cur) = chunk_sizes(segs.drop_last());
        let nst = chunk_fold(segs);
        let (ndone, ncur) = chunk_sizes(segs);
        match st.cur_start {
            Some(start) => {
                if segs.last().end_ms - start > CHUNK_MS {
                    assert(nst.done == st.done.push((start, st.cur_end, st.cur_text)));
                    assert(ndone == done.push(cur));
                    assert forall|k: int| 0 <= k < ndone.len() implies #[trigger] ndone[k] >= 1 && (ndone[k] >= 2
                        ==> nst.done[k].1 - nst.done[k].0 <= CHUNK_MS) by {
                        if k < done.len() {
                            assert(ndone[k] == done[k] && nst.done[k] == st.done[k]);
                        }
                    }
                } else {
                    assert(nst.done == st.done);
                    assert(ndone == done);
                }
            },
            None => {
                assert(nst.done == st.done);
            },
        }
    }
}

/// Each chunk holds at least one segment, and a chunk of two or more
/// segments spans at most `CHUNK_MS` from its start to its end.
pub proof fn lemma_chunk_spans(segs: Seq<Segment>)
    ensures
        sizes_of(segs).len() == chunks_of(segs).len(),
        forall|k: int|
            0 <= k < chunks_of(segs).len() ==> #[trigger] sizes_of(segs)[k] >= 1 && (sizes_of(segs)[k] >= 2
                ==> chunks_of(segs)[k].1 - chunks_of(segs)[k].0 <= CHUNK_MS),
{
    lemma_sizes_fold(segs);
    let st = chunk_fold(segs);
    let (done, cur) = chunk_sizes(segs);
    let c = chunks_of(segs);
    let z = sizes_of(segs);
    assert forall|k: int| 0 <= k < c.len() implies #[trigger] z[k] >= 1 && (z[k] >= 2 ==> c[k].1 - c[k].0
        <= CHUNK_MS) by {
        if k < done.len() {
            assert(z[k] == done[k]);
            assert(c[k] == st.done[k]);
        }
    }
}

/// The lines of the segments, joined by newlines.
#[verifier::opaque]
pub open spec fn joined_lines(segs: Seq<Segment>) -> Seq<char>
    decreases segs.len(),
{
    if segs.len() == 0 {
        Seq::empty()
    } else if segs.len() == 1 {
        seg_line(segs[0])
    } else {
        joined_lines(segs.drop_last()).push('\n') + seg_line(segs.last())
    }
}

/// The index of the first segment of each run: a run is closed by the first
/// segment that ends more than `CHUNK_MS` after the run's first start, and
/// that segment begins the next run.
pub open spec fn run_starts(segs: Seq<Segment>) -> Seq<int>
    decreases segs.len(),
{
    if segs.len() == 0 {
        Seq::empty()
    } else {
        let b = run_starts(segs.drop_last());
        if b.len() == 0 {
            seq![0int]
        } else if segs.last().end_ms - segs[b.last()].start_ms > CHUNK_MS {
            b.push(segs.len() - 1)
        } else {
            b
        }
    }
}

/// Where run `k` ends (exclusive): where the next one begins, or at the end.
pub open spec fn run_end(segs: Seq<Segment>, k: int) -> int {
    if k + 1 < run_starts(segs).len() {
        run_starts(segs)[k + 1]
    } else {
        segs.len() as int
    }
}

/// The chunk that run `k` makes: its first start, its last end, its lines.
pub open spec fn run_chunk(segs: Seq<Segment>, k: int) -> (i64, i64, Seq<char>) {
    let a = run_starts(segs)[k];
    let e = run_end(segs, k);
    (segs[a].start_ms, segs[e - 1].end_ms, joined_lines(segs.subrange(a, e)))
}

#[verifier::opaque]
spec fn runs_shape(segs: Seq<Segment>) -> bool {
    let b = run_starts(segs);
    &&& b.len() >= 1
    &&& b[0] == 0
    &&& forall|k: int| 0 <= k < b.len() ==> 0 <= #[trigger] b[k] < segs.len()
    &&& forall|k: int| 0 <= k && k + 1 < b.len() ==> #[trigger] b[k] < b[k + 1]
}

#[verifier::opaque]
spec fn runs_cur(segs: Seq<Segment>) -> bool {
    let b = run_starts(segs);
    let st = chunk_fold(segs);
    &&& st.cur_start == Some(segs[b.last()].start_ms)
    &&& st.cur_end == segs.last().end_ms
    &&& st.cur_text == joined_lines(segs.subrange(b.last(), segs.len() as int))
}

#[verifier::opaque]
spec fn runs_done(segs: Seq<Segment>) -> bool {
    let st = chunk_fold(segs);
    &&& st.done.len() + 1 == run_starts(segs).len()
    &&& forall|k: int| 0 <= k < st.done.len() ==> #[trigger] st.done[k] == run_chunk(segs, k)
}

#[verifier::opaque]
spec fn runs_rule(segs: Seq<Segment>) -> bool {
    let b = run_starts(segs);
    &&& forall|k: int, i: int|
        #![trigger b[k], segs[i]]
        0 <= k < b.len() && b[k] < i < run_end(segs, k) ==> segs[i].end_ms - segs[b[k]].start_ms <= CHUNK_MS
    &&& forall|k: int| 0 <= k && k + 1 < b.len() ==> segs[#[trigger] b[k + 1]].end_ms - segs[b[k]].start_ms > CHUNK_MS
}

spec fn runs_inv(segs: Seq<Segment>) -> bool {
    runs_shape(segs) && runs_cur(segs) && runs_done(segs) && runs_rule(segs)
}

/// Whether adding the last segment closes the run in progress.
spec fn closes(segs: Seq<Segment>) -> bool {
    segs.last().end_ms - segs[run_starts(segs.drop_last()).last()].start_ms > CHUNK_MS
}

proof fn lemma_joined_push(segs: Seq<Segment>)
    requires
        segs.len() >= 2,
    ensures
        joined_lines(segs) == joined_lines(segs.drop_last()).push('\n') + seg_line(segs.last()),
{
    reveal(joined_lines);
}

proof fn lemma_joined_nonempty(segs: Seq<Segment>)
    requires
        segs.len() > 0,
        seg_line(segs.last()).len() > 0,
    ensures
        joined_lines(segs).len() > 0,
{
    reveal(joined_lines);
}

proof fn lemma_runs_first(segs: Seq<Segment>)
    requires
        segs.len() == 1,
    ensures
        runs_inv(segs),
{
    reveal(joined_lines);
    reveal(runs_shape);
    reveal(runs_cur);
    reveal(runs_done);
    reveal(runs_rule);
    let b = run_starts(segs);
    let st = chunk_fold(segs);
    assert(segs.drop_last().len() == 0);
    assert(run_starts(segs.drop_last()).len() == 0);
    assert(chunk_fold(segs.drop_last()).done.len() == 0);
    assert(b =~= seq![0int]);
    assert(segs.subrange(0, 1).len() == 1);
    assert(segs.subrange(0, 1)[0] == segs[0]);
    assert(st.cur_text =~= seg_line(segs[0]));
}

/// How the run starts grow by one segment.
proof fn lemma_starts_step(segs: Seq<Segment>)
    requires
        segs.len() >= 2,
        runs_shape(segs.drop_last()),
    ensures
        run_starts(segs) == (if closes(segs) {
            run_starts(segs.drop_last()).push(segs.len() - 1)
        } else {
            run_starts(segs.drop_last())
        }),
        0 <= run_starts(segs.drop_last()).last() < segs.len() - 1,
{
    reveal(runs_shape);
}

proof fn lemma_shape_step(segs: Seq<Segment>)
    requires
        segs.len() >= 2,
        runs_shape(segs.drop_last()),
    ensures
        runs_shape(segs),
{
    lemma_starts_step(segs);
    reveal(runs_shape);
    let b = run_starts(segs);
    let b0 = run_starts(segs.drop_last());
    if closes(segs) {
        assert forall|k: int| 0 <= k && k + 1 < b.len() implies #[trigger] b[k] < b[k + 1] by {
            if k + 1 < b0.len() {
                assert(b0[k] < b0[k + 1]);
            }
        }
    }
}

proof fn lemma_cur_step(segs: Seq<Segment>)
    requires
        segs.len() >= 2,
        runs_shape(segs.drop_last()),
        runs_cur(segs.drop_last()),
        seg_line(segs[segs.len() - 2]).len() > 0,
    ensures
        runs_cur(segs),
{
    lemma_starts_step(segs);
    reveal(runs_cur);
    let n = segs.len() as int;
    let p = segs.drop_last();
    let st = chunk_fold(segs);
    let st0 = chunk_fold(p);
    let q = run_starts(p).last();
    assert(p.subrange(q, n - 1) =~= segs.subrange(q, n - 1));
    assert(segs.subrange(q, n - 1).last() == segs[n - 2]);
    lemma_joined_nonempty(segs.subrange(q, n - 1));
    assert(p[q] == segs[q]);
    if closes(segs) {
        assert(segs.subrange(n - 1, n).len() == 1 && segs.subrange(n - 1, n)[0] == segs[n - 1]);
        assert(st.cur_text =~= seg_line(segs[n - 1]));
        assert(joined_lines(segs.subrange(n - 1, n)) == seg_line(segs[n - 1])) by {
            reveal(joined_lines);
        }
    } else {
        assert(segs.subrange(q, n).drop_last() =~= segs.subrange(q, n - 1));
        assert(segs.subrange(q, n).last() == segs[n - 1]);
        lemma_joined_push(segs.subrange(q, n));
        assert(st.cur_text =~= joined_lines(segs.subrange(q, n)));
    }
}

/// Run `k` of the shorter transcript makes the same chunk in the longer one
/// when it is not the run in progress.
proof fn lemma_chunk_kept(segs: Seq<Segment>, k: int)
    requires
        segs.len() >= 2,
        runs_shape(segs.drop_last()),
        0 <= k && k + 1 < run_starts(segs.drop_last()).len(),
    ensures
        run_chunk(segs, k) == run_chunk(segs.drop_last(), k),
        run_end(segs, k) == run_end(segs.drop_last(), k),
        0 <= run_starts(segs.drop_last())[k] < run_starts(segs.drop_last())[k + 1] < segs.len() - 1,
        run_starts(segs)[k] == run_starts(segs.drop_last())[k],
        run_starts(segs)[k + 1] == run_starts(segs.drop_last())[k + 1],
{
    lemma_starts_step(segs);
    reveal(runs_shape);
    let p = segs.drop_last();
    let b0 = run_starts(p);
    let e = b0[k + 1];
    assert(b0[k] < e);
    assert(p.subrange(b0[k], e) =~= segs.subrange(b0[k], e));
    assert(p[b0[k]] == segs[b0[k]]);
    assert(p[e - 1] == segs[e - 1]);
}

proof fn lemma_done_step(segs: Seq<Segment>)
    requires
        segs.len() >= 2,
        runs_shape(segs.drop_last()),
        runs_cur(segs.drop_last()),
        runs_done(segs.drop_last()),
    ensures
        runs_done(segs),
{
    lemma_starts_step(segs);
    reveal(runs_done);
    let n = segs.len() as int;
    let p = segs.drop_last();
    let st = chunk_fold(segs);
    let st0 = chunk_fold(p);
    let b0 = run_starts(p);
    let q = b0.last();
    assert(st0.cur_start == Some(segs[q].start_ms) && st0.cur_end == segs[n - 2].end_ms
        && st0.cur_text == joined_lines(segs.subrange(q, n - 1))) by {
        reveal(runs_cur);
        assert(p[q] == segs[q]);
        assert(p.subrange(q, n - 1) =~= segs.subrange(q, n - 1));
    }
    if closes(segs) {
        assert(st.done == st0.done.push((segs[q].start_ms, segs[n - 2].end_ms, st0.cur_text)));
        assert forall|k: int| 0 <= k < st.done.len() implies #[trigger] st.done[k] == run_chunk(segs, k) by {
            if k < st0.done.len() {
                assert(st0.done[k] == run_chunk(p, k));
                lemma_chunk_kept(segs, k);
            } else {
                assert(k == b0.len() - 1);
                assert(run_starts(segs)[k] == q);
                assert(run_end(segs, k) == n - 1);
            }
        }
    } else {
        assert(st.done == st0.done);
        assert forall|k: int| 0 <= k < st.done.len() implies #[trigger] st.done[k] == run_chunk(segs, k) by {
            assert(st0.done[k] == run_chunk(p, k));
            lemma_chunk_kept(segs, k);
        }
    }
}

proof fn lemma_rule_step(segs: Seq<Segment>)
    requires
        segs.len() >= 2,
        runs_shape(segs.drop_last()),
        runs_rule(segs.drop_last()),
    ensures
        runs_rule(segs),
{
    lemma_starts_step(segs);
    reveal(runs_rule);
    let n = segs.len() as int;
    let p = segs.drop_last();
    let b = run_starts(segs);
    let b0 = run_starts(p);
    let q = b0.last();
    assert(p[q] == segs[q]);
    assert forall|k: int, i: int|
        #![trigger b[k], segs[i]]
        0 <= k < b.len() && b[k] < i < run_end(segs, k) implies segs[i].end_ms - segs[b[k]].start_ms <= CHUNK_MS by {
        if k + 1 < b0.len() {
            lemma_chunk_kept(segs, k);
            assert(b[k] == b0[k]);
            assert(p[i] == segs[i]);
            assert(p[b0[k]] == segs[b0[k]]);
            assert(b0[k] < i < run_end(p, k));
        } else if k + 1 == b0.len() {
            assert(b[k] == q);
            if i < n - 1 {
                assert(p[i] == segs[i]);
                assert(run_end(p, k) == n - 1);
                assert(b0[k] < i < run_end(p, k));
            } else {
                assert(!closes(segs));
            }
        } else {
            assert(closes(segs));
            assert(b[k] == n - 1);
        }
    }
    assert forall|k: int| 0 <= k && k + 1 < b.len() implies segs[#[trigger] b[k + 1]].end_ms - segs[b[k]].start_ms
        > CHUNK_MS by {
        if k + 1 < b0.len() {
            lemma_chunk_kept(segs, k);
            assert(b[k + 1] == b0[k + 1] && b[k] == b0[k]);
            assert(p[b0[k + 1]] == segs[b0[k + 1]]);
            assert(p[b0[k]] == segs[b0[k]]);
        } else {
            assert(closes(segs));
            assert(b[k] == q && b[k + 1] == n - 1);
        }
    }
}

proof fn lemma_runs_inv(segs: Seq<Segment>)
    requires
        segs.len() > 0,
        forall|i: int| 0 <= i < segs.len() ==> #[trigger] seg_line(segs[i]).len() > 0,
    ensures
        runs_inv(segs),
    decreases segs.len(),
{
    if segs.len() == 1 {
        lemma_runs_first(segs);
    } else {
        let p = segs.drop_last();
        assert forall|i: int| 0 <= i < p.len() implies #[trigger] seg_line(p[i]).len() > 0 by {
            assert(p[i] == segs[i]);
        }
        lemma_runs_inv(p);
        assert(seg_line(segs[segs.len() - 2]).len() > 0);
        lemma_shape_step(segs);
        lemma_cur_step(segs);
        lemma_done_step(segs);
        lemma_rule_step(segs);
    }
}

/// When every segment's line is non-empty, the chunks cut the segments into
/// consecutive runs: run `k` begins at `run_starts(segs)[k]` (the first at
/// the first segment) and ends where the next one begins; its chunk spans
/// from the run's first start to its last end and holds the run's lines
/// joined by newlines. A run is closed exactly by the first segment that
/// ends more than `CHUNK_MS` after the run's first start.
pub proof fn lemma_chunks_are_runs(segs: Seq<Segment>)
    requires
        forall|i: int| 0 <= i < segs.len() ==> #[trigger] seg_line(segs[i]).len() > 0,
    ensures
        chunks_of(segs).len() == run_starts(segs).len(),
        segs.len() > 0 ==> run_starts(segs)[0] == 0,
        forall|k: int|
            0 <= k < run_starts(segs).len() ==> 0 <= #[trigger] run_starts(segs)[k] < run_end(segs, k) <= segs.len(),
        forall|k: int| 0 <= k < chunks_of(segs).len() ==> #[trigger] chunks_of(segs)[k] == run_chunk(segs, k),
        forall|k: int, i: int|
            #![trigger run_starts(segs)[k], segs[i]]
            0 <= k < run_starts(segs).len() && run_starts(segs)[k] < i < run_end(segs, k) ==> segs[i].end_ms
                - segs[run_starts(segs)[k]].start_ms <= CHUNK_MS,
        forall|k: int|
            0 <= k && k + 1 < run_starts(segs).len() ==> segs[#[trigger] run_starts(segs)[k + 1]].end_ms
                - segs[run_starts(segs)[k]].start_ms > CHUNK_MS,
{
    if segs.len() > 0 {
        lemma_runs_inv(segs);
        reveal(runs_shape);
        reveal(runs_cur);
        reveal(runs_done);
        reveal(runs_rule);
        let b = run_starts(segs);
        let st = chunk_fold(segs);
        let q = b.last();
        assert(segs.subrange(q, segs.len() as int).last() == segs.last());
        lemma_joined_nonempty(segs.subrange(q, segs.len() as int));
        assert(chunks_of(segs) == st.done.push((segs[q].start_ms, segs.last().end_ms, st.cur_text)));
        assert forall|k: int| 0 <= k < chunks_of(segs).len() implies #[trigger] chunks_of(segs)[k] == run_chunk(segs, k) by {
            if k < st.done.len() {
                assert(chunks_of(segs)[k] == st.done[k]);
            } else {
                assert(run_end(segs, k) == segs.len());
            }
        }
        assert forall|k: int| 0 <= k < b.len() implies 0 <= #[trigger] b[k] < run_end(segs, k) <= segs.len() by {
            if k + 1 < b.len() {
                assert(b[k] < b[k + 1]);
                assert(b[k + 1] < segs.len());
            }
        }
    } else {
        assert(run_starts(segs).len() == 0);
    }
}

pub open spec fn chunk_views(v: Seq<(i64, i64, String)>) -> Seq<(i64, i64, Seq<char>)> {
    v.map_values(|c: (i64, i64, String)| (c.0, c.1, c.2@))
}

fn line_of(s: &Segment) -> (r: Vec<char>)
    ensures
        r@ == seg_line(*s),
{
    let text = match &s.clean_text {
        Some(c) => to_chars(c.as_str()),
        None => to_chars(s.text.as_str()),
    };
    match &s.speaker {
        Some(sp) => {
            let mut v = to_chars(sp.as_str());
            extend_str(&mut v, ": ");
            extend_chars(&mut v, &text);
            v
        },
        None => text,
    }
}

/// Cut a meeting's segments (in start order) into retrieval chunks.
pub fn build_chunks(segs: &Vec<Segment>) -> (r: Vec<(i64, i64, String)>)
    ensures
        chunk_views(r@) == chunks_of(segs@),
{
    let mut done: Vec<(i64, i64, String)> = Vec::new();
    let mut cur_start: Option<i64> = None;
    let mut cur_end: i64 = 0;
    let mut cur_text: Vec<char> = Vec::new();
    let mut i: usize = 0;
    assert(chunk_views(done@) =~= Seq::empty());
    assert(segs@.take(0) =~= Seq::<Segment>::empty());
    while i < segs.len()
        invariant
            i <= segs.len(),
            chunk_fold(segs@.take(i as int)) == (ChunkState {
                done: chunk_views(done@),
                cur_start,
                cur_end,
                cur_text: cur_text@,
            }),
        decreases segs.len() - i,
    {
        let s = &segs[i];
        assert(segs@.take(i + 1).drop_last() == segs@.take(i as int));
        let line = line_of(s);
        match cur_start {
            Some(start) => {
                if (s.end_ms as i128) - (start as i128) > CHUNK_MS as i128 {
                    let ghost before = chunk_views(done@);
                    let text = from_chars(&cur_text);
                    done.push((start, cur_end, text));
                    assert(chunk_views(done@) =~= before.push((start, cur_end, cur_text@)));
                    cur_text = Vec::new();
                    cur_start = Some(s.start_ms);
                }
            },
            None => {
                cur_start = Some(s.start_ms);
            },
        }
        if cur_text.len() > 0 {
            cur_text.push('\n');
        }
        extend_chars(&mut cur_text, &line);
        cur_end = s.end_ms;
        i += 1;
    }
    assert(segs@.take(segs.len() as int) == segs@);
    match cur_start {
        Some(start) => {
            if cur_text.len() > 0 {
                let ghost before = chunk_views(done@);
                let text = from_chars(&cur_text);
                done.push((start, cur_end, text));
                assert(chunk_views(done@) =~= before.push((start, cur_end, cur_text@)));
            }
        },
        None => {},
    }
    done
}

} // verus!
