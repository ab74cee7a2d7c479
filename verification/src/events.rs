//! Calendar events read from all sources, merged into one list ordered by
//! start with repeated copies of an event dropped.

use vstd::prelude::*;
use crate::text::chars_eq;

verus! {

/// An event of a calendar feed. Times are milliseconds since the Unix epoch.
pub struct CalEvent {
    pub uid: String,
    pub title: String,
    pub start: i64,
    pub end: i64,
    pub attendees: Vec<String>,
}

/// `e` placed into `s` after every event that starts no later than it
/// (a stable insertion from the back).
pub open spec fn insert_sorted(s: Seq<CalEvent>, e: CalEvent) -> Seq<CalEvent>
    decreases s.len(),
{
    if s.len() == 0 {
        seq![e]
    } else if s.last().start <= e.start {
        s.push(e)
    } else {
        insert_sorted(s.drop_last(), e).push(s.last())
    }
}

/// The events in order of start; events starting together keep their order.
pub open spec fn sort_events(s: Seq<CalEvent>) -> Seq<CalEvent>
    decreases s.len(),
{
    if s.len() == 0 {
        Seq::empty()
    } else {
        insert_sorted(sort_events(s.drop_last()), s.last())
    }
}

/// Two copies of one event: the same uid and the same start.
pub open spec fn same_event(a: CalEvent, b: CalEvent) -> bool {
    a.uid@ == b.uid@ && a.start == b.start
}

/// Each run of copies of one event kept as its first copy.
pub open spec fn dedup_events(s: Seq<CalEvent>) -> Seq<CalEvent>
    decreases s.len(),
{
    if s.len() == 0 {
        Seq::empty()
    } else {
        let p = dedup_events(s.drop_last());
        if p.len() > 0 && same_event(p.last(), s.last()) {
            p
        } else {
            p.push(s.last())
        }
    }
}

/// Events ordered by start.
pub open spec fn by_start(s: Seq<CalEvent>) -> bool {
    forall|i: int, j: int| 0 <= i <= j < s.len() ==> (#[trigger] s[i]).start <= (#[trigger] s[j]).start
}

proof fn lemma_insert_split(s: Seq<CalEvent>, e: CalEvent, k: int)
    requires
        0 <= k <= s.len(),
        forall|j: int| k <= j < s.len() ==> (#[trigger] s[j]).start > e.start,
    ensures
        insert_sorted(s, e) == insert_sorted(s.take(k), e) + s.skip(k),
    decreases s.len() - k,
{
    if k < s.len() {
        let p = s.drop_last();
        lemma_insert_split(p, e, k);
        assert(p.take(k) =~= s.take(k));
        assert(p.skip(k).push(s.last()) =~= s.skip(k));
        assert(s[s.len() - 1].start > e.start);
    } else {
        assert(s.take(k) =~= s);
        assert(s.skip(k) =~= Seq::<CalEvent>::empty());
    }
}

proof fn lemma_insert_keeps(s: Seq<CalEvent>, e: CalEvent)
    ensures
        insert_sorted(s, e).to_multiset() == s.to_multiset().insert(e),
        by_start(s) ==> by_start(insert_sorted(s, e)),
        insert_sorted(s, e).len() == s.len() + 1,
    decreases s.len(),
{
    broadcast use vstd::seq_lib::group_to_multiset_ensures;

    if s.len() == 0 {
        assert(seq![e] =~= Seq::<CalEvent>::empty().push(e));
    } else if s.last().start <= e.start {
    } else {
        let p = s.drop_last();
        lemma_insert_keeps(p, e);
        assert(p.push(s.last()) =~= s);
        if by_start(s) {
            let q = insert_sorted(p, e);
            let r = q.push(s.last());
            assert(by_start(p));
            assert forall|i: int, j: int| 0 <= i <= j < r.len() implies (#[trigger] r[i]).start <= (#[trigger] r[j]).start by {
                if j == r.len() - 1 && i < j {
                    // Every element of q is an element of p or e, all starting no later than s.last().
                    assert(q.to_multiset().count(q[i]) > 0);
                    assert(q.to_multiset() == p.to_multiset().insert(e));
                    if q[i] != e {
                        assert(p.to_multiset().count(q[i]) > 0);
                        assert(p.contains(q[i]));
                        let t = choose|t: int| 0 <= t < p.len() && p[t] == q[i];
                        assert(s[t] == p[t]);
                        assert(s[t].start <= s[s.len() - 1].start);
                    }
                } else if j < r.len() - 1 {
                    assert(r[i] == q[i] && r[j] == q[j]);
                }
            }
        }
    }
}

/// Sorting keeps every event (as many times as it came) and orders them by start.
pub proof fn lemma_sort_events(s: Seq<CalEvent>)
    ensures
        sort_events(s).to_multiset() == s.to_multiset(),
        by_start(sort_events(s)),
        sort_events(s).len() == s.len(),
    decreases s.len(),
{
    broadcast use vstd::seq_lib::group_to_multiset_ensures;

    if s.len() > 0 {
        lemma_sort_events(s.drop_last());
        lemma_insert_keeps(sort_events(s.drop_last()), s.last());
        assert(s.drop_last().push(s.last()) =~= s);
    }
}

/// Dropping copies keeps the first of each run, so no two neighbours are
/// copies of one event, and the order by start stays.
pub proof fn lemma_dedup_events(s: Seq<CalEvent>)
    ensures
        forall|i: int| 0 <= i < dedup_events(s).len() - 1 ==> !same_event(#[trigger] dedup_events(s)[i], dedup_events(s)[i + 1]),
        by_start(s) ==> by_start(dedup_events(s)),
        dedup_events(s).len() <= s.len(),
        forall|i: int| 0 <= i < dedup_events(s).len() ==> s.contains(#[trigger] dedup_events(s)[i]),
    decreases s.len(),
{
    if s.len() > 0 {
        let p = s.drop_last();
        lemma_dedup_events(p);
        let d = dedup_events(p);
        let r = dedup_events(s);
        assert forall|i: int| 0 <= i < r.len() implies s.contains(#[trigger] r[i]) by {
            if i < d.len() {
                assert(r[i] == d[i]);
                assert(p.contains(d[i]));
                let t = choose|t: int| 0 <= t < p.len() && p[t] == d[i];
                assert(s[t] == p[t]);
            } else {
                assert(r[i] == s[s.len() - 1]);
            }
        }
        assert forall|i: int| 0 <= i < r.len() - 1 implies !same_event(#[trigger] r[i], r[i + 1]) by {
            if i + 1 < d.len() {
                assert(r[i] == d[i] && r[i + 1] == d[i + 1]);
            } else {
                assert(r[i] == d[d.len() - 1]);
            }
        }
        if by_start(s) {
            assert(by_start(p));
            assert forall|i: int, j: int| 0 <= i <= j < r.len() implies (#[trigger] r[i]).start <= (#[trigger] r[j]).start by {
                if j < d.len() {
                    assert(r[i] == d[i] && r[j] == d[j]);
                } else if i < j {
                    assert(r[j] == s[s.len() - 1]);
                    assert(p.contains(d[i]));
                    let t = choose|t: int| 0 <= t < p.len() && p[t] == d[i];
                    assert(s[t] == p[t]);
                    assert(r[i] == d[i]);
                }
            }
        }
    }
}

/// All sources' events as one list: ordered by start (events starting
/// together keep their order), each run of copies of one event kept once.
pub open spec fn merged_events(s: Seq<CalEvent>) -> Seq<CalEvent> {
    dedup_events(sort_events(s))
}

/// The merged list is ordered by start, holds only events that were read,
/// no more of them than were read, and no two neighbours are copies of one event.
pub proof fn lemma_merged_events(s: Seq<CalEvent>)
    ensures
        by_start(merged_events(s)),
        merged_events(s).len() <= s.len(),
        forall|i: int| 0 <= i < merged_events(s).len() ==> s.contains(#[trigger] merged_events(s)[i]),
        forall|i: int|
            0 <= i < merged_events(s).len() - 1 ==> !same_event(#[trigger] merged_events(s)[i], merged_events(s)[i + 1]),
{
    broadcast use vstd::seq_lib::group_to_multiset_ensures;

    lemma_sort_events(s);
    let t = sort_events(s);
    lemma_dedup_events(t);
    let m = merged_events(s);
    assert forall|i: int| 0 <= i < m.len() implies s.contains(#[trigger] m[i]) by {
        assert(t.contains(m[i]));
        assert(t.to_multiset().count(m[i]) > 0);
        assert(s.to_multiset().count(m[i]) > 0);
    }
}

/// Every event is kept by dropping copies: some kept event has its uid and
/// its start.
proof fn lemma_dedup_keeps_each(s: Seq<CalEvent>)
    ensures
        forall|i: int|
            0 <= i < s.len() ==> exists|j: int|
                0 <= j < dedup_events(s).len() && (#[trigger] dedup_events(s)[j]).uid@ == (#[trigger] s[i]).uid@
                    && dedup_events(s)[j].start == s[i].start,
    decreases s.len(),
{
    if s.len() > 0 {
        let p = s.drop_last();
        lemma_dedup_keeps_each(p);
        let d = dedup_events(p);
        let r = dedup_events(s);
        assert forall|i: int| 0 <= i < s.len() implies exists|j: int|
            0 <= j < r.len() && (#[trigger] r[j]).uid@ == (#[trigger] s[i]).uid@ && r[j].start == s[i].start by {
            if i < s.len() - 1 {
                assert(s[i] == p[i]);
                let j = choose|j: int|
                    0 <= j < d.len() && (#[trigger] d[j]).uid@ == (#[trigger] p[i]).uid@ && d[j].start == p[i].start;
                assert(r[j] == d[j]);
            } else if d.len() > 0 && same_event(d.last(), s.last()) {
                assert(r[d.len() - 1] == d.last());
            } else {
                assert(r[r.len() - 1] == s.last());
            }
        }
    }
}

/// Merging drops only copies: for every event read, the merged list has an
/// event with its uid and its start (occurrences of a recurring event, with
/// one uid and different starts, all stay).
pub proof fn lemma_merge_keeps_each(s: Seq<CalEvent>)
    ensures
        forall|i: int|
            0 <= i < s.len() ==> exists|j: int|
                0 <= j < merged_events(s).len() && (#[trigger] merged_events(s)[j]).uid@ == (#[trigger] s[i]).uid@
                    && merged_events(s)[j].start == s[i].start,
{
    broadcast use vstd::seq_lib::group_to_multiset_ensures;

    lemma_sort_events(s);
    let t = sort_events(s);
    lemma_dedup_keeps_each(t);
    let m = merged_events(s);
    assert forall|i: int| 0 <= i < s.len() implies exists|j: int|
        0 <= j < m.len() && (#[trigger] m[j]).uid@ == (#[trigger] s[i]).uid@ && m[j].start == s[i].start by {
        assert(s.to_multiset().count(s[i]) > 0);
        assert(t.to_multiset().count(s[i]) > 0);
        assert(t.contains(s[i]));
        let k = choose|k: int| 0 <= k < t.len() && t[k] == s[i];
        let j = choose|j: int| 0 <= j < m.len() && (#[trigger] m[j]).uid@ == (#[trigger] t[k]).uid@ && m[j].start == t[k].start;
    }
}

/// Merge the events read from all calendar sources.
pub fn merge_events(events: Vec<CalEvent>) -> (r: Vec<CalEvent>)
    ensures
        r@ == merged_events(events@),
{
    let ghost all = events@;
    let mut rest = events;
    let mut sorted: Vec<CalEvent> = Vec::new();
    let mut i: usize = 0;
    let n0 = rest.len();
    assert(all.len() == n0);
    assert(all.skip(0) =~= all);
    while rest.len() > 0
        invariant
            all.len() <= usize::MAX,
            i + rest@.len() == all.len(),
            rest@ == all.skip(i as int),
            sorted@ == sort_events(all.take(i as int)),
        decreases rest.len(),
    {
        let e = rest.remove(0);
        assert(e == all[i as int]);
        proof {
            assert(all.take(i + 1).drop_last() =~= all.take(i as int));
            assert(all.take(i + 1).last() == all[i as int]);
            assert(all.skip(i as int).drop_first() =~= all.skip(i + 1));
        }
        let mut k = sorted.len();
        while k > 0 && sorted[k - 1].start > e.start
            invariant
                k <= sorted@.len(),
                forall|j: int| k <= j < sorted@.len() ==> (#[trigger] sorted@[j]).start > e.start,
            decreases k,
        {
            k -= 1;
        }
        proof {
            lemma_insert_split(sorted@, e, k as int);
            let t = sorted@.take(k as int);
            if k > 0 {
                assert(t.last() == sorted@[k - 1]);
                assert(insert_sorted(t, e) == t.push(e));
                assert(t.push(e) + sorted@.skip(k as int) =~= sorted@.insert(k as int, e));
            } else {
                assert(insert_sorted(t, e) == seq![e]);
                assert(seq![e] + sorted@.skip(k as int) =~= sorted@.insert(k as int, e));
            }
        }
        sorted.insert(k, e);
        i += 1;
    }
    assert(all.take(i as int) =~= all);
    let ghost sall = sorted@;
    let mut out: Vec<CalEvent> = Vec::new();
    let mut j: usize = 0;
    let mut rest = sorted;
    let n1 = rest.len();
    assert(sall.len() == n1);
    assert(sall.skip(0) =~= sall);
    while rest.len() > 0
        invariant
            sall.len() <= usize::MAX,
            j + rest@.len() == sall.len(),
            rest@ == sall.skip(j as int),
            out@ == dedup_events(sall.take(j as int)),
        decreases rest.len(),
    {
        let e = rest.remove(0);
        assert(e == sall[j as int]);
        proof {
            assert(sall.take(j + 1).drop_last() =~= sall.take(j as int));
            assert(sall.take(j + 1).last() == sall[j as int]);
            assert(sall.skip(j as int).drop_first() =~= sall.skip(j + 1));
        }
        let n = out.len();
        let copy = n > 0 && out[n - 1].start == e.start && chars_eq(
            &crate::text::to_chars(out[n - 1].uid.as_str()),
            &crate::text::to_chars(e.uid.as_str()),
        );
        if !copy {
            out.push(e);
        }
        j += 1;
    }
    assert(sall.take(j as int) =~= sall);
    out
}

} // verus!
