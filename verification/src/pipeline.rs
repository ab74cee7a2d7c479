//! Decisions of the post-call pipeline: speaker labels, attendee lists,
//! recovering interrupted recordings.

use vstd::prelude::*;
use std::collections::BTreeMap;
use crate::meetings::{has_name, strs, MeetingStatus};
use crate::text::{chars_eq, chars_eq_ignore_case, dec, dec_u64, extend_chars, extend_str, from_chars, join, to_chars, trim, trim_str, views};

verus! {

/// The label of the cluster that is the user: their name, or "Me" when it is blank.
pub open spec fn me_label(user_name: Seq<char>) -> Seq<char> {
    if trim(user_name).len() == 0 {
        "Me"@
    } else {
        trim(user_name)
    }
}

/// Labels given so far and the number of "Speaker n" labels handed out.
pub open spec fn names_fold(cs: Seq<Option<i32>>, me: Option<i32>, user_name: Seq<char>) -> (Map<i32, Seq<char>>, nat)
    decreases cs.len(),
{
    if cs.len() == 0 {
        (Map::empty(), 0)
    } else {
        let (m, n) = names_fold(cs.drop_last(), me, user_name);
        match cs.last() {
            None => (m, n),
            Some(c) => if m.contains_key(c) {
                (m, n)
            } else if me == Some(c) {
                (m.insert(c, me_label(user_name)), n)
            } else {
                (m.insert(c, "Speaker "@ + dec(n + 1)), n + 1)
            },
        }
    }
}

/// The label "Speaker k".
pub open spec fn speaker_label(k: nat) -> Seq<char> {
    "Speaker "@ + dec(k)
}

proof fn lemma_speaker_label_injective(a: nat, b: nat)
    requires
        speaker_label(a) == speaker_label(b),
    ensures
        a == b,
{
    crate::text::lemma_dec_digits(a);
    crate::text::lemma_dec_digits(b);
    let p = "Speaker "@;
    assert(speaker_label(a).skip(p.len() as int) =~= dec(a));
    assert(speaker_label(b).skip(p.len() as int) =~= dec(b));
}

/// The label is "Speaker k" for some k from 1 to n.
pub open spec fn numbered_up_to(l: Seq<char>, n: nat) -> bool {
    exists|k: nat| #![trigger speaker_label(k)] 1 <= k <= n && l == speaker_label(k)
}

/// Some cluster other than the user's carries the label.
pub open spec fn given_to_other(m: Map<i32, Seq<char>>, me: Option<i32>, l: Seq<char>) -> bool {
    exists|c: i32| #![trigger m[c]] m.contains_key(c) && me != Some(c) && m[c] == l
}

/// Labels where the user's cluster gets the user's label and the others
/// "Speaker 1" to "Speaker n", one number each.
pub open spec fn numbered(m: Map<i32, Seq<char>>, n: nat, me: Option<i32>, user_name: Seq<char>) -> bool {
    &&& forall|c: i32| m.contains_key(c) && me == Some(c) ==> #[trigger] m[c] == me_label(user_name)
    &&& forall|c: i32| m.contains_key(c) && me != Some(c) ==> numbered_up_to(#[trigger] m[c], n)
    &&& forall|c1: i32, c2: i32|
        m.contains_key(c1) && m.contains_key(c2) && c1 != c2 && me != Some(c1) && me != Some(c2) ==> #[trigger] m[c1]
            != #[trigger] m[c2]
    &&& forall|k: nat| 1 <= k <= n ==> given_to_other(m, me, #[trigger] speaker_label(k))
}

/// The clusters other than the user's are labelled "Speaker 1" to "Speaker
/// n", one number each, and the user's cluster (when it occurs) gets the
/// user's label.
pub proof fn lemma_speakers_numbered(cs: Seq<Option<i32>>, me: Option<i32>, user_name: Seq<char>)
    ensures
        numbered(names_fold(cs, me, user_name).0, names_fold(cs, me, user_name).1, me, user_name),
    decreases cs.len(),
{
    if cs.len() > 0 {
        lemma_speakers_numbered(cs.drop_last(), me, user_name);
        let m0 = names_fold(cs.drop_last(), me, user_name).0;
        let n0 = names_fold(cs.drop_last(), me, user_name).1;
        let m = names_fold(cs, me, user_name).0;
        let n = names_fold(cs, me, user_name).1;
        assert(numbered(m0, n0, me, user_name));
        match cs.last() {
            None => {
                assert(m == m0 && n == n0);
                assert(numbered(m, n, me, user_name));
            },
            Some(c) => {
                if m0.contains_key(c) {
                    assert(m == m0 && n == n0);
                    assert(numbered(m, n, me, user_name));
                } else if me == Some(c) {
                    assert(m == m0.insert(c, me_label(user_name)) && n == n0);
                    assert forall|c1: i32| m.contains_key(c1) && me == Some(c1) implies #[trigger] m[c1] == me_label(user_name) by {}
                    assert forall|c1: i32| #![trigger m[c1]] m.contains_key(c1) && me != Some(c1) implies numbered_up_to(m[c1], n) by {
                        assert(c1 != c);
                        assert(m0.contains_key(c1));
                        assert(m[c1] == m0[c1]);
                        let k = choose|k: nat| #![trigger speaker_label(k)] 1 <= k <= n0 && m0[c1] == speaker_label(k);
                        assert(m[c1] == speaker_label(k));
                    }
                    assert forall|c1: i32, c2: i32|
                        m.contains_key(c1) && m.contains_key(c2) && c1 != c2 && me != Some(c1) && me != Some(c2) implies #[trigger] m[c1]
                            != #[trigger] m[c2] by {
                        assert(m0.contains_key(c1) && m0.contains_key(c2));
                        assert(m[c1] == m0[c1] && m[c2] == m0[c2]);
                    }
                    assert forall|k: nat| #![trigger speaker_label(k)] 1 <= k <= n implies given_to_other(m, me, speaker_label(k)) by {
                        let c1 = choose|c1: i32| #![trigger m0[c1]] m0.contains_key(c1) && me != Some(c1) && m0[c1] == speaker_label(k);
                        assert(c1 != c);
                        assert(m.contains_key(c1));
                        assert(m[c1] == m0[c1]);
                        assert(m[c1] == speaker_label(k));
                    }
                    assert(numbered(m, n, me, user_name));
                } else {
                    assert(n == n0 + 1);
                    assert(m == m0.insert(c, speaker_label(n)));
                    assert forall|c1: i32| m.contains_key(c1) && me == Some(c1) implies #[trigger] m[c1] == me_label(user_name) by {
                        assert(m[c1] == m0[c1]);
                    }
                    assert forall|c1: i32| #![trigger m[c1]] m.contains_key(c1) && me != Some(c1) implies numbered_up_to(m[c1], n) by {
                        if c1 == c {
                            assert(m[c1] == speaker_label(n));
                        } else {
                            assert(m[c1] == m0[c1]);
                            let k = choose|k: nat| #![trigger speaker_label(k)] 1 <= k <= n0 && m0[c1] == speaker_label(k);
                            assert(m[c1] == speaker_label(k));
                        }
                    }
                    assert forall|c1: i32, c2: i32|
                        m.contains_key(c1) && m.contains_key(c2) && c1 != c2 && me != Some(c1) && me != Some(c2) implies #[trigger] m[c1]
                            != #[trigger] m[c2] by {
                        if c1 == c || c2 == c {
                            let o = if c1 == c { c2 } else { c1 };
                            assert(m[o] == m0[o]);
                            let k = choose|k: nat| #![trigger speaker_label(k)] 1 <= k <= n0 && m0[o] == speaker_label(k);
                            if m[o] == speaker_label(n) {
                                lemma_speaker_label_injective(k, n);
                            }
                        } else {
                            assert(m[c1] == m0[c1] && m[c2] == m0[c2]);
                        }
                    }
                    assert forall|k: nat| #![trigger speaker_label(k)] 1 <= k <= n implies given_to_other(m, me, speaker_label(k)) by {
                        if k == n {
                            assert(m[c] == speaker_label(k));
                        } else {
                            let c1 = choose|c1: i32| #![trigger m0[c1]] m0.contains_key(c1) && me != Some(c1) && m0[c1] == speaker_label(k);
                            assert(m[c1] == m0[c1]);
                        }
                    }
                    assert(numbered(m, n, me, user_name));
                }
            },
        }
    }
}

/// `i` is where cluster `c` first occurs in `cs`.
pub open spec fn first_at(cs: Seq<Option<i32>>, c: i32, i: int) -> bool {
    &&& 0 <= i < cs.len()
    &&& cs[i] == Some(c)
    &&& forall|j: int| 0 <= j < i ==> cs[j] != Some(c)
}

/// Of two clusters other than the user's, the one that first occurs earlier
/// gets the lower "Speaker" number.
pub proof fn lemma_speakers_in_order(
    cs: Seq<Option<i32>>,
    me: Option<i32>,
    user_name: Seq<char>,
    c1: i32,
    c2: i32,
    i1: int,
    i2: int,
)
    requires
        first_at(cs, c1, i1),
        first_at(cs, c2, i2),
        i1 < i2,
        me != Some(c1),
        me != Some(c2),
    ensures
        exists|k1: nat, k2: nat|
            #![trigger speaker_label(k1), speaker_label(k2)]
            k1 < k2 && names_fold(cs, me, user_name).0[c1] == speaker_label(k1) && names_fold(cs, me, user_name).0[c2]
                == speaker_label(k2),
    decreases cs.len(),
{
    let n = cs.len() as int;
    let p = cs.drop_last();
    let m0 = names_fold(p, me, user_name).0;
    let n0 = names_fold(p, me, user_name).1;
    let m = names_fold(cs, me, user_name).0;
    lemma_every_cluster_named(p, me, user_name);
    assert(p[i1] == cs[i1]);
    assert(p.contains(Some(c1)));
    assert(m0.contains_key(c1));
    assert(cs[i1] != Some(c2));
    assert(c1 != c2);
    if i2 < n - 1 {
        assert(first_at(p, c1, i1)) by {
            assert forall|j: int| 0 <= j < i1 implies p[j] != Some(c1) by {
                assert(p[j] == cs[j]);
            }
        }
        assert(first_at(p, c2, i2)) by {
            assert(p[i2] == cs[i2]);
            assert forall|j: int| 0 <= j < i2 implies p[j] != Some(c2) by {
                assert(p[j] == cs[j]);
            }
        }
        lemma_speakers_in_order(p, me, user_name, c1, c2, i1, i2);
        assert(p.contains(Some(c2)));
        assert(m0.contains_key(c2));
        assert(m[c1] == m0[c1] && m[c2] == m0[c2]);
    } else {
        assert(cs.last() == Some(c2));
        assert(!p.contains(Some(c2))) by {
            if p.contains(Some(c2)) {
                let j = choose|j: int| 0 <= j < p.len() && p[j] == Some(c2);
                assert(cs[j] == Some(c2));
            }
        }
        assert(!m0.contains_key(c2));
        assert(m == m0.insert(c2, speaker_label(n0 + 1)));
        lemma_speakers_numbered(p, me, user_name);
        assert(numbered_up_to(m0[c1], n0));
        let k1 = choose|k: nat| #![trigger speaker_label(k)] 1 <= k <= n0 && m0[c1] == speaker_label(k);
        assert(m[c1] == speaker_label(k1));
        assert(m[c2] == speaker_label(n0 + 1));
    }
}

/// Every cluster that occurs gets a label, and only those do.
pub proof fn lemma_every_cluster_named(cs: Seq<Option<i32>>, me: Option<i32>, user_name: Seq<char>)
    ensures
        forall|c: i32|
            #[trigger] names_fold(cs, me, user_name).0.contains_key(c) <==> cs.contains(Some(c)),
    decreases cs.len(),
{
    if cs.len() > 0 {
        lemma_every_cluster_named(cs.drop_last(), me, user_name);
        let prev = cs.drop_last();
        let m = names_fold(prev, me, user_name).0;
        let full = names_fold(cs, me, user_name).0;
        match cs.last() {
            None => {
                assert(full == m);
            },
            Some(x) => {
                assert(full.contains_key(x));
                assert(forall|c: i32| c != x ==> (#[trigger] full.contains_key(c) <==> m.contains_key(c)));
            },
        }
        assert forall|c: i32| #[trigger] full.contains_key(c) <==> cs.contains(Some(c)) by {
            if cs.contains(Some(c)) {
                let i = choose|i: int| 0 <= i < cs.len() && cs[i] == Some(c);
                if i < cs.len() - 1 {
                    assert(prev[i] == Some(c));
                }
            }
            if prev.contains(Some(c)) {
                let i = choose|i: int| 0 <= i < prev.len() && prev[i] == Some(c);
                assert(cs[i] == Some(c));
            }
            if cs.last() == Some(c) {
                assert(cs[cs.len() - 1] == Some(c));
            }
        }
    }
}

/// Cluster -> display label. The "me" cluster gets the user's name; the
/// others "Speaker 1..n" by first appearance.
pub fn cluster_names(clusters: &[Option<i32>], me: Option<i32>, user_name: &str) -> (r: BTreeMap<i32, String>)
    ensures
        r@.dom() == names_fold(clusters@, me, user_name@).0.dom(),
        forall|c: i32| #[trigger] r@.contains_key(c) ==> r@[c]@ == names_fold(clusters@, me, user_name@).0[c],
{
    proof {
        crate::keys::lemma_i32_keys_ordered();
    }
    let mut names: BTreeMap<i32, String> = BTreeMap::new();
    let mut n: u64 = 0;
    let mut i: usize = 0;
    let trimmed = trim_str(user_name);
    let me_name: String = if trimmed.len() == 0 {
        "Me".to_owned()
    } else {
        from_chars(&trimmed)
    };
    assert(me_name@ == me_label(user_name@));
    while i < clusters.len()
        invariant
            i <= clusters.len(),
            me_name@ == me_label(user_name@),
            names@.dom() == names_fold(clusters@.take(i as int), me, user_name@).0.dom(),
            forall|c: i32| #[trigger] names@.contains_key(c) ==> names@[c]@ == names_fold(
                clusters@.take(i as int),
                me,
                user_name@,
            ).0[c],
            n == names_fold(clusters@.take(i as int), me, user_name@).1,
            n <= i,
        decreases clusters.len() - i,
    {
        proof {
            assert(clusters@.take(i + 1).drop_last() == clusters@.take(i as int));
            assert(clusters@.take(i + 1).last() == clusters@[i as int]);
        }
        match clusters[i] {
            None => {},
            Some(c) => {
                if names.contains_key(&c) {
                } else if me == Some(c) {
                    names.insert(c, me_name.clone());
                } else {
                    n = n + 1;
                    let mut label = to_chars("Speaker ");
                    let d = dec_u64(n);
                    extend_chars(&mut label, &d);
                    names.insert(c, from_chars(&label));
                }
            },
        }
        i += 1;
    }
    assert(clusters@.take(clusters.len() as int) == clusters@);
    names
}

// ---------------------------------------------------------------- attendee lists

/// Attendees for prompts: the meeting's participants, then each transcript
/// speaker not already listed (exact match), in order of appearance.
pub open spec fn with_speakers(list: Seq<Seq<char>>, speakers: Seq<Seq<char>>) -> Seq<Seq<char>>
    decreases speakers.len(),
{
    if speakers.len() == 0 {
        list
    } else {
        let prev = with_speakers(list, speakers.drop_last());
        if prev.contains(speakers.last()) {
            prev
        } else {
            prev.push(speakers.last())
        }
    }
}

/// The attendees start with the participants as they were, hold every
/// transcript speaker, and add only speakers, none already listed before it.
pub proof fn lemma_with_speakers(list: Seq<Seq<char>>, speakers: Seq<Seq<char>>)
    ensures
        with_speakers(list, speakers).len() >= list.len(),
        with_speakers(list, speakers).take(list.len() as int) == list,
        forall|k: int| 0 <= k < speakers.len() ==> with_speakers(list, speakers).contains(#[trigger] speakers[k]),
        forall|i: int|
            list.len() <= i < with_speakers(list, speakers).len() ==> speakers.contains(
                #[trigger] with_speakers(list, speakers)[i],
            ) && !with_speakers(list, speakers).take(i).contains(with_speakers(list, speakers)[i]),
    decreases speakers.len(),
{
    if speakers.len() == 0 {
        assert(list.take(list.len() as int) =~= list);
    } else {
        let sp = speakers.drop_last();
        lemma_with_speakers(list, sp);
        let r0 = with_speakers(list, sp);
        let r = with_speakers(list, speakers);
        let x = speakers.last();
        if !r0.contains(x) {
            assert(r.take(list.len() as int) =~= r0.take(list.len() as int));
            assert(r.take(r0.len() as int) =~= r0);
        }
        assert forall|k: int| 0 <= k < speakers.len() implies r.contains(#[trigger] speakers[k]) by {
            if k < speakers.len() - 1 {
                assert(speakers[k] == sp[k]);
                assert(r0.contains(sp[k]));
                let t = choose|t: int| 0 <= t < r0.len() && r0[t] == sp[k];
                assert(r[t] == r0[t]);
            } else if r0.contains(x) {
            } else {
                assert(r[r.len() - 1] == x);
            }
        }
        assert forall|i: int| list.len() <= i < r.len() implies speakers.contains(#[trigger] r[i]) && !r.take(i).contains(
            r[i],
        ) by {
            if i < r0.len() {
                assert(r[i] == r0[i]);
                assert(r.take(i) =~= r0.take(i));
                let t = choose|t: int| 0 <= t < sp.len() && sp[t] == r0[i];
                assert(speakers[t] == sp[t]);
            } else {
                assert(r[i] == x);
                assert(r.take(i) =~= r0);
                assert(speakers[speakers.len() - 1] == x);
            }
        }
    }
}

fn contains_exact(list: &Vec<String>, x: &String) -> (r: bool)
    ensures
        r == strs(list@).contains(x@),
{
    let xc = to_chars(x.as_str());
    let mut i: usize = 0;
    while i < list.len()
        invariant
            i <= list.len(),
            xc@ == x@,
            forall|k: int| 0 <= k < i ==> strs(list@)[k] != x@,
        decreases list.len() - i,
    {
        let c = to_chars(list[i].as_str());
        if chars_eq(&c, &xc) {
            assert(strs(list@)[i as int] == x@);
            return true;
        }
        i += 1;
    }
    false
}

/// Add the transcript's speakers to the attendee list.
pub fn add_speakers(participants: Vec<String>, speakers: &Vec<String>) -> (r: Vec<String>)
    ensures
        strs(r@) == with_speakers(strs(participants@), strs(speakers@)),
{
    let mut out = participants;
    let ghost start = strs(out@);
    let mut i: usize = 0;
    while i < speakers.len()
        invariant
            i <= speakers.len(),
            strs(out@) == with_speakers(start, strs(speakers@).take(i as int)),
        decreases speakers.len() - i,
    {
        proof {
            let t = strs(speakers@).take(i + 1);
            assert(t.drop_last() == strs(speakers@).take(i as int));
            assert(t.last() == speakers@[i as int]@);
        }
        if !contains_exact(&out, &speakers[i]) {
            let ghost before = strs(out@);
            out.push(speakers[i].clone());
            assert(strs(out@) =~= before.push(speakers@[i as int]@));
        }
        i += 1;
    }
    assert(strs(speakers@).take(speakers.len() as int) == strs(speakers@));
    out
}

/// The attendee text of a prompt: the names comma-separated, or "unknown".
pub open spec fn attendees_text(list: Seq<Seq<char>>) -> Seq<char> {
    if list.len() == 0 {
        "unknown"@
    } else {
        join(list, ", "@)
    }
}

/// `participants.join(", ")`, or "unknown" for nobody.
pub fn participants_text(list: &Vec<String>) -> (r: String)
    ensures
        r@ == attendees_text(strs(list@)),
{
    if list.len() == 0 {
        return "unknown".to_owned();
    }
    let mut parts: Vec<Vec<char>> = Vec::new();
    let mut i: usize = 0;
    while i < list.len()
        invariant
            i <= list.len(),
            views(parts@) == strs(list@).take(i as int),
        decreases list.len() - i,
    {
        let ghost before = views(parts@);
        parts.push(to_chars(list[i].as_str()));
        assert(views(parts@) =~= before.push(list@[i as int]@));
        assert(strs(list@).take(i + 1) == strs(list@).take(i as int).push(list@[i as int]@));
        i += 1;
    }
    assert(strs(list@).take(list.len() as int) == strs(list@));
    let sep = to_chars(", ");
    let j = crate::text::join_chars(&parts, &sep);
    from_chars(&j)
}

/// Names found in a meeting window merged into the attendee list: each one
/// not already there (ignoring ASCII case) is appended.
pub open spec fn merged_names(list: Seq<Seq<char>>, names: Seq<Seq<char>>) -> Seq<Seq<char>>
    decreases names.len(),
{
    if names.len() == 0 {
        list
    } else {
        let prev = merged_names(list, names.drop_last());
        if has_name(prev, names.last()) {
            prev
        } else {
            prev.push(names.last())
        }
    }
}

/// Merge scraped attendee names into a list (the list grows only by names it lacks).
pub fn merge_names(list: Vec<String>, names: &Vec<String>) -> (r: Vec<String>)
    ensures
        strs(r@) == merged_names(strs(list@), strs(names@)),
{
    let mut out = list;
    let ghost start = strs(out@);
    let mut seen: Vec<Vec<char>> = Vec::new();
    let mut k: usize = 0;
    while k < out.len()
        invariant
            k <= out.len(),
            views(seen@) == strs(out@).take(k as int),
        decreases out.len() - k,
    {
        let ghost before = views(seen@);
        seen.push(to_chars(out[k].as_str()));
        assert(views(seen@) =~= before.push(out@[k as int]@));
        assert(strs(out@).take(k + 1) == strs(out@).take(k as int).push(out@[k as int]@));
        k += 1;
    }
    assert(strs(out@).take(out.len() as int) == strs(out@));
    let mut i: usize = 0;
    while i < names.len()
        invariant
            i <= names.len(),
            strs(out@) == merged_names(start, strs(names@).take(i as int)),
            views(seen@) == strs(out@),
        decreases names.len() - i,
    {
        proof {
            let t = strs(names@).take(i + 1);
            assert(t.drop_last() == strs(names@).take(i as int));
            assert(t.last() == names@[i as int]@);
        }
        let nc = to_chars(names[i].as_str());
        if !crate::meetings::contains_name(&seen, &nc) {
            let ghost before = strs(out@);
            let ghost sb = views(seen@);
            out.push(names[i].clone());
            seen.push(nc);
            assert(strs(out@) =~= before.push(names@[i as int]@));
            assert(views(seen@) =~= sb.push(names@[i as int]@));
        }
        i += 1;
    }
    assert(strs(names@).take(names.len() as int) == strs(names@));
    out
}

} // verus!

verus! {

// ---------------------------------------------------------------- recovery

/// What to do with a meeting found unfinished at startup.
#[derive(Clone, Copy, Debug, PartialEq, Eq, Structural)]
pub enum Recovery {
    /// Not interrupted: leave it.
    Skip,
    /// Interrupted mid-pipeline with its audio present: run the pipeline again.
    Resume,
    /// Interrupted while recording with usable audio: store the updated
    /// meeting and run the pipeline.
    Finish,
    /// Nothing usable: store the meeting, now failed.
    GiveUp,
}

/// Milliseconds of audio in a WAV file of `samples` interleaved samples.
pub open spec fn recorded_duration_of(samples: u32, sample_rate: u32, channels: u16) -> int {
    let rate = if sample_rate == 0 { 1 } else { sample_rate as int };
    let ch = if channels == 0 { 1 } else { channels as int };
    (samples as int * 1000) / (rate * ch)
}

/// Length of an orphaned recording's mix.
pub fn recorded_duration_ms(samples: u32, sample_rate: u32, channels: u16) -> (r: i64)
    ensures
        r == recorded_duration_of(samples, sample_rate, channels),
{
    let rate: i64 = if sample_rate == 0 { 1 } else { sample_rate as i64 };
    let ch: i64 = if channels == 0 { 1 } else { channels as i64 };
    assert(rate * ch > 0 && rate * ch <= 0xffff_ffff * 0xffff) by (nonlinear_arith)
        requires
            1 <= rate <= 0xffff_ffff,
            1 <= ch <= 0xffff,
    ;
    (samples as i64 * 1000) / (rate * ch)
}

/// Milliseconds of audio in an imported file's converted mix: whole frames
/// over the sample rate.
pub open spec fn imported_duration_of(samples: u32, sample_rate: u32, channels: u16) -> int {
    let rate = if sample_rate == 0 { 1 } else { sample_rate as int };
    let ch = if channels == 0 { 1 } else { channels as int };
    ((samples as int / ch) * 1000) / rate
}

/// Length of an imported file's mix.
pub fn imported_duration_ms(samples: u32, sample_rate: u32, channels: u16) -> (r: i64)
    ensures
        r == imported_duration_of(samples, sample_rate, channels),
{
    let rate: i64 = if sample_rate == 0 { 1 } else { sample_rate as i64 };
    let ch: i64 = if channels == 0 { 1 } else { channels as i64 };
    let frames: i64 = samples as i64 / ch;
    assert(frames <= samples) by (nonlinear_arith)
        requires
            ch >= 1,
            frames == samples as int / (ch as int),
            samples >= 0,
    ;
    (frames * 1000) / rate
}

/// Error stored when processing was interrupted and the audio is gone.
pub const MISSING_AUDIO: &'static str = "Processing was interrupted and the audio file is missing.";

/// Error stored when a recording was interrupted before any audio was saved.
pub const NO_AUDIO: &'static str = "Recording was interrupted before any audio was saved.";

/// Recover a meeting left `Recording` or `Processing` by a crash, from what
/// is on disk: whether `mix.wav` exists, its length, the file's time
/// (`ended_at`), and whether a screen video exists. A processing meeting
/// without audio fails; one with audio resumes. A recording shorter than a
/// second fails; a longer one gets its length and end, turns `Processing`,
/// keeps or gains its video, and is finished.
pub fn recover_meeting(
    m: &mut crate::meetings::Meeting,
    mix_exists: bool,
    duration_ms: i64,
    ended_at: i64,
    video_file: bool,
) -> (r: Recovery)
    ensures
        old(m).status == MeetingStatus::Processing ==> (if mix_exists {
            r == Recovery::Resume && *final(m) == *old(m)
        } else {
            r == Recovery::GiveUp && final(m).error.is_some() && final(m).error.unwrap()@ == MISSING_AUDIO@
                && *final(m) == (crate::meetings::Meeting {
                status: MeetingStatus::Failed,
                error: final(m).error,
                ..*old(m)
            })
        }),
        old(m).status == MeetingStatus::Recording ==> (if duration_ms < 1000 {
            r == Recovery::GiveUp && final(m).error.is_some() && final(m).error.unwrap()@ == NO_AUDIO@
                && *final(m) == (crate::meetings::Meeting {
                status: MeetingStatus::Failed,
                error: final(m).error,
                ..*old(m)
            })
        } else {
            r == Recovery::Finish && *final(m) == (crate::meetings::Meeting {
                duration_ms,
                ended_at: Some(ended_at),
                status: MeetingStatus::Processing,
                has_video: old(m).has_video || video_file,
                ..*old(m)
            })
        }),
        old(m).status == MeetingStatus::Ready || old(m).status == MeetingStatus::Failed ==> r
            == Recovery::Skip && *final(m) == *old(m),
{
    match m.status {
        MeetingStatus::Processing => {
            if mix_exists {
                Recovery::Resume
            } else {
                m.status = MeetingStatus::Failed;
                m.error = Some(MISSING_AUDIO.to_owned());
                Recovery::GiveUp
            }
        },
        MeetingStatus::Recording => {
            if duration_ms < 1000 {
                m.status = MeetingStatus::Failed;
                m.error = Some(NO_AUDIO.to_owned());
                Recovery::GiveUp
            } else {
                m.duration_ms = duration_ms;
                m.ended_at = Some(ended_at);
                m.status = MeetingStatus::Processing;
                m.has_video = m.has_video || video_file;
                Recovery::Finish
            }
        },
        _ => Recovery::Skip,
    }
}

// ---------------------------------------------------------------- labels

/// Human label for a detected app id ("zoom" -> "Zoom"); unknown ids stay.
pub open spec fn app_label_of(app: Seq<char>) -> Seq<char> {
    if app == "zoom"@ {
        "Zoom"@
    } else if app == "teams"@ {
        "Microsoft Teams"@
    } else if app == "meet"@ {
        "Google Meet"@
    } else if app == "webex"@ {
        "Webex"@
    } else if app == "discord"@ {
        "Discord"@
    } else if app == "slack"@ {
        "Slack"@
    } else if app == "facetime"@ {
        "FaceTime"@
    } else {
        app
    }
}

/// Human label for a detected app id.
pub fn app_label(app: &str) -> (r: &str)
    ensures
        r@ == app_label_of(app@),
{
    if crate::text::str_eq(app, "zoom") {
        "Zoom"
    } else if crate::text::str_eq(app, "teams") {
        "Microsoft Teams"
    } else if crate::text::str_eq(app, "meet") {
        "Google Meet"
    } else if crate::text::str_eq(app, "webex") {
        "Webex"
    } else if crate::text::str_eq(app, "discord") {
        "Discord"
    } else if crate::text::str_eq(app, "slack") {
        "Slack"
    } else if crate::text::str_eq(app, "facetime") {
        "FaceTime"
    } else {
        app
    }
}

/// Uppercase of a character (`char::to_uppercase`, one or more characters).
pub uninterp spec fn spec_upper(c: char) -> Seq<char>;

/// `c.to_uppercase()` collected into a string (Unicode case mapping). An
/// ASCII lowercase letter maps to its uppercase letter; any other ASCII
/// character has no uppercase mapping and stays as it is.
#[verifier::external_body]
fn upper(c: char) -> (r: String)
    ensures
        r@ == spec_upper(c),
        'a' <= c <= 'z' ==> r@ == seq![((c as u32) - 32) as char],
        (c as u32) < 128 && !('a' <= c <= 'z') ==> r@ == seq![c],
{
    c.to_uppercase().collect()
}

/// `s` with its first character uppercased.
pub open spec fn capitalized(s: Seq<char>) -> Seq<char> {
    if s.len() == 0 {
        s
    } else {
        spec_upper(s[0]) + s.drop_first()
    }
}

/// Capitalize the first character ("zoom" -> "Zoom").
pub fn capitalize(s: &str) -> (r: String)
    ensures
        r@ == capitalized(s@),
        s@.len() > 0 && 'a' <= s@[0] <= 'z' ==> r@ == seq![((s@[0] as u32) - 32) as char] + s@.drop_first(),
        s@.len() > 0 && (s@[0] as u32) < 128 && !('a' <= s@[0] <= 'z') ==> r@ == s@,
{
    let v = to_chars(s);
    if v.len() == 0 {
        return String::new();
    }
    let first = upper(v[0]);
    let mut out = to_chars(first.as_str());
    let rest = crate::text::slice_chars(&v, 1, v.len());
    extend_chars(&mut out, &rest);
    assert(rest@ == s@.drop_first());
    from_chars(&out)
}

} // verus!

verus! {

// ---------------------------------------------------------------- transcript

/// A transcribed caption: start, end, text.
pub open spec fn caption_view(c: (i64, i64, String)) -> (i64, i64, Seq<char>) {
    (c.0, c.1, c.2@)
}

/// Captions with some non-blank text, in order.
pub open spec fn spoken(cs: Seq<(i64, i64, String)>) -> Seq<(i64, i64, Seq<char>)>
    decreases cs.len(),
{
    if cs.len() == 0 {
        Seq::empty()
    } else {
        let prev = spoken(cs.drop_last());
        if trim(cs.last().2@).len() > 0 {
            prev.push(caption_view(cs.last()))
        } else {
            prev
        }
    }
}

/// The speech captions are exactly the captions whose text is not blank,
/// in their order: each kept one is a caption with non-blank text, and each
/// caption with non-blank text is kept.
pub proof fn lemma_spoken(cs: Seq<(i64, i64, String)>)
    ensures
        spoken(cs).len() <= cs.len(),
        forall|i: int|
            0 <= i < spoken(cs).len() ==> trim((#[trigger] spoken(cs)[i]).2).len() > 0 && exists|j: int|
                0 <= j < cs.len() && spoken(cs)[i] == ((#[trigger] cs[j]).0, cs[j].1, cs[j].2@),
        forall|j: int|
            0 <= j < cs.len() && trim((#[trigger] cs[j]).2@).len() > 0 ==> spoken(cs).contains((cs[j].0, cs[j].1, cs[j].2@)),
    decreases cs.len(),
{
    if cs.len() > 0 {
        let p = cs.drop_last();
        lemma_spoken(p);
        let r0 = spoken(p);
        let r = spoken(cs);
        assert forall|i: int| 0 <= i < r.len() implies trim((#[trigger] r[i]).2).len() > 0 && exists|j: int|
            0 <= j < cs.len() && r[i] == ((#[trigger] cs[j]).0, cs[j].1, cs[j].2@) by {
            if i < r0.len() {
                assert(r[i] == r0[i]);
                let j = choose|j: int| 0 <= j < p.len() && r0[i] == ((#[trigger] p[j]).0, p[j].1, p[j].2@);
                assert(cs[j] == p[j]);
            } else {
                assert(cs[cs.len() - 1] == cs.last());
            }
        }
        assert forall|j: int| 0 <= j < cs.len() && trim((#[trigger] cs[j]).2@).len() > 0 implies r.contains(
            (cs[j].0, cs[j].1, cs[j].2@),
        ) by {
            if j < cs.len() - 1 {
                assert(cs[j] == p[j]);
                assert(r0.contains((p[j].0, p[j].1, p[j].2@)));
                let t = choose|t: int| 0 <= t < r0.len() && r0[t] == (p[j].0, p[j].1, p[j].2@);
                assert(r[t] == r0[t]);
            } else {
                assert(r[r.len() - 1] == (cs[j].0, cs[j].1, cs[j].2@));
            }
        }
    }
}

/// The captions by what they say.
pub open spec fn caption_views(cs: Seq<(i64, i64, String)>) -> Seq<(i64, i64, Seq<char>)> {
    cs.map_values(|c: (i64, i64, String)| caption_view(c))
}

/// Drop captions whose text is blank.
pub fn speech_captions(captions: Vec<(i64, i64, String)>) -> (r: Vec<(i64, i64, String)>)
    ensures
        caption_views(r@) == spoken(captions@),
{
    let mut out: Vec<(i64, i64, String)> = Vec::new();
    let mut i: usize = 0;
    while i < captions.len()
        invariant
            i <= captions.len(),
            caption_views(out@) == spoken(captions@.take(i as int)),
        decreases captions.len() - i,
    {
        proof {
            assert(captions@.take(i + 1).drop_last() == captions@.take(i as int));
            assert(captions@.take(i + 1).last() == captions@[i as int]);
        }
        let t = trim_str(captions[i].2.as_str());
        if t.len() > 0 {
            let ghost before = caption_views(out@);
            let c = (captions[i].0, captions[i].1, captions[i].2.clone());
            out.push(c);
            assert(caption_views(out@) =~= before.push(caption_view(captions@[i as int])));
        }
        i += 1;
    }
    assert(captions@.take(captions.len() as int) == captions@);
    out
}

/// The speaker label of the caption at `i`: its cluster's name, if it has
/// a cluster with a name.
pub open spec fn label_at(clusters: Seq<Option<i32>>, names: Map<i32, String>, i: int) -> Option<Seq<char>> {
    if i < clusters.len() {
        match clusters[i] {
            Some(c) => if names.contains_key(c) {
                Some(names[c]@)
            } else {
                None
            },
            None => None,
        }
    } else {
        None
    }
}

/// A segment to store, by what it holds.
pub open spec fn new_segment_view(s: crate::search::NewSegment) -> (i64, i64, Option<Seq<char>>, Seq<char>) {
    (s.start_ms, s.end_ms, match s.speaker {
        Some(x) => Some(x@),
        None => None,
    }, s.text@)
}

/// The transcript to store: each caption with the label of its cluster.
/// Captions past the end of `clusters` have no speaker.
pub fn transcript_segments(
    captions: &Vec<(i64, i64, String)>,
    clusters: &Vec<Option<i32>>,
    names: &BTreeMap<i32, String>,
) -> (r: Vec<crate::search::NewSegment>)
    requires
        clusters.len() <= captions.len(),
    ensures
        r.len() == captions.len(),
        forall|i: int|
            0 <= i < captions.len() ==> #[trigger] new_segment_view(r@[i]) == (
                captions@[i].0,
                captions@[i].1,
                label_at(clusters@, names@, i),
                captions@[i].2@,
            ),
{
    proof {
        crate::keys::lemma_i32_keys_ordered();
    }
    let mut out: Vec<crate::search::NewSegment> = Vec::new();
    let mut i: usize = 0;
    while i < captions.len()
        invariant
            i <= captions.len(),
            out.len() == i,
            forall|k: int|
                0 <= k < i ==> #[trigger] new_segment_view(out@[k]) == (
                    captions@[k].0,
                    captions@[k].1,
                    label_at(clusters@, names@, k),
                    captions@[k].2@,
                ),
        decreases captions.len() - i,
    {
        let speaker: Option<String> = if i < clusters.len() {
            match clusters[i] {
                Some(c) => match names.get(&c) {
                    Some(n) => Some(n.clone()),
                    None => None,
                },
                None => None,
            }
        } else {
            None
        };
        out.push(crate::search::NewSegment {
            start_ms: captions[i].0,
            end_ms: captions[i].1,
            speaker,
            text: captions[i].2.clone(),
        });
        i += 1;
    }
    out
}

/// Whether a failed speaker detection is worth telling the user about: not
/// when it failed only because its models are not downloaded.
pub fn diarize_failure_shown(error: &str) -> (r: bool)
    ensures
        r == !crate::commands::has_sub(error@, "not downloaded"@),
{
    let e = to_chars(error);
    let p = to_chars("not downloaded");
    !crate::commands::contains_sub(&e, &p)
}

} // verus!

verus! {

// ---------------------------------------------------------------- stages

/// A stage of post-call processing, as the windows are told of it.
#[derive(Clone, Copy, Debug, PartialEq, Eq, Structural)]
pub enum Stage {
    Mux,
    Transcribe,
    Diarize,
    Cleanup,
    Done,
    Failed,
}

/// The stage after `s`, given whether the work of `s` succeeded: muxing
/// the screen video fails soft; transcription must read the audio and
/// transcribe it; the diarize stage ends by saving the transcript, which
/// must succeed (the meeting is then ready); cleanup fails soft.
pub open spec fn stage_after_of(s: Stage, ok: bool) -> Stage {
    match s {
        Stage::Mux => Stage::Transcribe,
        Stage::Transcribe => if ok { Stage::Diarize } else { Stage::Failed },
        Stage::Diarize => if ok { Stage::Cleanup } else { Stage::Failed },
        Stage::Cleanup => Stage::Done,
        Stage::Done => Stage::Done,
        Stage::Failed => Stage::Failed,
    }
}

/// The next stage of processing.
pub fn stage_after(s: Stage, ok: bool) -> (r: Stage)
    ensures
        r == stage_after_of(s, ok),
{
    match s {
        Stage::Mux => Stage::Transcribe,
        Stage::Transcribe => if ok { Stage::Diarize } else { Stage::Failed },
        Stage::Diarize => if ok { Stage::Cleanup } else { Stage::Failed },
        Stage::Cleanup => Stage::Done,
        Stage::Done => Stage::Done,
        Stage::Failed => Stage::Failed,
    }
}

/// The stage's name and its progress in thousandths, as the windows show them.
pub fn stage_label(s: Stage) -> (r: (&'static str, u32))
    ensures
        r.0@ == (match s {
            Stage::Mux => "mux"@,
            Stage::Transcribe => "transcribe"@,
            Stage::Diarize => "diarize"@,
            Stage::Cleanup => "cleanup"@,
            Stage::Done => "done"@,
            Stage::Failed => "failed"@,
        }),
        r.1 == (match s {
            Stage::Mux => 20u32,
            Stage::Transcribe => 100u32,
            Stage::Diarize => 450u32,
            Stage::Cleanup => 750u32,
            Stage::Done => 1000u32,
            Stage::Failed => 1000u32,
        }),
{
    match s {
        Stage::Mux => ("mux", 20),
        Stage::Transcribe => ("transcribe", 100),
        Stage::Diarize => ("diarize", 450),
        Stage::Cleanup => ("cleanup", 750),
        Stage::Done => ("done", 1000),
        Stage::Failed => ("failed", 1000),
    }
}

/// Speaker detection runs when it is enabled and something was said.
pub fn runs_diarization(enabled: bool, captions: usize) -> (r: bool)
    ensures
        r == (enabled && captions > 0),
{
    enabled && captions > 0
}

/// Transcript cleanup runs when it is enabled and there is a transcript.
pub fn runs_cleanup(enabled: bool, segments: usize) -> (r: bool)
    ensures
        r == (enabled && segments > 0),
{
    enabled && segments > 0
}

/// The stage reached after four steps from `s`, the work of each step
/// succeeding as `oks` says.
pub open spec fn after_four(s: Stage, oks: (bool, bool, bool, bool)) -> Stage {
    stage_after_of(stage_after_of(stage_after_of(stage_after_of(s, oks.0), oks.1), oks.2), oks.3)
}

/// Processing from the start ends, after at most four steps, done or
/// failed, and it fails only when transcription or saving the transcript did.
pub proof fn lemma_processing_ends(oks: (bool, bool, bool, bool))
    ensures
        after_four(Stage::Mux, oks) == Stage::Done || after_four(Stage::Mux, oks) == Stage::Failed,
        after_four(Stage::Mux, oks) == Stage::Failed <==> !(oks.1 && oks.2),
{
}

} // verus!
