//! Folders, tags and share tokens.

use vstd::prelude::*;
use crate::meetings::{strs, Meeting};
use crate::text::{chars_eq, eq_ignore_case, from_chars, to_chars, trim, trim_str, views};

verus! {

/// A folder of meetings; folders nest through `parent_id`.
pub struct Folder {
    pub id: String,
    pub name: String,
    pub parent_id: Option<String>,
    pub default_template_id: Option<String>,
    pub meeting_count: i64,
}

/// A tag, with the number of meetings that carry it.
pub struct Tag {
    pub id: String,
    pub name: String,
    pub meeting_count: i64,
}

/// A share link. Times are milliseconds since the Unix epoch (UTC).
pub struct Share {
    pub token: String,
    pub meeting_id: String,
    pub meeting_title: String,
    /// "meeting" | "clip"
    pub kind: String,
    pub start_ms: Option<i64>,
    pub end_ms: Option<i64>,
    pub enabled: bool,
    pub created_at: i64,
}

/// Filter for `list_meetings_filtered`.
pub struct MeetingFilter {
    /// `Some(None)` = unfiled meetings only; `Some(Some(id))` = folder subtree; `None` = everything.
    pub folder: Option<Option<String>>,
    pub tag_id: Option<String>,
}

// ---------------------------------------------------------------- subtrees

/// Folder `c` is a direct child of folder `parent`.
pub open spec fn child_of(fs: Seq<Folder>, parent: Seq<char>, c: Seq<char>) -> bool {
    exists|j: int|
        0 <= j < fs.len() && (#[trigger] fs[j]).parent_id.is_some() && fs[j].parent_id.unwrap()@
            == parent && fs[j].id@ == c
}

/// `p` walks down from folder to child folder.
pub open spec fn is_chain(fs: Seq<Folder>, p: Seq<Seq<char>>) -> bool {
    &&& p.len() >= 1
    &&& forall|k: int| 0 <= k < p.len() - 1 ==> #[trigger] child_of(fs, p[k], p[k + 1])
}

/// `x` is `root` or one of its descendants.
pub open spec fn in_subtree(fs: Seq<Folder>, root: Seq<char>, x: Seq<char>) -> bool {
    exists|p: Seq<Seq<char>>| #[trigger] is_chain(fs, p) && p[0] == root && p.last() == x
}

proof fn lemma_chain_extend(fs: Seq<Folder>, p: Seq<Seq<char>>, c: Seq<char>)
    requires
        is_chain(fs, p),
        child_of(fs, p.last(), c),
    ensures
        is_chain(fs, p.push(c)),
{
    let q = p.push(c);
    assert forall|k: int| 0 <= k < q.len() - 1 implies #[trigger] child_of(fs, q[k], q[k + 1]) by {
        if k < p.len() - 1 {
            assert(q[k] == p[k] && q[k + 1] == p[k + 1]);
        } else {
            assert(q[k] == p.last() && q[k + 1] == c);
        }
    }
}

/// A set of folders that holds the children of each of its members holds
/// the whole chain down from any member.
proof fn lemma_closed_holds_chain(fs: Seq<Folder>, s: Seq<Seq<char>>, p: Seq<Seq<char>>)
    requires
        is_chain(fs, p),
        s.contains(p[0]),
        forall|a: Seq<char>, c: Seq<char>| s.contains(a) && child_of(fs, a, c) ==> s.contains(c),
    ensures
        s.contains(p.last()),
    decreases p.len(),
{
    if p.len() > 1 {
        let q = p.drop_last();
        assert forall|k: int| 0 <= k < q.len() - 1 implies #[trigger] child_of(fs, q[k], q[k + 1]) by {
            assert(q[k] == p[k] && q[k + 1] == p[k + 1]);
        }
        lemma_closed_holds_chain(fs, s, q);
        let k = p.len() - 2;
        assert(child_of(fs, p[k], p[k + 1]));
    }
}

/// Distinct members of a sequence of size `n` number at most `n`.
proof fn lemma_distinct_within(s: Seq<Seq<char>>, pool: Seq<Seq<char>>)
    requires
        s.no_duplicates(),
        forall|k: int| 0 <= k < s.len() ==> pool.contains(#[trigger] s[k]),
    ensures
        s.len() <= pool.len(),
{
    s.unique_seq_to_set();
    pool.lemma_cardinality_of_set();
    assert(s.to_set().subset_of(pool.to_set())) by {
        assert forall|x: Seq<char>| s.to_set().contains(x) implies pool.to_set().contains(x) by {
            let k = choose|k: int| 0 <= k < s.len() && s[k] == x;
            assert(pool.contains(s[k]));
        }
    }
    vstd::set_lib::lemma_len_subset(s.to_set(), pool.to_set());
}

fn contains_chars(list: &Vec<Vec<char>>, x: &Vec<char>) -> (r: bool)
    ensures
        r == views(list@).contains(x@),
{
    let mut i: usize = 0;
    while i < list.len()
        invariant
            i <= list.len(),
            forall|k: int| 0 <= k < i ==> views(list@)[k] != x@,
        decreases list.len() - i,
    {
        if chars_eq(&list[i], x) {
            assert(views(list@)[i as int] == x@);
            return true;
        }
        i += 1;
    }
    false
}

/// `d[k]` is the place of the first folder listed before `s[k]` that is
/// its parent, and these places never decrease along the list.
pub open spec fn first_parents(fs: Seq<Folder>, s: Seq<Seq<char>>, d: Seq<int>) -> bool {
    &&& d.len() == s.len()
    &&& forall|k: int| 1 <= k < s.len() ==> 0 <= #[trigger] d[k] < k && child_of(fs, s[d[k]], s[k])
    &&& forall|k: int, p: int| 1 <= k < s.len() && 0 <= p < d[k] ==> !#[trigger] child_of(fs, s[p], s[k])
    &&& forall|k1: int, k2: int| 1 <= k1 <= k2 < s.len() ==> #[trigger] d[k1] <= #[trigger] d[k2]
}

/// Breadth-first order: every folder after the first comes after one of
/// its parents, and the folders come in the order of their first parents.
pub open spec fn breadth_first(fs: Seq<Folder>, s: Seq<Seq<char>>) -> bool {
    exists|d: Seq<int>| first_parents(fs, s, d)
}

/// `first_parents`, with every first parent no later than `upto`.
spec fn discovered(fs: Seq<Folder>, s: Seq<Seq<char>>, d: Seq<int>, upto: int) -> bool {
    &&& first_parents(fs, s, d)
    &&& forall|k: int| 1 <= k < s.len() ==> #[trigger] d[k] <= upto
}

/// The folder and all its descendants: `id` first, each folder once.
pub fn folder_subtree(id: &str, folders: &Vec<Folder>) -> (out: Vec<String>)
    ensures
        out@.len() >= 1,
        out@[0]@ == id@,
        strs(out@).no_duplicates(),
        forall|x: Seq<char>| strs(out@).contains(x) <==> in_subtree(folders@, id@, x),
        breadth_first(folders@, strs(out@)),
{
    let ghost fs = folders@;
    // Folder ids and parents as characters.
    let mut ids: Vec<Vec<char>> = Vec::new();
    let mut parents: Vec<Option<Vec<char>>> = Vec::new();
    let mut j: usize = 0;
    while j < folders.len()
        invariant
            fs == folders@,
            j <= folders.len(),
            ids@.len() == j,
            parents@.len() == j,
            forall|k: int| 0 <= k < j ==> (#[trigger] ids@[k])@ == fs[k].id@,
            forall|k: int|
                0 <= k < j ==> (#[trigger] parents@[k]).is_some() == fs[k].parent_id.is_some(),
            forall|k: int|
                0 <= k < j && parents@[k].is_some() ==> (#[trigger] parents@[k]).unwrap()@
                    == fs[k].parent_id.unwrap()@,
        decreases folders.len() - j,
    {
        ids.push(to_chars(folders[j].id.as_str()));
        let p = match &folders[j].parent_id {
            Some(p) => Some(to_chars(p.as_str())),
            None => None,
        };
        parents.push(p);
        j += 1;
    }
    let ghost pool = views(ids@).push(id@);
    assert forall|k: int| 0 <= k < fs.len() implies #[trigger] pool.contains(fs[k].id@) by {
        assert(pool[k] == fs[k].id@);
    }
    let root = to_chars(id);
    let mut out: Vec<Vec<char>> = Vec::new();
    out.push(root);
    proof {
        let p = seq![id@];
        assert(is_chain(fs, p));
        assert(views(out@) =~= seq![id@]);
        assert(pool[views(ids@).len() as int] == id@);
        assert(pool.contains(id@));
        assert(in_subtree(fs, id@, id@));
    }
    let ghost mut d: Seq<int> = seq![0int];
    let mut i: usize = 0;
    while i < out.len()
        invariant
            discovered(fs, views(out@), d, i as int),
            fs == folders@,
            ids@.len() == fs.len(),
            parents@.len() == fs.len(),
            forall|k: int| 0 <= k < fs.len() ==> (#[trigger] ids@[k])@ == fs[k].id@,
            forall|k: int|
                0 <= k < fs.len() ==> (#[trigger] parents@[k]).is_some()
                    == fs[k].parent_id.is_some(),
            forall|k: int|
                0 <= k < fs.len() && parents@[k].is_some() ==> (#[trigger] parents@[k]).unwrap()@
                    == fs[k].parent_id.unwrap()@,
            pool == views(ids@).push(id@),
            forall|k: int| 0 <= k < fs.len() ==> #[trigger] pool.contains(fs[k].id@),
            out@.len() >= 1,
            views(out@)[0] == id@,
            i <= out@.len(),
            views(out@).no_duplicates(),
            forall|k: int| 0 <= k < out@.len() ==> pool.contains(#[trigger] views(out@)[k]),
            forall|k: int| 0 <= k < out@.len() ==> in_subtree(fs, id@, #[trigger] views(out@)[k]),
            forall|k: int, c: Seq<char>|
                0 <= k < i && #[trigger] child_of(fs, views(out@)[k], c) ==> views(
                    out@,
                ).contains(c),
        decreases pool.len() - i,
    {
        proof {
            lemma_distinct_within(views(out@), pool);
        }
        let cur = out[i].clone();
        let ghost curv = cur@;
        assert(curv == views(out@)[i as int]);
        let mut j: usize = 0;
        while j < folders.len()
            invariant
                discovered(fs, views(out@), d, i as int),
                fs == folders@,
                ids@.len() == fs.len(),
                parents@.len() == fs.len(),
                forall|k: int| 0 <= k < fs.len() ==> (#[trigger] ids@[k])@ == fs[k].id@,
                forall|k: int|
                    0 <= k < fs.len() ==> (#[trigger] parents@[k]).is_some()
                        == fs[k].parent_id.is_some(),
                forall|k: int|
                    0 <= k < fs.len() && parents@[k].is_some() ==> (
                    #[trigger] parents@[k]).unwrap()@ == fs[k].parent_id.unwrap()@,
                pool == views(ids@).push(id@),
                forall|k: int| 0 <= k < fs.len() ==> #[trigger] pool.contains(fs[k].id@),
                j <= fs.len(),
                cur@ == curv,
                i < out@.len(),
                views(out@)[i as int] == curv,
                out@.len() >= 1,
                views(out@)[0] == id@,
                views(out@).no_duplicates(),
                forall|k: int| 0 <= k < out@.len() ==> pool.contains(#[trigger] views(out@)[k]),
                forall|k: int|
                    0 <= k < out@.len() ==> in_subtree(fs, id@, #[trigger] views(out@)[k]),
                forall|k: int, c: Seq<char>|
                    0 <= k < i && #[trigger] child_of(fs, views(out@)[k], c) ==> views(
                        out@,
                    ).contains(c),
                forall|m: int|
                    0 <= m < j && (#[trigger] fs[m]).parent_id.is_some() && fs[m].parent_id.unwrap()@
                        == curv ==> views(out@).contains(fs[m].id@),
            decreases fs.len() - j,
        {
            let is_child = match &parents[j] {
                Some(p) => chars_eq(p, &cur),
                None => false,
            };
            if is_child {
                let fid = ids[j].clone();
                if !contains_chars(&out, &fid) {
                    let ghost before = views(out@);
                    proof {
                        assert(child_of(fs, curv, fid@)) by {
                            assert(fs[j as int].parent_id.unwrap()@ == curv);
                        }
                        let p = choose|p: Seq<Seq<char>>|
                            #[trigger] is_chain(fs, p) && p[0] == id@ && p.last() == curv;
                        lemma_chain_extend(fs, p, fid@);
                        assert(is_chain(fs, p.push(fid@)) && p.push(fid@)[0] == id@ && p.push(
                            fid@,
                        ).last() == fid@);
                    }
                    out.push(fid);
                    proof {
                        assert(views(out@) =~= before.push(fid@));
                        let d0 = d;
                        d = d.push(i as int);
                        let sv = views(out@);
                        assert forall|p: int| 0 <= p < i implies !child_of(fs, sv[p], fid@) by {
                            assert(sv[p] == before[p]);
                            if child_of(fs, before[p], fid@) {
                                assert(before.contains(fid@));
                            }
                        }
                        assert forall|k: int|
                            1 <= k < sv.len() implies 0 <= #[trigger] d[k] < k && d[k] <= i && child_of(fs, sv[d[k]], sv[k]) by {
                            if k < before.len() {
                                assert(d[k] == d0[k] && sv[k] == before[k] && sv[d[k]] == before[d0[k]]);
                            } else {
                                assert(sv[k] == fid@ && sv[d[k]] == before[i as int]);
                            }
                        }
                        assert forall|k: int, p: int| 1 <= k < sv.len() && 0 <= p < d[k] implies !#[trigger] child_of(fs, sv[p], sv[k]) by {
                            if k < before.len() {
                                assert(d[k] == d0[k] && sv[k] == before[k] && sv[p] == before[p]);
                            } else {
                                assert(sv[k] == fid@);
                            }
                        }
                        assert forall|k1: int, k2: int| 1 <= k1 <= k2 < sv.len() implies #[trigger] d[k1] <= #[trigger] d[k2] by {
                            if k2 < before.len() {
                                assert(d[k1] == d0[k1] && d[k2] == d0[k2]);
                            } else if k1 < before.len() {
                                assert(d[k1] == d0[k1]);
                            }
                        }
                        assert(discovered(fs, sv, d, i as int));
                        assert forall|a: int, b: int|
                            0 <= a < b < views(out@).len() implies views(out@)[a] != views(
                            out@,
                        )[b] by {
                            if b == before.len() {
                                assert(views(out@)[a] == before[a]);
                                assert(!before.contains(fid@));
                            } else {
                                assert(before.no_duplicates());
                            }
                        }
                        assert forall|k: int, c: Seq<char>|
                            0 <= k < i && #[trigger] child_of(fs, views(out@)[k], c) implies views(
                            out@,
                        ).contains(c) by {
                            assert(views(out@)[k] == before[k]);
                            if before.contains(c) {
                                let w = choose|w: int| 0 <= w < before.len() && before[w] == c;
                                assert(views(out@)[w] == c);
                            }
                        }
                        assert forall|m: int|
                            0 <= m <= j && (#[trigger] fs[m]).parent_id.is_some()
                                && fs[m].parent_id.unwrap()@ == curv implies views(out@).contains(
                            fs[m].id@,
                        ) by {
                            if m == j {
                                assert(views(out@)[before.len() as int] == fs[m].id@);
                            } else {
                                let w = choose|w: int|
                                    0 <= w < before.len() && before[w] == fs[m].id@;
                                assert(views(out@)[w] == fs[m].id@);
                            }
                        }
                    }
                } else {
                    assert(views(out@).contains(fs[j as int].id@));
                }
            }
            j += 1;
        }
        proof {
            assert forall|k: int, c: Seq<char>|
                0 <= k < i + 1 && #[trigger] child_of(fs, views(out@)[k], c) implies views(
                out@,
            ).contains(c) by {
                if k == i {
                    let m = choose|m: int|
                        0 <= m < fs.len() && (#[trigger] fs[m]).parent_id.is_some()
                            && fs[m].parent_id.unwrap()@ == curv && fs[m].id@ == c;
                    assert(fs[m].parent_id.unwrap()@ == curv);
                }
            }
        }
        i += 1;
    }
    proof {
        let s = views(out@);
        assert forall|a: Seq<char>, c: Seq<char>|
            s.contains(a) && child_of(fs, a, c) implies s.contains(c) by {
            let k = choose|k: int| 0 <= k < s.len() && s[k] == a;
            assert(child_of(fs, s[k], c));
        }
        assert forall|x: Seq<char>| in_subtree(fs, id@, x) implies s.contains(x) by {
            let p = choose|p: Seq<Seq<char>>| #[trigger] is_chain(fs, p) && p[0] == id@ && p.last() == x;
            assert(s[0] == id@);
            lemma_closed_holds_chain(fs, s, p);
        }
    }
    // Back to strings.
    let mut r: Vec<String> = Vec::new();
    let mut k: usize = 0;
    while k < out.len()
        invariant
            k <= out.len(),
            strs(r@) == views(out@).take(k as int),
        decreases out.len() - k,
    {
        let ghost before = strs(r@);
        r.push(from_chars(&out[k]));
        assert(strs(r@) =~= before.push(views(out@)[k as int]));
        assert(views(out@).take(k + 1) == views(out@).take(k as int).push(views(out@)[k as int]));
        k += 1;
    }
    assert(views(out@).take(out.len() as int) == views(out@));
    proof {
        assert(first_parents(fs, views(out@), d));
        assert forall|x: Seq<char>| strs(r@).contains(x) implies in_subtree(fs, id@, x) by {
            let w = choose|w: int| 0 <= w < strs(r@).len() && strs(r@)[w] == x;
            assert(in_subtree(fs, id@, views(out@)[w]));
        }
    }
    r
}

} // verus!

verus! {

// ---------------------------------------------------------------- filtering meetings

/// Does `list` hold `x`?
pub open spec fn holds(list: Seq<String>, x: Seq<char>) -> bool {
    strs(list).contains(x)
}

/// A meeting passes the folder part of a filter: everything, unfiled
/// meetings only, or meetings filed somewhere in the folder's subtree.
pub open spec fn folder_ok(filter: MeetingFilter, fs: Seq<Folder>, m: Meeting) -> bool {
    match filter.folder {
        None => true,
        Some(None) => m.folder_id.is_none(),
        Some(Some(root)) => m.folder_id.is_some() && in_subtree(fs, root@, m.folder_id.unwrap()@),
    }
}

/// A meeting passes the tag part of a filter: no tag asked, or the meeting
/// is among `tagged` (the meetings carrying the tag).
pub open spec fn tag_ok(tagged: Option<Vec<String>>, m: Meeting) -> bool {
    match tagged {
        None => true,
        Some(t) => holds(t@, m.id@),
    }
}

/// The meetings of `ms` that pass both parts of the filter, in order.
pub open spec fn filtered(
    ms: Seq<Meeting>,
    filter: MeetingFilter,
    fs: Seq<Folder>,
    tagged: Option<Vec<String>>,
) -> Seq<Meeting>
    decreases ms.len(),
{
    if ms.len() == 0 {
        Seq::empty()
    } else {
        let prev = filtered(ms.drop_last(), filter, fs, tagged);
        if folder_ok(filter, fs, ms.last()) && tag_ok(tagged, ms.last()) {
            prev.push(ms.last())
        } else {
            prev
        }
    }
}

/// A meeting that the filter asks for, stated part by part: it carries the
/// tag when one is named (its id is among `tagged`), it is unfiled when
/// unfiled meetings are asked for, and it is filed in the folder's subtree
/// when a folder is named.
pub open spec fn wanted(filter: MeetingFilter, fs: Seq<Folder>, tagged: Option<Vec<String>>, m: Meeting) -> bool {
    &&& (tagged matches Some(t) ==> exists|k: int| 0 <= k < t@.len() && #[trigger] t@[k]@ == m.id@)
    &&& (filter.folder == Some::<Option<String>>(None) ==> m.folder_id is None)
    &&& (filter.folder matches Some(Some(root)) ==> m.folder_id matches Some(f) && in_subtree(fs, root@, f@))
}

/// Filtering keeps exactly the listed meetings that the filter asks for, in
/// their order: each one returned was listed and carries the tag (whatever
/// the folder part says) and lies in the asked-for folder part; each listed
/// meeting that does is returned.
pub proof fn lemma_filter_meetings(
    ms: Seq<Meeting>,
    filter: MeetingFilter,
    fs: Seq<Folder>,
    tagged: Option<Vec<String>>,
)
    ensures
        filtered(ms, filter, fs, tagged).len() <= ms.len(),
        forall|i: int|
            0 <= i < filtered(ms, filter, fs, tagged).len() ==> ms.contains(#[trigger] filtered(ms, filter, fs, tagged)[i])
                && wanted(filter, fs, tagged, filtered(ms, filter, fs, tagged)[i]),
        forall|j: int| 0 <= j < ms.len() && wanted(filter, fs, tagged, #[trigger] ms[j]) ==> filtered(ms, filter, fs, tagged).contains(ms[j]),
        tagged matches Some(t) ==> forall|i: int|
            0 <= i < filtered(ms, filter, fs, tagged).len() ==> exists|k: int|
                0 <= k < t@.len() && #[trigger] t@[k]@ == (#[trigger] filtered(ms, filter, fs, tagged)[i]).id@,
    decreases ms.len(),
{
    if ms.len() > 0 {
        let p = ms.drop_last();
        lemma_filter_meetings(p, filter, fs, tagged);
        let r0 = filtered(p, filter, fs, tagged);
        let r = filtered(ms, filter, fs, tagged);
        let m = ms.last();
        let pass = folder_ok(filter, fs, m) && tag_ok(tagged, m);
        assert(pass <==> wanted(filter, fs, tagged, m)) by {
            match tagged {
                Some(t) => {
                    if holds(t@, m.id@) {
                        let k = choose|k: int| 0 <= k < strs(t@).len() && strs(t@)[k] == m.id@;
                        assert(t@[k]@ == m.id@);
                    }
                    if exists|k: int| 0 <= k < t@.len() && #[trigger] t@[k]@ == m.id@ {
                        let k = choose|k: int| 0 <= k < t@.len() && #[trigger] t@[k]@ == m.id@;
                        assert(strs(t@)[k] == m.id@);
                    }
                },
                None => {},
            }
        }
        assert forall|i: int| 0 <= i < r.len() implies ms.contains(#[trigger] r[i]) && wanted(filter, fs, tagged, r[i]) by {
            if i < r0.len() {
                assert(r[i] == r0[i]);
                assert(p.contains(r0[i]));
                let t = choose|t: int| 0 <= t < p.len() && p[t] == r0[i];
                assert(ms[t] == p[t]);
            } else {
                assert(r[i] == m);
                assert(ms[ms.len() - 1] == m);
            }
        }
        assert forall|j: int| 0 <= j < ms.len() && wanted(filter, fs, tagged, #[trigger] ms[j]) implies r.contains(ms[j]) by {
            if j < ms.len() - 1 {
                assert(ms[j] == p[j]);
                assert(r0.contains(p[j]));
                let t = choose|t: int| 0 <= t < r0.len() && r0[t] == p[j];
                if pass {
                    assert(r[t] == r0[t]);
                }
            } else {
                assert(r[r.len() - 1] == m);
            }
        }
    }
}

fn holds_exec(list: &Vec<String>, x: &String) -> (r: bool)
    ensures
        r == holds(list@, x@),
{
    let xc = to_chars(x.as_str());
    let mut i: usize = 0;
    while i < list.len()
        invariant
            i <= list.len(),
            xc@ == x@,
            forall|k: int| 0 <= k < i ==> strs(list@)[k] != x@,
        decreases list.len() - i,
    {
        let c = to_chars(list[i].as_str());
        if chars_eq(&c, &xc) {
            assert(strs(list@)[i as int] == x@);
            return true;
        }
        i += 1;
    }
    false
}

/// `list_meetings_filtered` on the listed meetings: `folders` are all folders,
/// `tagged` the ids of the meetings carrying `filter.tag_id` (`None` when the
/// filter names no tag).
pub fn filter_meetings(
    all: Vec<Meeting>,
    filter: &MeetingFilter,
    folders: &Vec<Folder>,
    tagged: &Option<Vec<String>>,
) -> (r: Vec<Meeting>)
    ensures
        r@ == filtered(all@, *filter, folders@, *tagged),
{
    let subtree: Option<Vec<String>> = match &filter.folder {
        Some(Some(root)) => Some(folder_subtree(root.as_str(), folders)),
        _ => None,
    };
    let mut out: Vec<Meeting> = Vec::new();
    let mut rest = all;
    let ghost ms = rest@;
    let n = rest.len();
    let mut i: usize = 0;
    assert(ms.skip(0) == ms);
    assert(ms.take(0) =~= Seq::<Meeting>::empty());
    while rest.len() > 0
        invariant
            i + rest@.len() == ms.len(),
            ms.len() <= usize::MAX,
            rest@ == ms.skip(i as int),
            out@ == filtered(ms.take(i as int), *filter, folders@, *tagged),
            match filter.folder {
                Some(Some(root)) => subtree.is_some() && (forall|x: Seq<char>|
                    holds(subtree.unwrap()@, x) <==> in_subtree(folders@, root@, x)),
                _ => true,
            },
        decreases rest.len(),
    {
        let m = rest.remove(0);
        proof {
            assert(m == ms[i as int]);
            assert(ms.take(i + 1).drop_last() == ms.take(i as int));
            assert(ms.take(i + 1).last() == ms[i as int]);
        }
        let folder_pass = match &filter.folder {
            None => true,
            Some(None) => m.folder_id.is_none(),
            Some(Some(_)) => match (&m.folder_id, &subtree) {
                (Some(f), Some(st)) => holds_exec(st, f),
                _ => false,
            },
        };
        let tag_pass = match tagged {
            None => true,
            Some(t) => holds_exec(t, &m.id),
        };
        if folder_pass && tag_pass {
            out.push(m);
        }
        i += 1;
    }
    assert(ms.take(ms.len() as int) == ms);
    out
}

/// The parent of folder `id` (where `delete_folder` moves its meetings and
/// subfolders); `None` when the folder is top level or unknown.
pub open spec fn parent_of(fs: Seq<Folder>, id: Seq<char>) -> Option<Seq<char>>
    decreases fs.len(),
{
    if fs.len() == 0 {
        None
    } else if fs[0].id@ == id {
        match fs[0].parent_id {
            Some(p) => Some(p@),
            None => None,
        }
    } else {
        parent_of(fs.drop_first(), id)
    }
}

/// The parent of the first folder with id `id`.
pub fn folder_parent(id: &str, folders: &Vec<Folder>) -> (r: Option<String>)
    ensures
        r.is_some() == parent_of(folders@, id@).is_some(),
        r.is_some() ==> r.unwrap()@ == parent_of(folders@, id@).unwrap(),
{
    let idc = to_chars(id);
    let mut i: usize = 0;
    assert(folders@.skip(0) == folders@);
    while i < folders.len()
        invariant
            i <= folders.len(),
            idc@ == id@,
            parent_of(folders@, id@) == parent_of(folders@.skip(i as int), id@),
        decreases folders.len() - i,
    {
        let fc = to_chars(folders[i].id.as_str());
        assert(folders@.skip(i as int)[0] == folders@[i as int]);
        assert(folders@.skip(i as int).drop_first() == folders@.skip(i + 1));
        if chars_eq(&fc, &idc) {
            return match &folders[i].parent_id {
                Some(p) => Some(p.clone()),
                None => None,
            };
        }
        i += 1;
    }
    None
}

/// `update_folder` changes nothing when a folder is made its own parent.
pub fn folder_update_allowed(id: &str, parent_id: Option<&str>) -> (r: bool)
    ensures
        r == !(parent_id.is_some() && parent_id.unwrap()@ == id@),
{
    match parent_id {
        Some(p) => !crate::text::str_eq(p, id),
        None => true,
    }
}

/// The first share with `token` that is enabled (disabled links are not found).
pub open spec fn share_lookup(shares: Seq<Share>, token: Seq<char>) -> Option<Share>
    decreases shares.len(),
{
    if shares.len() == 0 {
        None
    } else if shares[0].token@ == token && shares[0].enabled {
        Some(shares[0])
    } else {
        share_lookup(shares.drop_first(), token)
    }
}

/// A share link is found only when it is enabled and its token matches, and
/// an enabled share with the token is always found: disabling a link stops it.
pub proof fn lemma_share_lookup(shares: Seq<Share>, token: Seq<char>)
    ensures
        share_lookup(shares, token) matches Some(s) ==> s.enabled && s.token@ == token && shares.contains(s),
        share_lookup(shares, token).is_none() <==> !(exists|i: int|
            0 <= i < shares.len() && (#[trigger] shares[i]).enabled && shares[i].token@ == token),
    decreases shares.len(),
{
    if shares.len() > 0 {
        lemma_share_lookup(shares.drop_first(), token);
        let rest = shares.drop_first();
        if !(shares[0].token@ == token && shares[0].enabled) {
            if let Some(s) = share_lookup(rest, token) {
                let i = choose|i: int| 0 <= i < rest.len() && rest[i] == s;
                assert(shares[i + 1] == s);
            }
            if exists|i: int| 0 <= i < shares.len() && (#[trigger] shares[i]).enabled && shares[i].token@ == token {
                let i = choose|i: int| 0 <= i < shares.len() && (#[trigger] shares[i]).enabled && shares[i].token@ == token;
                assert(i > 0);
                assert(rest[i - 1] == shares[i]);
            }
            if exists|i: int| 0 <= i < rest.len() && (#[trigger] rest[i]).enabled && rest[i].token@ == token {
                let i = choose|i: int| 0 <= i < rest.len() && (#[trigger] rest[i]).enabled && rest[i].token@ == token;
                assert(shares[i + 1] == rest[i]);
            }
        } else {
            assert(shares[0] == shares[0]);
            assert(shares.contains(shares[0]));
        }
    }
}

/// `get_share` on the listed shares.
pub fn find_share(shares: Vec<Share>, token: &str) -> (r: Option<Share>)
    ensures
        r == share_lookup(shares@, token@),
{
    let tc = to_chars(token);
    let ghost all = shares@;
    let mut rest = shares;
    let n = rest.len();
    assert(all.skip(0) == all);
    let mut i: usize = 0;
    while rest.len() > 0
        invariant
            i + rest@.len() == all.len(),
            all.len() <= usize::MAX,
            all == shares@,
            rest@ == all.skip(i as int),
            tc@ == token@,
            share_lookup(all, token@) == share_lookup(all.skip(i as int), token@),
        decreases rest.len(),
    {
        let s = rest.remove(0);
        assert(s == all[i as int]);
        assert(all.skip(i as int)[0] == all[i as int]);
        assert(all.skip(i as int).drop_first() == all.skip(i + 1));
        let sc = to_chars(s.token.as_str());
        assert(all.skip(i as int).len() > 0);
        if s.enabled && chars_eq(&sc, &tc) {
            assert(share_lookup(all.skip(i as int), token@) == Some(s));
            return Some(s);
        }
        i += 1;
    }
    None
}

/// A tag name as stored: trimmed.
pub fn tag_name(name: &str) -> (r: String)
    ensures
        r@ == trim(name@),
{
    let t = trim_str(name);
    from_chars(&t)
}

} // verus!
