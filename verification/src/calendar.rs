//! Calendar sources: which of the configured feeds are read, and from where.

use vstd::prelude::*;
use crate::meetings::strs;
use crate::text::{extend_chars, extend_str, from_chars, slice_chars, to_chars, trim, trim_str};

verus! {

/// The configured sources that are read: each one trimmed, blank ones left out.
pub open spec fn sources_of(list: Seq<Seq<char>>) -> Seq<Seq<char>>
    decreases list.len(),
{
    if list.len() == 0 {
        Seq::empty()
    } else {
        let prev = sources_of(list.drop_last());
        if trim(list.last()).len() > 0 {
            prev.push(trim(list.last()))
        } else {
            prev
        }
    }
}

/// The sources read are exactly the configured ones that are not blank,
/// trimmed, in their order: each one read is a configured source trimmed
/// and non-empty, and each non-blank configured source is read.
pub proof fn lemma_sources(list: Seq<Seq<char>>)
    ensures
        sources_of(list).len() <= list.len(),
        forall|i: int|
            0 <= i < sources_of(list).len() ==> (#[trigger] sources_of(list)[i]).len() > 0 && exists|j: int|
                0 <= j < list.len() && sources_of(list)[i] == trim(#[trigger] list[j]),
        forall|j: int| 0 <= j < list.len() && trim(#[trigger] list[j]).len() > 0 ==> sources_of(list).contains(trim(list[j])),
    decreases list.len(),
{
    if list.len() > 0 {
        let p = list.drop_last();
        lemma_sources(p);
        let r0 = sources_of(p);
        let r = sources_of(list);
        assert forall|i: int| 0 <= i < r.len() implies (#[trigger] r[i]).len() > 0 && exists|j: int|
            0 <= j < list.len() && r[i] == trim(#[trigger] list[j]) by {
            if i < r0.len() {
                assert(r[i] == r0[i]);
                let j = choose|j: int| 0 <= j < p.len() && r0[i] == trim(#[trigger] p[j]);
                assert(list[j] == p[j]);
            } else {
                assert(r[i] == trim(list[list.len() - 1]));
            }
        }
        assert forall|j: int| 0 <= j < list.len() && trim(#[trigger] list[j]).len() > 0 implies r.contains(trim(list[j])) by {
            if j < list.len() - 1 {
                assert(list[j] == p[j]);
                assert(r0.contains(trim(p[j])));
                let t = choose|t: int| 0 <= t < r0.len() && r0[t] == trim(p[j]);
                assert(r[t] == r0[t]);
            } else {
                assert(r[r.len() - 1] == trim(list[j]));
            }
        }
    }
}

/// The calendar sources to read.
pub fn calendar_sources(list: &Vec<String>) -> (r: Vec<String>)
    ensures
        strs(r@) == sources_of(strs(list@)),
{
    let mut out: Vec<String> = Vec::new();
    let mut i: usize = 0;
    while i < list.len()
        invariant
            i <= list.len(),
            strs(out@) == sources_of(strs(list@).take(i as int)),
        decreases list.len() - i,
    {
        proof {
            let t = strs(list@).take(i + 1);
            assert(t.drop_last() == strs(list@).take(i as int));
            assert(t.last() == list@[i as int]@);
        }
        let t = trim_str(list[i].as_str());
        if t.len() > 0 {
            let ghost before = strs(out@);
            out.push(from_chars(&t));
            assert(strs(out@) =~= before.push(t@));
        }
        i += 1;
    }
    assert(strs(list@).take(list.len() as int) == strs(list@));
    out
}

/// `s` with its first "webcal://" made "https://".
pub open spec fn webcal_to_https(s: Seq<char>) -> Seq<char>
    decreases s.len(),
{
    if s.len() < 9 {
        s
    } else if s.take(9) == "webcal://"@ {
        "https://"@ + s.skip(9)
    } else {
        seq![s[0]] + webcal_to_https(s.skip(1))
    }
}

/// The address a remote calendar source is fetched from.
pub fn fetch_url(src: &str) -> (r: String)
    ensures
        r@ == webcal_to_https(src@),
{
    let v = to_chars(src);
    let pat = to_chars("webcal://");
    proof {
        reveal_strlit("webcal://");
    }
    let mut i: usize = 0;
    let mut found = false;
    assert(v@.take(0) + v@.skip(0) =~= v@.skip(0));
    assert(v@.skip(0) =~= v@);
    while !found && v.len() >= 9 && i <= v.len() - 9
        invariant
            pat@ == "webcal://"@,
            pat@.len() == 9,
            v@ == src@,
            i <= v.len(),
            found ==> i + 9 <= v.len() && v@.subrange(i as int, i + 9) == "webcal://"@,
            webcal_to_https(v@) == (if found {
                v@.take(i as int) + "https://"@ + v@.skip(i + 9)
            } else {
                v@.take(i as int) + webcal_to_https(v@.skip(i as int))
            }),
        decreases v.len() - i + (if found { 0int } else { 1int }),
    {
        proof {
            reveal_strlit("webcal://");
        }
        let mut k: usize = 0;
        let mut same = true;
        while k < 9
            invariant
                k <= 9,
                i + 9 <= v.len(),
                pat@ == "webcal://"@,
                pat@.len() == 9,
                same == (forall|j: int| 0 <= j < k ==> v@[i + j] == pat@[j]),
            decreases 9 - k,
        {
            if v[i + k] != pat[k] {
                same = false;
            }
            k += 1;
        }
        let ghost rest = v@.skip(i as int);
        proof {
            assert(rest.take(9) =~= v@.subrange(i as int, i + 9));
            assert(rest.skip(9) =~= v@.skip(i + 9));
            assert(rest.skip(1) =~= v@.skip(i + 1));
        }
        if same {
            assert(v@.subrange(i as int, i + 9) =~= "webcal://"@);
            found = true;
        } else {
            assert(v@.subrange(i as int, i + 9) != "webcal://"@) by {
                let j = choose|j: int| 0 <= j < 9 && v@[i + j] != pat@[j];
                assert(v@.subrange(i as int, i + 9)[j] == v@[i + j]);
            }
            assert(v@.take(i + 1) =~= v@.take(i as int) + seq![rest[0]]);
            i += 1;
        }
    }
    if found {
        let mut out = slice_chars(&v, 0, i);
        extend_str(&mut out, "https://");
        let tail = slice_chars(&v, i + 9, v.len());
        extend_chars(&mut out, &tail);
        assert(out@ =~= v@.take(i as int) + "https://"@ + v@.skip(i + 9));
        from_chars(&out)
    } else {
        assert(v@.skip(i as int).len() < 9);
        assert(v@.take(i as int) + v@.skip(i as int) =~= v@);
        from_chars(&v)
    }
}

/// How a source that failed to load is reported: "<source>: <error>".
pub fn source_error(src: &str, error: &str) -> (r: String)
    ensures
        r@ == src@ + ": "@ + error@,
{
    let mut v = to_chars(src);
    extend_str(&mut v, ": ");
    extend_str(&mut v, error);
    from_chars(&v)
}

} // verus!
