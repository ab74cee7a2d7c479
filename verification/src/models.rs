//! Transcription model choice: ranking models and remembering their speed.

use vstd::prelude::*;
use crate::meetings::strs;
use crate::text::{extend_str, from_chars, str_eq, to_chars};

verus! {

/// Quality rank of a transcription model; bigger is better, unknown models rank 0.
pub open spec fn quality_rank_of(model_id: Seq<char>) -> u8 {
    if model_id == "whisper-large-v3-turbo"@ {
        4
    } else if model_id == "whisper-medium"@ {
        3
    } else if model_id == "whisper-small"@ {
        2
    } else if model_id == "whisper-base"@ {
        1
    } else {
        0
    }
}

/// Bigger is better; used to order candidates.
pub fn quality_rank(model_id: &str) -> (r: u8)
    ensures
        r == quality_rank_of(model_id@),
{
    if str_eq(model_id, "whisper-large-v3-turbo") {
        4
    } else if str_eq(model_id, "whisper-medium") {
        3
    } else if str_eq(model_id, "whisper-small") {
        2
    } else if str_eq(model_id, "whisper-base") {
        1
    } else {
        0
    }
}

/// The settings key under which a model's measured speed is kept.
pub fn speed_key(model_id: &str) -> (r: String)
    ensures
        r@ == "asr_speed:"@ + model_id@,
{
    let mut v = to_chars("asr_speed:");
    extend_str(&mut v, model_id);
    from_chars(&v)
}

/// Larger models rank higher.
pub proof fn lemma_rank_order()
    ensures
        quality_rank_of("whisper-base"@) < quality_rank_of("whisper-small"@),
        quality_rank_of("whisper-small"@) < quality_rank_of("whisper-medium"@),
        quality_rank_of("whisper-medium"@) < quality_rank_of("whisper-large-v3-turbo"@),
{
    reveal_strlit("whisper-base");
    reveal_strlit("whisper-small");
    reveal_strlit("whisper-medium");
    reveal_strlit("whisper-large-v3-turbo");
    assert("whisper-base"@[8] != "whisper-large-v3-turbo"@[8]);
    assert("whisper-base"@[8] != "whisper-medium"@[8]);
    assert("whisper-base"@[8] != "whisper-small"@[8]);
    assert("whisper-small"@[8] != "whisper-large-v3-turbo"@[8]);
    assert("whisper-small"@[8] != "whisper-medium"@[8]);
    assert("whisper-medium"@[8] != "whisper-large-v3-turbo"@[8]);
}

/// A configured model id, or the tier's default when none is set.
pub fn model_or_default(configured: &Option<String>, default: &String) -> (r: String)
    ensures
        r@ == (match configured {
            Some(c) => c@,
            None => default@,
        }),
{
    match configured {
        Some(c) => c.clone(),
        None => default.clone(),
    }
}

/// The slots a model fills for the effective tier, in this order: "live",
/// "quality", "llm", then "search" (an embedding model) or "speakers" (any
/// other model every tier uses).
pub open spec fn roles_of(
    id: Seq<char>,
    live: Seq<char>,
    quality: Seq<char>,
    llm: Seq<char>,
    common: bool,
    embedding: bool,
) -> Seq<Seq<char>> {
    (if id == live { seq!["live"@] } else { Seq::empty() })
        + (if id == quality { seq!["quality"@] } else { Seq::empty() })
        + (if id == llm { seq!["llm"@] } else { Seq::empty() })
        + (if common { seq![if embedding { "search"@ } else { "speakers"@ }] } else { Seq::empty() })
}

/// The roles shown beside a model in the model list.
pub fn model_roles(id: &str, live: &str, quality: &str, llm: &str, common: bool, embedding: bool) -> (r: Vec<&'static str>)
    ensures
        r@.map_values(|s: &'static str| s@) == roles_of(id@, live@, quality@, llm@, common, embedding),
{
    let mut roles: Vec<&'static str> = Vec::new();
    if str_eq(id, live) {
        roles.push("live");
    }
    if str_eq(id, quality) {
        roles.push("quality");
    }
    if str_eq(id, llm) {
        roles.push("llm");
    }
    if common {
        roles.push(if embedding { "search" } else { "speakers" });
    }
    proof {
        reveal_strlit("live");
        reveal_strlit("quality");
        reveal_strlit("llm");
        reveal_strlit("search");
        reveal_strlit("speakers");
    }
    assert(roles@.map_values(|s: &'static str| s@) =~= roles_of(id@, live@, quality@, llm@, common, embedding));
    roles
}

/// Seconds of processing per ten seconds of audio before this machine has
/// measured a model (a desktop CPU; slower machines learn theirs after one run).
pub open spec fn default_factor_tenths_of(model_id: Seq<char>) -> u32 {
    if model_id == "whisper-large-v3-turbo"@ {
        30
    } else if model_id == "whisper-medium"@ {
        23
    } else if model_id == "whisper-small"@ {
        8
    } else if model_id == "whisper-base"@ {
        3
    } else {
        15
    }
}

/// The assumed speed of a model that has not been measured, in tenths of
/// real time.
pub fn default_factor_tenths(model_id: &str) -> (r: u32)
    ensures
        r == default_factor_tenths_of(model_id@),
{
    if str_eq(model_id, "whisper-large-v3-turbo") {
        30
    } else if str_eq(model_id, "whisper-medium") {
        23
    } else if str_eq(model_id, "whisper-small") {
        8
    } else if str_eq(model_id, "whisper-base") {
        3
    } else {
        15
    }
}

/// A downloaded model that may stand in for the preferred one: it finishes
/// within the recording's length.
pub open spec fn stand_in(c: (String, bool)) -> bool {
    c.1
}

/// `i` is the stand-in picked from `present`: the highest-ranked one, the
/// first of them when several rank the same.
pub open spec fn best_stand_in(present: Seq<(String, bool)>, i: int) -> bool {
    &&& 0 <= i < present.len()
    &&& stand_in(present[i])
    &&& forall|j: int|
        0 <= j < present.len() && stand_in(#[trigger] present[j]) ==> quality_rank_of(present[j].0@)
            < quality_rank_of(present[i].0@) || (quality_rank_of(present[j].0@) == quality_rank_of(
            present[i].0@,
        ) && i <= j)
}

/// Whether `present` lists the model `id`.
pub open spec fn lists(present: Seq<(String, bool)>, id: Seq<char>) -> bool {
    exists|k: int| 0 <= k < present.len() && (#[trigger] present[k]).0@ == id
}

/// The model to transcribe a recording with on a machine without a GPU.
/// `present` holds the downloaded transcription models, each with whether
/// it finishes within the recording's length; `preferred_fits` says that of
/// the preferred model; `fastest` is the fastest downloaded model. The
/// preferred model is kept when it is not downloaded or finishes in time;
/// else the best downloaded model that finishes in time; else the fastest.
pub fn pick_model(
    preferred: &str,
    present: &Vec<(String, bool)>,
    preferred_fits: bool,
    fastest: Option<String>,
) -> (r: String)
    ensures
        !lists(present@, preferred@) || preferred_fits ==> r@ == preferred@,
        lists(present@, preferred@) && !preferred_fits && (exists|i: int| best_stand_in(present@, i))
            ==> (exists|i: int| best_stand_in(present@, i) && r@ == present@[i].0@),
        lists(present@, preferred@) && !preferred_fits && !(exists|i: int| 0 <= i < present@.len() && stand_in(
            #[trigger] present@[i])) ==> r@ == (match fastest {
            Some(f) => f@,
            None => preferred@,
        }),
{
    let mut listed = false;
    let mut k: usize = 0;
    while k < present.len()
        invariant
            k <= present.len(),
            listed == (exists|j: int| 0 <= j < k && (#[trigger] present@[j]).0@ == preferred@),
        decreases present.len() - k,
    {
        if str_eq(present[k].0.as_str(), preferred) {
            listed = true;
        }
        k += 1;
    }
    if !listed || preferred_fits {
        return preferred.to_owned();
    }
    let mut best: Option<usize> = None;
    let mut best_rank: u8 = 0;
    let mut i: usize = 0;
    while i < present.len()
        invariant
            i <= present.len(),
            match best {
                None => forall|j: int| 0 <= j < i ==> !stand_in(#[trigger] present@[j]),
                Some(b) => {
                    &&& b < i
                    &&& best_rank == quality_rank_of(present@[b as int].0@)
                    &&& stand_in(present@[b as int])
                    &&& forall|j: int|
                        0 <= j < i && stand_in(#[trigger] present@[j]) ==> quality_rank_of(
                            present@[j].0@,
                        ) < best_rank || (quality_rank_of(present@[j].0@) == best_rank && b <= j)
                },
            },
        decreases present.len() - i,
    {
        let r = quality_rank(present[i].0.as_str());
        if present[i].1 {
            match best {
                None => {
                    best = Some(i);
                    best_rank = r;
                },
                Some(_) => {
                    if r > best_rank {
                        best = Some(i);
                        best_rank = r;
                    }
                },
            }
        }
        i += 1;
    }
    match best {
        Some(b) => {
            assert(best_stand_in(present@, b as int));
            present[b].0.clone()
        },
        None => {
            proof {
                if exists|i: int| best_stand_in(present@, i) {
                    let i = choose|i: int| best_stand_in(present@, i);
                    assert(stand_in(present@[i]));
                }
            }
            match fastest {
                Some(f) => f,
                None => preferred.to_owned(),
            }
        },
    }
}

/// `m` placed into `s` after every model at least as large (a stable
/// insertion from the back, largest first).
pub open spec fn insert_by_size(s: Seq<(Seq<char>, u64)>, m: (Seq<char>, u64)) -> Seq<(Seq<char>, u64)>
    decreases s.len(),
{
    if s.len() == 0 {
        seq![m]
    } else if s.last().1 >= m.1 {
        s.push(m)
    } else {
        insert_by_size(s.drop_last(), m).push(s.last())
    }
}

/// Models largest first; models of one size keep their order.
pub open spec fn by_size(s: Seq<(Seq<char>, u64)>) -> Seq<(Seq<char>, u64)>
    decreases s.len(),
{
    if s.len() == 0 {
        Seq::empty()
    } else {
        insert_by_size(by_size(s.drop_last()), s.last())
    }
}

/// Models by id and size.
pub open spec fn sized_views(v: Seq<(String, u64)>) -> Seq<(Seq<char>, u64)> {
    v.map_values(|m: (String, u64)| (m.0@, m.1))
}

/// The transcription engines to try, in order: the preferred ids, then
/// every downloaded model, largest first.
pub open spec fn engine_order_of(preferred: Seq<Seq<char>>, present: Seq<(Seq<char>, u64)>) -> Seq<Seq<char>> {
    preferred + by_size(present).map_values(|m: (Seq<char>, u64)| m.0)
}

proof fn lemma_insert_by_size_split(s: Seq<(Seq<char>, u64)>, m: (Seq<char>, u64), k: int)
    requires
        0 <= k <= s.len(),
        forall|j: int| k <= j < s.len() ==> (#[trigger] s[j]).1 < m.1,
    ensures
        insert_by_size(s, m) == insert_by_size(s.take(k), m) + s.skip(k),
    decreases s.len() - k,
{
    if k < s.len() {
        let p = s.drop_last();
        lemma_insert_by_size_split(p, m, k);
        assert(p.take(k) =~= s.take(k));
        assert(p.skip(k).push(s.last()) =~= s.skip(k));
        assert(s[s.len() - 1].1 < m.1);
    } else {
        assert(s.take(k) =~= s);
        assert(s.skip(k) =~= Seq::<(Seq<char>, u64)>::empty());
    }
}

proof fn lemma_insert_by_size_keeps(s: Seq<(Seq<char>, u64)>, m: (Seq<char>, u64))
    ensures
        insert_by_size(s, m).to_multiset() == s.to_multiset().insert(m),
        (forall|i: int, j: int| 0 <= i <= j < s.len() ==> (#[trigger] s[i]).1 >= (#[trigger] s[j]).1) ==> (forall|i: int, j: int|
            0 <= i <= j < insert_by_size(s, m).len() ==> (#[trigger] insert_by_size(s, m)[i]).1 >= (#[trigger] insert_by_size(s, m)[j]).1),
    decreases s.len(),
{
    broadcast use vstd::seq_lib::group_to_multiset_ensures;

    if s.len() == 0 {
        assert(seq![m] =~= Seq::<(Seq<char>, u64)>::empty().push(m));
    } else if s.last().1 >= m.1 {
    } else {
        let p = s.drop_last();
        lemma_insert_by_size_keeps(p, m);
        assert(p.push(s.last()) =~= s);
        if forall|i: int, j: int| 0 <= i <= j < s.len() ==> (#[trigger] s[i]).1 >= (#[trigger] s[j]).1 {
            let q = insert_by_size(p, m);
            let r = q.push(s.last());
            assert forall|i: int, j: int| 0 <= i <= j < p.len() implies (#[trigger] p[i]).1 >= (#[trigger] p[j]).1 by {
                assert(p[i] == s[i] && p[j] == s[j]);
            }
            assert forall|i: int, j: int| 0 <= i <= j < r.len() implies (#[trigger] r[i]).1 >= (#[trigger] r[j]).1 by {
                if j == r.len() - 1 && i < j {
                    assert(q.to_multiset().count(q[i]) > 0);
                    if q[i] != m {
                        assert(p.to_multiset().count(q[i]) > 0);
                        assert(p.contains(q[i]));
                        let t = choose|t: int| 0 <= t < p.len() && p[t] == q[i];
                        assert(s[t] == p[t]);
                        assert(s[t].1 >= s[s.len() - 1].1);
                    }
                } else if j < r.len() - 1 {
                    assert(r[i] == q[i] && r[j] == q[j]);
                }
            }
        }
    }
}

/// Ordering by size keeps every model and puts larger ones first.
pub proof fn lemma_by_size(s: Seq<(Seq<char>, u64)>)
    ensures
        by_size(s).to_multiset() == s.to_multiset(),
        forall|i: int, j: int| 0 <= i <= j < by_size(s).len() ==> (#[trigger] by_size(s)[i]).1 >= (#[trigger] by_size(s)[j]).1,
    decreases s.len(),
{
    broadcast use vstd::seq_lib::group_to_multiset_ensures;

    if s.len() > 0 {
        lemma_by_size(s.drop_last());
        lemma_insert_by_size_keeps(by_size(s.drop_last()), s.last());
        assert(s.drop_last().push(s.last()) =~= s);
    }
}

/// The order in which transcription engines are tried when one is needed.
pub fn engine_order(preferred: &Vec<String>, present: &Vec<(String, u64)>) -> (r: Vec<String>)
    ensures
        strs(r@) == engine_order_of(strs(preferred@), sized_views(present@)),
{
    let mut sorted: Vec<(String, u64)> = Vec::new();
    let mut i: usize = 0;
    while i < present.len()
        invariant
            i <= present.len(),
            sized_views(sorted@) == by_size(sized_views(present@).take(i as int)),
        decreases present.len() - i,
    {
        let m = (present[i].0.clone(), present[i].1);
        let ghost mv = (m.0@, m.1);
        proof {
            let t = sized_views(present@).take(i + 1);
            assert(t.drop_last() =~= sized_views(present@).take(i as int));
            assert(t.last() == mv);
        }
        let mut k = sorted.len();
        while k > 0 && sorted[k - 1].1 < m.1
            invariant
                k <= sorted@.len(),
                forall|j: int| k <= j < sorted@.len() ==> (#[trigger] sorted@[j]).1 < m.1,
            decreases k,
        {
            k -= 1;
        }
        proof {
            let sv = sized_views(sorted@);
            assert forall|j: int| k <= j < sv.len() implies (#[trigger] sv[j]).1 < mv.1 by {
                assert(sv[j].1 == sorted@[j].1);
            }
            lemma_insert_by_size_split(sv, mv, k as int);
            let t = sv.take(k as int);
            if k > 0 {
                assert(t.last() == sv[k - 1]);
                assert(insert_by_size(t, mv) == t.push(mv));
                assert(t.push(mv) + sv.skip(k as int) =~= sv.insert(k as int, mv));
            } else {
                assert(insert_by_size(t, mv) == seq![mv]);
                assert(seq![mv] + sv.skip(k as int) =~= sv.insert(k as int, mv));
            }
        }
        let ghost before = sorted@;
        sorted.insert(k, m);
        assert(sized_views(sorted@) =~= sized_views(before).insert(k as int, mv));
        i += 1;
    }
    assert(sized_views(present@).take(present.len() as int) =~= sized_views(present@));
    let mut out: Vec<String> = Vec::new();
    let mut j: usize = 0;
    while j < preferred.len()
        invariant
            j <= preferred.len(),
            strs(out@) == strs(preferred@).take(j as int),
        decreases preferred.len() - j,
    {
        let ghost before = strs(out@);
        out.push(preferred[j].clone());
        assert(strs(out@) =~= before.push(preferred@[j as int]@));
        assert(strs(preferred@).take(j + 1) =~= strs(preferred@).take(j as int).push(preferred@[j as int]@));
        j += 1;
    }
    assert(strs(preferred@).take(preferred.len() as int) =~= strs(preferred@));
    let ghost names = sized_views(sorted@).map_values(|m: (Seq<char>, u64)| m.0);
    let mut k: usize = 0;
    while k < sorted.len()
        invariant
            k <= sorted.len(),
            names == sized_views(sorted@).map_values(|m: (Seq<char>, u64)| m.0),
            strs(out@) == strs(preferred@) + names.take(k as int),
        decreases sorted.len() - k,
    {
        let ghost before = strs(out@);
        out.push(sorted[k].0.clone());
        assert(names[k as int] == sorted@[k as int].0@);
        assert(strs(out@) =~= before.push(sorted@[k as int].0@));
        assert(names.take(k + 1) =~= names.take(k as int).push(names[k as int]));
        k += 1;
    }
    assert(names.take(sorted.len() as int) =~= names);
    out
}

} // verus!
