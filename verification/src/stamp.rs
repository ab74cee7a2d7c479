//! `m:ss` / `h:mm:ss` timestamps: writing and reading them.

use vstd::prelude::*;
use crate::text::{pieces, pieces_state, split_char, 
    dec, dec_u64, digits_value, extend_chars, is_digit, is_ws, lead_ws, pad2, pad2_u64,
    parse_u64, parse_u64_chars, trail_ws, trim, trim_chars, unsigned_body, all_digits,
    lemma_dec_digits,
};

verus! {

/// `{h}:{m:02}:{s:02}` for an hour or more, else `{m}:{s:02}`, of the whole
/// seconds in `ms` (negative times read as 0).
pub open spec fn stamp_of(ms: int) -> Seq<char> {
    let t = if ms < 0 { 0nat } else { (ms / 1000) as nat };
    let h = t / 3600;
    let m = (t % 3600) / 60;
    let s = t % 60;
    if h > 0 {
        dec(h) + seq![':'] + pad2(m) + seq![':'] + pad2(s)
    } else {
        dec(m) + seq![':'] + pad2(s)
    }
}

/// Timestamp of `ms` as shown beside transcript lines.
pub fn stamp(ms: i64) -> (r: Vec<char>)
    ensures
        r@ == stamp_of(ms as int),
{
    let t: u64 = if ms < 0 { 0 } else { (ms / 1000) as u64 };
    let h = t / 3600;
    let m = (t % 3600) / 60;
    let s = t % 60;
    let mut v: Vec<char>;
    if h > 0 {
        v = dec_u64(h);
        v.push(':');
        let mm = pad2_u64(m);
        extend_chars(&mut v, &mm);
    } else {
        v = dec_u64(m);
    }
    v.push(':');
    let ss = pad2_u64(s);
    extend_chars(&mut v, &ss);
    v
}

// ---------------------------------------------------------------- reading

/// `s.split(':')`: the pieces between colons (possibly empty).
pub open spec fn colon_parts(s: Seq<char>) -> Seq<Seq<char>> {
    pieces(s, ':')
}

/// The number in a piece, read after trimming.
pub open spec fn part_num(p: Seq<char>) -> Option<u64> {
    parse_u64(trim(p))
}

/// Seconds of `m:s` or `h:m:s` (each piece trimmed, a plain `u64`); `None`
/// for any other shape or an unreadable piece.
pub open spec fn stamp_secs(s: Seq<char>) -> Option<int> {
    let ps = colon_parts(s);
    if ps.len() == 2 && part_num(ps[0]).is_some() && part_num(ps[1]).is_some() {
        Some(part_num(ps[0]).unwrap() * 60 + part_num(ps[1]).unwrap())
    } else if ps.len() == 3 && part_num(ps[0]).is_some() && part_num(ps[1]).is_some()
        && part_num(ps[2]).is_some() {
        Some(
            part_num(ps[0]).unwrap() * 3600 + part_num(ps[1]).unwrap() * 60 + part_num(
                ps[2],
            ).unwrap(),
        )
    } else {
        None
    }
}

/// Milliseconds of a timestamp (`u64` arithmetic, read as `i64`). A
/// timestamp whose milliseconds do not fit a `u64` reads as `None`.
pub open spec fn parse_stamp_of(s: Seq<char>) -> Option<i64> {
    match stamp_secs(s) {
        Some(secs) => if secs * 1000 <= u64::MAX {
            Some((secs * 1000) as i64)
        } else {
            None
        },
        None => None,
    }
}

/// Read a `m:ss` / `h:mm:ss` timestamp into milliseconds.
pub fn parse_stamp(v: &Vec<char>) -> (r: Option<i64>)
    ensures
        r == parse_stamp_of(v@),
{
    let parts = split_char(v, ':');
    assert(crate::text::views(parts@).len() == parts@.len());
    let mut nums: Vec<u64> = Vec::new();
    let mut i: usize = 0;
    while i < parts.len()
        invariant
            i <= parts.len(),
            crate::text::views(parts@) == colon_parts(v@),
            nums@.len() == i,
            forall|k: int| 0 <= k < i ==> part_num(colon_parts(v@)[k]) == Some(#[trigger] nums@[k]),
        decreases parts.len() - i,
    {
        let t = trim_chars(&parts[i]);
        assert(crate::text::views(parts@)[i as int] == parts@[i as int]@);
        match parse_u64_chars(&t) {
            Some(n) => nums.push(n),
            None => {
                return None;
            },
        }
        i += 1;
    }
    let secs: u64;
    if nums.len() == 2 {
        if nums[0] > (u64::MAX - nums[1]) / 60 {
            assert(nums[0] * 60 + nums[1] > u64::MAX) by (nonlinear_arith)
                requires
                    nums[0] > (u64::MAX - nums[1]) / 60,
            ;
            return None;
        }
        secs = nums[0] * 60 + nums[1];
    } else if nums.len() == 3 {
        if nums[0] > u64::MAX / 3600 {
            assert(nums[0] * 3600 > u64::MAX) by (nonlinear_arith)
                requires
                    nums[0] > u64::MAX / 3600,
            ;
            return None;
        }
        let a = nums[0] * 3600;
        if nums[1] > (u64::MAX - a) / 60 {
            assert(nums[1] * 60 > u64::MAX - a) by (nonlinear_arith)
                requires
                    nums[1] > (u64::MAX - a) / 60,
            ;
            return None;
        }
        let b = a + nums[1] * 60;
        if nums[2] > u64::MAX - b {
            return None;
        }
        secs = b + nums[2];
    } else {
        return None;
    }
    if secs > u64::MAX / 1000 {
        assert(secs * 1000 > u64::MAX) by (nonlinear_arith)
            requires
                secs > u64::MAX / 1000,
        ;
        return None;
    }
    let ms: u64 = secs * 1000;
    #[verifier::truncate]
    let r = ms as i64;
    Some(r)
}

} // verus!

verus! {

/// No colon in `s`.
pub open spec fn colon_free(s: Seq<char>) -> bool {
    forall|i: int| 0 <= i < s.len() ==> s[i] != ':'
}

proof fn lemma_colon_state_tail(p: Seq<char>, y: Seq<char>)
    requires
        colon_free(y),
    ensures
        pieces_state(p + y, ':') == (pieces_state(p, ':').0, pieces_state(p, ':').1 + y),
    decreases y.len(),
{
    if y.len() == 0 {
        assert(p + y == p);
        assert(pieces_state(p, ':').1 + y == pieces_state(p, ':').1);
    } else {
        let y0 = y.drop_last();
        assert forall|i: int| 0 <= i < y0.len() implies y0[i] != ':' by {
            assert(y0[i] == y[i]);
        }
        lemma_colon_state_tail(p, y0);
        assert((p + y).drop_last() == p + y0);
        assert((p + y).last() == y.last());
        assert(y.last() != ':');
        assert(pieces_state(p, ':').1 + y0 + seq![y.last()] == pieces_state(p, ':').1 + y);
        assert((pieces_state(p, ':').1 + y0).push(y.last()) == pieces_state(p, ':').1 + y);
    }
}

proof fn lemma_colon_parts_of_piece(a: Seq<char>)
    requires
        colon_free(a),
    ensures
        colon_parts(a) == seq![a],
{
    lemma_colon_state_tail(Seq::empty(), a);
    assert(Seq::<char>::empty() + a == a);
    assert(Seq::<char>::empty() + a == a);
}

proof fn lemma_colon_parts_join(x: Seq<char>, b: Seq<char>)
    requires
        colon_free(b),
    ensures
        colon_parts(x + seq![':'] + b) == colon_parts(x).push(b),
{
    let xc = x + seq![':'];
    assert(xc.drop_last() == x);
    assert(xc.last() == ':');
    assert(pieces_state(xc, ':') == (colon_parts(x), Seq::<char>::empty()));
    lemma_colon_state_tail(xc, b);
    assert(Seq::<char>::empty() + b == b);
}

proof fn lemma_digits_colon_free(d: Seq<char>)
    requires
        forall|i: int| 0 <= i < d.len() ==> is_digit(#[trigger] d[i]),
    ensures
        colon_free(d),
{
    assert forall|i: int| 0 <= i < d.len() implies d[i] != ':' by {
        assert(is_digit(d[i]));
    }
}

proof fn lemma_trim_digits(d: Seq<char>)
    requires
        d.len() > 0,
        forall|i: int| 0 <= i < d.len() ==> is_digit(#[trigger] d[i]),
    ensures
        trim(d) == d,
{
    assert(is_digit(d[0]));
    assert(!is_ws(d[0]));
    assert(is_digit(d[d.len() - 1]));
    assert(!is_ws(d.last()));
    assert(lead_ws(d) == 0);
    assert(trail_ws(d) == 0);
    assert(d.subrange(0, d.len() as int) == d);
}

proof fn lemma_leading_zero(x: Seq<char>)
    ensures
        digits_value(seq!['0'] + x) == digits_value(x),
    decreases x.len(),
{
    if x.len() == 0 {
        let y = seq!['0'] + x;
        assert(y.drop_last() =~= Seq::<char>::empty());
        assert(y.last() == '0');
        assert('0' as u32 == 48);
        assert(digits_value(Seq::<char>::empty()) == 0);
        assert(digits_value(y) == digits_value(y.drop_last()) * 10 + ((y.last() as u32) - 48) as nat);
        assert(x == Seq::<char>::empty());
    } else {
        let y = seq!['0'] + x;
        assert(y.drop_last() == seq!['0'] + x.drop_last());
        assert(y.last() == x.last());
        lemma_leading_zero(x.drop_last());
    }
}

/// A two-digit field reads back as its number.
proof fn lemma_pad2_reads(n: nat)
    ensures
        pad2(n).len() > 0,
        forall|i: int| 0 <= i < pad2(n).len() ==> is_digit(#[trigger] pad2(n)[i]),
        part_num(pad2(n)) == (if n <= u64::MAX { Some(n as u64) } else { None::<u64> }),
{
    lemma_dec_digits(n);
    let p = pad2(n);
    if n < 10 {
        lemma_leading_zero(dec(n));
        assert forall|i: int| 0 <= i < p.len() implies is_digit(#[trigger] p[i]) by {
            if i > 0 {
                assert(p[i] == dec(n)[i - 1]);
            } else {
                assert('0' as u32 == 48);
            }
        }
    }
    lemma_trim_digits(p);
    assert(p[0] != '+') by {
        assert(is_digit(p[0]));
    }
    assert(unsigned_body(p) == p);
}

proof fn lemma_dec_reads(n: nat)
    ensures
        dec(n).len() > 0,
        forall|i: int| 0 <= i < dec(n).len() ==> is_digit(#[trigger] dec(n)[i]),
        part_num(dec(n)) == (if n <= u64::MAX { Some(n as u64) } else { None::<u64> }),
{
    lemma_dec_digits(n);
    lemma_trim_digits(dec(n));
    assert(unsigned_body(dec(n)) == dec(n));
}

/// Reading back a written timestamp gives its whole seconds, in milliseconds.
pub proof fn lemma_stamp_roundtrip(ms: i64)
    requires
        ms >= 0,
    ensures
        parse_stamp_of(stamp_of(ms as int)) == Some(((ms / 1000) * 1000) as i64),
{
    let t = (ms / 1000) as nat;
    let h = t / 3600;
    let m = (t % 3600) / 60;
    let s = t % 60;
    lemma_dec_reads(h);
    lemma_dec_reads(m);
    lemma_pad2_reads(m);
    lemma_pad2_reads(s);
    lemma_digits_colon_free(dec(h));
    lemma_digits_colon_free(dec(m));
    lemma_digits_colon_free(pad2(m));
    lemma_digits_colon_free(pad2(s));
    assert(h * 3600 + m * 60 + s == t) by (nonlinear_arith)
        requires
            h == t / 3600,
            m == (t % 3600) / 60,
            s == t % 60,
    ;
    assert(t <= u64::MAX);
    if h > 0 {
        let a = dec(h);
        let b = pad2(m);
        let c = pad2(s);
        lemma_colon_parts_of_piece(a);
        lemma_colon_parts_join(a, b);
        lemma_colon_parts_join(a + seq![':'] + b, c);
        assert(stamp_of(ms as int) == a + seq![':'] + b + seq![':'] + c);
        let ps = colon_parts(stamp_of(ms as int));
        assert(ps == seq![a, b, c]);
        assert(stamp_secs(stamp_of(ms as int)) == Some(t as int));
    } else {
        let a = dec(m);
        let c = pad2(s);
        lemma_colon_parts_of_piece(a);
        lemma_colon_parts_join(a, c);
        assert(stamp_of(ms as int) == a + seq![':'] + c);
        let ps = colon_parts(stamp_of(ms as int));
        assert(ps == seq![a, c]);
        assert(m * 60 + s == t);
        assert(stamp_secs(stamp_of(ms as int)) == Some(t as int));
    }
    assert(t * 1000 <= ms);
    assert(((ms / 1000) * 1000) == t * 1000);
}

} // verus!
