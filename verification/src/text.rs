//! Characters, strings and decimal numbers, viewed as sequences of `char`.

use vstd::prelude::*;

verus! {

// ---------------------------------------------------------------- characters

/// Unicode `White_Space`, the property that `char::is_whitespace` tests.
pub open spec fn is_ws(c: char) -> bool {
    let u = c as u32;
    ||| 0x09 <= u <= 0x0d
    ||| u == 0x20
    ||| u == 0x85
    ||| u == 0xa0
    ||| u == 0x1680
    ||| 0x2000 <= u <= 0x200a
    ||| u == 0x2028
    ||| u == 0x2029
    ||| u == 0x202f
    ||| u == 0x205f
    ||| u == 0x3000
}

/// `c.is_whitespace()`.
pub fn is_whitespace(c: char) -> (b: bool)
    ensures
        b == is_ws(c),
{
    let u = c as u32;
    (0x09 <= u && u <= 0x0d) || u == 0x20 || u == 0x85 || u == 0xa0 || u == 0x1680 || (0x2000
        <= u && u <= 0x200a) || u == 0x2028 || u == 0x2029 || u == 0x202f || u == 0x205f || u
        == 0x3000
}

/// ASCII lowercase of a code point (other characters are unchanged).
pub open spec fn lower_code(c: char) -> u32 {
    let u = c as u32;
    if 0x41 <= u <= 0x5a {
        (u + 32) as u32
    } else {
        u
    }
}

/// `a.eq_ignore_ascii_case(b)` on sequences of characters.
pub open spec fn eq_ignore_case(a: Seq<char>, b: Seq<char>) -> bool {
    &&& a.len() == b.len()
    &&& forall|i: int| 0 <= i < a.len() ==> lower_code(#[trigger] a[i]) == lower_code(b[i])
}

pub fn chars_eq_ignore_case(a: &Vec<char>, b: &Vec<char>) -> (r: bool)
    ensures
        r == eq_ignore_case(a@, b@),
{
    if a.len() != b.len() {
        return false;
    }
    let mut i: usize = 0;
    while i < a.len()
        invariant
            a.len() == b.len(),
            i <= a.len(),
            forall|k: int| 0 <= k < i ==> lower_code(#[trigger] a@[k]) == lower_code(b@[k]),
        decreases a.len() - i,
    {
        let x = a[i] as u32;
        let y = b[i] as u32;
        let lx = if 0x41 <= x && x <= 0x5a { x + 32 } else { x };
        let ly = if 0x41 <= y && y <= 0x5a { y + 32 } else { y };
        if lx != ly {
            return false;
        }
        i += 1;
    }
    true
}

/// ASCII hex digit (`u8::is_ascii_hexdigit`).
pub open spec fn is_hex(c: char) -> bool {
    let u = c as u32;
    ||| 0x30 <= u <= 0x39
    ||| 0x41 <= u <= 0x46
    ||| 0x61 <= u <= 0x66
}

/// ASCII decimal digit.
pub open spec fn is_digit(c: char) -> bool {
    0x30 <= c as u32 <= 0x39
}

// ---------------------------------------------------------------- strings

/// `s.push(c)`.
#[verifier::external_body]
pub(crate) fn push_char(s: &mut String, c: char)
    ensures
        final(s)@ == old(s)@.push(c),
{
    s.push(c);
}

/// The characters of `s`.
pub fn to_chars(s: &str) -> (v: Vec<char>)
    ensures
        v@ == s@,
{
    let mut v: Vec<char> = Vec::new();
    for c in it: s.chars()
        invariant
            v@ == it.seq().take(it.index() as int),
            it.seq() == s@,
    {
        v.push(c);
    }
    v
}

/// Append the characters of `v` to `s`.
pub fn push_chars(s: &mut String, v: &Vec<char>)
    ensures
        final(s)@ == old(s)@ + v@,
{
    let mut i: usize = 0;
    while i < v.len()
        invariant
            i <= v.len(),
            s@ == old(s)@ + v@.take(i as int),
        decreases v.len() - i,
    {
        push_char(s, v[i]);
        assert(v@.take(i + 1) == v@.take(i as int).push(v@[i as int]));
        i += 1;
    }
    assert(v@.take(v.len() as int) == v@);
}

/// The string made of the characters of `v`.
pub fn from_chars(v: &Vec<char>) -> (s: String)
    ensures
        s@ == v@,
{
    let mut s = String::new();
    push_chars(&mut s, v);
    s
}

/// Append the characters of `v` to `out`.
pub fn extend_chars(out: &mut Vec<char>, v: &Vec<char>)
    ensures
        final(out)@ == old(out)@ + v@,
{
    let mut i: usize = 0;
    while i < v.len()
        invariant
            i <= v.len(),
            out@ == old(out)@ + v@.take(i as int),
        decreases v.len() - i,
    {
        out.push(v[i]);
        assert(v@.take(i + 1) == v@.take(i as int).push(v@[i as int]));
        i += 1;
    }
    assert(v@.take(v.len() as int) == v@);
}

/// Append the characters of `s` to `out`.
pub fn extend_str(out: &mut Vec<char>, s: &str)
    ensures
        final(out)@ == old(out)@ + s@,
{
    let v = to_chars(s);
    extend_chars(out, &v);
}

/// `v[from..to]`.
pub fn slice_chars(v: &Vec<char>, from: usize, to: usize) -> (r: Vec<char>)
    requires
        from <= to <= v.len(),
    ensures
        r@ == v@.subrange(from as int, to as int),
{
    let mut r: Vec<char> = Vec::new();
    let mut i = from;
    while i < to
        invariant
            from <= i <= to <= v.len(),
            r@ == v@.subrange(from as int, i as int),
        decreases to - i,
    {
        r.push(v[i]);
        i += 1;
    }
    r
}

// ---------------------------------------------------------------- trimming

/// Number of leading whitespace characters.
pub open spec fn lead_ws(s: Seq<char>) -> nat
    decreases s.len(),
{
    if s.len() > 0 && is_ws(s[0]) {
        1 + lead_ws(s.drop_first())
    } else {
        0
    }
}

/// Number of trailing whitespace characters.
pub open spec fn trail_ws(s: Seq<char>) -> nat
    decreases s.len(),
{
    if s.len() > 0 && is_ws(s.last()) {
        1 + trail_ws(s.drop_last())
    } else {
        0
    }
}

/// `s.trim()`: without leading and trailing whitespace.
pub open spec fn trim(s: Seq<char>) -> Seq<char> {
    if lead_ws(s) >= s.len() {
        Seq::empty()
    } else {
        s.subrange(lead_ws(s) as int, s.len() - trail_ws(s))
    }
}

proof fn lemma_lead_ws(s: Seq<char>)
    ensures
        lead_ws(s) <= s.len(),
        forall|i: int| 0 <= i < lead_ws(s) ==> is_ws(#[trigger] s[i]),
        lead_ws(s) < s.len() ==> !is_ws(s[lead_ws(s) as int]),
    decreases s.len(),
{
    if s.len() > 0 && is_ws(s[0]) {
        lemma_lead_ws(s.drop_first());
        assert forall|i: int| 0 <= i < lead_ws(s) implies is_ws(#[trigger] s[i]) by {
            if i > 0 {
                assert(s[i] == s.drop_first()[i - 1]);
            }
        }
    }
}

proof fn lemma_trail_ws(s: Seq<char>)
    ensures
        trail_ws(s) <= s.len(),
        forall|i: int| s.len() - trail_ws(s) <= i < s.len() ==> is_ws(#[trigger] s[i]),
        trail_ws(s) < s.len() ==> !is_ws(s[s.len() - trail_ws(s) - 1]),
    decreases s.len(),
{
    if s.len() > 0 && is_ws(s.last()) {
        lemma_trail_ws(s.drop_last());
        assert forall|i: int| s.len() - trail_ws(s) <= i < s.len() implies is_ws(
            #[trigger] s[i],
        ) by {
            if i < s.len() - 1 {
                assert(s[i] == s.drop_last()[i]);
            }
        }
    }
}

/// Leading whitespace count computed by a scan: the first non-whitespace index.
/// Trimmed text neither starts nor ends with whitespace, and it is empty
/// exactly when the text is all whitespace.
pub proof fn lemma_trim_edges(s: Seq<char>)
    ensures
        trim(s).len() > 0 ==> !is_ws(trim(s)[0]) && !is_ws(trim(s)[trim(s).len() - 1]),
        trim(s).len() == 0 <==> forall|i: int| 0 <= i < s.len() ==> is_ws(#[trigger] s[i]),
{
    lemma_lead_ws(s);
    lemma_trail_ws(s);
    let a = lead_ws(s) as int;
    let b = trail_ws(s) as int;
    if a < s.len() {
        assert(!is_ws(s[a]));
        assert(a < s.len() - b) by {
            if a >= s.len() - b {
                assert(is_ws(s[a]));
            }
        }
        let t = trim(s);
        assert(t[0] == s[a]);
        assert(t[t.len() - 1] == s[s.len() - b - 1]);
    }
}

proof fn lemma_lead_ws_is_first(s: Seq<char>, k: int)
    requires
        0 <= k <= s.len(),
        forall|i: int| 0 <= i < k ==> is_ws(#[trigger] s[i]),
        k < s.len() ==> !is_ws(s[k]),
    ensures
        lead_ws(s) == k,
    decreases s.len(),
{
    if k > 0 {
        assert(is_ws(s[0]));
        assert forall|i: int| 0 <= i < k - 1 implies is_ws(#[trigger] s.drop_first()[i]) by {
            assert(s.drop_first()[i] == s[i + 1]);
        }
        if k < s.len() {
            assert(s.drop_first()[k - 1] == s[k]);
        }
        lemma_lead_ws_is_first(s.drop_first(), k - 1);
    } else if s.len() > 0 {
        assert(!is_ws(s[0]));
    }
}

proof fn lemma_trail_ws_is_last(s: Seq<char>, k: int)
    requires
        0 <= k <= s.len(),
        forall|i: int| s.len() - k <= i < s.len() ==> is_ws(#[trigger] s[i]),
        k < s.len() ==> !is_ws(s[s.len() - k - 1]),
    ensures
        trail_ws(s) == k,
    decreases s.len(),
{
    if k > 0 {
        assert(is_ws(s[s.len() - 1]));
        assert forall|i: int|
            s.drop_last().len() - (k - 1) <= i < s.drop_last().len() implies is_ws(
            #[trigger] s.drop_last()[i],
        ) by {
            assert(s.drop_last()[i] == s[i]);
        }
        if k < s.len() {
            assert(s.drop_last()[s.drop_last().len() - (k - 1) - 1] == s[s.len() - k - 1]);
        }
        lemma_trail_ws_is_last(s.drop_last(), k - 1);
    } else if s.len() > 0 {
        assert(!is_ws(s[s.len() - 1]));
    }
}

/// Text that neither starts nor ends with whitespace is its own trim.
pub proof fn lemma_trim_same(s: Seq<char>)
    requires
        s.len() > 0,
        !is_ws(s[0]),
        !is_ws(s.last()),
    ensures
        trim(s) == s,
{
    lemma_lead_ws_is_first(s, 0);
    lemma_trail_ws_is_last(s, 0);
    assert(s.subrange(0, s.len() as int) =~= s);
}

/// `s.trim()` on characters.
pub fn trim_chars(v: &Vec<char>) -> (r: Vec<char>)
    ensures
        r@ == trim(v@),
{
    let n = v.len();
    let mut a: usize = 0;
    while a < n && is_whitespace(v[a])
        invariant
            a <= n == v.len(),
            forall|i: int| 0 <= i < a ==> is_ws(#[trigger] v@[i]),
        decreases n - a,
    {
        a += 1;
    }
    proof {
        lemma_lead_ws_is_first(v@, a as int);
    }
    if a == n {
        return Vec::new();
    }
    let mut b: usize = n;
    while b > a && is_whitespace(v[b - 1])
        invariant
            a < n == v.len(),
            a <= b <= n,
            forall|i: int| b <= i < n ==> is_ws(#[trigger] v@[i]),
        decreases b,
    {
        b -= 1;
    }
    proof {
        assert(!is_ws(v@[a as int]));
        lemma_trail_ws_is_last(v@, (n - b) as int);
    }
    slice_chars(v, a, b)
}

/// `s.trim()`.
pub fn trim_str(s: &str) -> (r: Vec<char>)
    ensures
        r@ == trim(s@),
{
    let v = to_chars(s);
    trim_chars(&v)
}

// ---------------------------------------------------------------- words

/// Scanning state of `split_whitespace`: the words finished so far and the
/// word in progress.
pub open spec fn split_state(s: Seq<char>) -> (Seq<Seq<char>>, Seq<char>)
    decreases s.len(),
{
    if s.len() == 0 {
        (Seq::empty(), Seq::empty())
    } else {
        let (done, cur) = split_state(s.drop_last());
        let c = s.last();
        if is_ws(c) {
            if cur.len() > 0 {
                (done.push(cur), Seq::empty())
            } else {
                (done, Seq::empty())
            }
        } else {
            (done, cur.push(c))
        }
    }
}

/// `s.split_whitespace()`: the maximal runs of non-whitespace characters.
pub open spec fn words(s: Seq<char>) -> Seq<Seq<char>> {
    let (done, cur) = split_state(s);
    if cur.len() > 0 {
        done.push(cur)
    } else {
        done
    }
}

/// A word of `s`: not empty, no whitespace, every character from `s`.
pub open spec fn word_of(w: Seq<char>, s: Seq<char>) -> bool {
    &&& w.len() > 0
    &&& forall|j: int| 0 <= j < w.len() ==> !is_ws(#[trigger] w[j]) && s.contains(w[j])
}

proof fn lemma_split_state(s: Seq<char>)
    ensures
        forall|k: int| 0 <= k < split_state(s).0.len() ==> word_of(#[trigger] split_state(s).0[k], s),
        forall|j: int| 0 <= j < split_state(s).1.len() ==> !is_ws(#[trigger] split_state(s).1[j]) && s.contains(split_state(s).1[j]),
    decreases s.len(),
{
    if s.len() > 0 {
        let p = s.drop_last();
        lemma_split_state(p);
        let (done, cur) = split_state(p);
        assert forall|x: char| p.contains(x) implies s.contains(x) by {
            let i = choose|i: int| 0 <= i < p.len() && p[i] == x;
            assert(s[i] == x);
        }
        assert(s.contains(s.last())) by {
            assert(s[s.len() - 1] == s.last());
        }
        let (nd, nc) = split_state(s);
        assert forall|k: int| 0 <= k < nd.len() implies word_of(#[trigger] nd[k], s) by {
            if k < done.len() {
                assert(nd[k] == done[k]);
                assert(word_of(done[k], p));
            } else {
                assert(nd[k] == cur);
            }
        }
        assert forall|j: int| 0 <= j < nc.len() implies !is_ws(#[trigger] nc[j]) && s.contains(nc[j]) by {
            if !is_ws(s.last()) && j < cur.len() {
                assert(nc[j] == cur[j]);
            }
        }
    }
}

/// Every word of `s` is a word of `s`: not empty, no whitespace, its
/// characters taken from `s`.
pub proof fn lemma_words(s: Seq<char>)
    ensures
        forall|k: int| 0 <= k < words(s).len() ==> word_of(#[trigger] words(s)[k], s),
{
    lemma_split_state(s);
    let (done, cur) = split_state(s);
    assert forall|k: int| 0 <= k < words(s).len() implies word_of(#[trigger] words(s)[k], s) by {
        if k < done.len() {
            assert(words(s)[k] == done[k]);
        }
    }
}

/// Words of `s` joined by single spaces: not empty when there are words,
/// starting and ending with a character of a word, every whitespace a
/// single space between two such characters, and every other character
/// one of `s`.
pub proof fn lemma_join_words(parts: Seq<Seq<char>>, s: Seq<char>)
    requires
        forall|k: int| 0 <= k < parts.len() ==> word_of(#[trigger] parts[k], s),
    ensures
        parts.len() > 0 ==> join(parts, seq![' ']).len() > 0,
        parts.len() > 0 ==> !is_ws(join(parts, seq![' '])[0]) && !is_ws(
            join(parts, seq![' '])[join(parts, seq![' ']).len() - 1],
        ),
        forall|i: int|
            0 <= i < join(parts, seq![' ']).len() && is_ws(#[trigger] join(parts, seq![' '])[i]) ==> join(
                parts,
                seq![' '],
            )[i] == ' ' && 0 < i < join(parts, seq![' ']).len() - 1 && !is_ws(join(parts, seq![' '])[i - 1])
                && !is_ws(join(parts, seq![' '])[i + 1]),
        forall|i: int|
            0 <= i < join(parts, seq![' ']).len() && !is_ws(#[trigger] join(parts, seq![' '])[i]) ==> s.contains(
                join(parts, seq![' '])[i],
            ),
    decreases parts.len(),
{
    if parts.len() == 1 {
        assert(word_of(parts[0], s));
    } else if parts.len() > 1 {
        let init = parts.drop_last();
        assert forall|k: int| 0 <= k < init.len() implies word_of(#[trigger] init[k], s) by {
            assert(init[k] == parts[k]);
        }
        lemma_join_words(init, s);
        let a = join(init, seq![' ']);
        let w = parts.last();
        assert(word_of(parts[parts.len() - 1], s));
        let j = join(parts, seq![' ']);
        assert(j == a + seq![' '] + w);
        assert forall|i: int| 0 <= i < j.len() && is_ws(#[trigger] j[i]) implies j[i] == ' ' && 0 < i < j.len() - 1
            && !is_ws(j[i - 1]) && !is_ws(j[i + 1]) by {
            if i < a.len() {
                assert(j[i] == a[i]);
                assert(j[i - 1] == a[i - 1]);
                if i + 1 < a.len() {
                    assert(j[i + 1] == a[i + 1]);
                }
            } else if i == a.len() {
                assert(j[i - 1] == a[a.len() - 1]);
                assert(j[i + 1] == w[0]);
            } else {
                assert(j[i] == w[i - a.len() - 1]);
            }
        }
        assert forall|i: int| 0 <= i < j.len() && !is_ws(#[trigger] j[i]) implies s.contains(j[i]) by {
            if i < a.len() {
                assert(j[i] == a[i]);
            } else if i > a.len() {
                assert(j[i] == w[i - a.len() - 1]);
            }
        }
        assert(j[0] == a[0]);
        assert(j[j.len() - 1] == w[w.len() - 1]);
    }
}

/// The character sequences held by a vector of character vectors.
pub open spec fn views(v: Seq<Vec<char>>) -> Seq<Seq<char>> {
    v.map_values(|w: Vec<char>| w@)
}

/// `s.split_whitespace()` on characters.
pub fn split_words(v: &Vec<char>) -> (r: Vec<Vec<char>>)
    ensures
        views(r@) == words(v@),
{
    let mut done: Vec<Vec<char>> = Vec::new();
    let mut cur: Vec<char> = Vec::new();
    let mut i: usize = 0;
    while i < v.len()
        invariant
            i <= v.len(),
            (views(done@), cur@) == split_state(v@.take(i as int)),
        decreases v.len() - i,
    {
        let c = v[i];
        assert(v@.take(i + 1).drop_last() == v@.take(i as int));
        if is_whitespace(c) {
            if cur.len() > 0 {
                let ghost old_done = views(done@);
                let w = cur;
                let ghost wv = w@;
                cur = Vec::new();
                done.push(w);
                assert(views(done@) =~= old_done.push(wv));
            }
        } else {
            cur.push(c);
        }
        i += 1;
    }
    assert(v@.take(v.len() as int) == v@);
    if cur.len() > 0 {
        let ghost old_done = views(done@);
        let ghost wv = cur@;
        done.push(cur);
        assert(views(done@) =~= old_done.push(wv));
    }
    done
}

// ---------------------------------------------------------------- joining

/// `parts.join(sep)`.
pub open spec fn join(parts: Seq<Seq<char>>, sep: Seq<char>) -> Seq<char>
    decreases parts.len(),
{
    if parts.len() == 0 {
        Seq::empty()
    } else if parts.len() == 1 {
        parts[0]
    } else {
        join(parts.drop_last(), sep) + sep + parts.last()
    }
}

/// `parts.join(sep)` on characters.
pub fn join_chars(parts: &Vec<Vec<char>>, sep: &Vec<char>) -> (r: Vec<char>)
    ensures
        r@ == join(views(parts@), sep@),
{
    let mut r: Vec<char> = Vec::new();
    let mut i: usize = 0;
    while i < parts.len()
        invariant
            i <= parts.len(),
            r@ == join(views(parts@).take(i as int), sep@),
        decreases parts.len() - i,
    {
        let ghost before = r@;
        if i > 0 {
            extend_chars(&mut r, sep);
        }
        extend_chars(&mut r, &parts[i]);
        proof {
            let t = views(parts@).take(i + 1);
            assert(t.drop_last() == views(parts@).take(i as int));
            assert(t.last() == parts[i as int]@);
            if i == 0 {
                assert(r@ == parts[0]@);
            }
        }
        i += 1;
    }
    assert(views(parts@).take(parts.len() as int) == views(parts@));
    r
}

// ---------------------------------------------------------------- decimal numbers

/// The character of decimal digit `d`.
pub open spec fn digit(d: nat) -> char {
    ((d + 48) as u32) as char
}

/// Decimal digits of `n`, without sign or padding (what `{}` prints).
pub open spec fn dec(n: nat) -> Seq<char>
    decreases n,
{
    if n < 10 {
        seq![digit(n)]
    } else {
        dec(n / 10).push(digit(n % 10))
    }
}

/// `{}` of a signed integer.
pub open spec fn dec_int(i: int) -> Seq<char> {
    if i < 0 {
        seq!['-'] + dec((-i) as nat)
    } else {
        dec(i as nat)
    }
}

/// `{:02}` of a non-negative number.
pub open spec fn pad2(n: nat) -> Seq<char> {
    if n < 10 {
        seq!['0'] + dec(n)
    } else {
        dec(n)
    }
}

fn digit_char(d: u64) -> (c: char)
    requires
        d < 10,
    ensures
        c == digit(d as nat),
{
    if d == 0 {
        '0'
    } else if d == 1 {
        '1'
    } else if d == 2 {
        '2'
    } else if d == 3 {
        '3'
    } else if d == 4 {
        '4'
    } else if d == 5 {
        '5'
    } else if d == 6 {
        '6'
    } else if d == 7 {
        '7'
    } else if d == 8 {
        '8'
    } else {
        '9'
    }
}

/// Decimal digits of `n`.
pub fn dec_u64(n: u64) -> (r: Vec<char>)
    ensures
        r@ == dec(n as nat),
    decreases n,
{
    if n < 10 {
        let mut v: Vec<char> = Vec::new();
        v.push(digit_char(n));
        v
    } else {
        let mut v = dec_u64(n / 10);
        v.push(digit_char(n % 10));
        v
    }
}

/// Decimal text of a signed number.
pub fn dec_i64(i: i64) -> (r: Vec<char>)
    ensures
        r@ == dec_int(i as int),
{
    if i < 0 {
        let m: i128 = -(i as i128);
        let mut v: Vec<char> = Vec::new();
        v.push('-');
        let d = dec_u64(m as u64);
        extend_chars(&mut v, &d);
        v
    } else {
        dec_u64(i as u64)
    }
}

/// Zero-padded two-digit decimal text.
pub fn pad2_u64(n: u64) -> (r: Vec<char>)
    ensures
        r@ == pad2(n as nat),
{
    if n < 10 {
        let mut v: Vec<char> = Vec::new();
        v.push('0');
        let d = dec_u64(n);
        extend_chars(&mut v, &d);
        v
    } else {
        dec_u64(n)
    }
}

/// Value of a string of decimal digits.
pub open spec fn digits_value(s: Seq<char>) -> nat
    decreases s.len(),
{
    if s.len() == 0 {
        0
    } else {
        digits_value(s.drop_last()) * 10 + ((s.last() as u32) - 48) as nat
    }
}

/// The digits part of a number: without one leading `+`.
pub open spec fn unsigned_body(s: Seq<char>) -> Seq<char> {
    if s.len() > 0 && s[0] == '+' {
        s.drop_first()
    } else {
        s
    }
}

/// All characters are decimal digits.
pub open spec fn all_digits(s: Seq<char>) -> bool {
    forall|i: int| 0 <= i < s.len() ==> is_digit(#[trigger] s[i])
}

/// `s.parse::<u64>()`: an optional `+`, then one or more digits whose value fits.
pub open spec fn parse_u64(s: Seq<char>) -> Option<u64> {
    let body = unsigned_body(s);
    if body.len() > 0 && all_digits(body) && digits_value(body) <= u64::MAX {
        Some(digits_value(body) as u64)
    } else {
        None
    }
}

/// `s.parse::<u64>().ok()` on characters.
pub fn parse_u64_chars(v: &Vec<char>) -> (r: Option<u64>)
    ensures
        r == parse_u64(v@),
{
    let start: usize = if v.len() > 0 && v[0] == '+' {
        1
    } else {
        0
    };
    let ghost body = unsigned_body(v@);
    assert(body == v@.subrange(start as int, v@.len() as int));
    if start >= v.len() {
        return None;
    }
    let mut acc: u64 = 0;
    let mut i = start;
    while i < v.len()
        invariant
            start <= i <= v.len(),
            body == v@.subrange(start as int, v@.len() as int),
            body == unsigned_body(v@),
            forall|k: int| start <= k < i ==> is_digit(#[trigger] v@[k]),
            acc as nat == digits_value(v@.subrange(start as int, i as int)),
        decreases v.len() - i,
    {
        let c = v[i] as u32;
        if c < 0x30 || c > 0x39 {
            assert(body[i - start] == v@[i as int]);
            assert(!is_digit(body[i - start]));
            assert(!all_digits(body));
            return None;
        }
        let d = (c - 0x30) as u64;
        assert(v@.subrange(start as int, i + 1).drop_last() == v@.subrange(start as int, i as int));
        if acc > (u64::MAX - d) / 10 {
            proof {
                lemma_digits_grow(body, (i - start + 1) as int);
                assert(body.take((i - start + 1) as int) == v@.subrange(start as int, i + 1));
                assert(v@.subrange(start as int, i + 1).last() == v@[i as int]);
                assert(digits_value(v@.subrange(start as int, i + 1)) == acc * 10 + d);
            }
            assert(acc * 10 + d > u64::MAX) by (nonlinear_arith)
                requires
                    acc > (u64::MAX - d) / 10,
                    d < 10,
            ;
            assert(digits_value(body) > u64::MAX);
            return None;
        }
        assert(v@.subrange(start as int, i + 1).last() == v@[i as int]);
        acc = acc * 10 + d;
        i += 1;
    }
    assert(v@.subrange(start as int, v@.len() as int) == body);
    assert(digits_value(body) == acc);
    assert forall|k: int| 0 <= k < body.len() implies is_digit(#[trigger] body[k]) by {
        assert(body[k] == v@[start + k]);
    }
    Some(acc)
}

/// A string of digits is worth at least any of its prefixes.
pub proof fn lemma_digits_grow(s: Seq<char>, k: int)
    requires
        0 <= k <= s.len(),
    ensures
        digits_value(s.take(k)) <= digits_value(s),
    decreases s.len(),
{
    if k < s.len() {
        assert(s.drop_last().take(k) == s.take(k));
        lemma_digits_grow(s.drop_last(), k);
    } else {
        assert(s.take(k) == s);
    }
}

/// Reading back what `{}` printed gives the number.
pub proof fn lemma_dec_digits(n: nat)
    ensures
        dec(n).len() > 0,
        forall|i: int| 0 <= i < dec(n).len() ==> is_digit(#[trigger] dec(n)[i]),
        digits_value(dec(n)) == n,
        dec(n)[0] != '+',
    decreases n,
{
    if n < 10 {
        assert(((n + 48) as u32) as char as u32 == n + 48);
        assert((digit(n) as u32) == n + 48);
        assert(dec(n).last() == digit(n));
        assert(dec(n).drop_last() =~= Seq::<char>::empty());
        assert(digits_value(Seq::<char>::empty()) == 0);
    } else {
        lemma_dec_digits(n / 10);
        let d = dec(n);
        assert(d.drop_last() == dec(n / 10));
        let m = (n % 10) as nat;
        assert((digit(m) as u32) == m + 48);
        assert(digits_value(d) == digits_value(dec(n / 10)) * 10 + m);
        assert forall|i: int| 0 <= i < d.len() implies is_digit(#[trigger] d[i]) by {
            if i < d.len() - 1 {
                assert(d[i] == dec(n / 10)[i]);
            }
        }
    }
}

/// `parse_u64` reads back `{}` of any `u64`.
pub proof fn lemma_parse_dec(n: u64)
    ensures
        parse_u64(dec(n as nat)) == Some(n),
{
    lemma_dec_digits(n as nat);
}

} // verus!

verus! {

/// `a == b` on characters.
pub fn chars_eq(a: &Vec<char>, b: &Vec<char>) -> (r: bool)
    ensures
        r == (a@ == b@),
{
    if a.len() != b.len() {
        return false;
    }
    let mut i: usize = 0;
    while i < a.len()
        invariant
            a.len() == b.len(),
            i <= a.len(),
            forall|k: int| 0 <= k < i ==> a@[k] == b@[k],
        decreases a.len() - i,
    {
        if a[i] != b[i] {
            return false;
        }
        i += 1;
    }
    assert(a@ =~= b@);
    true
}

/// `a == b`.
pub fn str_eq(a: &str, b: &str) -> (r: bool)
    ensures
        r == (a@ == b@),
{
    let x = to_chars(a);
    let y = to_chars(b);
    chars_eq(&x, &y)
}

} // verus!

verus! {

// ---------------------------------------------------------------- splitting on a character

/// Scanning state of `split(sep)`: the pieces finished so far and the one in progress.
pub open spec fn pieces_state(s: Seq<char>, sep: char) -> (Seq<Seq<char>>, Seq<char>)
    decreases s.len(),
{
    if s.len() == 0 {
        (Seq::empty(), Seq::empty())
    } else {
        let (done, cur) = pieces_state(s.drop_last(), sep);
        if s.last() == sep {
            (done.push(cur), Seq::empty())
        } else {
            (done, cur.push(s.last()))
        }
    }
}

/// `s.split(sep)`: the pieces between separators (possibly empty).
pub open spec fn pieces(s: Seq<char>, sep: char) -> Seq<Seq<char>> {
    let (done, cur) = pieces_state(s, sep);
    done.push(cur)
}

/// `s.split(sep)` on characters.
pub fn split_char(v: &Vec<char>, sep: char) -> (r: Vec<Vec<char>>)
    ensures
        views(r@) == pieces(v@, sep),
{
    let mut done: Vec<Vec<char>> = Vec::new();
    let mut cur: Vec<char> = Vec::new();
    let mut i: usize = 0;
    while i < v.len()
        invariant
            i <= v.len(),
            (views(done@), cur@) == pieces_state(v@.take(i as int), sep),
        decreases v.len() - i,
    {
        assert(v@.take(i + 1).drop_last() == v@.take(i as int));
        if v[i] == sep {
            let ghost d = views(done@);
            let ghost c = cur@;
            done.push(cur);
            cur = Vec::new();
            assert(views(done@) =~= d.push(c));
        } else {
            cur.push(v[i]);
        }
        i += 1;
    }
    assert(v@.take(v.len() as int) == v@);
    let ghost d = views(done@);
    let ghost c = cur@;
    done.push(cur);
    assert(views(done@) =~= d.push(c));
    done
}

/// Characters without a separator extend the piece in progress.
pub proof fn lemma_pieces_extend(pre: Seq<char>, b: Seq<char>, sep: char)
    requires
        forall|i: int| 0 <= i < b.len() ==> b[i] != sep,
    ensures
        pieces_state(pre + b, sep) == (pieces_state(pre, sep).0, pieces_state(pre, sep).1 + b),
    decreases b.len(),
{
    if b.len() == 0 {
        assert(pre + b =~= pre);
        assert(pieces_state(pre, sep).1 + b =~= pieces_state(pre, sep).1);
    } else {
        let c = b.drop_last();
        lemma_pieces_extend(pre, c, sep);
        assert((pre + b).drop_last() =~= pre + c);
        assert((pre + b).last() == b.last());
        assert(pieces_state(pre, sep).1 + c + seq![b.last()] =~= pieces_state(pre, sep).1 + b);
        assert((pieces_state(pre, sep).1 + c).push(b.last()) =~= pieces_state(pre, sep).1 + b);
    }
}

/// Text without the separator is one piece; two such texts around one
/// separator are two pieces.
pub proof fn lemma_pieces_two(a: Seq<char>, b: Seq<char>, sep: char)
    requires
        forall|i: int| 0 <= i < a.len() ==> a[i] != sep,
        forall|i: int| 0 <= i < b.len() ==> b[i] != sep,
    ensures
        pieces(a, sep) == seq![a],
        pieces(a + seq![sep] + b, sep) == seq![a, b],
{
    lemma_pieces_extend(Seq::empty(), a, sep);
    assert(Seq::<char>::empty() + a =~= a);
    assert(pieces_state(Seq::<char>::empty(), sep) == (Seq::<Seq<char>>::empty(), Seq::<char>::empty()));
    assert(Seq::<char>::empty() + a =~= a);
    assert(pieces(a, sep) =~= seq![a]);
    let pre = a + seq![sep];
    assert(pre.drop_last() =~= a);
    assert(pieces_state(pre, sep) == (seq![a], Seq::<char>::empty())) by {
        assert(Seq::<Seq<char>>::empty().push(a) =~= seq![a]);
    }
    lemma_pieces_extend(pre, b, sep);
    assert(Seq::<char>::empty() + b =~= b);
    assert(pieces(a + seq![sep] + b, sep) =~= seq![a, b]);
}

} // verus!
