//! Standalone HTML page for a meeting: escaping, the small markdown of
//! summaries, and the page itself.

use vstd::prelude::*;
use crate::ai::Summary;
use crate::meetings::Meeting;
use crate::search::Segment;
use crate::stamp::{parse_stamp, parse_stamp_of, stamp, stamp_of};
use crate::text::{dec_i64, dec_int, extend_chars, extend_str, slice_chars, to_chars, trim, trim_chars};

verus! {

// ---------------------------------------------------------------- escaping

/// What `&`, `<` and `>` become in HTML text; other characters stay.
pub open spec fn escape_char(c: char) -> Seq<char> {
    if c == '&' {
        seq!['&', 'a', 'm', 'p', ';']
    } else if c == '<' {
        seq!['&', 'l', 't', ';']
    } else if c == '>' {
        seq!['&', 'g', 't', ';']
    } else {
        seq![c]
    }
}

/// `s` escaped for HTML text.
pub open spec fn escape(s: Seq<char>) -> Seq<char>
    decreases s.len(),
{
    if s.len() == 0 {
        Seq::empty()
    } else {
        escape(s.drop_last()) + escape_char(s.last())
    }
}

/// Escaped text holds no `<` or `>`: nothing in it can open or close a tag.
pub proof fn lemma_escape_no_tags(s: Seq<char>)
    ensures
        forall|i: int| 0 <= i < escape(s).len() ==> #[trigger] escape(s)[i] != '<' && escape(s)[i] != '>',
    decreases s.len(),
{
    if s.len() > 0 {
        lemma_escape_no_tags(s.drop_last());
        let p = escape(s.drop_last());
        let e = escape_char(s.last());
        assert forall|i: int| 0 <= i < escape(s).len() implies #[trigger] escape(s)[i] != '<' && escape(s)[i] != '>' by {
            if i < p.len() {
                assert(escape(s)[i] == p[i]);
            } else {
                assert(escape(s)[i] == e[i - p.len()]);
            }
        }
    }
}

/// Text without `&`, `<` and `>` is left exactly as it is.
pub proof fn lemma_escape_plain(s: Seq<char>)
    requires
        forall|i: int| 0 <= i < s.len() ==> #[trigger] s[i] != '&' && s[i] != '<' && s[i] != '>',
    ensures
        escape(s) == s,
    decreases s.len(),
{
    if s.len() > 0 {
        lemma_escape_plain(s.drop_last());
        assert(s.drop_last() + seq![s.last()] =~= s);
    }
}

/// `html_escape::encode_text`: escapes `&`, `<` and `>` as `&amp;`, `&lt;`
/// and `&gt;` and leaves every other character as it is.
#[verifier::external_body]
fn encode_text(s: &str) -> (r: String)
    ensures
        r@ == escape(s@),
{
    html_escape::encode_text(s).into_owned()
}

/// Append `escape(v)` to `out`.
pub fn push_escaped(out: &mut Vec<char>, v: &Vec<char>)
    ensures
        final(out)@ == old(out)@ + escape(v@),
{
    let s = crate::text::from_chars(v);
    let e = encode_text(s.as_str());
    let ec = to_chars(e.as_str());
    extend_chars(out, &ec);
}

// ---------------------------------------------------------------- searching

/// Index of the first `a` at or after `k`.
pub open spec fn find1_from(s: Seq<char>, a: char, k: int) -> Option<int>
    decreases s.len() - k,
{
    if k < 0 || k >= s.len() {
        None
    } else if s[k] == a {
        Some(k)
    } else {
        find1_from(s, a, k + 1)
    }
}

/// Index of the first `ab` at or after `k`.
pub open spec fn find2_from(s: Seq<char>, a: char, b: char, k: int) -> Option<int>
    decreases s.len() - k,
{
    if k < 0 || k + 1 >= s.len() {
        None
    } else if s[k] == a && s[k + 1] == b {
        Some(k)
    } else {
        find2_from(s, a, b, k + 1)
    }
}

proof fn lemma_find1_range(s: Seq<char>, a: char, k: int)
    requires
        0 <= k,
    ensures
        find1_from(s, a, k) matches Some(i) ==> k <= i < s.len() && s[i] == a,
    decreases s.len() - k,
{
    if k < s.len() && s[k] != a {
        lemma_find1_range(s, a, k + 1);
    }
}

proof fn lemma_find2_range(s: Seq<char>, a: char, b: char, k: int)
    requires
        0 <= k,
    ensures
        find2_from(s, a, b, k) matches Some(i) ==> k <= i && i + 1 < s.len(),
    decreases s.len() - k,
{
    if k + 1 < s.len() && !(s[k] == a && s[k + 1] == b) {
        lemma_find2_range(s, a, b, k + 1);
    }
}

fn find1(v: &Vec<char>, a: char, from: usize) -> (r: Option<usize>)
    requires
        from <= v.len(),
    ensures
        r.is_some() == find1_from(v@, a, from as int).is_some(),
        r.is_some() ==> r.unwrap() as int == find1_from(v@, a, from as int).unwrap(),
{
    let mut k = from;
    while k < v.len()
        invariant
            from <= k <= v.len(),
            find1_from(v@, a, from as int) == find1_from(v@, a, k as int),
        decreases v.len() - k,
    {
        if v[k] == a {
            return Some(k);
        }
        k += 1;
    }
    None
}

fn find2(v: &Vec<char>, a: char, b: char, from: usize) -> (r: Option<usize>)
    requires
        from <= v.len(),
    ensures
        r.is_some() == find2_from(v@, a, b, from as int).is_some(),
        r.is_some() ==> r.unwrap() as int == find2_from(v@, a, b, from as int).unwrap(),
{
    let mut k = from;
    while v.len() > 0 && k < v.len() - 1
        invariant
            from <= k <= v.len(),
            find2_from(v@, a, b, from as int) == find2_from(v@, a, b, k as int),
        decreases v.len() - k,
    {
        if v[k] == a && v[k + 1] == b {
            return Some(k);
        }
        k += 1;
    }
    None
}

// ---------------------------------------------------------------- inline markup

/// `**bold**` to `<b>bold</b>` from position `k` on; an unpaired `**` stays.
pub open spec fn bold_from(e: Seq<char>, k: int) -> Seq<char>
    decreases e.len() - k,
{
    if k < 0 || k > e.len() {
        Seq::empty()
    } else {
        match find2_from(e, '*', '*', k) {
            None => e.subrange(k, e.len() as int),
            Some(i) => if i < k || i + 2 > e.len() {
                Seq::empty()
            } else {
                match find2_from(e, '*', '*', i + 2) {
                    Some(j) => if j < i + 2 || j + 2 > e.len() {
                        Seq::empty()
                    } else {
                        e.subrange(k, i) + "<b>"@ + e.subrange(i + 2, j) + "</b>"@ + bold_from(
                            e,
                            j + 2,
                        )
                    },
                    None => e.subrange(k, i) + seq!['*', '*'] + bold_from(e, i + 2),
                }
            },
        }
    }
}

/// The part of `inner` before its first `@` (all of it when there is none).
pub open spec fn before_at(inner: Seq<char>) -> Seq<char> {
    match find1_from(inner, '@', 0) {
        Some(i) => inner.take(i),
        None => inner,
    }
}

/// What `[inner]` becomes: a seek link when the part before `@` is a
/// timestamp, else the brackets and text as they were.
pub open spec fn link_of(inner: Seq<char>) -> Seq<char> {
    let head = trim(before_at(inner));
    match parse_stamp_of(head) {
        Some(ms) => "<a href=\"#\" class=\"t\" data-ms=\""@ + dec_int(ms as int) + "\">"@ + escape(
            head,
        ) + "</a>"@,
        None => seq!['['] + inner + seq![']'],
    }
}

/// `[m:ss]` timestamps to seek links from position `k` on.
pub open spec fn links_from(r: Seq<char>, k: int) -> Seq<char>
    decreases r.len() - k,
{
    if k < 0 || k > r.len() {
        Seq::empty()
    } else {
        match find1_from(r, '[', k) {
            None => r.subrange(k, r.len() as int),
            Some(i) => if i < k || i >= r.len() {
                Seq::empty()
            } else {
                match find1_from(r, ']', i) {
                    Some(j) => if j <= i || j >= r.len() {
                        Seq::empty()
                    } else {
                        r.subrange(k, i) + link_of(r.subrange(i + 1, j)) + links_from(r, j + 1)
                    },
                    None => r.subrange(k, r.len() as int),
                }
            },
        }
    }
}

/// Inline markdown of a summary line: escaped text with bold and seek links.
pub open spec fn inline_of(s: Seq<char>) -> Seq<char> {
    links_from(bold_from(escape(s), 0), 0)
}

fn bold_exec(e: &Vec<char>) -> (out: Vec<char>)
    ensures
        out@ == bold_from(e@, 0),
{
    let mut out: Vec<char> = Vec::new();
    let mut k: usize = 0;
    while k <= e.len()
        invariant
            k <= e.len(),
            out@ + bold_from(e@, k as int) == bold_from(e@, 0),
        decreases e.len() - k,
    {
        proof {
            lemma_find2_range(e@, '*', '*', k as int);
        }
        match find2(e, '*', '*', k) {
            None => {
                let rest = slice_chars(e, k, e.len());
                extend_chars(&mut out, &rest);
                return out;
            },
            Some(i) => {
                proof {
                    lemma_find2_range(e@, '*', '*', i + 2);
                }
                let pre = slice_chars(e, k, i);
                extend_chars(&mut out, &pre);
                match find2(e, '*', '*', i + 2) {
                    Some(j) => {
                        extend_str(&mut out, "<b>");
                        let mid = slice_chars(e, i + 2, j);
                        extend_chars(&mut out, &mid);
                        extend_str(&mut out, "</b>");
                        k = j + 2;
                    },
                    None => {
                        out.push('*');
                        out.push('*');
                        assert(seq!['*', '*'] == seq!['*'].push('*'));
                        k = i + 2;
                    },
                }
            },
        }
    }
    out
}

fn before_at_exec(inner: &Vec<char>) -> (r: Vec<char>)
    ensures
        r@ == before_at(inner@),
{
    proof {
        lemma_find1_range(inner@, '@', 0);
    }
    match find1(inner, '@', 0) {
        Some(i) => slice_chars(inner, 0, i),
        None => slice_chars(inner, 0, inner.len()),
    }
}

fn link_exec(out: &mut Vec<char>, inner: &Vec<char>)
    ensures
        final(out)@ == old(out)@ + link_of(inner@),
{
    let b = before_at_exec(inner);
    let head = trim_chars(&b);
    match parse_stamp(&head) {
        Some(ms) => {
            extend_str(out, "<a href=\"#\" class=\"t\" data-ms=\"");
            let d = dec_i64(ms);
            extend_chars(out, &d);
            extend_str(out, "\">");
            push_escaped(out, &head);
            extend_str(out, "</a>");
        },
        None => {
            out.push('[');
            extend_chars(out, inner);
            out.push(']');
        },
    }
}

fn links_exec(r: &Vec<char>) -> (out: Vec<char>)
    ensures
        out@ == links_from(r@, 0),
{
    let mut out: Vec<char> = Vec::new();
    let mut k: usize = 0;
    while k <= r.len()
        invariant
            k <= r.len(),
            out@ + links_from(r@, k as int) == links_from(r@, 0),
        decreases r.len() - k,
    {
        proof {
            lemma_find1_range(r@, '[', k as int);
        }
        match find1(r, '[', k) {
            None => {
                let rest = slice_chars(r, k, r.len());
                extend_chars(&mut out, &rest);
                return out;
            },
            Some(i) => {
                proof {
                    lemma_find1_range(r@, ']', i as int);
                }
                match find1(r, ']', i) {
                    Some(j) => {
                        let pre = slice_chars(r, k, i);
                        extend_chars(&mut out, &pre);
                        let inner = slice_chars(r, i + 1, j);
                        link_exec(&mut out, &inner);
                        k = j + 1;
                    },
                    None => {
                        let rest = slice_chars(r, k, r.len());
                        extend_chars(&mut out, &rest);
                        return out;
                    },
                }
            },
        }
    }
    out
}

/// Inline markdown of one summary line to HTML.
pub fn inline(s: &Vec<char>) -> (r: Vec<char>)
    ensures
        r@ == inline_of(s@),
{
    let mut e: Vec<char> = Vec::new();
    push_escaped(&mut e, s);
    assert(e@ == escape(s@));
    let b = bold_exec(&e);
    links_exec(&b)
}

} // verus!

verus! {

// ---------------------------------------------------------------- summary markdown

/// `s.lines()` up to line-end whitespace: the pieces between newlines, where
/// a final newline does not start another line. (Each line is trimmed
/// before use, so a `\r` before the newline does not matter.)
pub open spec fn lines_of(s: Seq<char>) -> Seq<Seq<char>> {
    let p = crate::text::pieces(s, '\n');
    if p.last().len() == 0 {
        p.drop_last()
    } else {
        p
    }
}

pub open spec fn starts_with(t: Seq<char>, p: Seq<char>) -> bool {
    t.len() >= p.len() && t.take(p.len() as int) == p
}

/// The text of a `## ` or `# ` heading line.
pub open spec fn heading_of(t: Seq<char>) -> Option<Seq<char>> {
    if starts_with(t, seq!['#', '#', ' ']) {
        Some(t.skip(3))
    } else if starts_with(t, seq!['#', ' ']) {
        Some(t.skip(2))
    } else {
        None
    }
}

/// The text of a `- ` or `* ` list item line.
pub open spec fn item_of(t: Seq<char>) -> Option<Seq<char>> {
    if starts_with(t, seq!['-', ' ']) || starts_with(t, seq!['*', ' ']) {
        Some(t.skip(2))
    } else {
        None
    }
}

/// `s.trim_start_matches(p)`: every leading copy of `p` removed.
pub open spec fn strip_all(s: Seq<char>, p: Seq<char>) -> Seq<char>
    decreases s.len(),
{
    if p.len() > 0 && starts_with(s, p) {
        strip_all(s.skip(p.len() as int), p)
    } else {
        s
    }
}

/// `s.trim_end_matches(':')`.
pub open spec fn strip_colons(s: Seq<char>) -> Seq<char>
    decreases s.len(),
{
    if s.len() > 0 && s.last() == ':' {
        strip_colons(s.drop_last())
    } else {
        s
    }
}

/// A list item without its `[ ] ` / `[x] ` checkboxes.
pub open spec fn item_text(li: Seq<char>) -> Seq<char> {
    strip_all(strip_all(li, seq!['[', ' ', ']', ' ']), seq!['[', 'x', ']', ' '])
}

/// Close an open list.
pub open spec fn closed(out: Seq<char>, in_list: bool) -> Seq<char> {
    if in_list {
        out + "</ul>"@
    } else {
        out
    }
}

/// One summary line: headings become `<h3>` (escaped, trailing colons
/// dropped), `- `/`* ` items `<li>` inside one `<ul>`, other text `<p>`
/// (with inline markup); blank lines and non-items close a list.
pub open spec fn md_line(st: (Seq<char>, bool), line: Seq<char>) -> (Seq<char>, bool) {
    let (out, in_list) = st;
    let t = trim(line);
    match heading_of(t) {
        Some(h) => (closed(out, in_list) + "<h3>"@ + escape(strip_colons(h)) + "</h3>"@, false),
        None => match item_of(t) {
            Some(li) => (
                (if in_list {
                    out
                } else {
                    out + "<ul>"@
                }) + "<li>"@ + inline_of(item_text(li)) + "</li>"@,
                true,
            ),
            None => if t.len() == 0 {
                (closed(out, in_list), false)
            } else {
                (closed(out, in_list) + "<p>"@ + inline_of(t) + "</p>"@, false)
            },
        },
    }
}

pub open spec fn md_fold(lines: Seq<Seq<char>>) -> (Seq<char>, bool)
    decreases lines.len(),
{
    if lines.len() == 0 {
        (Seq::empty(), false)
    } else {
        md_line(md_fold(lines.drop_last()), lines.last())
    }
}

/// The HTML of a summary's markdown.
pub open spec fn md_html_of(md: Seq<char>) -> Seq<char> {
    let (out, in_list) = md_fold(lines_of(md));
    closed(out, in_list)
}

/// A bullet line (`b` is `-` or `*`, then a space, then text that does not
/// end in whitespace) is taken whole as a list item with that text.
proof fn lemma_bullet_line(b: char, x: Seq<char>, st: (Seq<char>, bool))
    requires
        b == '-' || b == '*',
        x.len() > 0,
        !crate::text::is_ws(x.last()),
    ensures
        md_line(st, seq![b, ' '] + x) == (
            (if st.1 {
                st.0
            } else {
                st.0 + "<ul>"@
            }) + "<li>"@ + inline_of(item_text(x)) + "</li>"@,
            true,
        ),
{
    let l = seq![b, ' '] + x;
    assert(l[0] == b);
    assert(l.last() == x.last());
    crate::text::lemma_trim_same(l);
    assert(l.take(2) =~= seq![b, ' ']);
    assert(l.skip(2) =~= x);
    assert(l.take(3)[0] == b);
    assert(l.take(2)[0] == b);
    assert(heading_of(l) is None);
}

/// A one-line summary that is a bullet renders as a list of that one item,
/// and `* ` bullets render exactly as `- ` bullets.
pub proof fn lemma_md_bullet(x: Seq<char>)
    requires
        x.len() > 0,
        !crate::text::is_ws(x.last()),
        forall|i: int| 0 <= i < x.len() ==> x[i] != '\n',
    ensures
        md_html_of(seq!['-', ' '] + x) == "<ul>"@ + "<li>"@ + inline_of(item_text(x)) + "</li>"@ + "</ul>"@,
        md_html_of(seq!['*', ' '] + x) == md_html_of(seq!['-', ' '] + x),
{
    lemma_md_one_bullet('-', x);
    lemma_md_one_bullet('*', x);
}

proof fn lemma_md_one_bullet(b: char, x: Seq<char>)
    requires
        b == '-' || b == '*',
        x.len() > 0,
        !crate::text::is_ws(x.last()),
        forall|i: int| 0 <= i < x.len() ==> x[i] != '\n',
    ensures
        md_html_of(seq![b, ' '] + x) == "<ul>"@ + "<li>"@ + inline_of(item_text(x)) + "</li>"@ + "</ul>"@,
{
    let l = seq![b, ' '] + x;
    assert forall|i: int| 0 <= i < l.len() implies l[i] != '\n' by {
        if i >= 2 {
            assert(l[i] == x[i - 2]);
        }
    }
    crate::text::lemma_pieces_two(l, Seq::empty(), '\n');
    assert(lines_of(l) =~= seq![l]);
    assert(seq![l].drop_last() =~= Seq::<Seq<char>>::empty());
    assert(md_fold(Seq::<Seq<char>>::empty()) == (Seq::<char>::empty(), false));
    assert(md_fold(seq![l]) == md_line((Seq::<char>::empty(), false), l));
    lemma_bullet_line(b, x, (Seq::empty(), false));
    assert(Seq::<char>::empty() + "<ul>"@ =~= "<ul>"@);
    let o = "<ul>"@ + "<li>"@ + inline_of(item_text(x)) + "</li>"@;
    assert(md_fold(seq![l]) == (o, true));
    assert(md_html_of(l) == o + "</ul>"@);
}

/// Two bullet lines (`-` or `*` each) render as one list of the two items,
/// in order.
pub proof fn lemma_md_two_bullets(b1: char, x: Seq<char>, b2: char, y: Seq<char>)
    requires
        b1 == '-' || b1 == '*',
        b2 == '-' || b2 == '*',
        x.len() > 0,
        y.len() > 0,
        !crate::text::is_ws(x.last()),
        !crate::text::is_ws(y.last()),
        forall|i: int| 0 <= i < x.len() ==> x[i] != '\n',
        forall|i: int| 0 <= i < y.len() ==> y[i] != '\n',
    ensures
        md_html_of((seq![b1, ' '] + x) + seq!['\n'] + (seq![b2, ' '] + y)) == "<ul>"@ + "<li>"@ + inline_of(
            item_text(x),
        ) + "</li>"@ + "<li>"@ + inline_of(item_text(y)) + "</li>"@ + "</ul>"@,
{
    let l1 = seq![b1, ' '] + x;
    let l2 = seq![b2, ' '] + y;
    assert forall|i: int| 0 <= i < l1.len() implies l1[i] != '\n' by {
        if i >= 2 {
            assert(l1[i] == x[i - 2]);
        }
    }
    assert forall|i: int| 0 <= i < l2.len() implies l2[i] != '\n' by {
        if i >= 2 {
            assert(l2[i] == y[i - 2]);
        }
    }
    crate::text::lemma_pieces_two(l1, l2, '\n');
    assert(lines_of(l1 + seq!['\n'] + l2) =~= seq![l1, l2]);
    let lines = seq![l1, l2];
    assert(lines.drop_last() =~= seq![l1]);
    assert(seq![l1].drop_last() =~= Seq::<Seq<char>>::empty());
    assert(md_fold(Seq::<Seq<char>>::empty()) == (Seq::<char>::empty(), false));
    assert(md_fold(seq![l1]) == md_line((Seq::<char>::empty(), false), l1));
    lemma_bullet_line(b1, x, (Seq::empty(), false));
    assert(Seq::<char>::empty() + "<ul>"@ =~= "<ul>"@);
    let o1 = "<ul>"@ + "<li>"@ + inline_of(item_text(x)) + "</li>"@;
    assert(md_fold(seq![l1]) == (o1, true));
    assert(md_fold(lines) == md_line(md_fold(seq![l1]), l2));
    lemma_bullet_line(b2, y, (o1, true));
    let o2 = o1 + "<li>"@ + inline_of(item_text(y)) + "</li>"@;
    assert(md_fold(lines) == (o2, true));
    assert(md_html_of(l1 + seq!['\n'] + l2) == o2 + "</ul>"@);
}

/// The single line of a one-line summary, when it has no newline.
proof fn lemma_one_line(l: Seq<char>)
    requires
        l.len() > 0,
        forall|i: int| 0 <= i < l.len() ==> l[i] != '\n',
    ensures
        md_html_of(l) == closed(md_line((Seq::<char>::empty(), false), l).0, md_line((Seq::<char>::empty(), false), l).1),
{
    crate::text::lemma_pieces_two(l, Seq::empty(), '\n');
    assert(lines_of(l) =~= seq![l]);
    assert(seq![l].drop_last() =~= Seq::<Seq<char>>::empty());
    assert(md_fold(Seq::<Seq<char>>::empty()) == (Seq::<char>::empty(), false));
    assert(md_fold(seq![l]) == md_line((Seq::<char>::empty(), false), l));
}

/// A one-line summary `# text` or `## text` is a level-3 heading of the
/// escaped text without its trailing colons.
pub proof fn lemma_md_heading(x: Seq<char>)
    requires
        x.len() > 0,
        !crate::text::is_ws(x.last()),
        forall|i: int| 0 <= i < x.len() ==> x[i] != '\n',
    ensures
        md_html_of(seq!['#', ' '] + x) == "<h3>"@ + escape(strip_colons(x)) + "</h3>"@,
        md_html_of(seq!['#', '#', ' '] + x) == "<h3>"@ + escape(strip_colons(x)) + "</h3>"@,
{
    let l1 = seq!['#', ' '] + x;
    let l2 = seq!['#', '#', ' '] + x;
    assert forall|i: int| 0 <= i < l1.len() implies l1[i] != '\n' by {
        if i >= 2 {
            assert(l1[i] == x[i - 2]);
        }
    }
    assert forall|i: int| 0 <= i < l2.len() implies l2[i] != '\n' by {
        if i >= 3 {
            assert(l2[i] == x[i - 3]);
        }
    }
    assert(l1[0] == '#' && l1.last() == x.last());
    assert(l2[0] == '#' && l2.last() == x.last());
    crate::text::lemma_trim_same(l1);
    crate::text::lemma_trim_same(l2);
    lemma_one_line(l1);
    lemma_one_line(l2);
    assert(l2.take(3) =~= seq!['#', '#', ' ']);
    assert(l2.skip(3) =~= x);
    assert(l1.take(2) =~= seq!['#', ' ']);
    assert(l1.skip(2) =~= x);
    assert(l1.take(3)[1] == ' ');
    assert(Seq::<char>::empty() + "<h3>"@ =~= "<h3>"@);
}

/// A one-line summary that is neither a heading nor a bullet (it starts
/// with none of `#`, `-`, `*`) is one paragraph of its inline markup.
pub proof fn lemma_md_paragraph(x: Seq<char>)
    requires
        x.len() > 0,
        !crate::text::is_ws(x[0]),
        !crate::text::is_ws(x.last()),
        x[0] != '#' && x[0] != '-' && x[0] != '*',
        forall|i: int| 0 <= i < x.len() ==> x[i] != '\n',
    ensures
        md_html_of(x) == "<p>"@ + inline_of(x) + "</p>"@,
{
    crate::text::lemma_trim_same(x);
    lemma_one_line(x);
    if x.len() >= 3 {
        assert(x.take(3)[0] == x[0]);
    }
    if x.len() >= 2 {
        assert(x.take(2)[0] == x[0]);
    }
    assert(heading_of(x) is None);
    assert(item_of(x) is None);
    assert(Seq::<char>::empty() + "<p>"@ =~= "<p>"@);
}

fn starts_with_exec(t: &Vec<char>, p: &Vec<char>) -> (r: bool)
    ensures
        r == starts_with(t@, p@),
{
    if t.len() < p.len() {
        return false;
    }
    let pre = slice_chars(t, 0, p.len());
    assert(pre@ == t@.take(p@.len() as int));
    crate::text::chars_eq(&pre, p)
}

fn lit(s: &str) -> (r: Vec<char>)
    ensures
        r@ == s@,
{
    to_chars(s)
}

fn strip_all_exec(s: &Vec<char>, p: &Vec<char>) -> (r: Vec<char>)
    ensures
        r@ == strip_all(s@, p@),
{
    let mut k: usize = 0;
    if p.len() == 0 {
        return slice_chars(s, 0, s.len());
    }
    assert(s@.skip(0) == s@);
    loop
        invariant
            k <= s.len(),
            p@.len() > 0,
            strip_all(s@, p@) == strip_all(s@.skip(k as int), p@),
        decreases s.len() - k,
    {
        let rest = slice_chars(s, k, s.len());
        assert(rest@ == s@.skip(k as int));
        if starts_with_exec(&rest, p) {
            assert(rest@.skip(p@.len() as int) == s@.skip(k + p.len()));
            k = k + p.len();
        } else {
            return rest;
        }
    }
}

fn strip_colons_exec(s: &Vec<char>) -> (r: Vec<char>)
    ensures
        r@ == strip_colons(s@),
{
    let mut n = s.len();
    assert(s@.take(n as int) == s@);
    while n > 0 && s[n - 1] == ':'
        invariant
            n <= s.len(),
            strip_colons(s@) == strip_colons(s@.take(n as int)),
        decreases n,
    {
        assert(s@.take(n as int).drop_last() == s@.take(n - 1));
        n -= 1;
    }
    slice_chars(s, 0, n)
}

/// Minimal markdown to HTML for the summary: headings, bullets, paragraphs, bold.
pub fn md_to_html(md: &str) -> (out: Vec<char>)
    ensures
        out@ == md_html_of(md@),
{
    let all = to_chars(md);
    let mut ls = crate::text::split_char(&all, '\n');
    let ghost p = crate::text::views(ls@);
    if ls.len() > 0 && ls[ls.len() - 1].len() == 0 {
        ls.pop();
        assert(crate::text::views(ls@) =~= p.drop_last());
    }
    let ghost lines = crate::text::views(ls@);
    assert(lines == lines_of(md@));
    let h2 = lit("## ");
    let h1 = lit("# ");
    let d = lit("- ");
    let st = lit("* ");
    let open_box = lit("[ ] ");
    let done_box = lit("[x] ");
    proof {
        reveal_strlit("## ");
        reveal_strlit("# ");
        reveal_strlit("- ");
        reveal_strlit("* ");
        reveal_strlit("[ ] ");
        reveal_strlit("[x] ");
        assert(h2@ =~= seq!['#', '#', ' ']);
        assert(h1@ =~= seq!['#', ' ']);
        assert(d@ =~= seq!['-', ' ']);
        assert(st@ =~= seq!['*', ' ']);
        assert(open_box@ =~= seq!['[', ' ', ']', ' ']);
        assert(done_box@ =~= seq!['[', 'x', ']', ' ']);
    }
    let mut out: Vec<char> = Vec::new();
    let mut in_list = false;
    let mut i: usize = 0;
    while i < ls.len()
        invariant
            i <= ls.len(),
            lines == crate::text::views(ls@),
            (out@, in_list) == md_fold(lines.take(i as int)),
            h2@ == seq!['#', '#', ' '],
            h1@ == seq!['#', ' '],
            d@ == seq!['-', ' '],
            st@ == seq!['*', ' '],
            open_box@ == seq!['[', ' ', ']', ' '],
            done_box@ == seq!['[', 'x', ']', ' '],
        decreases ls.len() - i,
    {
        assert(lines.take(i + 1).drop_last() == lines.take(i as int));
        assert(lines.take(i + 1).last() == ls@[i as int]@);
        let t = trim_chars(&ls[i]);
        let heading = if starts_with_exec(&t, &h2) {
            Some(slice_chars(&t, 3, t.len()))
        } else if starts_with_exec(&t, &h1) {
            Some(slice_chars(&t, 2, t.len()))
        } else {
            None
        };
        match heading {
            Some(h) => {
                if in_list {
                    extend_str(&mut out, "</ul>");
                    in_list = false;
                }
                extend_str(&mut out, "<h3>");
                let hc = strip_colons_exec(&h);
                push_escaped(&mut out, &hc);
                extend_str(&mut out, "</h3>");
            },
            None => {
                if starts_with_exec(&t, &d) || starts_with_exec(&t, &st) {
                    let li = slice_chars(&t, 2, t.len());
                    if !in_list {
                        extend_str(&mut out, "<ul>");
                        in_list = true;
                    }
                    let a = strip_all_exec(&li, &open_box);
                    let b = strip_all_exec(&a, &done_box);
                    extend_str(&mut out, "<li>");
                    let x = inline(&b);
                    extend_chars(&mut out, &x);
                    extend_str(&mut out, "</li>");
                } else if t.len() == 0 {
                    if in_list {
                        extend_str(&mut out, "</ul>");
                        in_list = false;
                    }
                } else {
                    if in_list {
                        extend_str(&mut out, "</ul>");
                        in_list = false;
                    }
                    extend_str(&mut out, "<p>");
                    let x = inline(&t);
                    extend_chars(&mut out, &x);
                    extend_str(&mut out, "</p>");
                }
            },
        }
        i += 1;
    }
    assert(lines.take(ls.len() as int) == lines);
    if in_list {
        extend_str(&mut out, "</ul>");
    }
    out
}

} // verus!

verus! {

/// Page head up to the title.
pub const PAGE_START: &'static str = r##"<!doctype html><html lang="en"><head><meta charset="utf-8"><meta name="viewport" content="width=device-width,initial-scale=1">
<title>"##;

/// Rest of the head (styles) up to the heading.
pub const PAGE_AFTER_TITLE: &'static str = r##" - Hark</title>
<style>
:root{color-scheme:light dark;--ink:#221f1c;--ink2:#6b655f;--line:#e8e3dc;--accent:#d9542d;--bg:#fbf9f5}
@media(prefers-color-scheme:dark){:root{--ink:#f1ede7;--ink2:#a49c93;--line:#3a3531;--bg:#1b1917}}
body{margin:0;font:15px/1.55 -apple-system,Segoe UI,Roboto,sans-serif;color:var(--ink);background:var(--bg)}
main{max-width:880px;margin:0 auto;padding:32px 20px 80px}
h1{font-family:Georgia,serif;font-weight:400;font-size:34px;margin:0 0 4px}
.meta{color:var(--ink2);font-size:13px;margin-bottom:20px}
video,audio{width:100%;border-radius:12px;background:#000;margin-bottom:20px}audio{background:transparent}
h2{font-size:11px;letter-spacing:.12em;text-transform:uppercase;color:var(--ink2);margin:28px 0 8px}
h3{font-size:14px;margin:16px 0 4px}ul{margin:4px 0;padding-left:20px}
.sp{font-size:12px;font-weight:600;color:var(--accent);margin:14px 0 2px}
.seg{display:flex;gap:12px;padding:3px 6px;border-radius:6px;cursor:pointer}.seg:hover{background:rgba(127,127,127,.08)}
.seg.on{background:rgba(217,84,45,.12)}.ts{font-family:ui-monospace,monospace;font-size:11px;color:var(--ink2);min-width:44px;padding-top:3px}
a.t{color:var(--accent);text-decoration:none;font-family:ui-monospace,monospace;font-size:12px;background:rgba(217,84,45,.1);padding:0 4px;border-radius:4px}
footer{margin-top:48px;color:var(--ink2);font-size:12px}
</style></head><body><main>
<h1>"##;

/// Between the heading and the date.
pub const PAGE_AFTER_HEADING: &'static str = r##"</h1><div class="meta">"##;

/// Between the date and the duration.
pub const PAGE_AFTER_DATE: &'static str = r##" &middot; "##;

/// End of the meta line.
pub const PAGE_AFTER_META: &'static str = r##"</div>
"##;

/// Between the player and the summary.
pub const PAGE_AFTER_MEDIA: &'static str = r##"
"##;

/// Start of the transcript.
pub const PAGE_AFTER_SUMMARY: &'static str = r##"
<h2>Transcript</h2><div id="tr">"##;

/// Footer and the seek script.
pub const PAGE_END: &'static str = r##"</div>
<footer>Shared from Hark, a local-only meeting recorder. Nothing here touched the cloud.</footer>
</main>
<script>
const m=document.getElementById('m');
function seek(ms){if(!m)return;m.currentTime=ms/1000;m.play();}
document.querySelectorAll('.seg').forEach(e=>e.addEventListener('click',()=>seek(+e.dataset.ms)));
document.querySelectorAll('a.t').forEach(e=>e.addEventListener('click',ev=>{ev.preventDefault();seek(+e.dataset.ms)}));
if(m){m.addEventListener('timeupdate',()=>{const t=m.currentTime*1000;let cur=null;document.querySelectorAll('.seg').forEach(e=>{if(+e.dataset.ms<=t)cur=e;e.classList.remove('on')});if(cur)cur.classList.add('on');});}
</script></body></html>"##;

// ---------------------------------------------------------------- the page

/// What a standalone page shows.
pub struct PageData<'a> {
    pub meeting: &'a Meeting,
    pub segments: &'a [Segment],
    pub summary: Option<&'a Summary>,
    /// URL of the media file relative to the page (or absolute).
    pub media_url: Option<&'a str>,
    pub is_video: bool,
    /// Clip range: only segments inside it are shown and the player is offset.
    pub clip: Option<(i64, i64)>,
}

/// The range of segments shown: the clip, or everything.
pub open spec fn clip_range(clip: Option<(i64, i64)>) -> (i64, i64) {
    match clip {
        Some(c) => c,
        None => (0, i64::MAX),
    }
}

/// Where transcript times count from: the clip start (never below 0).
pub open spec fn clip_base(clip: Option<(i64, i64)>) -> int {
    if clip_range(clip).0 < 0 {
        0
    } else {
        clip_range(clip).0 as int
    }
}

/// A segment the page shows: every one without a clip; with a clip only
/// those that lie inside it, from its start to its end.
pub open spec fn seg_shown(s: Segment, clip: Option<(i64, i64)>) -> bool {
    match clip {
        None => true,
        Some((a, b)) => a <= s.start_ms && s.end_ms <= b,
    }
}

/// The speaker of a segment.
pub open spec fn speaker_of(s: Segment) -> Option<Seq<char>> {
    match s.speaker {
        Some(n) => Some(n@),
        None => None,
    }
}

/// One transcript line: clip-relative time (as `data-ms` and as a stamp)
/// and the escaped text (cleaned text when there is one).
pub open spec fn seg_html(s: Segment, base: int) -> Seq<char> {
    let text = if s.clean_text.is_some() {
        s.clean_text.unwrap()@
    } else {
        s.text@
    };
    "<div class=\"seg\" data-ms=\""@ + crate::text::dec_int(s.start_ms - base) + "\"><span class=\"ts\">"@
        + stamp_of(s.start_ms - base) + "</span><span>"@ + escape(text) + "</span></div>"@
}

/// The transcript so far and the last speaker seen; a speaker header
/// precedes each change to a named speaker.
pub open spec fn transcript_fold(segs: Seq<Segment>, clip: Option<(i64, i64)>) -> (Seq<char>, Option<Seq<char>>)
    decreases segs.len(),
{
    if segs.len() == 0 {
        (Seq::empty(), None)
    } else {
        let (out, last) = transcript_fold(segs.drop_last(), clip);
        let s = segs.last();
        if !seg_shown(s, clip) {
            (out, last)
        } else {
            let sp = speaker_of(s);
            let header = if sp != last && sp.is_some() {
                "<div class=\"sp\">"@ + escape(sp.unwrap()) + "</div>"@
            } else {
                Seq::empty()
            };
            (out + header + seg_html(s, clip_base(clip)), sp)
        }
    }
}

/// The segments the page shows, in order: with a clip, those inside it.
pub open spec fn shown_segs(segs: Seq<Segment>, clip: Option<(i64, i64)>) -> Seq<Segment>
    decreases segs.len(),
{
    if segs.len() == 0 {
        Seq::empty()
    } else if seg_shown(segs.last(), clip) {
        shown_segs(segs.drop_last(), clip).push(segs.last())
    } else {
        shown_segs(segs.drop_last(), clip)
    }
}

/// The speaker header before the `k`-th shown segment: present when that
/// segment has a named speaker other than the previous shown segment's.
pub open spec fn header_before(sh: Seq<Segment>, k: int) -> Seq<char> {
    let prev = if k == 0 {
        None
    } else {
        speaker_of(sh[k - 1])
    };
    let sp = speaker_of(sh[k]);
    if sp != prev && sp.is_some() {
        "<div class=\"sp\">"@ + escape(sp.unwrap()) + "</div>"@
    } else {
        Seq::empty()
    }
}

/// The shown segments' lines, each after its speaker header, timed from `base`.
pub open spec fn seg_blocks(sh: Seq<Segment>, base: int) -> Seq<char>
    decreases sh.len(),
{
    if sh.len() == 0 {
        Seq::empty()
    } else {
        seg_blocks(sh.drop_last(), base) + header_before(sh, sh.len() - 1) + seg_html(sh.last(), base)
    }
}

/// The transcript of a page holds one line (`<div class="seg" data-ms=..`)
/// per shown segment, in order, and no other: every segment without a
/// clip, only those inside the clip with one. Each line's time counts from
/// the clip start (0 when the clip starts below 0), and a speaker header
/// stands before each line whose named speaker differs from the previous
/// line's.
pub proof fn lemma_transcript_lines(segs: Seq<Segment>, clip: Option<(i64, i64)>)
    ensures
        transcript_fold(segs, clip).0 == seg_blocks(shown_segs(segs, clip), clip_base(clip)),
        transcript_fold(segs, clip).1 == (if shown_segs(segs, clip).len() == 0 {
            None
        } else {
            speaker_of(shown_segs(segs, clip).last())
        }),
        forall|i: int|
            0 <= i < shown_segs(segs, clip).len() ==> seg_shown(#[trigger] shown_segs(segs, clip)[i], clip),
    decreases segs.len(),
{
    if segs.len() > 0 {
        lemma_transcript_lines(segs.drop_last(), clip);
        let sh0 = shown_segs(segs.drop_last(), clip);
        let sh = shown_segs(segs, clip);
        if seg_shown(segs.last(), clip) {
            assert(sh.drop_last() =~= sh0);
            assert(sh[sh.len() - 1] == segs.last());
            if sh0.len() > 0 {
                assert(sh[sh.len() - 2] == sh0.last());
            }
            assert forall|i: int| 0 <= i < sh.len() implies seg_shown(#[trigger] sh[i], clip) by {
                if i < sh0.len() {
                    assert(sh[i] == sh0[i]);
                }
            }
        }
    }
}

/// The page's player is a `<video` element for a video's media URL, an
/// `<audio` element for other media, and nothing without a URL.
pub proof fn lemma_player(url: Option<Seq<char>>, is_video: bool)
    ensures
        url is Some && is_video ==> media_html(url, is_video).take(6) == "<video"@,
        url is Some && !is_video ==> media_html(url, is_video).take(6) == "<audio"@,
        url is None ==> media_html(url, is_video).len() == 0,
{
    reveal_strlit("<video");
    reveal_strlit("<audio");
    reveal_strlit("<video id=\"m\" controls src=\"");
    reveal_strlit("<audio id=\"m\" controls src=\"");
    if let Some(u) = url {
        if is_video {
            assert(media_html(url, is_video).take(6) =~= "<video"@);
        } else {
            assert(media_html(url, is_video).take(6) =~= "<audio"@);
        }
    }
}

/// The shown segments can be timed from the clip start.
pub open spec fn times_fit(segs: Seq<Segment>, clip: Option<(i64, i64)>) -> bool {
    forall|i: int|
        0 <= i < segs.len() && seg_shown(#[trigger] segs[i], clip) ==> segs[i].start_ms
            - clip_base(clip) >= i64::MIN
}

/// The clip length can be computed.
pub open spec fn clip_fits(clip: Option<(i64, i64)>) -> bool {
    match clip {
        Some((a, b)) => i64::MIN <= b - a <= i64::MAX,
        None => true,
    }
}

/// The player: video or audio element for the media URL, or nothing.
pub open spec fn media_html(url: Option<Seq<char>>, is_video: bool) -> Seq<char> {
    match url {
        Some(u) => if is_video {
            "<video id=\"m\" controls src=\""@ + escape(u) + "\"></video>"@
        } else {
            "<audio id=\"m\" controls src=\""@ + escape(u) + "\"></audio>"@
        },
        None => Seq::empty(),
    }
}

/// The meta line after the date: the duration (of the clip, when there is
/// one, followed by its range).
pub open spec fn meta_of(meeting: Meeting, clip: Option<(i64, i64)>) -> Seq<char> {
    match clip {
        Some((a, b)) => stamp_of(b - a) + " &middot; clip "@ + stamp_of(a as int) + "&ndash;"@
            + stamp_of(b as int),
        None => stamp_of(meeting.duration_ms as int),
    }
}

/// The summary section: its HTML under a heading, or nothing when empty.
pub open spec fn summary_block_of(summary_md: Option<Seq<char>>) -> Seq<char> {
    let summary = match summary_md {
        Some(md) => md_html_of(md),
        None => Seq::empty(),
    };
    if summary.len() == 0 {
        Seq::empty()
    } else {
        "<h2>Summary</h2>"@ + summary
    }
}

/// The page for `d`, given the text of its date.
pub open spec fn page_of(
    meeting: Meeting,
    segs: Seq<Segment>,
    summary_md: Option<Seq<char>>,
    url: Option<Seq<char>>,
    is_video: bool,
    clip: Option<(i64, i64)>,
    date: Seq<char>,
) -> Seq<char> {
    let title = escape(meeting.title@);
    PAGE_START@ + title + PAGE_AFTER_TITLE@ + title + PAGE_AFTER_HEADING@ + escape(date)
        + PAGE_AFTER_DATE@ + meta_of(meeting, clip) + PAGE_AFTER_META@ + media_html(url, is_video)
        + PAGE_AFTER_MEDIA@ + summary_block_of(summary_md) + PAGE_AFTER_SUMMARY@
        + transcript_fold(segs, clip).0 + PAGE_END@
}

fn meta_exec(meeting: &Meeting, clip: Option<(i64, i64)>) -> (r: Vec<char>)
    requires
        clip_fits(clip),
    ensures
        r@ == meta_of(*meeting, clip),
{
    let mut out: Vec<char> = Vec::new();
    match clip {
        Some((a, b)) => {
            let dur = stamp(b - a);
            extend_chars(&mut out, &dur);
            extend_str(&mut out, " &middot; clip ");
            let sa = stamp(a);
            extend_chars(&mut out, &sa);
            extend_str(&mut out, "&ndash;");
            let sb = stamp(b);
            extend_chars(&mut out, &sb);
        },
        None => {
            let dur = stamp(meeting.duration_ms);
            extend_chars(&mut out, &dur);
        },
    }
    out
}

fn summary_block_exec(summary: Option<&Summary>) -> (r: Vec<char>)
    ensures
        r@ == summary_block_of(summary_md_of(summary)),
{
    let html: Vec<char> = match summary {
        Some(s) => md_to_html(s.markdown.as_str()),
        None => Vec::new(),
    };
    let mut out: Vec<char> = Vec::new();
    if html.len() > 0 {
        extend_str(&mut out, "<h2>Summary</h2>");
        extend_chars(&mut out, &html);
    }
    out
}

fn media_exec(media_url: Option<&str>, is_video: bool) -> (r: Vec<char>)
    ensures
        r@ == media_html(url_of(media_url), is_video),
{
    match media_url {
        Some(url) => {
            let u = to_chars(url);
            let mut m: Vec<char> = Vec::new();
            if is_video {
                extend_str(&mut m, "<video id=\"m\" controls src=\"");
                push_escaped(&mut m, &u);
                extend_str(&mut m, "\"></video>");
            } else {
                extend_str(&mut m, "<audio id=\"m\" controls src=\"");
                push_escaped(&mut m, &u);
                extend_str(&mut m, "\"></audio>");
            }
            m
        },
        None => Vec::new(),
    }
}

pub open spec fn summary_md_of(s: Option<&Summary>) -> Option<Seq<char>> {
    match s {
        Some(x) => Some(x.markdown@),
        None => None,
    }
}

pub open spec fn url_of(u: Option<&str>) -> Option<Seq<char>> {
    match u {
        Some(x) => Some(x@),
        None => None,
    }
}

fn opt_chars_eq(a: &Option<Vec<char>>, b: &Option<Vec<char>>) -> (r: bool)
    ensures
        r == (match (a, b) {
            (Some(x), Some(y)) => x@ == y@,
            (None, None) => true,
            _ => false,
        }),
{
    match (a, b) {
        (Some(x), Some(y)) => crate::text::chars_eq(x, y),
        (None, None) => true,
        _ => false,
    }
}

fn push_seg_html(out: &mut Vec<char>, s: &Segment, base: i64)
    requires
        s.start_ms - base >= i64::MIN,
        s.start_ms - base <= i64::MAX,
    ensures
        final(out)@ == old(out)@ + seg_html(*s, base as int),
{
    let rel: i64 = s.start_ms - base;
    let mut v: Vec<char> = Vec::new();
    extend_str(&mut v, "<div class=\"seg\" data-ms=\"");
    let dm = dec_i64(rel);
    extend_chars(&mut v, &dm);
    extend_str(&mut v, "\"><span class=\"ts\">");
    let st = stamp(rel);
    extend_chars(&mut v, &st);
    extend_str(&mut v, "</span><span>");
    let text = match &s.clean_text {
        Some(c) => to_chars(c.as_str()),
        None => to_chars(s.text.as_str()),
    };
    push_escaped(&mut v, &text);
    extend_str(&mut v, "</span></div>");
    extend_chars(out, &v);
}

fn push_header(out: &mut Vec<char>, n: &Vec<char>)
    ensures
        final(out)@ == old(out)@ + ("<div class=\"sp\">"@ + escape(n@) + "</div>"@),
{
    let mut v: Vec<char> = Vec::new();
    extend_str(&mut v, "<div class=\"sp\">");
    push_escaped(&mut v, n);
    extend_str(&mut v, "</div>");
    extend_chars(out, &v);
}

/// The transcript part of the page.
pub fn render_transcript(segs: &[Segment], clip: Option<(i64, i64)>) -> (out: Vec<char>)
    requires
        times_fit(segs@, clip),
    ensures
        out@ == transcript_fold(segs@, clip).0,
{
    let (cs, ce) = match clip {
        Some(c) => c,
        None => (0, i64::MAX),
    };
    let base: i64 = if cs < 0 { 0 } else { cs };
    let mut out: Vec<char> = Vec::new();
    let mut last: Option<Vec<char>> = None;
    let mut i: usize = 0;
    while i < segs.len()
        invariant
            i <= segs.len(),
            (cs, ce) == clip_range(clip),
            base == clip_base(clip),
            times_fit(segs@, clip),
            transcript_fold(segs@.take(i as int), clip) == (out@, match last {
                Some(l) => Some(l@),
                None => None::<Seq<char>>,
            }),
        decreases segs.len() - i,
    {
        let s = &segs[i];
        assert(segs@.take(i + 1).drop_last() == segs@.take(i as int));
        assert(segs@.take(i + 1).last() == segs@[i as int]);
        let shown = match clip {
            None => true,
            Some((a, b)) => a <= s.start_ms && s.end_ms <= b,
        };
        if shown {
            let sp: Option<Vec<char>> = match &s.speaker {
                Some(n) => Some(to_chars(n.as_str())),
                None => None,
            };
            let ghost before = out@;
            if !opt_chars_eq(&sp, &last) {
                match &sp {
                    Some(n) => {
                        push_header(&mut out, n);
                    },
                    None => {},
                }
            }
            let ghost mid = out@;
            assert(seg_shown(segs@[i as int], clip));
            push_seg_html(&mut out, s, base);
            proof {
                let spv = speaker_of(segs@[i as int]);
                let lastv = match last {
                    Some(l) => Some(l@),
                    None => None::<Seq<char>>,
                };
                let header = if spv != lastv && spv.is_some() {
                    "<div class=\"sp\">"@ + escape(spv.unwrap()) + "</div>"@
                } else {
                    Seq::empty()
                };
                assert(mid == before + header);
                assert(out@ == before + header + seg_html(segs@[i as int], clip_base(clip)));
            }
            last = sp;
        }
        i += 1;
    }
    assert(segs@.take(segs.len() as int) == segs@);
    out
}

/// Calendar date of a time in milliseconds since the Unix epoch, as the
/// page shows it (`%b %-d, %Y` in UTC).
pub uninterp spec fn spec_date_label(ms: i64) -> Seq<char>;

/// `chrono` formatting of the UTC date of `ms` as `%b %-d, %Y` (empty for a
/// time `chrono` cannot represent).
#[verifier::external_body]
fn date_label(ms: i64) -> (r: String)
    ensures
        r@ == spec_date_label(ms),
{
    chrono::DateTime::from_timestamp_millis(ms).map(|d| d.format("%b %-d, %Y").to_string()).unwrap_or_default()
}

/// The standalone page for `d` with `date` as its date text.
pub fn render_page(d: &PageData, date: &str) -> (out: Vec<char>)
    requires
        times_fit(d.segments@, d.clip),
        clip_fits(d.clip),
    ensures
        out@ == page_of(*d.meeting, d.segments@, summary_md_of(d.summary), url_of(d.media_url), d.is_video, d.clip, date@),
{
    let transcript = render_transcript(d.segments, d.clip);
    let summary = summary_block_exec(d.summary);
    let media = media_exec(d.media_url, d.is_video);
    let meta = meta_exec(d.meeting, d.clip);
    let title_chars = to_chars(d.meeting.title.as_str());
    let mut title: Vec<char> = Vec::new();
    push_escaped(&mut title, &title_chars);
    let date_chars = to_chars(date);
    let mut dt: Vec<char> = Vec::new();
    push_escaped(&mut dt, &date_chars);
    let mut out: Vec<char> = Vec::new();
    extend_str(&mut out, PAGE_START);
    extend_chars(&mut out, &title);
    extend_str(&mut out, PAGE_AFTER_TITLE);
    extend_chars(&mut out, &title);
    extend_str(&mut out, PAGE_AFTER_HEADING);
    extend_chars(&mut out, &dt);
    extend_str(&mut out, PAGE_AFTER_DATE);
    extend_chars(&mut out, &meta);
    extend_str(&mut out, PAGE_AFTER_META);
    extend_chars(&mut out, &media);
    extend_str(&mut out, PAGE_AFTER_MEDIA);
    extend_chars(&mut out, &summary);
    extend_str(&mut out, PAGE_AFTER_SUMMARY);
    extend_chars(&mut out, &transcript);
    extend_str(&mut out, PAGE_END);
    out
}

/// The standalone page for `d`, dated from its meeting's start.
pub fn render_standalone(d: &PageData) -> (out: String)
    requires
        times_fit(d.segments@, d.clip),
        clip_fits(d.clip),
    ensures
        out@ == page_of(*d.meeting, d.segments@, summary_md_of(d.summary), url_of(d.media_url), d.is_video, d.clip, spec_date_label(d.meeting.started_at)),
{
    let date = date_label(d.meeting.started_at);
    let v = render_page(d, date.as_str());
    crate::text::from_chars(&v)
}

} // verus!
