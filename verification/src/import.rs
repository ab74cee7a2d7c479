//! Importing an audio/video file as a meeting: its title and the ffmpeg
//! conversions.

use vstd::prelude::*;
use crate::text::{from_chars, is_ws, join, split_words, to_chars, views, words};

verus! {

/// A path that is a bare file name without an extension on every
/// platform: non-empty, with no `/`, `\\`, `:` or `.`.
pub open spec fn plain(p: Seq<char>) -> bool {
    &&& p.len() > 0
    &&& forall|i: int| 0 <= i < p.len() ==> #[trigger] p[i] != '/' && p[i] != '\\' && p[i] != ':' && p[i] != '.'
}

/// `s` is a contiguous part of `p`.
pub open spec fn part_of(s: Seq<char>, p: Seq<char>) -> bool {
    exists|a: int, b: int| 0 <= a <= b <= p.len() && s == p.subrange(a, b)
}

/// Index of the last `c` in `s`, or -1 when there is none.
pub open spec fn last_at(s: Seq<char>, c: char) -> int
    decreases s.len(),
{
    if s.len() == 0 {
        -1
    } else if s.last() == c {
        s.len() - 1
    } else {
        last_at(s.drop_last(), c)
    }
}

/// The part of a path after its last `/`.
pub open spec fn name_part(p: Seq<char>) -> Seq<char> {
    p.subrange(last_at(p, '/') + 1, p.len() as int)
}

/// A path whose file name every platform reads the same way: no `\`, not
/// starting with `//`, and a part after the last `/` that is non-empty, has
/// no `:`, and is neither `.` nor `..`. That part is then its file name.
pub open spec fn ordinary(p: Seq<char>) -> bool {
    &&& !p.contains('\\')
    &&& !(p.len() >= 2 && p[0] == '/' && p[1] == '/')
    &&& name_part(p).len() > 0
    &&& !name_part(p).contains(':')
    &&& name_part(p) != seq!['.']
    &&& name_part(p) != seq!['.', '.']
}

/// The stem of a file name: the name cut before its last `.`, unless there
/// is none or it is the name's first character.
pub open spec fn stem_of_name(n: Seq<char>) -> Seq<char> {
    if last_at(n, '.') <= 0 {
        n
    } else {
        n.subrange(0, last_at(n, '.'))
    }
}

/// `Path::new(path).file_stem()` as text (lossy), empty when the path has
/// no file name. The stem is a part of the path (a slice of it, and the
/// path is valid text, so the lossy reading keeps it as it is); an empty
/// path has none. For an ordinary path the file name is the part after the
/// last `/` on every platform, and `file_stem` is that name before its
/// last `.` (the whole name when there is no `.` or the only one leads).
/// What other paths give depends on the platform's path rules and is not
/// stated.
#[verifier::external_body]
fn file_stem_text(path: &str) -> (r: String)
    ensures
        path@.len() == 0 ==> r@.len() == 0,
        plain(path@) ==> r@ == path@,
        ordinary(path@) ==> r@ == stem_of_name(name_part(path@)),
        part_of(r@, path@),
{
    std::path::Path::new(path).file_stem().map(|s| s.to_string_lossy().into_owned()).unwrap_or_default()
}

/// `_`, `-` and `.` read as spaces in a file name.
pub open spec fn sep_to_space(c: char) -> char {
    if c == '_' || c == '-' || c == '.' {
        ' '
    } else {
        c
    }
}

/// Title for a file stem: separators turned into spaces, whitespace runs
/// collapsed to one space, ends trimmed; "Imported recording" when nothing is left.
pub open spec fn title_of_stem(stem: Seq<char>) -> Seq<char> {
    let t = join(words(stem.map_values(|c: char| sep_to_space(c))), seq![' ']);
    if t.len() == 0 {
        "Imported recording"@
    } else {
        t
    }
}

/// A title is never empty, has no `_`, `-` or `.`, starts and ends with a
/// character that is not whitespace, and every whitespace in it is a single
/// space between two such characters.
pub proof fn lemma_title_clean(stem: Seq<char>)
    ensures
        title_of_stem(stem).len() > 0,
        forall|i: int|
            0 <= i < title_of_stem(stem).len() ==> #[trigger] title_of_stem(stem)[i] != '_' && title_of_stem(stem)[i]
                != '-' && title_of_stem(stem)[i] != '.',
        !is_ws(title_of_stem(stem)[0]),
        !is_ws(title_of_stem(stem)[title_of_stem(stem).len() - 1]),
        forall|i: int|
            0 <= i < title_of_stem(stem).len() && is_ws(#[trigger] title_of_stem(stem)[i]) ==> title_of_stem(stem)[i]
                == ' ' && 0 < i < title_of_stem(stem).len() - 1 && !is_ws(title_of_stem(stem)[i - 1]) && !is_ws(
                title_of_stem(stem)[i + 1],
            ),
{
    let m = stem.map_values(|c: char| sep_to_space(c));
    crate::text::lemma_words(m);
    crate::text::lemma_join_words(words(m), m);
    let j = join(words(m), seq![' ']);
    let t = title_of_stem(stem);
    assert forall|x: char| m.contains(x) implies x != '_' && x != '-' && x != '.' by {
        let k = choose|k: int| 0 <= k < m.len() && m[k] == x;
        assert(m[k] == sep_to_space(stem[k]));
    }
    if j.len() == 0 {
        reveal_strlit("Imported recording");
        assert(t == "Imported recording"@);
        assert forall|i: int| 0 <= i < t.len() && is_ws(#[trigger] t[i]) implies t[i] == ' ' && 0 < i < t.len() - 1
            && !is_ws(t[i - 1]) && !is_ws(t[i + 1]) by {
            assert(i == 8);
        }
    } else {
        assert(words(m).len() > 0) by {
            if words(m).len() == 0 {
                assert(j == Seq::<char>::empty());
            }
        }
        assert forall|i: int| 0 <= i < t.len() implies #[trigger] t[i] != '_' && t[i] != '-' && t[i] != '.' by {
            if !is_ws(t[i]) {
                assert(m.contains(t[i]));
            }
        }
    }
}

/// The title for an imported file with stem `stem`.
pub fn title_from_stem(stem: &str) -> (r: String)
    ensures
        r@ == title_of_stem(stem@),
{
    let v = to_chars(stem);
    let mut m: Vec<char> = Vec::new();
    let mut i: usize = 0;
    while i < v.len()
        invariant
            i <= v.len(),
            m@ == v@.take(i as int).map_values(|c: char| sep_to_space(c)),
        decreases v.len() - i,
    {
        let c = v[i];
        m.push(if c == '_' || c == '-' || c == '.' { ' ' } else { c });
        assert(v@.take(i + 1).map_values(|c: char| sep_to_space(c)) =~= v@.take(i as int).map_values(
            |c: char| sep_to_space(c),
        ).push(sep_to_space(c)));
        i += 1;
    }
    assert(v@.take(v.len() as int) == v@);
    let ws = split_words(&m);
    let mut sep: Vec<char> = Vec::new();
    sep.push(' ');
    assert(sep@ == seq![' ']);
    let t = crate::text::join_chars(&ws, &sep);
    if t.len() == 0 {
        "Imported recording".to_owned()
    } else {
        from_chars(&t)
    }
}

/// Title for an imported file: the file stem with separators turned into spaces.
pub fn title_from_path(path: &str) -> (r: String)
    ensures
        path@.len() == 0 ==> r@ == "Imported recording"@,
        plain(path@) ==> r@ == title_of_stem(path@),
        ordinary(path@) ==> r@ == title_of_stem(stem_of_name(name_part(path@))),
        exists|a: int, b: int| 0 <= a <= b <= path@.len() && r@ == title_of_stem(path@.subrange(a, b)),
{
    let stem = file_stem_text(path);
    let r = title_from_stem(stem.as_str());
    proof {
        let (a, b) = choose|a: int, b: int| 0 <= a <= b <= path@.len() && stem@ == path@.subrange(a, b);
        assert(r@ == title_of_stem(path@.subrange(a, b)));
        if path@.len() == 0 {
            let m = stem@.map_values(|c: char| sep_to_space(c));
            assert(m =~= Seq::<char>::empty());
            assert(words(m) =~= Seq::<Seq<char>>::empty());
            assert(join(words(m), seq![' ']) =~= Seq::<char>::empty());
        }
    }
    r
}

pub open spec fn strs_of(v: Seq<String>) -> Seq<Seq<char>> {
    v.map_values(|s: String| s@)
}

/// ffmpeg arguments that turn `input` into 16 kHz mono 16-bit PCM at `out`.
pub open spec fn audio_args_of(input: Seq<char>, out: Seq<char>) -> Seq<Seq<char>> {
    seq![
        "-hide_banner"@, "-loglevel"@, "error"@, "-y"@, "-i"@, input, "-vn"@, "-ac"@, "1"@,
        "-ar"@, "16000"@, "-c:a"@, "pcm_s16le"@, out,
    ]
}

/// ffmpeg arguments that copy the video stream (and the first audio stream,
/// if any, as AAC) of `input` into an mp4 at `out`.
pub open spec fn video_args_of(input: Seq<char>, out: Seq<char>) -> Seq<Seq<char>> {
    seq![
        "-hide_banner"@, "-loglevel"@, "error"@, "-y"@, "-i"@, input, "-map"@, "0:v:0"@,
        "-map"@, "0:a:0?"@, "-c:v"@, "copy"@, "-c:a"@, "aac"@, "-movflags"@, "+faststart"@, out,
    ]
}

fn push_lit(v: &mut Vec<String>, s: &str)
    ensures
        strs_of(final(v)@) == strs_of(old(v)@).push(s@),
{
    let ghost before = strs_of(v@);
    v.push(s.to_owned());
    assert(strs_of(v@) =~= before.push(s@));
}

/// Arguments that turn any ffmpeg-readable input into 16 kHz mono PCM.
pub fn ffmpeg_audio_args(input: &str, out: &str) -> (r: Vec<String>)
    ensures
        strs_of(r@) == audio_args_of(input@, out@),
{
    let mut v: Vec<String> = Vec::new();
    push_lit(&mut v, "-hide_banner");
    push_lit(&mut v, "-loglevel");
    push_lit(&mut v, "error");
    push_lit(&mut v, "-y");
    push_lit(&mut v, "-i");
    push_lit(&mut v, input);
    push_lit(&mut v, "-vn");
    push_lit(&mut v, "-ac");
    push_lit(&mut v, "1");
    push_lit(&mut v, "-ar");
    push_lit(&mut v, "16000");
    push_lit(&mut v, "-c:a");
    push_lit(&mut v, "pcm_s16le");
    push_lit(&mut v, out);
    assert(strs_of(v@) =~= audio_args_of(input@, out@));
    v
}

/// Copy the video stream (no transcode) into an mp4 the player can show.
pub fn ffmpeg_video_args(input: &str, out: &str) -> (r: Vec<String>)
    ensures
        strs_of(r@) == video_args_of(input@, out@),
{
    let mut v: Vec<String> = Vec::new();
    push_lit(&mut v, "-hide_banner");
    push_lit(&mut v, "-loglevel");
    push_lit(&mut v, "error");
    push_lit(&mut v, "-y");
    push_lit(&mut v, "-i");
    push_lit(&mut v, input);
    push_lit(&mut v, "-map");
    push_lit(&mut v, "0:v:0");
    push_lit(&mut v, "-map");
    push_lit(&mut v, "0:a:0?");
    push_lit(&mut v, "-c:v");
    push_lit(&mut v, "copy");
    push_lit(&mut v, "-c:a");
    push_lit(&mut v, "aac");
    push_lit(&mut v, "-movflags");
    push_lit(&mut v, "+faststart");
    push_lit(&mut v, out);
    assert(strs_of(v@) =~= video_args_of(input@, out@));
    v
}

/// Imports shorter than this have no usable audio.
pub const MIN_IMPORT_MS: i64 = 500;

/// The title of an imported meeting: the given one when it has text (trimmed), else `fallback`.
pub open spec fn import_title_of(given: Option<Seq<char>>, fallback: Seq<char>) -> Seq<char> {
    match given {
        Some(t) => if crate::text::trim(t).len() > 0 {
            crate::text::trim(t)
        } else {
            fallback
        },
        None => fallback,
    }
}

/// Choose the title of an imported meeting.
pub fn import_title(given: Option<&str>, fallback: String) -> (r: String)
    ensures
        r@ == import_title_of(
            match given {
                Some(t) => Some(t@),
                None => None,
            },
            fallback@,
        ),
{
    match given {
        Some(t) => {
            let tc = crate::text::trim_str(t);
            if tc.len() > 0 {
                from_chars(&tc)
            } else {
                fallback
            }
        },
        None => fallback,
    }
}

/// ffmpeg's stream list shows a video stream: some line names a `Video:`
/// stream that is not an attached picture (cover art).
pub open spec fn lists_video(stderr: Seq<char>) -> bool {
    exists|k: int|
        0 <= k < crate::text::pieces(stderr, '\n').len() && crate::commands::has_sub(
            #[trigger] crate::text::pieces(stderr, '\n')[k],
            "Video:"@,
        ) && !crate::commands::has_sub(crate::text::pieces(stderr, '\n')[k], "attached pic"@)
}

/// Whether ffmpeg's report on an input (its standard error) lists a video stream.
pub fn video_stream_listed(stderr: &str) -> (r: bool)
    ensures
        r == lists_video(stderr@),
{
    let v = to_chars(stderr);
    let lines = crate::text::split_char(&v, '\n');
    let video = to_chars("Video:");
    let pic = to_chars("attached pic");
    let mut i: usize = 0;
    while i < lines.len()
        invariant
            i <= lines.len(),
            views(lines@) == crate::text::pieces(stderr@, '\n'),
            v@ == stderr@,
            video@ == "Video:"@,
            pic@ == "attached pic"@,
            forall|k: int|
                0 <= k < i ==> !(crate::commands::has_sub(#[trigger] views(lines@)[k], "Video:"@)
                    && !crate::commands::has_sub(views(lines@)[k], "attached pic"@)),
        decreases lines.len() - i,
    {
        if crate::commands::contains_sub(&lines[i], &video) && !crate::commands::contains_sub(&lines[i], &pic) {
            assert(views(lines@)[i as int] == lines@[i as int]@);
            return true;
        }
        assert(views(lines@)[i as int] == lines@[i as int]@);
        i += 1;
    }
    false
}

/// Error when an imported file has no usable audio.
pub const NO_AUDIO_IN_FILE: &'static str = "the file has no audio";

/// What an import reports when ffmpeg could not read the file.
pub fn read_failure(path: &str, error: &str) -> (r: String)
    ensures
        r@ == "could not read "@ + path@ + ": "@ + (if error@.len() == 0 {
            "unsupported format"@
        } else {
            error@
        }),
{
    let mut v = to_chars("could not read ");
    crate::text::extend_str(&mut v, path);
    crate::text::extend_str(&mut v, ": ");
    let e = to_chars(error);
    if e.len() == 0 {
        crate::text::extend_str(&mut v, "unsupported format");
    } else {
        crate::text::extend_chars(&mut v, &e);
    }
    from_chars(&v)
}

/// An imported meeting once its audio is converted: refused when the audio
/// is shorter than `MIN_IMPORT_MS`; else it starts when the file was last
/// modified (when known), lasts `duration_ms`, keeps its title as the
/// user's, and waits for processing.
pub fn finish_import(m: &mut crate::meetings::Meeting, modified_ms: Option<i64>, duration_ms: i64) -> (r: Result<(), String>)
    requires
        duration_ms >= MIN_IMPORT_MS ==> i64::MIN <= (match modified_ms {
            Some(t) => t,
            None => old(m).started_at,
        }) + duration_ms <= i64::MAX,
    ensures
        duration_ms < MIN_IMPORT_MS <==> r.is_err(),
        r.is_err() ==> r->Err_0@ == NO_AUDIO_IN_FILE@ && *final(m) == *old(m),
        r.is_ok() ==> *final(m) == (crate::meetings::Meeting {
            started_at: match modified_ms {
                Some(t) => t,
                None => old(m).started_at,
            },
            duration_ms,
            ended_at: Some(
                (match modified_ms {
                    Some(t) => t,
                    None => old(m).started_at,
                } + duration_ms) as i64,
            ),
            status: crate::meetings::MeetingStatus::Processing,
            title_auto: false,
            ..*old(m)
        }),
{
    if duration_ms < MIN_IMPORT_MS {
        return Err(NO_AUDIO_IN_FILE.to_owned());
    }
    match modified_ms {
        Some(t) => {
            m.started_at = t;
        },
        None => {},
    }
    m.status = crate::meetings::MeetingStatus::Processing;
    m.title_auto = false;
    m.duration_ms = duration_ms;
    m.ended_at = Some(m.started_at + duration_ms);
    Ok(())
}

/// The refusal when the install has no ffmpeg.
pub const NO_FFMPEG: &'static str = "ffmpeg is missing from this install, so files cannot be imported";

/// Whether an import may start: the path must be a file, and ffmpeg must
/// be there to convert it.
pub fn import_check(path: &str, is_file: bool, has_ffmpeg: bool) -> (r: Result<(), String>)
    ensures
        r.is_ok() <==> is_file && has_ffmpeg,
        !is_file ==> r.is_err() && r->Err_0@ == path@ + " is not a file"@,
        is_file && !has_ffmpeg ==> r.is_err() && r->Err_0@ == NO_FFMPEG@,
{
    if !is_file {
        let mut v = to_chars(path);
        crate::text::extend_str(&mut v, " is not a file");
        return Err(from_chars(&v));
    }
    if !has_ffmpeg {
        return Err(NO_FFMPEG.to_owned());
    }
    Ok(())
}

} // verus!
