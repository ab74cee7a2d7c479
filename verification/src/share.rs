//! Share links: tokens, URLs, and what a link serves.

use vstd::prelude::*;
use crate::organize::Share;
use crate::text::{dec, dec_u64, extend_chars, extend_str, from_chars, is_hex, str_eq, to_chars};

verus! {

/// A LAN share server (its handle lives with the application).
pub struct ShareServer;

/// Share tokens are 32 hexadecimal characters; anything else is not found.
pub open spec fn token_ok(t: Seq<char>) -> bool {
    t.len() == 32 && forall|i: int| 0 <= i < t.len() ==> is_hex(#[trigger] t[i])
}

/// Is `t` shaped like a share token?
pub fn valid_token(t: &str) -> (r: bool)
    ensures
        r == token_ok(t@),
{
    let v = to_chars(t);
    if v.len() != 32 {
        return false;
    }
    let mut i: usize = 0;
    while i < v.len()
        invariant
            i <= v.len() == 32,
            v@ == t@,
            forall|k: int| 0 <= k < i ==> is_hex(#[trigger] v@[k]),
        decreases v.len() - i,
    {
        let u = v[i] as u32;
        if !((0x30 <= u && u <= 0x39) || (0x41 <= u && u <= 0x46) || (0x61 <= u && u <= 0x66)) {
            assert(!is_hex(t@[i as int]));
            return false;
        }
        i += 1;
    }
    true
}

/// `uuid::Uuid::new_v4().simple().to_string()`: a fresh random UUID written
/// as 32 lowercase hexadecimal digits (the `Simple` format), the version
/// digit 4 and the variant digit one of 8, 9, a, b.
#[verifier::external_body]
fn simple_uuid() -> (r: String)
    ensures
        r@.len() == 32,
        forall|i: int| 0 <= i < 32 ==> is_hex(#[trigger] r@[i]),
        r@[12] == '4',
        r@[16] == '8' || r@[16] == '9' || r@[16] == 'a' || r@[16] == 'b',
{
    uuid::Uuid::new_v4().simple().to_string()
}

/// A fresh share token: a random version-4 UUID in its 32-digit form.
pub fn new_share_token() -> (t: String)
    ensures
        token_ok(t@),
        t@[12] == '4',
        t@[16] == '8' || t@[16] == '9' || t@[16] == 'a' || t@[16] == 'b',
{
    simple_uuid()
}

/// `local_ip_address::local_ip()` as text, `None` when the machine has no
/// usable address. The crate looks only for an IPv4 (`AF_INET`) address on
/// every platform, and an IPv4 address is written in dotted decimal.
#[verifier::external_body]
fn local_ip_text() -> (r: Option<String>)
    ensures
        r matches Some(s) ==> exists|a: u8, b: u8, c: u8, d: u8| s@ == ipv4_text(a, b, c, d),
{
    match local_ip_address::local_ip() {
        Ok(ip) => Some(ip.to_string()),
        Err(_) => None,
    }
}

/// An IPv4 address in dotted decimal (`a.b.c.d`).
pub open spec fn ipv4_text(a: u8, b: u8, c: u8, d: u8) -> Seq<char> {
    dec(a as nat) + seq!['.'] + dec(b as nat) + seq!['.'] + dec(c as nat) + seq!['.'] + dec(d as nat)
}

/// The address a LAN link names: the machine's IPv4 address, or 127.0.0.1
/// when it has none.
pub open spec fn lan_text(ip: Option<(u8, u8, u8, u8)>) -> Seq<char> {
    match ip {
        Some((a, b, c, d)) => ipv4_text(a, b, c, d),
        None => ipv4_text(127, 0, 0, 1),
    }
}

/// Best LAN address for links (falls back to 127.0.0.1).
pub fn lan_ip() -> (r: String)
    ensures
        exists|ip: Option<(u8, u8, u8, u8)>| r@ == lan_text(ip),
{
    match local_ip_text() {
        Some(ip) => {
            proof {
                let (a, b, c, d) = choose|a: u8, b: u8, c: u8, d: u8| ip@ == ipv4_text(a, b, c, d);
                assert(ip@ == lan_text(Some((a, b, c, d))));
            }
            ip
        },
        None => {
            let r = "127.0.0.1".to_owned();
            proof {
                reveal_strlit("127.0.0.1");
                assert(dec(127) =~= seq!['1', '2', '7']) by {
                    reveal_with_fuel(dec, 3);
                }
                assert(dec(0) =~= seq!['0']);
                assert(dec(1) =~= seq!['1']);
                assert(r@ =~= lan_text(None));
            }
            r
        },
    }
}

/// `http://<ip>:<port>/s/<token>`.
pub open spec fn share_url_of(ip: Seq<char>, port: u16, token: Seq<char>) -> Seq<char> {
    "http://"@ + ip + seq![':'] + dec(port as nat) + "/s/"@ + token
}

/// The link for `token` on `ip`.
pub fn share_url_on(ip: &str, port: u16, token: &str) -> (r: String)
    ensures
        r@ == share_url_of(ip@, port, token@),
{
    let mut v: Vec<char> = Vec::new();
    extend_str(&mut v, "http://");
    extend_str(&mut v, ip);
    v.push(':');
    let p = dec_u64(port as u64);
    extend_chars(&mut v, &p);
    extend_str(&mut v, "/s/");
    extend_str(&mut v, token);
    from_chars(&v)
}

/// The link for `token` on this machine's LAN address.
pub fn share_url(port: u16, token: &str) -> (r: String)
    ensures
        exists|ip: Option<(u8, u8, u8, u8)>| r@ == share_url_of(lan_text(ip), port, token@),
{
    let ip = lan_ip();
    share_url_on(ip.as_str(), port, token)
}

/// The media file a share link serves.
#[derive(Clone, Copy, Debug, PartialEq, Eq, Structural)]
pub enum ShareMedia {
    /// `clips/<token>.mp4`
    ClipVideo,
    /// `clips/<token>.mp3`
    ClipAudio,
    /// `screen.mp4` of the meeting
    Video,
    /// `mix.wav` of the meeting
    Audio,
    /// Nothing to serve (404).
    Missing,
}

/// Which file a share serves: a clip serves its rendered clip (video first,
/// else audio, else nothing); a whole meeting serves its screen video when
/// there is one, else its audio mix.
pub open spec fn media_for(is_clip: bool, clip_mp4: bool, clip_mp3: bool, video: bool) -> ShareMedia {
    if is_clip {
        if clip_mp4 {
            ShareMedia::ClipVideo
        } else if clip_mp3 {
            ShareMedia::ClipAudio
        } else {
            ShareMedia::Missing
        }
    } else if video {
        ShareMedia::Video
    } else {
        ShareMedia::Audio
    }
}

/// Is this share a clip?
pub fn is_clip(share: &Share) -> (r: bool)
    ensures
        r == (share.kind@ == "clip"@),
{
    str_eq(share.kind.as_str(), "clip")
}

/// Choose the served file from what exists on disk.
pub fn share_media(is_clip: bool, clip_mp4: bool, clip_mp3: bool, video: bool) -> (r: ShareMedia)
    ensures
        r == media_for(is_clip, clip_mp4, clip_mp3, video),
{
    if is_clip {
        if clip_mp4 {
            ShareMedia::ClipVideo
        } else if clip_mp3 {
            ShareMedia::ClipAudio
        } else {
            ShareMedia::Missing
        }
    } else if video {
        ShareMedia::Video
    } else {
        ShareMedia::Audio
    }
}

/// The clip range a share page shows: for a clip, its range with a missing
/// start read as 0 and a missing end as the meeting's duration; `None` for
/// a whole meeting.
pub open spec fn page_clip_of(share: Share, duration_ms: i64) -> Option<(i64, i64)> {
    if share.kind@ == "clip"@ {
        Some((
            if share.start_ms.is_some() { share.start_ms.unwrap() } else { 0 },
            if share.end_ms.is_some() { share.end_ms.unwrap() } else { duration_ms },
        ))
    } else {
        None
    }
}

/// The clip range for the page of `share`.
pub fn page_clip(share: &Share, duration_ms: i64) -> (r: Option<(i64, i64)>)
    ensures
        r == page_clip_of(*share, duration_ms),
{
    if is_clip(share) {
        let a = match share.start_ms {
            Some(s) => s,
            None => 0,
        };
        let b = match share.end_ms {
            Some(e) => e,
            None => duration_ms,
        };
        Some((a, b))
    } else {
        None
    }
}

} // verus!
