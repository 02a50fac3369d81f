//! The loopback HTTP server for media playback: which request targets carry
//! the session token, the head of a (ranged) response, and the content type
//! of audio and video files.

use vstd::prelude::*;
use crate::num::{digits, u64_digits};
use crate::stream::{lower_ext, mime_of_ext};
use crate::text::{chars_of, copy_str, find_from, is_prefix, push_char, string_of, trim_start_c};

verus! {

/// Audio and video types by extension; anything else is
/// `application/octet-stream`.
pub open spec fn av_mime_of_ext(ext: Seq<char>) -> Seq<char> {
    let m = mime_of_ext(ext);
    if is_prefix("audio/"@, m) || is_prefix("video/"@, m) {
        m
    } else {
        "application/octet-stream"@
    }
}

fn starts_with_lit(s: &str, p: &str) -> (b: bool)
    ensures
        b == is_prefix(p@, s@),
{
    let v = chars_of(s);
    let pv = chars_of(p);
    if v.len() < pv.len() {
        return false;
    }
    crate::text::range_eq(&v, 0, pv.len(), &pv)
}

/// Best-effort content type of a media file from its extension.
pub fn mime_for(path: &str) -> (r: &'static str)
    ensures
        r@ == av_mime_of_ext(lower_ext(path@)),
{
    let m = crate::stream::mime_for(path);
    if starts_with_lit(m, "audio/") || starts_with_lit(m, "video/") {
        m
    } else {
        "application/octet-stream"
    }
}

/// The percent-encoded path of a request target `/<token>/<path>`, when the
/// token matches.
pub open spec fn split_target_spec(target: Seq<char>, token: Seq<char>) -> Option<Seq<char>> {
    let rest = trim_start_c(target, '/');
    let (got, enc) = match find_from(rest, seq!['/'], 0) {
        Some(i) => (rest.take(i), rest.skip(i + 1)),
        None => (Seq::empty(), Seq::empty()),
    };
    if got == token {
        Some(enc)
    } else {
        None
    }
}

/// Check the session token of a request target and return the encoded file
/// path after it.
pub fn split_target(target: &str, token: &str) -> (r: Option<String>)
    ensures
        crate::text::opt_view(r) == split_target_spec(target@, token@),
{
    let v = chars_of(target);
    let a = crate::text::trim_start_bound(&v, 0, v.len(), '/');
    proof {
        assert(v@.subrange(0, v@.len() as int) =~= v@);
    }
    let rest = string_of(&v, a, v.len());
    let rv = chars_of(rest.as_str());
    let slash = vec!['/'];
    proof {
        assert(slash@ =~= seq!['/']);
    }
    let (got, enc) = match crate::text::find_exec(&rv, &slash, 0) {
        Some(i) => {
            proof {
                crate::text::lemma_find_from(rv@, seq!['/'], 0);
                assert(rv@.subrange(0, i as int) =~= rv@.take(i as int));
                assert(rv@.subrange(i + 1, rv@.len() as int) =~= rv@.skip(i + 1));
            }
            (string_of(&rv, 0, i), string_of(&rv, i + 1, rv.len()))
        },
        None => (String::new(), String::new()),
    };
    if crate::text::str_eq(got.as_str(), token) {
        Some(enc)
    } else {
        None
    }
}

/// Head of a media response: status, type, length, byte ranges accepted,
/// connection closed, and the served range for a ranged response.
pub open spec fn response_head_spec(is_range: bool, ct: Seq<char>, len: u64, start: u64, end: u64, size: u64) -> Seq<char> {
    "HTTP/1.1 "@ + (if is_range {
        "206 Partial Content"@
    } else {
        "200 OK"@
    }) + "\r\nContent-Type: "@ + ct + "\r\nContent-Length: "@ + digits(len as nat)
        + "\r\nAccept-Ranges: bytes\r\nConnection: close\r\n"@ + (if is_range {
        "Content-Range: bytes "@ + digits(start as nat) + seq!['-'] + digits(end as nat) + seq!['/'] + digits(
            size as nat,
        ) + "\r\n"@
    } else {
        Seq::empty()
    }) + "\r\n"@
}

pub fn response_head(is_range: bool, ct: &str, len: u64, start: u64, end: u64, size: u64) -> (r: String)
    ensures
        r@ == response_head_spec(is_range, ct@, len, start, end, size),
{
    let mut h = copy_str("HTTP/1.1 ");
    if is_range {
        h.append("206 Partial Content");
    } else {
        h.append("200 OK");
    }
    h.append("\r\nContent-Type: ");
    h.append(ct);
    h.append("\r\nContent-Length: ");
    let l = u64_digits(len);
    h.append(l.as_str());
    h.append("\r\nAccept-Ranges: bytes\r\nConnection: close\r\n");
    if is_range {
        h.append("Content-Range: bytes ");
        let a = u64_digits(start);
        h.append(a.as_str());
        push_char(&mut h, '-');
        let b = u64_digits(end);
        h.append(b.as_str());
        push_char(&mut h, '/');
        let c = u64_digits(size);
        h.append(c.as_str());
        h.append("\r\n");
    }
    h.append("\r\n");
    proof {
        assert(h@ =~= response_head_spec(is_range, ct@, len, start, end, size));
    }
    h
}

} // verus!
