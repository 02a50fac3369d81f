//! Serving media to the webview: content types from file extensions, and the
//! HTTP `Range` handling shared by the `stream://` scheme and the loopback
//! media server.

use vstd::prelude::*;
use crate::num::{digits, parse_u64, parse_u64_spec, u64_digits};
use crate::text::{chars_of, copy_str, find_from, is_prefix, lower_seq, push_char, string_of, trim_str, trim_ws};

verus! {

/// The pieces of a path that name something, as `Path::components` keeps
/// them on Unix: the `/`-separated pieces without empty ones and `.`.
pub open spec fn path_pieces(path: Seq<char>) -> Seq<Seq<char>> {
    crate::contentline::split_c(path, '/').filter(|p: Seq<char>| p.len() > 0 && p != seq!['.'])
}

/// `Path::file_name`: the last piece, unless there is none or it is `..`.
pub open spec fn file_name_of(path: Seq<char>) -> Option<Seq<char>> {
    let ps = path_pieces(path);
    if ps.len() == 0 || ps.last() == seq!['.', '.'] {
        None
    } else {
        Some(ps.last())
    }
}

/// `Path::extension`: the text after the file name's last `.`; nothing when
/// there is no file name, no `.`, or the only `.` starts the name.
pub open spec fn path_ext(path: Seq<char>) -> Option<Seq<char>> {
    match file_name_of(path) {
        None => None,
        Some(name) => match crate::vcard::last_index(name, '.') {
            None => None,
            Some(i) => if i == 0 {
                None
            } else {
                Some(name.skip(i + 1))
            },
        },
    }
}

/// `std::path::Path::extension` of `path`, as a `String` (a name that is
/// not valid UTF-8 cannot occur for a `&str` path). Claims what std
/// documents: the extension of the file name, as [`path_ext`] states it.
#[verifier::external_body]
fn path_extension(path: &str) -> (r: Option<String>)
    ensures
        crate::text::opt_view(r) == path_ext(path@),
{
    std::path::Path::new(path).extension().and_then(|e| e.to_str()).map(|e| e.to_string())
}

/// Content type of the media the previewer and the player handle, by
/// (lower-case) extension.
pub open spec fn mime_of_ext(ext: Seq<char>) -> Seq<char> {
    if ext == "mp3"@ {
        "audio/mpeg"@
    } else if ext == "flac"@ {
        "audio/flac"@
    } else if ext == "ogg"@ || ext == "oga"@ {
        "audio/ogg"@
    } else if ext == "opus"@ {
        "audio/opus"@
    } else if ext == "wav"@ {
        "audio/wav"@
    } else if ext == "m4a"@ {
        "audio/mp4"@
    } else if ext == "aac"@ {
        "audio/aac"@
    } else if ext == "wma"@ {
        "audio/x-ms-wma"@
    } else if ext == "mp4"@ || ext == "m4v"@ {
        "video/mp4"@
    } else if ext == "webm"@ {
        "video/webm"@
    } else if ext == "mkv"@ {
        "video/x-matroska"@
    } else if ext == "mov"@ {
        "video/quicktime"@
    } else if ext == "avi"@ {
        "video/x-msvideo"@
    } else if ext == "ogv"@ {
        "video/ogg"@
    } else if ext == "jpg"@ || ext == "jpeg"@ {
        "image/jpeg"@
    } else if ext == "png"@ {
        "image/png"@
    } else if ext == "gif"@ {
        "image/gif"@
    } else if ext == "webp"@ {
        "image/webp"@
    } else if ext == "bmp"@ {
        "image/bmp"@
    } else if ext == "avif"@ {
        "image/avif"@
    } else if ext == "svg"@ {
        "image/svg+xml"@
    } else if ext == "ico"@ {
        "image/x-icon"@
    } else if ext == "pdf"@ {
        "application/pdf"@
    } else {
        "application/octet-stream"@
    }
}

/// Content type for a lower-case extension (`application/octet-stream`
/// when unknown).
pub fn mime_for_ext(ext: &str) -> (r: &'static str)
    ensures
        r@ == mime_of_ext(ext@),
{
    let eq = |lit: &str| -> (b: bool)
        ensures
            b == (ext@ == lit@),
        { crate::text::str_eq(ext, lit) };
    if eq("mp3") {
        "audio/mpeg"
    } else if eq("flac") {
        "audio/flac"
    } else if eq("ogg") || eq("oga") {
        "audio/ogg"
    } else if eq("opus") {
        "audio/opus"
    } else if eq("wav") {
        "audio/wav"
    } else if eq("m4a") {
        "audio/mp4"
    } else if eq("aac") {
        "audio/aac"
    } else if eq("wma") {
        "audio/x-ms-wma"
    } else if eq("mp4") || eq("m4v") {
        "video/mp4"
    } else if eq("webm") {
        "video/webm"
    } else if eq("mkv") {
        "video/x-matroska"
    } else if eq("mov") {
        "video/quicktime"
    } else if eq("avi") {
        "video/x-msvideo"
    } else if eq("ogv") {
        "video/ogg"
    } else if eq("jpg") || eq("jpeg") {
        "image/jpeg"
    } else if eq("png") {
        "image/png"
    } else if eq("gif") {
        "image/gif"
    } else if eq("webp") {
        "image/webp"
    } else if eq("bmp") {
        "image/bmp"
    } else if eq("avif") {
        "image/avif"
    } else if eq("svg") {
        "image/svg+xml"
    } else if eq("ico") {
        "image/x-icon"
    } else if eq("pdf") {
        "application/pdf"
    } else {
        "application/octet-stream"
    }
}

/// The lower-cased extension of `path` (empty when it has none).
pub open spec fn lower_ext(path: Seq<char>) -> Seq<char> {
    match path_ext(path) {
        Some(e) => lower_seq(e),
        None => Seq::empty(),
    }
}

/// Best-effort content type from a file's extension, for previews and the
/// player; `application/octet-stream` when unknown.
pub fn mime_for(path: &str) -> (r: &'static str)
    ensures
        r@ == mime_of_ext(lower_ext(path@)),
{
    let e = match path_extension(path) {
        Some(e) => crate::text::lower_string(e.as_str()),
        None => String::new(),
    };
    mime_for_ext(e.as_str())
}

// ---------------------------------------------------------------------------
// Ranges
// ---------------------------------------------------------------------------

pub open spec fn min_u64(a: u64, b: u64) -> u64 {
    if a <= b {
        a
    } else {
        b
    }
}

/// The text before the first `-`, and after it when there is one.
pub open spec fn split_dash(s: Seq<char>) -> (Seq<char>, Option<Seq<char>>) {
    match find_from(s, seq!['-'], 0) {
        Some(i) => (s.take(i), Some(s.skip(i + 1))),
        None => (s, None),
    }
}

/// `(start, end, is_range)` served for a `Range` header on a file of `size`
/// bytes: `bytes=START-END` with END optional, both clamped to the last byte
/// and END not before START; the whole file without a `bytes=` header.
pub open spec fn range_spec(range: Option<Seq<char>>, size: u64) -> (u64, u64, bool) {
    let last: u64 = if size >= 1 {
        (size - 1) as u64
    } else {
        0
    };
    match range {
        Some(r) => if is_prefix("bytes="@, r) {
            let parts = split_dash(r.skip(6));
            let start = match parse_u64_spec(trim_ws(parts.0)) {
                Some(v) => v,
                None => 0,
            };
            let end = match parts.1 {
                Some(e) => if trim_ws(e).len() > 0 {
                    match parse_u64_spec(trim_ws(e)) {
                        Some(v) => v,
                        None => last,
                    }
                } else {
                    last
                },
                None => last,
            };
            let s = min_u64(start, last);
            let e = min_u64(end, last);
            (
                s,
                if e >= s {
                    e
                } else {
                    s
                },
                true,
            )
        } else {
            (0, last, false)
        },
        None => (0, last, false),
    }
}

fn bytes_prefix(r: &Vec<char>) -> (b: bool)
    ensures
        b == is_prefix("bytes="@, r@),
{
    let p = chars_of("bytes=");
    if r.len() < p.len() {
        return false;
    }
    let b = crate::text::range_eq(r, 0, p.len(), &p);
    proof {
        assert(r@.subrange(0, p@.len() as int) == r@.subrange(0, "bytes="@.len() as int));
    }
    b
}

fn dash_split(v: &Vec<char>, lo: usize) -> (r: (usize, Option<usize>))
    requires
        lo <= v.len(),
    ensures
        ({
            let s = v@.skip(lo as int);
            let sp = split_dash(s);
            &&& lo <= r.0 <= v@.len()
            &&& v@.subrange(lo as int, r.0 as int) == sp.0
            &&& match r.1 {
                Some(k) => r.0 < v@.len() && k == r.0 + 1 && sp.1 == Some(v@.skip(k as int)),
                None => sp.1 is None,
            }
        }),
{
    let dash = vec!['-'];
    proof {
        assert(dash@ =~= seq!['-']);
    }
    match crate::text::find_exec(v, &dash, lo) {
        Some(i) => {
            proof {
                crate::text::lemma_find_from(v@, seq!['-'], lo as int);
                let s = v@.skip(lo as int);
                lemma_find_shift(v@, lo as int);
                assert(s.take(i - lo) =~= v@.subrange(lo as int, i as int));
                assert(s.skip(i - lo + 1) =~= v@.skip(i + 1));
            }
            (i, Some(i + 1))
        },
        None => {
            proof {
                lemma_find_shift(v@, lo as int);
                assert(v@.subrange(lo as int, v@.len() as int) =~= v@.skip(lo as int));
            }
            (v.len(), None)
        },
    }
}

/// Finding `-` from `lo` in `v` is finding it in `v.skip(lo)`, shifted.
proof fn lemma_find_shift(v: Seq<char>, lo: int)
    requires
        0 <= lo <= v.len(),
    ensures
        match find_from(v, seq!['-'], lo) {
            Some(i) => find_from(v.skip(lo), seq!['-'], 0) == Some(i - lo),
            None => find_from(v.skip(lo), seq!['-'], 0) is None,
        },
    decreases v.len() - lo,
{
    crate::text::lemma_find_from(v, seq!['-'], lo);
    crate::text::lemma_find_from(v.skip(lo), seq!['-'], 0);
    let s = v.skip(lo);
    match find_from(v, seq!['-'], lo) {
        Some(i) => {
            assert(crate::text::occurs_at(s, seq!['-'], i - lo)) by {
                assert(s.subrange(i - lo, i - lo + 1) =~= v.subrange(i, i + 1));
            }
            match find_from(s, seq!['-'], 0) {
                Some(j) => {
                    if j < i - lo {
                        assert(crate::text::occurs_at(v, seq!['-'], j + lo)) by {
                            assert(s.subrange(j, j + 1) =~= v.subrange(j + lo, j + lo + 1));
                        }
                    }
                },
                None => {},
            }
        },
        None => {
            match find_from(s, seq!['-'], 0) {
                Some(j) => {
                    assert(crate::text::occurs_at(v, seq!['-'], j + lo)) by {
                        assert(s.subrange(j, j + 1) =~= v.subrange(j + lo, j + lo + 1));
                    }
                },
                None => {},
            }
        },
    }
}

/// `(start, end, is_range)` for a `Range` header on a file of `size` bytes.
pub fn resolve_range(range: Option<&str>, size: u64) -> (r: (u64, u64, bool))
    ensures
        r == range_spec(
            match range {
                Some(s) => Some(s@),
                None => None,
            },
            size,
        ),
{
    let last: u64 = if size >= 1 { size - 1 } else { 0 };
    let r = match range {
        Some(r) => r,
        None => return (0, last, false),
    };
    let v = chars_of(r);
    if !bytes_prefix(&v) {
        return (0, last, false);
    }
    proof {
        reveal_strlit("bytes=");
    }
    let (dash, after) = dash_split(&v, 6);
    let first = string_of(&v, 6, dash);
    let start = match parse_u64(trim_str(first.as_str()).as_str()) {
        Some(x) => x,
        None => 0,
    };
    let end = match after {
        Some(k) => {
            let e = string_of(&v, k, v.len());
            proof {
                assert(v@.subrange(k as int, v@.len() as int) =~= v@.skip(k as int));
            }
            let t = trim_str(e.as_str());
            if t.as_str().is_empty() {
                last
            } else {
                match parse_u64(t.as_str()) {
                    Some(x) => x,
                    None => last,
                }
            }
        },
        None => last,
    };
    let s = if start <= last { start } else { last };
    let e = if end <= last { end } else { last };
    (s, if e >= s { e } else { s }, true)
}

/// Bytes served for a resolved range.
pub fn range_len(size: u64, start: u64, end: u64) -> (n: u64)
    requires
        start <= end,
        end < size || size == 0,
    ensures
        n == if size == 0 {
            0
        } else {
            end - start + 1
        },
{
    if size == 0 {
        0
    } else {
        end - start + 1
    }
}

/// The offset a `stream://` request asks for: the number before the first
/// `-` of a `bytes=` header, else 0.
pub open spec fn stream_start_spec(range: Option<Seq<char>>) -> u64 {
    match range {
        Some(r) => if is_prefix("bytes="@, r) {
            match parse_u64_spec(split_dash(r.skip(6)).0) {
                Some(v) => v,
                None => 0,
            }
        } else {
            0
        },
        None => 0,
    }
}

pub fn stream_start(range: Option<&str>) -> (r: u64)
    ensures
        r == stream_start_spec(
            match range {
                Some(s) => Some(s@),
                None => None,
            },
        ),
{
    let r = match range {
        Some(r) => r,
        None => return 0,
    };
    let v = chars_of(r);
    if !bytes_prefix(&v) {
        return 0;
    }
    proof {
        reveal_strlit("bytes=");
    }
    let (dash, _) = dash_split(&v, 6);
    let first = string_of(&v, 6, dash);
    match parse_u64(first.as_str()) {
        Some(x) => x,
        None => 0,
    }
}

/// `bytes START-END/SIZE`, the `Content-Range` of a ranged response.
pub fn content_range(start: u64, end: u64, size: u64) -> (r: String)
    ensures
        r@ == "bytes "@ + digits(start as nat) + seq!['-'] + digits(end as nat) + seq!['/'] + digits(size as nat),
{
    let mut r = copy_str("bytes ");
    let a = u64_digits(start);
    r.append(a.as_str());
    push_char(&mut r, '-');
    let b = u64_digits(end);
    r.append(b.as_str());
    push_char(&mut r, '/');
    let c = u64_digits(size);
    r.append(c.as_str());
    r
}

} // verus!
