//! The WebDAV side of the client without the network: how DAV paths become
//! URLs, how a PROPFIND/SEARCH `multistatus` body becomes directory entries,
//! the names of chunked-upload sessions, and the retry policy of transfers.

use vstd::prelude::*;
use crate::contentline::split_c;
use crate::dav::{or_empty, percent_decode, percent_decoded};
use crate::num::{digits, parse_u64, parse_u64_spec, u64_digits, zero_pad};
use crate::pathmap::lex_lt;
use crate::text::{
    chars_of, copy_str, find_from, opt_view, push_char, push_range, string_of, trim_c, trim_end_c, trim_start_c,
};
use crate::xml::{child_of, in_subtree, nodes_view, parse_xml, xml_flat, XmlKind, XmlNode, XmlNodeV};

verus! {

// ---------------------------------------------------------------------------
// Percent-encoding
// ---------------------------------------------------------------------------

pub open spec fn hex_upper(n: int) -> char {
    if n < 10 {
        ((n + 48) as u32) as char
    } else {
        ((n + 55) as u32) as char
    }
}

/// A byte kept verbatim: ASCII letters and digits, plus `-_.~` in a path
/// segment.
pub open spec fn kept_byte(b: u8, segment: bool) -> bool {
    (48 <= b <= 57) || (65 <= b <= 90) || (97 <= b <= 122) || (segment && (b == 45 || b == 95 || b == 46 || b
        == 126))
}

/// Percent-encoding of bytes: kept bytes as characters, the others as `%XX`
/// with upper-case hex.
pub open spec fn pct_encode(b: Seq<u8>, segment: bool) -> Seq<char>
    decreases b.len(),
{
    if b.len() == 0 {
        Seq::empty()
    } else {
        let x = b.last();
        pct_encode(b.drop_last(), segment) + if kept_byte(x, segment) {
            seq![(x as u32) as char]
        } else {
            seq!['%', hex_upper(x as int / 16), hex_upper(x as int % 16)]
        }
    }
}

/// `percent_encoding::percent_encode_byte(b)`: `%` and the byte's two
/// upper-case hex digits, as the crate documents.
#[verifier::external_body]
fn percent_byte(b: u8) -> (r: &'static str)
    ensures
        r@ == seq!['%', hex_upper(b as int / 16), hex_upper(b as int % 16)],
{
    percent_encoding::percent_encode_byte(b)
}

/// The UTF-8 bytes of `seg` with every byte outside ASCII letters, digits
/// and `-_.~` percent-encoded (the path-segment set of this client).
fn encode_segment(seg: &str) -> (r: String)
    ensures
        r@ == pct_encode(vstd::utf8::encode_utf8(seg@), true),
{
    let bytes = seg.as_bytes();
    let mut out = String::new();
    let mut i: usize = 0;
    while i < bytes.len()
        invariant
            0 <= i <= bytes@.len(),
            bytes@ == vstd::utf8::encode_utf8(seg@),
            out@ == pct_encode(bytes@.take(i as int), true),
        decreases bytes@.len() - i,
    {
        let x = bytes[i];
        proof {
            assert(bytes@.take(i + 1).drop_last() =~= bytes@.take(i as int));
            assert(bytes@.take(i + 1).last() == x);
        }
        if (48 <= x && x <= 57) || (65 <= x && x <= 90) || (97 <= x && x <= 122) || x == 45 || x == 95 || x == 46 || x
            == 126 {
            push_char(&mut out, x as char);
        } else {
            out.append(percent_byte(x));
        }
        i = i + 1;
    }
    proof {
        assert(bytes@.take(bytes@.len() as int) =~= bytes@);
    }
    out
}

/// `utf8_percent_encode(s, NON_ALPHANUMERIC)`: every byte but ASCII letters
/// and digits written as `%XX` (upper-case hex), as the crate documents.
#[verifier::external_body]
fn encode_all(s: &str) -> (r: String)
    ensures
        r@ == pct_encode(vstd::utf8::encode_utf8(s@), false),
{
    percent_encoding::utf8_percent_encode(s, percent_encoding::NON_ALPHANUMERIC).to_string()
}

/// `/`-separated pieces, each percent-encoded, joined by `/` again.
pub open spec fn join_encoded(parts: Seq<Seq<char>>) -> Seq<char>
    decreases parts.len(),
{
    if parts.len() == 0 {
        Seq::empty()
    } else if parts.len() == 1 {
        pct_encode(vstd::utf8::encode_utf8(parts[0]), true)
    } else {
        join_encoded(parts.drop_last()) + seq!['/'] + pct_encode(vstd::utf8::encode_utf8(parts.last()), true)
    }
}

/// Percent-encode a full path, keeping its `/` separators.
pub open spec fn encode_path_spec(path: Seq<char>) -> Seq<char> {
    join_encoded(split_c(path, '/'))
}

/// Percent-encode a full path, preserving `/` separators.
pub fn encode_path(path: &str) -> (r: String)
    ensures
        r@ == encode_path_spec(path@),
{
    let v = chars_of(path);
    let parts = crate::contentline::split_ranges(&v, '/');
    let ghost ps = split_c(v@, '/');
    proof {
        crate::contentline::lemma_split_c_nonempty(v@, '/');
    }
    let mut out = String::new();
    let mut i: usize = 0;
    while i < parts.len()
        invariant
            v@ == path@,
            ps == split_c(v@, '/'),
            parts@.len() == ps.len(),
            ps.len() >= 1,
            forall|x: int| #![trigger parts@[x]] 0 <= x < parts@.len() ==> parts@[x].0 <= parts@[x].1 && parts@[x].1 <= v@.len()
                && v@.subrange(parts@[x].0 as int, parts@[x].1 as int) == ps[x],
            0 <= i <= parts@.len(),
            out@ == join_encoded(ps.take(i as int)),
        decreases parts.len() - i,
    {
        let (lo, hi) = parts[i];
        let seg = string_of(&v, lo, hi);
        let enc = encode_segment(seg.as_str());
        if i > 0 {
            push_char(&mut out, '/');
        }
        out.append(enc.as_str());
        proof {
            let t1 = ps.take(i + 1);
            assert(t1.drop_last() =~= ps.take(i as int));
            assert(t1.last() == ps[i as int]);
            if i == 0 {
                assert(ps.take(0) =~= Seq::<Seq<char>>::empty());
                assert(t1[0] == ps[0]);
            }
        }
        i = i + 1;
    }
    proof {
        assert(ps.take(ps.len() as int) =~= ps);
    }
    out
}

/// Percent-encode every byte of `s` but ASCII letters and digits (the form
/// of a local path inside a loopback media URL).
pub fn encode_local_path(s: &str) -> (r: String)
    ensures
        r@ == pct_encode(vstd::utf8::encode_utf8(s@), false),
{
    encode_all(s)
}

// ---------------------------------------------------------------------------
// Endpoints
// ---------------------------------------------------------------------------

/// Where an account's files live: the server base (no trailing slash), the
/// user's DAV root `/remote.php/dav/files/<encoded user>/`, and the user.
pub struct DavEndpoint {
    pub server_url: String,
    pub dav_root: String,
    pub username: String,
}

impl DavEndpoint {
    /// The endpoint of an account.
    pub fn new(server_url: &str, username: &str) -> (e: DavEndpoint)
        ensures
            e.server_url@ == trim_end_c(server_url@, '/'),
            e.dav_root@ == "/remote.php/dav/files/"@ + encode_path_spec(username@) + seq!['/'],
            e.username@ == username@,
    {
        let v = chars_of(server_url);
        let b = crate::text::trim_end_bound(&v, 0, v.len(), '/');
        proof {
            assert(v@.subrange(0, v@.len() as int) =~= v@);
        }
        let enc = encode_path(username);
        let mut root = copy_str("/remote.php/dav/files/");
        root.append(enc.as_str());
        push_char(&mut root, '/');
        DavEndpoint { server_url: string_of(&v, 0, b), dav_root: root, username: copy_str(username) }
    }

    /// Absolute URL of a DAV path (relative to the user's DAV root).
    pub fn url_for(&self, path: &str) -> (r: String)
        ensures
            r@ == self.server_url@ + self.dav_root@ + encode_path_spec(trim_start_c(path@, '/')),
    {
        let v = chars_of(path);
        let a = crate::text::trim_start_bound(&v, 0, v.len(), '/');
        proof {
            assert(v@.subrange(0, v@.len() as int) =~= v@);
        }
        let rel = string_of(&v, a, v.len());
        let enc = encode_path(rel.as_str());
        let mut r = copy_str(self.server_url.as_str());
        r.append(self.dav_root.as_str());
        r.append(enc.as_str());
        r
    }
}

// ---------------------------------------------------------------------------
// Directory entries from a multistatus body
// ---------------------------------------------------------------------------

/// A single entry of a directory listing.
pub struct FileEntry {
    /// Display name (last path segment).
    pub name: String,
    /// Path relative to the user's DAV root, starting with `/`; directories
    /// end with `/`.
    pub path: String,
    pub is_dir: bool,
    /// For directories the recursive size (`oc:size`) when available.
    pub size: u64,
    /// Last-modified time as RFC 3339, when the server provided one.
    pub mtime: Option<String>,
    pub content_type: Option<String>,
    pub etag: Option<String>,
    /// Files contained in a directory (recursive), when reported.
    pub file_count: Option<u64>,
    /// Sub-directories contained in a directory, when reported.
    pub dir_count: Option<u64>,
    /// Server-stored checksums, e.g. `SHA1:ab12… MD5:cd34…`.
    pub checksums: Option<String>,
}

pub struct FileEntryV {
    pub name: Seq<char>,
    pub path: Seq<char>,
    pub is_dir: bool,
    pub size: u64,
    pub mtime: Option<Seq<char>>,
    pub content_type: Option<Seq<char>>,
    pub etag: Option<Seq<char>>,
    pub file_count: Option<u64>,
    pub dir_count: Option<u64>,
    pub checksums: Option<Seq<char>>,
}

impl View for FileEntry {
    type V = FileEntryV;

    open spec fn view(&self) -> FileEntryV {
        FileEntryV {
            name: self.name@,
            path: self.path@,
            is_dir: self.is_dir,
            size: self.size,
            mtime: opt_view(self.mtime),
            content_type: opt_view(self.content_type),
            etag: opt_view(self.etag),
            file_count: self.file_count,
            dir_count: self.dir_count,
            checksums: opt_view(self.checksums),
        }
    }
}

pub open spec fn entries_view(v: Seq<FileEntry>) -> Seq<FileEntryV> {
    Seq::new(v.len(), |i: int| v[i]@)
}

/// Result of a (possibly ranged) GET, for the `stream://` protocol.
pub struct RangeGet {
    pub status: u16,
    pub content_type: Option<String>,
    pub content_range: Option<String>,
    pub bytes: Vec<u8>,
}

pub open spec fn dav_ns() -> Seq<char> {
    "DAV:"@
}

pub open spec fn oc_ns() -> Seq<char> {
    "http://owncloud.org/ns"@
}

pub open spec fn nc_ns() -> Seq<char> {
    "http://nextcloud.org/ns"@
}

/// roxmltree's `has_tag_name((ns, name))`: an element with that namespace
/// URI and local name.
pub open spec fn tagged(n: XmlNodeV, ns: Seq<char>, name: Seq<char>) -> bool {
    n.kind == XmlKind::Element && n.ns == Some(ns) && n.name == name
}

/// The first child of `i` at or after `from` with the given tag.
pub open spec fn first_tagged_child(nodes: Seq<XmlNodeV>, i: int, ns: Seq<char>, name: Seq<char>, from: int) -> Option<
    int,
>
    decreases nodes.len() - from,
{
    if from < 0 || from >= nodes.len() {
        None
    } else if child_of(nodes, from, i) && tagged(nodes[from], ns, name) {
        Some(from)
    } else {
        first_tagged_child(nodes, i, ns, name, from + 1)
    }
}

/// The first node of the subtree of `p` (in document order) with the tag.
pub open spec fn first_tagged_desc(nodes: Seq<XmlNodeV>, p: int, ns: Seq<char>, name: Seq<char>, from: int) -> Option<
    int,
>
    decreases nodes.len() - from,
{
    if from < 0 || from >= nodes.len() {
        None
    } else if in_subtree(nodes, from, p) && tagged(nodes[from], ns, name) {
        Some(from)
    } else {
        first_tagged_desc(nodes, p, ns, name, from + 1)
    }
}

pub proof fn lemma_first_tagged(nodes: Seq<XmlNodeV>, i: int, ns: Seq<char>, name: Seq<char>, from: int)
    ensures
        first_tagged_child(nodes, i, ns, name, from) matches Some(j) ==> from <= j < nodes.len(),
        first_tagged_desc(nodes, i, ns, name, from) matches Some(j) ==> from <= j < nodes.len(),
    decreases nodes.len() - from,
{
    if from >= 0 && from < nodes.len() {
        lemma_first_tagged(nodes, i, ns, name, from + 1);
    }
}

/// The text of the first child of `p` with the tag.
pub open spec fn text_of(nodes: Seq<XmlNodeV>, p: Option<int>, ns: Seq<char>, name: Seq<char>) -> Option<Seq<char>> {
    match p {
        Some(p) => match first_tagged_child(nodes, p, ns, name, 0) {
            Some(c) => nodes[c].text,
            None => None,
        },
        None => None,
    }
}

/// What chrono gives for `s` read as an RFC 2822 date
/// (`DateTime::parse_from_rfc2822`), written with `to_rfc3339`.
pub uninterp spec fn rfc2822_rfc3339_spec(s: Seq<char>) -> Option<Seq<char>>;

/// What chrono gives for `s` read with layout `fmt` as a naive date-time
/// (`NaiveDateTime::parse_from_str`), taken as UTC and written with
/// `to_rfc3339`.
pub uninterp spec fn naive_utc_rfc3339_spec(s: Seq<char>, fmt: Seq<char>) -> Option<Seq<char>>;

/// `chrono::DateTime::parse_from_rfc2822(s)`, written with `to_rfc3339`.
/// Claims only that the result is the one chrono gives for `s`.
#[verifier::external_body]
fn rfc2822_rfc3339(s: &str) -> (r: Option<String>)
    ensures
        opt_view(r) == rfc2822_rfc3339_spec(s@),
{
    chrono::DateTime::parse_from_rfc2822(s).ok().map(|dt| dt.to_rfc3339())
}

/// `chrono::NaiveDateTime::parse_from_str(s, fmt)`, taken as UTC
/// (`and_utc`) and written with `to_rfc3339`. Claims only that the result is
/// the one chrono gives for `(s, fmt)`.
#[verifier::external_body]
fn naive_utc_rfc3339(s: &str, fmt: &str) -> (r: Option<String>)
    ensures
        opt_view(r) == naive_utc_rfc3339_spec(s@, fmt@),
{
    chrono::NaiveDateTime::parse_from_str(s, fmt).ok().map(|n| n.and_utc().to_rfc3339())
}

/// The layout of an HTTP date that is not read as RFC 2822.
pub open spec fn http_gmt_fmt() -> Seq<char> {
    "%a, %d %b %Y %H:%M:%S GMT"@
}

/// An HTTP date (`getlastmodified`) as RFC 3339: read as RFC 2822, else in
/// the `%a, %d %b %Y %H:%M:%S GMT` layout taken as UTC.
pub open spec fn http_date_rfc3339(s: Seq<char>) -> Option<Seq<char>> {
    match rfc2822_rfc3339_spec(s) {
        Some(t) => Some(t),
        None => naive_utc_rfc3339_spec(s, http_gmt_fmt()),
    }
}

/// An HTTP date as RFC 3339, or `None` when neither layout reads it.
pub fn parse_http_date(s: &str) -> (r: Option<String>)
    ensures
        opt_view(r) == http_date_rfc3339(s@),
{
    match rfc2822_rfc3339(s) {
        Some(t) => Some(t),
        None => {
            let fmt = "%a, %d %b %Y %H:%M:%S GMT";
            proof {
                assert(fmt@ == http_gmt_fmt());
            }
            naive_utc_rfc3339(s, fmt)
        },
    }
}

/// `s.split_once(pat).map(|(_, tail)| tail)`.
pub open spec fn tail_after(s: Seq<char>, pat: Seq<char>) -> Option<Seq<char>> {
    match find_from(s, pat, 0) {
        Some(i) => Some(s.skip(i + pat.len())),
        None => None,
    }
}

/// The last `/`-separated segment of `s`.
pub open spec fn last_segment(s: Seq<char>) -> Seq<char> {
    split_c(s, '/').last()
}

/// `parse::<u64>()` of an optional text.
pub open spec fn parse_opt(t: Option<Seq<char>>) -> Option<u64> {
    match t {
        Some(s) => parse_u64_spec(s),
        None => None,
    }
}

/// The entry a `<d:response>` at node `r` describes, or `None` when its href
/// is not under `dav_root` or it is the requested resource itself (unless
/// `include_self`).
pub open spec fn entry_of(
    nodes: Seq<XmlNodeV>,
    r: int,
    dav_root: Seq<char>,
    requested: Seq<char>,
    include_self: bool,
) -> Option<FileEntryV> {
    let href = match first_tagged_child(nodes, r, dav_ns(), "href"@, 0) {
        Some(h) => or_empty(nodes[h].text),
        None => Seq::empty(),
    };
    match tail_after(percent_decoded(href), dav_root) {
        None => None,
        Some(tail) => {
            let rel = seq!['/'] + trim_start_c(tail, '/');
            let want = seq!['/'] + trim_c(requested, '/');
            if !include_self && seq!['/'] + trim_c(rel, '/') == want {
                None
            } else {
                let prop = first_tagged_desc(nodes, r, dav_ns(), "prop"@, 0);
                let is_dir = match prop {
                    Some(p) => match first_tagged_child(nodes, p, dav_ns(), "resourcetype"@, 0) {
                        Some(rt) => first_tagged_child(nodes, rt, dav_ns(), "collection"@, 0) is Some,
                        None => false,
                    },
                    None => false,
                };
                let size_text = match text_of(nodes, prop, dav_ns(), "getcontentlength"@) {
                    Some(t) => Some(t),
                    None => if is_dir {
                        text_of(nodes, prop, oc_ns(), "size"@)
                    } else {
                        None
                    },
                };
                Some(
                    FileEntryV {
                        name: last_segment(trim_end_c(rel, '/')),
                        path: if is_dir && !(rel.len() > 0 && rel.last() == '/') {
                            rel.push('/')
                        } else {
                            rel
                        },
                        is_dir,
                        size: match parse_opt(size_text) {
                            Some(v) => v,
                            None => 0,
                        },
                        mtime: match text_of(nodes, prop, dav_ns(), "getlastmodified"@) {
                            Some(t) => http_date_rfc3339(t),
                            None => None,
                        },
                        content_type: match text_of(nodes, prop, dav_ns(), "getcontenttype"@) {
                            Some(t) => if t.len() > 0 {
                                Some(t)
                            } else {
                                None
                            },
                            None => None,
                        },
                        etag: match text_of(nodes, prop, dav_ns(), "getetag"@) {
                            Some(t) => Some(trim_c(t, '"')),
                            None => None,
                        },
                        file_count: parse_opt(text_of(nodes, prop, nc_ns(), "contained-file-count"@)),
                        dir_count: parse_opt(text_of(nodes, prop, nc_ns(), "contained-folder-count"@)),
                        checksums: match prop {
                            Some(p) => match first_tagged_desc(nodes, p, oc_ns(), "checksum"@, 0) {
                                Some(c) => match nodes[c].text {
                                    Some(t) => if t.len() > 0 {
                                        Some(t)
                                    } else {
                                        None
                                    },
                                    None => None,
                                },
                                None => None,
                            },
                            None => None,
                        },
                    },
                )
            }
        },
    }
}

/// The entries of the `<d:response>` elements before `upto`, in document
/// order.
pub open spec fn entries_in(
    nodes: Seq<XmlNodeV>,
    upto: int,
    dav_root: Seq<char>,
    requested: Seq<char>,
    include_self: bool,
) -> Seq<FileEntryV>
    decreases upto,
{
    if upto <= 0 || upto > nodes.len() {
        Seq::empty()
    } else {
        let j = upto - 1;
        let acc = entries_in(nodes, j, dav_root, requested, include_self);
        if tagged(nodes[j], dav_ns(), "response"@) {
            match entry_of(nodes, j, dav_root, requested, include_self) {
                Some(e) => acc.push(e),
                None => acc,
            }
        } else {
            acc
        }
    }
}

/// What `str::to_lowercase` gives.
pub uninterp spec fn lowercased(s: Seq<char>) -> Seq<char>;

/// `str::to_lowercase` (full Unicode lower-casing). Claims only that the
/// result is the one std gives for `s`.
#[verifier::external_body]
fn to_lowercase(s: &str) -> (r: String)
    ensures
        r@ == lowercased(s@),
{
    s.to_lowercase()
}

/// Listing order: directories first, then by lower-cased name.
pub open spec fn listed_before(a: FileEntryV, b: FileEntryV) -> bool {
    (a.is_dir && !b.is_dir) || (a.is_dir == b.is_dir && lex_lt(lowercased(a.name), lowercased(b.name)))
}

/// Where a stable sort places `x` among `s`: after every entry not listed
/// after it.
pub open spec fn insert_pos(s: Seq<FileEntryV>, x: FileEntryV, from: int) -> int
    decreases s.len() - from,
{
    if from < 0 || from >= s.len() {
        s.len() as int
    } else if listed_before(x, s[from]) {
        from
    } else {
        insert_pos(s, x, from + 1)
    }
}

/// The stable sort of `s` in listing order.
pub open spec fn stable_sorted(s: Seq<FileEntryV>) -> Seq<FileEntryV>
    decreases s.len(),
{
    if s.len() == 0 {
        Seq::empty()
    } else {
        let r = stable_sorted(s.drop_last());
        let p = insert_pos(r, s.last(), 0);
        r.insert(p, s.last())
    }
}

proof fn lemma_listed_before_trans(a: FileEntryV, b: FileEntryV, c: FileEntryV)
    requires
        listed_before(a, b),
        listed_before(b, c),
    ensures
        listed_before(a, c),
{
    if a.is_dir == b.is_dir && lex_lt(lowercased(a.name), lowercased(b.name)) && b.is_dir == c.is_dir && lex_lt(
        lowercased(b.name),
        lowercased(c.name),
    ) {
        crate::pathmap::lemma_lex_trans(lowercased(a.name), lowercased(b.name), lowercased(c.name));
    }
}

proof fn lemma_listed_before_irrefl(a: FileEntryV)
    ensures
        !listed_before(a, a),
{
    crate::pathmap::lemma_lex_irrefl(lowercased(a.name));
}

proof fn lemma_insert_pos(s: Seq<FileEntryV>, x: FileEntryV, from: int)
    requires
        0 <= from <= s.len(),
    ensures
        from <= insert_pos(s, x, from) <= s.len(),
        forall|k: int| from <= k < insert_pos(s, x, from) ==> !listed_before(x, #[trigger] s[k]),
        insert_pos(s, x, from) < s.len() ==> listed_before(x, s[insert_pos(s, x, from)]),
    decreases s.len() - from,
{
    if from < s.len() && !listed_before(x, s[from]) {
        lemma_insert_pos(s, x, from + 1);
    }
}

/// No entry of `r` comes after one it is listed before.
spec fn in_order(r: Seq<FileEntryV>) -> bool {
    forall|i: int, j: int| 0 <= i < j < r.len() ==> !listed_before(#[trigger] r[j], #[trigger] r[i])
}

proof fn lemma_stable_sorted_in_order(s: Seq<FileEntryV>)
    ensures
        in_order(stable_sorted(s)),
        stable_sorted(s).len() == s.len(),
    decreases s.len(),
{
    if s.len() > 0 {
        let r = stable_sorted(s.drop_last());
        lemma_stable_sorted_in_order(s.drop_last());
        let x = s.last();
        let p = insert_pos(r, x, 0);
        lemma_insert_pos(r, x, 0);
        let t = r.insert(p, x);
        assert(t.len() == s.len());
        assert forall|i: int, j: int| 0 <= i < j < t.len() implies !listed_before(#[trigger] t[j], #[trigger] t[i]) by {
            if j < p {
                assert(t[i] == r[i] && t[j] == r[j]);
            } else if j == p {
                assert(t[i] == r[i] && t[j] == x);
            } else if i < p {
                assert(t[i] == r[i] && t[j] == r[j - 1]);
            } else if i == p {
                let k = j - 1;
                assert(t[i] == x && t[j] == r[k]);
                if listed_before(r[k], x) {
                    lemma_listed_before_trans(r[k], x, r[p]);
                    if k == p {
                        lemma_listed_before_irrefl(r[p]);
                    }
                }
            } else {
                assert(t[i] == r[i - 1] && t[j] == r[j - 1]);
            }
        }
    }
}

/// The file browser's listing order: it holds as many entries as it was
/// given, folders come before files, and among entries of the same kind the
/// lower-cased names never go down.
pub proof fn law_listing_is_ordered(s: Seq<FileEntryV>)
    ensures
        stable_sorted(s).len() == s.len(),
        forall|i: int, j: int|
            0 <= i < j < stable_sorted(s).len() ==> {
                let a = #[trigger] stable_sorted(s)[i];
                let b = #[trigger] stable_sorted(s)[j];
                &&& (b.is_dir ==> a.is_dir)
                &&& (a.is_dir == b.is_dir ==> !lex_lt(lowercased(b.name), lowercased(a.name)))
            },
{
    lemma_stable_sorted_in_order(s);
}

/// A copy of `e`.
fn copy_entry(e: &FileEntry) -> (r: FileEntry)
    ensures
        r@ == e@,
{
    FileEntry {
        name: copy_str(e.name.as_str()),
        path: copy_str(e.path.as_str()),
        is_dir: e.is_dir,
        size: e.size,
        mtime: crate::text::clone_opt(&e.mtime),
        content_type: crate::text::clone_opt(&e.content_type),
        etag: crate::text::clone_opt(&e.etag),
        file_count: e.file_count,
        dir_count: e.dir_count,
        checksums: crate::text::clone_opt(&e.checksums),
    }
}

fn before_exec(a: &FileEntry, b: &FileEntry) -> (r: bool)
    ensures
        r == listed_before(a@, b@),
{
    if a.is_dir && !b.is_dir {
        return true;
    }
    if a.is_dir != b.is_dir {
        return false;
    }
    let la = to_lowercase(a.name.as_str());
    let lb = to_lowercase(b.name.as_str());
    crate::pathmap::lex_lt_exec(la.as_str(), lb.as_str())
}

/// Entries in listing order: directories first, then by lower-cased name,
/// equal entries kept in their original order.
pub fn sort_entries(v: Vec<FileEntry>) -> (r: Vec<FileEntry>)
    ensures
        entries_view(r@) == stable_sorted(entries_view(v@)),
{
    let ghost ev = entries_view(v@);
    let mut out: Vec<FileEntry> = Vec::new();
    let mut i: usize = 0;
    proof {
        assert(entries_view(out@) =~= stable_sorted(ev.take(0)));
    }
    while i < v.len()
        invariant
            ev == entries_view(v@),
            0 <= i <= ev.len(),
            entries_view(out@) == stable_sorted(ev.take(i as int)),
        decreases ev.len() - i,
    {
        let x = copy_entry(&v[i]);
        proof {
            assert(ev.take(i + 1).drop_last() =~= ev.take(i as int));
            assert(ev.take(i + 1).last() == x@);
        }
        let ghost sv = entries_view(out@);
        let mut k: usize = 0;
        while k < out.len() && !before_exec(&x, &out[k])
            invariant
                sv == entries_view(out@),
                0 <= k <= out@.len(),
                insert_pos(sv, x@, 0) == insert_pos(sv, x@, k as int),
            decreases out@.len() - k,
        {
            proof {
                assert(sv[k as int] == out@[k as int]@);
            }
            k = k + 1;
        }
        proof {
            if k < out@.len() {
                assert(sv[k as int] == out@[k as int]@);
            }
            assert(insert_pos(sv, x@, 0) == k);
        }
        let ghost xv = x@;
        out.insert(k, x);
        proof {
            assert(entries_view(out@) =~= sv.insert(k as int, xv));
        }
        i = i + 1;
    }
    proof {
        assert(ev.take(ev.len() as int) =~= ev);
    }
    out
}

proof fn lemma_split_last(s: Seq<char>, c: char, k: int)
    requires
        0 <= k <= s.len(),
        k == 0 || s[k - 1] == c,
        forall|j: int| k <= j < s.len() ==> s[j] != c,
    ensures
        split_c(s, c).last() == s.subrange(k, s.len() as int),
    decreases s.len(),
{
    crate::contentline::lemma_split_c_nonempty(s, c);
    if s.len() == k {
        if k > 0 {
            assert(s.last() == c);
        }
        assert(s.subrange(k, k) =~= Seq::<char>::empty());
    } else {
        let d = s.drop_last();
        crate::contentline::lemma_split_c_nonempty(d, c);
        if k > 0 {
            assert(d[k - 1] == s[k - 1]);
        }
        lemma_split_last(d, c, k);
        assert(d.subrange(k, d.len() as int).push(s.last()) =~= s.subrange(k, s.len() as int));
    }
}

pub(crate) fn is_tagged(n: &XmlNode, nsu: &str, name: &str) -> (b: bool)
    ensures
        b == tagged(n@, nsu@, name@),
{
    n.kind == XmlKind::Element && match &n.ns {
        Some(x) => crate::text::str_eq(x.as_str(), nsu),
        None => false,
    } && crate::text::str_eq(n.name.as_str(), name)
}

pub(crate) fn tagged_child(ns: &Vec<XmlNode>, i: usize, nsu: &str, name: &str) -> (r: Option<usize>)
    ensures
        match r {
            Some(j) => first_tagged_child(nodes_view(ns@), i as int, nsu@, name@, 0) == Some(j as int) && j < ns@.len(),
            None => first_tagged_child(nodes_view(ns@), i as int, nsu@, name@, 0) is None,
        },
{
    let ghost nv = nodes_view(ns@);
    proof {
        lemma_first_tagged(nv, i as int, nsu@, name@, 0);
    }
    let mut j: usize = 0;
    while j < ns.len()
        invariant
            nv == nodes_view(ns@),
            0 <= j <= nv.len(),
            first_tagged_child(nv, i as int, nsu@, name@, 0) == first_tagged_child(nv, i as int, nsu@, name@, j as int),
        decreases nv.len() - j,
    {
        proof {
            assert(nv[j as int] == ns@[j as int]@);
        }
        let is_child = match ns[j].parent {
            Some(q) => q == i,
            None => false,
        };
        if is_child && is_tagged(&ns[j], nsu, name) {
            return Some(j);
        }
        j = j + 1;
    }
    None
}

pub(crate) fn tagged_desc(ns: &Vec<XmlNode>, p: usize, nsu: &str, name: &str) -> (r: Option<usize>)
    ensures
        match r {
            Some(j) => first_tagged_desc(nodes_view(ns@), p as int, nsu@, name@, 0) == Some(j as int) && j < ns@.len(),
            None => first_tagged_desc(nodes_view(ns@), p as int, nsu@, name@, 0) is None,
        },
{
    let ghost nv = nodes_view(ns@);
    proof {
        lemma_first_tagged(nv, p as int, nsu@, name@, 0);
    }
    let marks = crate::xml::subtree_marks(ns, p);
    let mut j: usize = 0;
    while j < ns.len()
        invariant
            nv == nodes_view(ns@),
            marks@.len() == nv.len(),
            forall|x: int| 0 <= x < nv.len() ==> marks@[x] == in_subtree(nv, x, p as int),
            0 <= j <= nv.len(),
            first_tagged_desc(nv, p as int, nsu@, name@, 0) == first_tagged_desc(nv, p as int, nsu@, name@, j as int),
        decreases nv.len() - j,
    {
        proof {
            assert(nv[j as int] == ns@[j as int]@);
        }
        if marks[j] && is_tagged(&ns[j], nsu, name) {
            return Some(j);
        }
        j = j + 1;
    }
    None
}

fn text_at(ns: &Vec<XmlNode>, p: Option<usize>, nsu: &str, name: &str) -> (r: Option<String>)
    ensures
        opt_view(r) == text_of(
            nodes_view(ns@),
            match p {
                Some(x) => Some(x as int),
                None => None,
            },
            nsu@,
            name@,
        ),
{
    match p {
        Some(p) => match tagged_child(ns, p, nsu, name) {
            Some(c) => {
                proof {
                    assert(nodes_view(ns@)[c as int] == ns@[c as int]@);
                }
                crate::text::clone_opt(&ns[c].text)
            },
            None => None,
        },
        None => None,
    }
}

fn parse_opt_exec(t: &Option<String>) -> (r: Option<u64>)
    ensures
        r == parse_opt(opt_view(*t)),
{
    match t {
        Some(s) => parse_u64(s.as_str()),
        None => None,
    }
}

fn read_entry(ns: &Vec<XmlNode>, r: usize, dav_root: &str, requested: &str, include_self: bool) -> (e: Option<FileEntry>)
    ensures
        match e {
            Some(x) => entry_of(nodes_view(ns@), r as int, dav_root@, requested@, include_self) == Some(x@),
            None => entry_of(nodes_view(ns@), r as int, dav_root@, requested@, include_self) is None,
        },
{
    let ghost nv = nodes_view(ns@);
    let href = match tagged_child(ns, r, "DAV:", "href") {
        Some(h) => {
            proof {
                assert(nv[h as int] == ns@[h as int]@);
            }
            match &ns[h].text {
                Some(t) => copy_str(t.as_str()),
                None => String::new(),
            }
        },
        None => String::new(),
    };
    let decoded = percent_decode(href.as_str());
    let dv = chars_of(decoded.as_str());
    let rootv = chars_of(dav_root);
    let i = match crate::text::find_exec(&dv, &rootv, 0) {
        Some(i) => i,
        None => return None,
    };
    proof {
        crate::text::lemma_find_from(dv@, rootv@, 0);
        assert(crate::text::occurs_at(dv@, rootv@, i as int));
    }
    let dl = dv.len();
    let rl = rootv.len();
    let tail_start = i + rl;
    let a = crate::text::trim_start_bound(&dv, tail_start, dl, '/');
    proof {
        assert(dv@.subrange(tail_start as int, dl as int) =~= dv@.skip(i + rootv@.len()));
    }
    let mut rel = String::new();
    push_char(&mut rel, '/');
    push_range(&mut rel, &dv, a, dl);
    let relv = chars_of(rel.as_str());
    let ra = crate::text::trim_start_bound(&relv, 0, relv.len(), '/');
    let rb = crate::text::trim_end_bound(&relv, ra, relv.len(), '/');
    proof {
        assert(relv@.subrange(0, relv@.len() as int) =~= relv@);
    }
    let mut key = String::new();
    push_char(&mut key, '/');
    push_range(&mut key, &relv, ra, rb);
    let qv = chars_of(requested);
    let qa = crate::text::trim_start_bound(&qv, 0, qv.len(), '/');
    let qb = crate::text::trim_end_bound(&qv, qa, qv.len(), '/');
    proof {
        assert(qv@.subrange(0, qv@.len() as int) =~= qv@);
    }
    let mut want = String::new();
    push_char(&mut want, '/');
    push_range(&mut want, &qv, qa, qb);
    if !include_self && crate::text::str_eq(key.as_str(), want.as_str()) {
        return None;
    }
    let prop = tagged_desc(ns, r, "DAV:", "prop");
    let is_dir = match prop {
        Some(p) => match tagged_child(ns, p, "DAV:", "resourcetype") {
            Some(rt) => tagged_child(ns, rt, "DAV:", "collection").is_some(),
            None => false,
        },
        None => false,
    };
    let size_text = match text_at(ns, prop, "DAV:", "getcontentlength") {
        Some(t) => Some(t),
        None => if is_dir {
            text_at(ns, prop, "http://owncloud.org/ns", "size")
        } else {
            None
        },
    };
    let size = match parse_opt_exec(&size_text) {
        Some(v) => v,
        None => 0,
    };
    let mtime = match text_at(ns, prop, "DAV:", "getlastmodified") {
        Some(t) => parse_http_date(t.as_str()),
        None => None,
    };
    let content_type = match text_at(ns, prop, "DAV:", "getcontenttype") {
        Some(t) => if t.as_str().is_empty() {
            None
        } else {
            Some(t)
        },
        None => None,
    };
    let etag = match text_at(ns, prop, "DAV:", "getetag") {
        Some(t) => {
            let tv = chars_of(t.as_str());
            let ea = crate::text::trim_start_bound(&tv, 0, tv.len(), '"');
            let eb = crate::text::trim_end_bound(&tv, ea, tv.len(), '"');
            proof {
                assert(tv@.subrange(0, tv@.len() as int) =~= tv@);
            }
            Some(string_of(&tv, ea, eb))
        },
        None => None,
    };
    let file_count = parse_opt_exec(&text_at(ns, prop, "http://nextcloud.org/ns", "contained-file-count"));
    let dir_count = parse_opt_exec(&text_at(ns, prop, "http://nextcloud.org/ns", "contained-folder-count"));
    let checksums = match prop {
        Some(p) => match tagged_desc(ns, p, "http://owncloud.org/ns", "checksum") {
            Some(c) => {
                proof {
                    assert(nv[c as int] == ns@[c as int]@);
                }
                match &ns[c].text {
                    Some(t) => if t.as_str().is_empty() {
                        None
                    } else {
                        Some(copy_str(t.as_str()))
                    },
                    None => None,
                }
            },
            None => None,
        },
        None => None,
    };
    let rb2 = crate::text::trim_end_bound(&relv, 0, relv.len(), '/');
    let trimmed = string_of(&relv, 0, rb2);
    let tv = chars_of(trimmed.as_str());
    let mut n0 = tv.len();
    while n0 > 0 && tv[n0 - 1] != '/'
        invariant
            n0 <= tv@.len(),
            forall|j: int| n0 <= j < tv@.len() ==> tv@[j] != '/',
        decreases n0,
    {
        n0 = n0 - 1;
    }
    let name = string_of(&tv, n0, tv.len());
    proof {
        lemma_split_last(tv@, '/', n0 as int);
        assert(relv@.subrange(0, rb2 as int) == trim_end_c(relv@, '/'));
    }
    let ends_slash = relv.len() > 0 && relv[relv.len() - 1] == '/';
    let path = if is_dir && !ends_slash {
        let mut p2 = rel;
        push_char(&mut p2, '/');
        p2
    } else {
        rel
    };
    Some(FileEntry { name, path, is_dir, size, mtime, content_type, etag, file_count, dir_count, checksums })
}

impl DavEndpoint {
    /// Parse a PROPFIND or SEARCH `multistatus` body into directory entries,
    /// in listing order (directories first, then by lower-cased name). The
    /// requested resource itself is left out unless `include_self` (a
    /// Depth-0 stat). `Err` when the body is not well-formed XML.
    pub fn parse_multistatus(&self, xml: &str, requested: &str, include_self: bool) -> (r: Result<Vec<FileEntry>, String>)
        ensures
            match r {
                Ok(v) => xml_flat(xml@) matches Some(nodes) && entries_view(v@) == stable_sorted(
                    entries_in(nodes, nodes.len() as int, self.dav_root@, requested@, include_self),
                ),
                Err(_) => xml_flat(xml@) is None,
            },
    {
        let ns = match parse_xml(xml) {
            Ok(ns) => ns,
            Err(e) => {
                let m = copy_str("bad PROPFIND xml: ");
                return Err(m.concat(e.as_str()));
            },
        };
        let ghost nv = nodes_view(ns@);
        let mut out: Vec<FileEntry> = Vec::new();
        let mut j: usize = 0;
        while j < ns.len()
            invariant
                nv == nodes_view(ns@),
                0 <= j <= nv.len(),
                entries_view(out@) == entries_in(nv, j as int, self.dav_root@, requested@, include_self),
            decreases nv.len() - j,
        {
            proof {
                assert(nv[j as int] == ns@[j as int]@);
            }
            if is_tagged(&ns[j], "DAV:", "response") {
                match read_entry(&ns, j, self.dav_root.as_str(), requested, include_self) {
                    Some(e) => {
                        let ghost before = out@;
                        let ghost ev = e@;
                        out.push(e);
                        proof {
                            assert(entries_view(out@) =~= entries_view(before).push(ev));
                        }
                    },
                    None => {},
                }
            }
            j = j + 1;
        }
        Ok(sort_entries(out))
    }

    /// The SEARCH scope href of a DAV directory: the files root relative to
    /// `/remote.php/dav`, plus the encoded directory and a `/`.
    pub fn search_scope(&self, scope: &str) -> (r: String)
        ensures
            ({
                let rel = match crate::text::is_prefix("/remote.php/dav"@, self.dav_root@) {
                    true => self.dav_root@.skip(15),
                    false => self.dav_root@,
                };
                let sub = trim_c(scope@, '/');
                r@ == if sub.len() == 0 {
                    rel
                } else {
                    rel + encode_path_spec(sub) + seq!['/']
                }
            }),
    {
        let rv = chars_of(self.dav_root.as_str());
        let pre = chars_of("/remote.php/dav");
        proof {
            reveal_strlit("/remote.php/dav");
        }
        let has = rv.len() >= pre.len() && crate::text::range_eq(&rv, 0, pre.len(), &pre);
        let rel = if has {
            proof {
                assert(rv@.subrange(15, rv@.len() as int) =~= rv@.skip(15));
            }
            string_of(&rv, 15, rv.len())
        } else {
            copy_str(self.dav_root.as_str())
        };
        let sv = chars_of(scope);
        let a = crate::text::trim_start_bound(&sv, 0, sv.len(), '/');
        let b = crate::text::trim_end_bound(&sv, a, sv.len(), '/');
        proof {
            assert(sv@.subrange(0, sv@.len() as int) =~= sv@);
        }
        let sub = string_of(&sv, a, b);
        if sub.as_str().is_empty() {
            rel
        } else {
            let enc = encode_path(sub.as_str());
            let mut r = rel;
            r.append(enc.as_str());
            push_char(&mut r, '/');
            r
        }
    }

    /// The chunked-upload session of a destination path: `uploads/<user>/`
    /// and `cirrust-` plus a short hash of the path, so a retry reuses the
    /// same session and different files never collide.
    pub fn chunk_session(&self, path: &str) -> (r: String)
        ensures
            r@ == "uploads/"@ + self.username@ + "/cirrust-"@ + crate::config::short_hash_spec(path@),
    {
        let h = crate::config::short_hash(path);
        let mut r = copy_str("uploads/");
        r.append(self.username.as_str());
        r.append("/cirrust-");
        r.append(h.as_str());
        r
    }
}

/// The DAV path of one chunk: the session and the chunk's start offset,
/// zero-padded to 16 digits so numeric and lexical orders agree.
pub fn chunk_path(session: &str, offset: u64) -> (r: String)
    ensures
        r@ == session@ + seq!['/'] + zero_pad(digits(offset as nat), 16),
{
    let mut r = copy_str(session);
    push_char(&mut r, '/');
    let d = u64_digits(offset);
    let dv = chars_of(d.as_str());
    let mut k = dv.len();
    let ghost before = r@;
    while k < 16
        invariant
            dv@ == digits(offset as nat),
            dv@.len() <= k <= 16 || (k == dv@.len() && k >= 16),
            r@ == before + Seq::new((k - dv@.len()) as nat, |i: int| '0'),
        decreases 16 - k,
    {
        push_char(&mut r, '0');
        proof {
            assert(Seq::new((k + 1 - dv@.len()) as nat, |i: int| '0') =~= Seq::new((k - dv@.len()) as nat, |i: int| '0').push('0'));
        }
        k = k + 1;
    }
    r.append(d.as_str());
    proof {
        if dv@.len() >= 16 {
            assert(Seq::new((k - dv@.len()) as nat, |i: int| '0') =~= Seq::<char>::empty());
        }
        assert(r@ =~= session@ + seq!['/'] + zero_pad(digits(offset as nat), 16));
    }
    r
}

/// Files at least this large go straight to a chunked upload.
pub const CHUNK_UPLOAD_THRESHOLD: u64 = 104857600;

/// Chunk size of chunked uploads (10 MiB).
pub const UPLOAD_CHUNK_SIZE: usize = 10485760;

/// Whether an upload of `size` bytes skips the single PUT.
pub fn upload_chunked_first(size: u64) -> (b: bool)
    ensures
        b == (size >= CHUNK_UPLOAD_THRESHOLD),
{
    size >= CHUNK_UPLOAD_THRESHOLD
}

/// A download may be published only when its size matches what the server
/// reported (an unknown size of 0 accepts anything).
pub fn download_complete(expected: u64, got: u64) -> (b: bool)
    ensures
        b == (expected == 0 || got == expected),
{
    !(expected > 0 && got != expected)
}

/// How a failed request failed, as far as retrying is concerned.
#[derive(Clone, Copy, PartialEq, Eq, Debug, Structural)]
pub enum Failure {
    /// A network error.
    Http,
    /// A local filesystem error.
    Io,
    /// The server answered with this status.
    Server(u16),
    /// Anything else.
    Other,
}

/// Transient errors (network blips, 5xx) are worth retrying; a 4xx is not.
pub fn is_transient(f: Failure) -> (b: bool)
    ensures
        b == match f {
            Failure::Http | Failure::Io => true,
            Failure::Server(status) => status >= 500,
            Failure::Other => false,
        },
{
    match f {
        Failure::Http | Failure::Io => true,
        Failure::Server(status) => status >= 500,
        Failure::Other => false,
    }
}

/// Attempts per transfer before giving up.
pub const TRANSFER_ATTEMPTS: u32 = 3;

/// After failed attempt `attempt` (counting from 1): the seconds to wait
/// before the next attempt, or `None` to give up (a permanent failure, or
/// the last attempt).
pub fn retry_delay(attempt: u32, transient: bool) -> (r: Option<u64>)
    requires
        attempt >= 1,
    ensures
        r == if !transient || attempt >= TRANSFER_ATTEMPTS {
            None::<u64>
        } else {
            Some((2 * attempt) as u64)
        },
{
    if !transient || attempt >= TRANSFER_ATTEMPTS {
        None
    } else {
        Some(2 * attempt as u64)
    }
}

/// Escape the XML metacharacters of user text placed in a request body.
pub open spec fn xml_escape_spec(s: Seq<char>) -> Seq<char>
    decreases s.len(),
{
    if s.len() == 0 {
        Seq::empty()
    } else {
        let c = s.last();
        xml_escape_spec(s.drop_last()) + if c == '&' {
            "&amp;"@
        } else if c == '<' {
            "&lt;"@
        } else if c == '>' {
            "&gt;"@
        } else if c == '"' {
            "&quot;"@
        } else if c == '\'' {
            "&apos;"@
        } else {
            seq![c]
        }
    }
}

/// Escape `& < > " '` so user text is safe inside an XML request body.
pub fn xml_escape(s: &str) -> (r: String)
    ensures
        r@ == xml_escape_spec(s@),
{
    let v = chars_of(s);
    let mut out = String::new();
    let mut i: usize = 0;
    while i < v.len()
        invariant
            0 <= i <= v@.len(),
            v@ == s@,
            out@ == xml_escape_spec(v@.take(i as int)),
        decreases v@.len() - i,
    {
        let c = v[i];
        proof {
            assert(v@.take(i + 1).drop_last() =~= v@.take(i as int));
            assert(v@.take(i + 1).last() == c);
        }
        if c == '&' {
            out.append("&amp;");
        } else if c == '<' {
            out.append("&lt;");
        } else if c == '>' {
            out.append("&gt;");
        } else if c == '"' {
            out.append("&quot;");
        } else if c == '\'' {
            out.append("&apos;");
        } else {
            push_char(&mut out, c);
        }
        i = i + 1;
    }
    proof {
        assert(v@.take(v@.len() as int) =~= v@);
    }
    out
}

// ---------------------------------------------------------------------------
// Search and resumed downloads
// ---------------------------------------------------------------------------

/// The body of a SEARCH for names containing `query` (XML-escaped) under
/// `scope_href`, with at most `limit` results.
pub open spec fn search_body_spec(scope_href: Seq<char>, query: Seq<char>, limit: u32) -> Seq<char> {
    "<?xml version=\"1.0\" encoding=\"UTF-8\"?>\n<d:searchrequest xmlns:d=\"DAV:\" xmlns:oc=\"http://owncloud.org/ns\" xmlns:nc=\"http://nextcloud.org/ns\">\n  <d:basicsearch>\n    <d:select><d:prop>\n      <d:resourcetype/><d:getcontentlength/><d:getcontenttype/>\n      <d:getlastmodified/><d:getetag/><oc:size/>\n    </d:prop></d:select>\n    <d:from><d:scope><d:href>"@ + scope_href + "</d:href><d:depth>infinity</d:depth></d:scope></d:from>\n    <d:where><d:like><d:prop><d:displayname/></d:prop><d:literal>%"@ + xml_escape_spec(query) + "%</d:literal></d:like></d:where>\n    <d:limit><d:nresults>"@ + digits(limit as nat)
        + "</d:nresults></d:limit>\n  </d:basicsearch>\n</d:searchrequest>"@
}

pub fn search_body(scope_href: &str, query: &str, limit: u32) -> (r: String)
    ensures
        r@ == search_body_spec(scope_href@, query@, limit),
{
    let mut r = copy_str(
        "<?xml version=\"1.0\" encoding=\"UTF-8\"?>\n<d:searchrequest xmlns:d=\"DAV:\" xmlns:oc=\"http://owncloud.org/ns\" xmlns:nc=\"http://nextcloud.org/ns\">\n  <d:basicsearch>\n    <d:select><d:prop>\n      <d:resourcetype/><d:getcontentlength/><d:getcontenttype/>\n      <d:getlastmodified/><d:getetag/><oc:size/>\n    </d:prop></d:select>\n    <d:from><d:scope><d:href>",
    );
    r.append(scope_href);
    r.append(
        "</d:href><d:depth>infinity</d:depth></d:scope></d:from>\n    <d:where><d:like><d:prop><d:displayname/></d:prop><d:literal>%",
    );
    let q = xml_escape(query);
    r.append(q.as_str());
    r.append("%</d:literal></d:like></d:where>\n    <d:limit><d:nresults>");
    let l = u64_digits(limit as u64);
    r.append(l.as_str());
    r.append("</d:nresults></d:limit>\n  </d:basicsearch>\n</d:searchrequest>");
    r
}

/// The `Range` header that resumes a download of which `existing` bytes are
/// already on disk; none when nothing is.
pub fn resume_range(existing: u64) -> (r: Option<String>)
    ensures
        opt_view(r) == if existing > 0 {
            Some("bytes="@ + digits(existing as nat) + seq!['-'])
        } else {
            None
        },
{
    if existing > 0 {
        let mut h = copy_str("bytes=");
        let d = u64_digits(existing);
        h.append(d.as_str());
        push_char(&mut h, '-');
        Some(h)
    } else {
        None
    }
}

/// How a download continues once the server answered: it resumes only when
/// bytes were on disk and the answer is `206` (a `200` is the whole file, so
/// the partial file starts over). Gives `(resuming, expected total, bytes
/// counted so far)`.
pub fn resume_outcome(existing: u64, status: u16, content_length: Option<u64>) -> (r: (bool, Option<u64>, u64))
    requires
        content_length matches Some(c) ==> c + existing <= u64::MAX,
    ensures
        r.0 == (existing > 0 && status == 206),
        r.1 == match content_length {
            Some(c) => Some(
                if r.0 {
                    (c + existing) as u64
                } else {
                    c
                },
            ),
            None => None,
        },
        r.2 == if r.0 {
            existing
        } else {
            0
        },
{
    let resuming = existing > 0 && status == 206;
    let total = match content_length {
        Some(c) => Some(
            if resuming {
                c + existing
            } else {
                c
            },
        ),
        None => None,
    };
    (resuming, total, if resuming { existing } else { 0 })
}

/// Download progress is reported at most once per this many bytes.
pub const PROGRESS_STEP: u64 = 131072;

/// Whether a download that has `transferred` bytes, last reported at
/// `last_report`, reports again.
pub fn progress_due(transferred: u64, last_report: u64) -> (b: bool)
    requires
        last_report <= transferred,
    ensures
        b == (transferred - last_report >= PROGRESS_STEP),
{
    transferred - last_report >= PROGRESS_STEP
}

} // verus!
