//! Three-way bidirectional reconciliation for a single folder pair.
//!
//! For every path three states are compared — remote (WebDAV), local (disk)
//! and the journal (last-synced base) — to classify the change:
//!
//! | remote  | local   | journal            | action                    |
//! |---------|---------|--------------------|---------------------------|
//! | new/chg | gone    | unchanged remote   | download / delete-remote  |
//! | gone    | new/chg | unchanged local    | delete-local / upload     |
//! | changed | changed | —                  | conflict → keep both      |
//!
//! This module holds the decisions; the application performs the transfers.

use vstd::prelude::*;
use crate::journal::{EntryV, JournalEntry};
use crate::text::{
    chars_of, copy_str, find_exec, find_from, occurs_at, opt_str_eq, opt_view, push_range, string_of,
    trim_bounds, trim_ws,
};

use crate::clock::{clock_fields_ok, conflict_stamp, ClockFields};

verus! {

/// The action chosen for a path after comparing remote / local / journal.
#[derive(Clone, Copy, PartialEq, Eq, Debug, Structural)]
pub enum Decision {
    /// Nothing to do for this path.
    NoAction,
    Download,
    Upload,
    Conflict,
    MkdirLocal,
    MkdirRemote,
    DeleteLocal,
    DeleteRemote,
}

/// What a remote listing says about one path.
pub struct RemoteMeta {
    pub is_dir: bool,
    pub size: u64,
    pub etag: Option<String>,
    pub checksums: Option<String>,
}

pub struct RemoteV {
    pub is_dir: bool,
    pub size: u64,
    pub etag: Option<Seq<char>>,
    pub checksums: Option<Seq<char>>,
}

impl View for RemoteMeta {
    type V = RemoteV;

    open spec fn view(&self) -> RemoteV {
        RemoteV {
            is_dir: self.is_dir,
            size: self.size,
            etag: opt_view(self.etag),
            checksums: opt_view(self.checksums),
        }
    }
}

/// What the local walk says about one path.
#[derive(Clone, Copy)]
pub struct LocalMeta {
    pub is_dir: bool,
    pub size: u64,
    pub mtime: i64,
}

pub open spec fn opt_remote(r: Option<&RemoteMeta>) -> Option<RemoteV> {
    match r {
        Some(x) => Some(x@),
        None => None,
    }
}

pub open spec fn opt_entry(j: Option<&JournalEntry>) -> Option<EntryV> {
    match j {
        Some(x) => Some(x@),
        None => None,
    }
}

pub open spec fn opt_local(l: Option<&LocalMeta>) -> Option<LocalMeta> {
    match l {
        Some(x) => Some(*x),
        None => None,
    }
}

/// The reconciliation matrix.
pub open spec fn classify_spec(r: Option<RemoteV>, l: Option<LocalMeta>, j: Option<EntryV>) -> Decision {
    match (r, l) {
        (Some(r), Some(l)) => {
            if r.is_dir && l.is_dir {
                Decision::NoAction
            } else if r.is_dir != l.is_dir {
                Decision::NoAction
            } else {
                let remote_changed = match j {
                    Some(j) => j.etag != r.etag,
                    None => true,
                };
                let local_changed = match j {
                    Some(j) => j.size != l.size || j.local_mtime != l.mtime,
                    None => true,
                };
                if remote_changed && local_changed {
                    Decision::Conflict
                } else if remote_changed {
                    Decision::Download
                } else if local_changed {
                    Decision::Upload
                } else {
                    Decision::NoAction
                }
            }
        },
        (Some(r), None) => {
            if r.is_dir {
                if j matches Some(j) && j.is_dir {
                    Decision::DeleteRemote
                } else {
                    Decision::MkdirLocal
                }
            } else if j matches Some(j) && j.etag == r.etag && !j.is_dir {
                Decision::DeleteRemote
            } else {
                Decision::Download
            }
        },
        (None, Some(l)) => {
            if l.is_dir {
                if j matches Some(j) && j.is_dir {
                    Decision::DeleteLocal
                } else {
                    Decision::MkdirRemote
                }
            } else if j matches Some(j) && j.size == l.size && j.local_mtime == l.mtime && !j.is_dir {
                Decision::DeleteLocal
            } else {
                Decision::Upload
            }
        },
        (None, None) => Decision::NoAction,
    }
}

/// Where a file that both sides and the journal hold travels. A change on
/// the server is a new ETag; a change on disk is a new size or a new
/// modification time (an edit that keeps the size still counts). A change on
/// one side only is copied to the other, a change on both is a conflict, and
/// no change leaves the file alone.
pub proof fn law_file_changes_travel(r: RemoteV, l: LocalMeta, j: EntryV)
    requires
        !r.is_dir,
        !l.is_dir,
    ensures
        ({
            let remote_edit = j.etag != r.etag;
            let local_edit = j.size != l.size || j.local_mtime != l.mtime;
            let d = classify_spec(Some(r), Some(l), Some(j));
            &&& (!remote_edit && local_edit) ==> d == Decision::Upload
            &&& (remote_edit && !local_edit) ==> d == Decision::Download
            &&& (remote_edit && local_edit) ==> d == Decision::Conflict
            &&& (!remote_edit && !local_edit) ==> d == Decision::NoAction
        }),
{
}

/// Classify one path from its remote, local and journal state.
pub fn classify(r: Option<&RemoteMeta>, l: Option<&LocalMeta>, j: Option<&JournalEntry>) -> (d: Decision)
    ensures
        d == classify_spec(opt_remote(r), opt_local(l), opt_entry(j)),
{
    match (r, l) {
        (Some(r), Some(l)) => {
            if r.is_dir && l.is_dir {
                return Decision::NoAction;
            }
            if r.is_dir != l.is_dir {
                return Decision::NoAction;
            }
            let remote_changed = match j {
                Some(j) => !opt_str_eq(&j.etag, &r.etag),
                None => true,
            };
            let local_changed = match j {
                Some(j) => j.size != l.size || j.local_mtime != l.mtime,
                None => true,
            };
            if remote_changed && local_changed {
                Decision::Conflict
            } else if remote_changed {
                Decision::Download
            } else if local_changed {
                Decision::Upload
            } else {
                Decision::NoAction
            }
        },
        (Some(r), None) => {
            if r.is_dir {
                let known_dir = match j {
                    Some(j) => j.is_dir,
                    None => false,
                };
                if known_dir {
                    Decision::DeleteRemote
                } else {
                    Decision::MkdirLocal
                }
            } else {
                let unchanged = match j {
                    Some(j) => opt_str_eq(&j.etag, &r.etag) && !j.is_dir,
                    None => false,
                };
                if unchanged {
                    Decision::DeleteRemote
                } else {
                    Decision::Download
                }
            }
        },
        (None, Some(l)) => {
            if l.is_dir {
                let known_dir = match j {
                    Some(j) => j.is_dir,
                    None => false,
                };
                if known_dir {
                    Decision::DeleteLocal
                } else {
                    Decision::MkdirRemote
                }
            } else {
                let unchanged = match j {
                    Some(j) => j.size == l.size && j.local_mtime == l.mtime && !j.is_dir,
                    None => false,
                };
                if unchanged {
                    Decision::DeleteLocal
                } else {
                    Decision::Upload
                }
            }
        },
        (None, None) => Decision::NoAction,
    }
}

/// The mass-deletion guard only engages from this many planned deletions on
/// (and at least half of that side's entries).
pub const DELETION_GUARD_MIN: usize = 10;

pub open spec fn suspicious_spec(planned: int, side_total: int) -> bool {
    planned >= DELETION_GUARD_MIN && planned * 2 >= side_total
}

/// Should a planned deletion sweep be refused as probable state loss?
/// True when it would remove at least [`DELETION_GUARD_MIN`] entries AND at
/// least half of that side.
pub fn deletion_sweep_suspicious(planned: usize, side_total: usize) -> (r: bool)
    ensures
        r == suspicious_spec(planned as int, side_total as int),
{
    planned >= DELETION_GUARD_MIN && (planned >= side_total || side_total - planned <= planned)
}

/// Glob semantics with `*` (any run of bytes) and `?` (one byte).
pub open spec fn glob(p: Seq<u8>, s: Seq<u8>) -> bool
    decreases p.len() + s.len(),
{
    if p.len() == 0 {
        s.len() == 0
    } else if p[0] == 42u8 {
        glob(p.drop_first(), s) || (s.len() > 0 && glob(p, s.drop_first()))
    } else {
        s.len() > 0 && (p[0] == 63u8 || p[0] == s[0]) && glob(p.drop_first(), s.drop_first())
    }
}

proof fn lemma_glob_suffix(p: Seq<u8>, s: Seq<u8>, i: int, j: int)
    requires
        0 <= i < p.len(),
        0 <= j <= s.len(),
    ensures
        glob(p.skip(i), s.skip(j)) == if p[i] == 42u8 {
            glob(p.skip(i + 1), s.skip(j)) || (j < s.len() && glob(p.skip(i), s.skip(j + 1)))
        } else {
            j < s.len() && (p[i] == 63u8 || p[i] == s[j]) && glob(p.skip(i + 1), s.skip(j + 1))
        },
{
    assert(p.skip(i).drop_first() =~= p.skip(i + 1));
    if j < s.len() {
        assert(s.skip(j).drop_first() =~= s.skip(j + 1));
    }
}

/// Classic glob matcher supporting `*` and `?` over bytes.
pub fn wildcard_match(pat: &[u8], s: &[u8]) -> (r: bool)
    ensures
        r == glob(pat@, s@),
{
    let n = s.len();
    let m = pat.len();
    // `next[j]` / `next_end` hold glob(pat[i+1..], s[j..]) for j < n / j == n.
    let mut next: Vec<bool> = Vec::new();
    let mut k: usize = 0;
    while k < n
        invariant
            n == s@.len(),
            m == pat@.len(),
            0 <= k <= n,
            next@.len() == k,
            forall|x: int| 0 <= x < k ==> next@[x] == glob(pat@.skip(m as int), s@.skip(x)),
        decreases n - k,
    {
        proof {
            assert(pat@.skip(m as int).len() == 0);
        }
        next.push(false);
        k = k + 1;
    }
    let mut next_end = true;
    proof {
        assert(pat@.skip(m as int).len() == 0);
        assert(s@.skip(n as int).len() == 0);
    }
    let mut i = m;
    while i > 0
        invariant
            n == s@.len(),
            m == pat@.len(),
            0 <= i <= m,
            next@.len() == n,
            forall|x: int| 0 <= x < n ==> next@[x] == glob(pat@.skip(i as int), s@.skip(x)),
            next_end == glob(pat@.skip(i as int), s@.skip(n as int)),
        decreases i,
    {
        let pi = i - 1;
        let c = pat[pi];
        let mut cur = next.clone();
        let cur_end;
        proof {
            lemma_glob_suffix(pat@, s@, pi as int, n as int);
        }
        if c == 42u8 {
            cur_end = next_end;
        } else {
            cur_end = false;
        }
        let mut j = n;
        while j > 0
            invariant
                n == s@.len(),
                m == pat@.len(),
                pi < m,
                c == pat@[pi as int],
                0 <= j <= n,
                cur@.len() == n,
                next@.len() == n,
                forall|x: int| 0 <= x < n ==> next@[x] == glob(pat@.skip(pi + 1), s@.skip(x)),
                next_end == glob(pat@.skip(pi + 1), s@.skip(n as int)),
                cur_end == glob(pat@.skip(pi as int), s@.skip(n as int)),
                forall|x: int| j <= x < n ==> cur@[x] == glob(pat@.skip(pi as int), s@.skip(x)),
            decreases j,
        {
            let jj = j - 1;
            proof {
                lemma_glob_suffix(pat@, s@, pi as int, jj as int);
            }
            let later = if jj + 1 < n { cur[jj + 1] } else { cur_end };
            let nxt_later = if jj + 1 < n { next[jj + 1] } else { next_end };
            let v = if c == 42u8 {
                next[jj] || later
            } else {
                (c == 63u8 || c == s[jj]) && nxt_later
            };
            cur.set(jj, v);
            j = jj;
        }
        next = cur;
        next_end = cur_end;
        i = pi;
    }
    proof {
        assert(pat@.skip(0) =~= pat@);
        assert(s@.skip(0) =~= s@);
    }
    if n == 0 {
        next_end
    } else {
        next[0]
    }
}

/// `b[lo..hi]` is one `/`-separated segment of `b`.
pub open spec fn is_segment(b: Seq<u8>, lo: int, hi: int) -> bool {
    &&& 0 <= lo <= hi <= b.len()
    &&& (lo == 0 || b[lo - 1] == 47u8)
    &&& (hi == b.len() || b[hi] == 47u8)
    &&& forall|k: int| lo <= k < hi ==> b[k] != 47u8
}

/// Some `/`-separated segment of `b` matches the glob `p`.
pub open spec fn some_segment_matches(p: Seq<u8>, b: Seq<u8>) -> bool {
    exists|lo: int, hi: int| is_segment(b, lo, hi) && glob(p, b.subrange(lo, hi))
}

/// Whether one ignore pattern ignores `rel` (a path relative to the folder
/// root). Patterns are trimmed; empty ones ignore nothing. Patterns without
/// `/` match any path segment (so `node_modules` also ignores its children);
/// patterns with `/` match the whole relative path.
pub open spec fn pattern_ignores(pat: Seq<char>, rel: Seq<char>) -> bool {
    let t = trim_ws(pat);
    t.len() > 0 && if t.contains('/') {
        glob(vstd::utf8::encode_utf8(t), vstd::utf8::encode_utf8(rel))
    } else {
        some_segment_matches(vstd::utf8::encode_utf8(t), vstd::utf8::encode_utf8(rel))
    }
}

/// A pattern holding `/` is matched against the whole relative path: it
/// ignores the path exactly when, once trimmed, it globs the path's full
/// text (`*` any run of bytes, `?` one byte, anything else itself); a
/// pattern without `/` ignores a path exactly when it globs one of the
/// path's `/`-separated segments.
pub proof fn law_pattern_scope(pat: Seq<char>, rel: Seq<char>)
    ensures
        trim_ws(pat).contains('/') ==> (pattern_ignores(pat, rel) <==> glob(
            vstd::utf8::encode_utf8(trim_ws(pat)),
            vstd::utf8::encode_utf8(rel),
        )),
        trim_ws(pat).len() > 0 && !trim_ws(pat).contains('/') ==> (pattern_ignores(pat, rel) <==> exists|
            lo: int,
            hi: int,
        |
            is_segment(vstd::utf8::encode_utf8(rel), lo, hi) && glob(
                vstd::utf8::encode_utf8(trim_ws(pat)),
                vstd::utf8::encode_utf8(rel).subrange(lo, hi),
            )),
{
    if trim_ws(pat).contains('/') {
        assert(trim_ws(pat).len() > 0);
    }
}

pub open spec fn is_ignored_spec(rel: Seq<char>, patterns: Seq<String>) -> bool {
    exists|i: int| 0 <= i < patterns.len() && pattern_ignores(patterns[i]@, rel)
}

fn segment_matches(p: &[u8], b: &[u8]) -> (r: bool)
    ensures
        r == some_segment_matches(p@, b@),
{
    let n = b.len();
    let mut start: usize = 0;
    let mut i: usize = 0;
    while i < n
        invariant
            n == b@.len(),
            start <= i <= n,
            start == 0 || b@[start - 1] == 47u8,
            forall|k: int| start <= k < i ==> b@[k] != 47u8,
            forall|lo: int, hi: int| is_segment(b@, lo, hi) && hi < start ==> !glob(p@, b@.subrange(lo, hi)),
        decreases n - i,
    {
        if b[i] == 47u8 {
            let seg = vstd::slice::slice_subrange(b, start, i);
            if wildcard_match(p, seg) {
                proof {
                    assert(is_segment(b@, start as int, i as int));
                }
                return true;
            }
            proof {
                assert forall|lo: int, hi: int| is_segment(b@, lo, hi) && hi < i + 1 implies
                    !glob(p@, b@.subrange(lo, hi)) by {
                    if hi >= start {
                        if hi < i {
                            assert(b@[hi] != 47u8);
                        }
                        assert(hi == i);
                        if lo < start {
                            assert(b@[start - 1] == 47u8);
                        }
                        if lo > start {
                            assert(b@[lo - 1] != 47u8);
                        }
                        assert(lo == start);
                    }
                }
            }
            start = i + 1;
        }
        i = i + 1;
    }
    let seg = vstd::slice::slice_subrange(b, start, n);
    let r = wildcard_match(p, seg);
    proof {
        if r {
            assert(is_segment(b@, start as int, n as int));
        } else {
            assert forall|lo: int, hi: int| is_segment(b@, lo, hi) implies !glob(p@, b@.subrange(lo, hi)) by {
                if hi >= start {
                    if hi < n {
                        assert(b@[hi] != 47u8);
                    }
                    if lo < start {
                        assert(b@[start - 1] == 47u8);
                    }
                    if lo > start {
                        assert(b@[lo - 1] != 47u8);
                    }
                }
            }
        }
    }
    r
}

/// Whether a single (untrimmed) pattern ignores `rel`.
pub fn pattern_ignores_exec(pat: &str, rel: &str) -> (r: bool)
    ensures
        r == pattern_ignores(pat@, rel@),
{
    let pv = chars_of(pat);
    let (a, b) = trim_bounds(&pv, 0, pv.len());
    proof {
        assert(pv@.subrange(0, pv@.len() as int) =~= pat@);
    }
    if a == b {
        return false;
    }
    let t = string_of(&pv, a, b);
    let mut has_slash = false;
    let mut k = a;
    while k < b
        invariant
            a <= k <= b <= pv@.len(),
            has_slash == exists|x: int| a <= x < k && pv@[x] == '/',
        decreases b - k,
    {
        if pv[k] == '/' {
            has_slash = true;
        }
        k = k + 1;
    }
    proof {
        let ts = pv@.subrange(a as int, b as int);
        if has_slash {
            let x = choose|x: int| a <= x < b && pv@[x] == '/';
            assert(ts[x - a] == '/');
        }
        if ts.contains('/') {
            let y = choose|y: int| 0 <= y < ts.len() && ts[y] == '/';
            assert(pv@[a + y] == '/');
        }
    }
    let tb = t.as_str().as_bytes();
    let rb = rel.as_bytes();
    if has_slash {
        wildcard_match(tb, rb)
    } else {
        segment_matches(tb, rb)
    }
}

/// Does `rel` (a path relative to the folder root) match any ignore pattern?
pub fn is_ignored(rel: &str, patterns: &[String]) -> (r: bool)
    ensures
        r == is_ignored_spec(rel@, patterns@),
{
    let mut i: usize = 0;
    while i < patterns.len()
        invariant
            0 <= i <= patterns@.len(),
            forall|k: int| 0 <= k < i ==> !pattern_ignores(patterns@[k]@, rel@),
        decreases patterns@.len() - i,
    {
        if pattern_ignores_exec(patterns[i].as_str(), rel) {
            return true;
        }
        i = i + 1;
    }
    false
}

/// Marker inserted into a conflicted copy's file name.
pub open spec fn conflict_mark() -> Seq<char> {
    seq![' ', '(', 'c', 'o', 'n', 'f', 'l', 'i', 'c', 't', 'e', 'd', ' ', 'c', 'o', 'p', 'y']
}

fn conflict_mark_vec() -> (v: Vec<char>)
    ensures
        v@ == conflict_mark(),
{
    let v = vec![' ', '(', 'c', 'o', 'n', 'f', 'l', 'i', 'c', 't', 'e', 'd', ' ', 'c', 'o', 'p', 'y'];
    proof {
        assert(v@ =~= conflict_mark());
    }
    v
}

/// Whether a relative path names a conflicted copy.
pub fn is_conflicted(rel: &str) -> (r: bool)
    ensures
        r == (find_from(rel@, conflict_mark(), 0) is Some),
{
    let v = chars_of(rel);
    let m = conflict_mark_vec();
    find_exec(&v, &m, 0).is_some()
}

/// The original file name of a conflicted copy: the text before the marker
/// followed by the text after the first `)` that follows it.
pub open spec fn conflict_original_spec(name: Seq<char>) -> Option<Seq<char>> {
    match find_from(name, conflict_mark(), 0) {
        None => None,
        Some(start) => match find_from(name, seq![')'], start) {
            None => None,
            Some(close) => Some(name.take(start) + name.skip(close + 1)),
        },
    }
}

/// If `name` is a conflicted-copy filename, return the original name.
pub fn conflict_original(name: &str) -> (r: Option<String>)
    ensures
        opt_view(r) == conflict_original_spec(name@),
{
    let v = chars_of(name);
    let m = conflict_mark_vec();
    let start = match find_exec(&v, &m, 0) {
        Some(s) => s,
        None => return None,
    };
    let close_pat = vec![')'];
    proof {
        assert(close_pat@ =~= seq![')']);
    }
    let close = match find_exec(&v, &close_pat, start) {
        Some(c) => c,
        None => return None,
    };
    proof {
        crate::text::lemma_find_from(v@, close_pat@, start as int);
    }
    let mut out = string_of(&v, 0, start);
    push_range(&mut out, &v, close + 1, v.len());
    proof {
        assert(v@.take(start as int) =~= v@.subrange(0, start as int));
        assert(v@.skip(close + 1) =~= v@.subrange(close + 1, v@.len() as int));
    }
    Some(out)
}

/// File name of a conflicted copy: `stem (conflicted copy DATE)ext`.
pub open spec fn conflicted_name_spec(stem: Seq<char>, date: Seq<char>, ext: Seq<char>) -> Seq<char> {
    stem + conflict_mark() + seq![' '] + date + seq![')'] + ext
}

/// Build the conflicted-copy file name for a file with the given stem and
/// extension (`ext` includes its leading `.`, or is empty), stamped `date`.
pub fn conflicted_file_name(stem: &str, date: &str, ext: &str) -> (r: String)
    ensures
        r@ == conflicted_name_spec(stem@, date@, ext@),
{
    let mut r = copy_str(stem);
    r.append(" (conflicted copy ");
    r.append(date);
    r.append(")");
    r.append(ext);
    proof {
        reveal_strlit(" (conflicted copy ");
        reveal_strlit(")");
        assert(r@ =~= conflicted_name_spec(stem@, date@, ext@));
    }
    r
}

/// `Path::file_stem` and `Path::extension` of a file name: split at the last
/// `.` unless that dot starts the name.
pub open spec fn split_file_name(name: Seq<char>) -> (Seq<char>, Option<Seq<char>>) {
    match crate::vcard::last_index(name, '.') {
        Some(i) => if i == 0 {
            (name, None)
        } else {
            (name.take(i), Some(name.skip(i + 1)))
        },
        None => (name, None),
    }
}

/// The directory part of a path, up to and including its last `/`.
pub open spec fn dir_part(path: Seq<char>) -> Seq<char> {
    match crate::vcard::last_index(path, '/') {
        Some(i) => path.take(i + 1),
        None => Seq::empty(),
    }
}

/// The last component of a path.
pub open spec fn name_part(path: Seq<char>) -> Seq<char> {
    crate::caldav::last_segment(path)
}

/// A path names a file: its last component is not empty, `.` or `..`.
pub open spec fn names_file(path: Seq<char>) -> bool {
    let n = name_part(path);
    n.len() > 0 && n != seq!['.'] && n != seq!['.', '.']
}

/// The conflicted copy of the file at `path`, stamped `date`, in the same
/// directory.
pub open spec fn conflicted_path_spec(path: Seq<char>, date: Seq<char>) -> Seq<char> {
    let parts = split_file_name(name_part(path));
    dir_part(path) + conflicted_name_spec(
        parts.0,
        date,
        match parts.1 {
            Some(e) => seq!['.'] + e,
            None => Seq::empty(),
        },
    )
}

/// Index of the last `c` in `v`, if any.
fn last_index_exec(v: &Vec<char>, c: char) -> (r: Option<usize>)
    ensures
        match r {
            Some(i) => crate::vcard::last_index(v@, c) == Some(i as int) && i < v@.len(),
            None => crate::vcard::last_index(v@, c) is None,
        },
{
    let mut i = v.len();
    proof {
        assert(v@.take(i as int) =~= v@);
    }
    while i > 0 && v[i - 1] != c
        invariant
            i <= v@.len(),
            crate::vcard::last_index(v@, c) == crate::vcard::last_index(v@.take(i as int), c),
        decreases i,
    {
        proof {
            assert(v@.take(i as int).drop_last() =~= v@.take(i - 1));
        }
        i = i - 1;
    }
    if i > 0 {
        proof {
            assert(v@.take(i as int).last() == c);
        }
        Some(i - 1)
    } else {
        proof {
            assert(v@.take(0) =~= Seq::<char>::empty());
        }
        None
    }
}

/// The path of the conflicted copy of the file at `path`, stamped `date`:
/// `<dir>/<stem> (conflicted copy <date>)<.ext>`.
pub fn conflicted_name_at(path: &str, date: &str) -> (r: String)
    requires
        names_file(path@),
    ensures
        r@ == conflicted_path_spec(path@, date@),
{
    let v = chars_of(path);
    let (dir, name) = match last_index_exec(&v, '/') {
        Some(i) => {
            let d = string_of(&v, 0, i + 1);
            let n = string_of(&v, i + 1, v.len());
            proof {
                assert(v@.take(i + 1) =~= v@.subrange(0, i + 1));
                assert(v@.skip(i + 1) =~= v@.subrange(i + 1, v@.len() as int));
            }
            (d, n)
        },
        None => (String::new(), copy_str(path)),
    };
    proof {
        assert(dir@ == dir_part(path@));
        assert(name@ == name_part(path@));
    }
    let nv = chars_of(name.as_str());
    let (stem, ext) = match last_index_exec(&nv, '.') {
        Some(i) => if i == 0 {
            (copy_str(name.as_str()), String::new())
        } else {
            let s = string_of(&nv, 0, i);
            let mut e = String::new();
            crate::text::push_char(&mut e, '.');
            let rest = string_of(&nv, i + 1, nv.len());
            e.append(rest.as_str());
            proof {
                assert(nv@.take(i as int) =~= nv@.subrange(0, i as int));
                assert(nv@.skip(i + 1) =~= nv@.subrange(i + 1, nv@.len() as int));
            }
            (s, e)
        },
        None => (copy_str(name.as_str()), String::new()),
    };
    let file = conflicted_file_name(stem.as_str(), date, ext.as_str());
    let mut r = dir;
    r.append(file.as_str());
    proof {
        let parts = split_file_name(name_part(path@));
        assert(stem@ == parts.0);
        assert(ext@ == match parts.1 {
            Some(e) => seq!['.'] + e,
            None => Seq::<char>::empty(),
        });
    }
    r
}

/// The path of the conflicted copy of the file at `path`, stamped with the
/// current UTC time.
pub fn conflicted_name(path: &str) -> (r: String)
    requires
        names_file(path@),
    ensures
        exists|t: ClockFields| clock_fields_ok(t) && r@ == conflicted_path_spec(path@, conflict_stamp(t)),
{
    let t = crate::clock::utc_now();
    let date = crate::clock::conflict_stamp_text(t);
    conflicted_name_at(path, date.as_str())
}

/// `c` does not occur in `s`.
pub open spec fn lacks(s: Seq<char>, c: char) -> bool {
    forall|k: int| 0 <= k < s.len() ==> s[k] != c
}

/// A conflicted copy's stamp holds no `)` and no `/`.
pub proof fn lemma_conflict_stamp_plain(t: ClockFields)
    ensures
        lacks(conflict_stamp(t), ')'),
        lacks(conflict_stamp(t), '/'),
{
    crate::clock::lemma_conflict_stamp_plain(t);
}

proof fn lemma_find_is(s: Seq<char>, pat: Seq<char>, i: int)
    requires
        occurs_at(s, pat, i),
        forall|k: int| 0 <= k < i ==> !occurs_at(s, pat, k),
    ensures
        find_from(s, pat, 0) == Some(i),
{
    crate::text::lemma_find_from(s, pat, 0);
    match find_from(s, pat, 0) {
        Some(j) => {
            if j < i {
                assert(occurs_at(s, pat, j));
            }
        },
        None => {},
    }
}

proof fn lemma_find_from_is(s: Seq<char>, pat: Seq<char>, from: int, i: int)
    requires
        0 <= from <= i,
        occurs_at(s, pat, i),
        forall|k: int| from <= k < i ==> !occurs_at(s, pat, k),
    ensures
        find_from(s, pat, from) == Some(i),
{
    crate::text::lemma_find_from(s, pat, from);
    match find_from(s, pat, from) {
        Some(j) => {
            if j < i {
                assert(occurs_at(s, pat, j));
            }
        },
        None => {},
    }
}

/// The first marker in `stem + rest`, when `stem` holds none and `rest`
/// starts with one, is the one `rest` starts with: the marker cannot
/// overlap itself.
proof fn lemma_first_mark(stem: Seq<char>, rest: Seq<char>)
    requires
        find_from(stem, conflict_mark(), 0) is None,
        rest.len() >= conflict_mark().len(),
        rest.take(conflict_mark().len() as int) == conflict_mark(),
    ensures
        find_from(stem + rest, conflict_mark(), 0) == Some(stem.len() as int),
{
    let m = conflict_mark();
    let s = stem + rest;
    crate::text::lemma_find_from(stem, m, 0);
    assert(s.subrange(stem.len() as int, (stem.len() + m.len()) as int) =~= rest.take(m.len() as int));
    assert forall|k: int| 0 <= k < stem.len() implies !occurs_at(s, m, k) by {
        if occurs_at(s, m, k) {
            if k + m.len() <= stem.len() {
                assert(s.subrange(k, k + m.len()) =~= stem.subrange(k, k + m.len()));
                assert(occurs_at(stem, m, k));
            } else {
                let d = stem.len() - k;
                assert(s.subrange(k, k + m.len())[d] == m[d]);
                assert(s[stem.len() as int] == rest[0]);
                assert(rest.take(m.len() as int)[0] == m[0]);
                assert(s.subrange(k, k + m.len())[d + 1] == m[d + 1]);
                assert(s[stem.len() + 1int] == rest[1]);
                assert(rest.take(m.len() as int)[1] == m[1]);
            }
        }
    }
    lemma_find_is(s, m, stem.len() as int);
}

/// `last_index` ignores a tail that lacks the character.
proof fn lemma_last_index_append(a: Seq<char>, b: Seq<char>, c: char)
    requires
        lacks(b, c),
    ensures
        crate::vcard::last_index(a + b, c) == crate::vcard::last_index(a, c),
    decreases b.len(),
{
    if b.len() == 0 {
        assert(a + b =~= a);
    } else {
        assert((a + b).drop_last() =~= a + b.drop_last());
        assert((a + b).last() == b.last());
        lemma_last_index_append(a, b.drop_last(), c);
    }
}

proof fn lemma_name_part(path: Seq<char>)
    ensures
        lacks(name_part(path), '/'),
        path == dir_part(path) + name_part(path),
        dir_part(path).len() == 0 || dir_part(path).last() == '/',
{
    crate::vcard::lemma_last_index(path, '/');
    match crate::vcard::last_index(path, '/') {
        Some(i) => {
            assert(path =~= path.take(i + 1) + path.skip(i + 1));
        },
        None => {
            assert(path =~= Seq::<char>::empty() + path);
        },
    }
}

proof fn lemma_name_of_joined(dir: Seq<char>, file: Seq<char>)
    requires
        dir.len() == 0 || dir.last() == '/',
        lacks(file, '/'),
    ensures
        name_part(dir + file) == file,
{
    lemma_last_index_append(dir, file, '/');
    if dir.len() == 0 {
        assert(crate::vcard::last_index(dir, '/') is None);
        assert(dir + file =~= file);
    } else {
        assert(crate::vcard::last_index(dir, '/') == Some(dir.len() - 1));
        assert((dir + file).skip(dir.len() as int) =~= file);
    }
}

/// The extension part as it is written back: `.ext`, or nothing.
pub open spec fn dotted(e: Option<Seq<char>>) -> Seq<char> {
    match e {
        Some(x) => seq!['.'] + x,
        None => Seq::empty(),
    }
}

proof fn lemma_split_name(name: Seq<char>)
    requires
        lacks(name, '/'),
    ensures
        name == split_file_name(name).0 + dotted(split_file_name(name).1),
        lacks(split_file_name(name).0, '/'),
        lacks(dotted(split_file_name(name).1), '/'),
{
    let stem = split_file_name(name).0;
    let ext = dotted(split_file_name(name).1);
    crate::vcard::lemma_last_index(name, '.');
    match crate::vcard::last_index(name, '.') {
        Some(i) => {
            if i != 0 {
                assert(name =~= name.take(i) + (seq!['.'] + name.skip(i + 1)));
            } else {
                assert(name =~= name + Seq::<char>::empty());
            }
        },
        None => {
            assert(name =~= name + Seq::<char>::empty());
        },
    }
    assert forall|k: int| 0 <= k < stem.len() implies stem[k] != '/' by {
        assert(stem[k] == (stem + ext)[k]);
    }
    assert forall|k: int| 0 <= k < ext.len() implies ext[k] != '/' by {
        assert(ext[k] == (stem + ext)[stem.len() + k]);
    }
}

proof fn lemma_file_lacks_slash(stem: Seq<char>, date: Seq<char>, ext: Seq<char>)
    requires
        lacks(stem, '/'),
        lacks(date, '/'),
        lacks(ext, '/'),
    ensures
        lacks(conflicted_name_spec(stem, date, ext), '/'),
{
    let m = conflict_mark();
    let file = conflicted_name_spec(stem, date, ext);
    assert forall|k: int| 0 <= k < file.len() implies file[k] != '/' by {
        if k < stem.len() {
            assert(file[k] == stem[k]);
        } else if k < stem.len() + m.len() {
            assert(file[k] == m[k - stem.len()]);
        } else if k == stem.len() + m.len() {
        } else if k < stem.len() + m.len() + 1 + date.len() {
            assert(file[k] == date[k - stem.len() - m.len() - 1]);
        } else if k == stem.len() + m.len() + 1 + date.len() {
        } else {
            assert(file[k] == ext[k - stem.len() - m.len() - 2 - date.len()]);
        }
    }
}

proof fn lemma_close_paren(stem: Seq<char>, date: Seq<char>, ext: Seq<char>)
    requires
        lacks(date, ')'),
    ensures
        find_from(conflicted_name_spec(stem, date, ext), seq![')'], stem.len() as int) == Some(
            (stem.len() + conflict_mark().len() + 1 + date.len()) as int,
        ),
{
    let m = conflict_mark();
    let file = conflicted_name_spec(stem, date, ext);
    let start = stem.len() as int;
    let close = start + m.len() + 1 + date.len();
    assert(file[close] == ')');
    assert forall|k: int| start <= k < close implies !occurs_at(file, seq![')'], k) by {
        if k < start + m.len() {
            assert(file[k] == m[k - start]);
        } else if k == start + m.len() {
            assert(file[k] == ' ');
        } else {
            assert(file[k] == date[k - start - m.len() - 1]);
        }
        if occurs_at(file, seq![')'], k) {
            assert(file.subrange(k, k + 1)[0] == file[k]);
        }
    }
    assert(file.subrange(close, close + 1) =~= seq![')']);
    lemma_find_from_is(file, seq![')'], start, close);
}

/// Reading a conflicted copy's name undoes the naming: for any stem that
/// holds no marker itself, any stamp without `)` and any extension, the
/// copy's name is recognised as one and gives back `stem` followed by the
/// extension.
pub proof fn law_conflict_original_undoes_naming(stem: Seq<char>, date: Seq<char>, ext: Seq<char>)
    requires
        find_from(stem, conflict_mark(), 0) is None,
        lacks(date, ')'),
    ensures
        find_from(conflicted_name_spec(stem, date, ext), conflict_mark(), 0) is Some,
        conflict_original_spec(conflicted_name_spec(stem, date, ext)) == Some(stem + ext),
{
    let m = conflict_mark();
    let file = conflicted_name_spec(stem, date, ext);
    let tail = m + (seq![' '] + date + seq![')'] + ext);
    assert(file =~= stem + tail);
    assert(tail.take(m.len() as int) =~= m);
    lemma_first_mark(stem, tail);
    lemma_close_paren(stem, date, ext);
    let close: int = (stem.len() + m.len() + 1 + date.len()) as int;
    assert(file.take(stem.len() as int) =~= stem);
    assert(file.skip(close + 1) =~= ext);
}

/// A name without the marker is no conflicted copy and has no original.
pub proof fn law_unmarked_name_has_no_original(name: Seq<char>)
    requires
        find_from(name, conflict_mark(), 0) is None,
    ensures
        conflict_original_spec(name) is None,
{
}

/// A conflicted copy is recognised as one, and the original file name comes
/// back from it, whenever the stem holds no marker itself and the stamp
/// holds no `)` and no `/`.
pub proof fn law_conflicted_copy_names_original(path: Seq<char>, date: Seq<char>)
    requires
        names_file(path),
        find_from(split_file_name(name_part(path)).0, conflict_mark(), 0) is None,
        lacks(date, ')'),
        lacks(date, '/'),
    ensures
        find_from(name_part(conflicted_path_spec(path, date)), conflict_mark(), 0) is Some,
        conflict_original_spec(name_part(conflicted_path_spec(path, date))) == Some(name_part(path)),
{
    let name = name_part(path);
    lemma_name_part(path);
    lemma_split_name(name);
    let stem = split_file_name(name).0;
    let ext = dotted(split_file_name(name).1);
    let m = conflict_mark();
    let file = conflicted_name_spec(stem, date, ext);
    lemma_file_lacks_slash(stem, date, ext);
    lemma_name_of_joined(dir_part(path), file);
    assert(conflicted_path_spec(path, date) == dir_part(path) + file);
    let tail = m + (seq![' '] + date + seq![')'] + ext);
    assert(file =~= stem + tail);
    assert(tail.take(m.len() as int) =~= m);
    lemma_first_mark(stem, tail);
    lemma_close_paren(stem, date, ext);
    let close: int = (stem.len() + m.len() + 1 + date.len()) as int;
    assert(file.take(stem.len() as int) =~= stem);
    assert(file.skip(close + 1) =~= ext);
}

} // verus!
