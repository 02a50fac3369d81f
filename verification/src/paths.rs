//! Slash-separated path rules shared by the sync engine, the media resolver and
//! folder-pair management: joining, relativising and overlap checks.

use vstd::prelude::*;
use crate::text::{
    chars_of, is_prefix, opt_view, push_char, push_range, range_eq, string_of, trim_c, trim_end_bound,
    trim_end_c, trim_start_bound, trim_start_c,
};

verus! {

/// `remote_join(base, rel)`: `/<base trimmed of '/'>/<rel>`, or `/<rel>` for the root.
pub open spec fn remote_join_spec(base: Seq<char>, rel: Seq<char>) -> Seq<char> {
    let b = trim_c(base, '/');
    if b.len() == 0 {
        seq!['/'] + rel
    } else {
        seq!['/'] + b + seq!['/'] + rel
    }
}

/// `rel_to_base(base, path)`: `path` (without trailing `/`) with the base prefix
/// and any leading `/` removed.
pub open spec fn rel_to_base_spec(base: Seq<char>, path: Seq<char>) -> Seq<char> {
    let p = trim_end_c(path, '/');
    let b = trim_end_c(base, '/');
    if b.len() == 0 {
        trim_start_c(p, '/')
    } else if is_prefix(b, p) {
        trim_start_c(p.skip(b.len() as int), '/')
    } else {
        trim_start_c(p, '/')
    }
}

/// `dav_under(base, dav)`: the path of `dav` relative to `base` when `dav` lies
/// at or under `base` (whole segments only).
pub open spec fn dav_under_spec(base: Seq<char>, dav: Seq<char>) -> Option<Seq<char>> {
    let b = trim_end_c(base, '/');
    let p = trim_end_c(dav, '/');
    if b.len() == 0 {
        Some(trim_start_c(p, '/'))
    } else if p == b {
        Some(Seq::empty())
    } else if is_prefix(b.push('/'), p) {
        Some(p.skip(b.len() + 1int))
    } else {
        None
    }
}

/// A folder path normalised for segment-wise comparison: no trailing `/`
/// except the single one appended.
pub open spec fn dir_norm(p: Seq<char>) -> Seq<char> {
    trim_end_c(p, '/').push('/')
}

/// Two folder paths overlap when equal or one is nested in the other,
/// compared by whole segments.
pub open spec fn paths_overlap_spec(a: Seq<char>, b: Seq<char>) -> bool {
    is_prefix(dir_norm(b), dir_norm(a)) || is_prefix(dir_norm(a), dir_norm(b))
}

/// Whether `p` is a prefix of `v[lo..hi]`.
pub fn starts_with_range(v: &Vec<char>, lo: usize, hi: usize, p: &Vec<char>) -> (r: bool)
    requires
        lo <= hi <= v.len(),
    ensures
        r == is_prefix(p@, v@.subrange(lo as int, hi as int)),
{
    if p.len() > hi - lo {
        return false;
    }
    let r = range_eq(v, lo, lo + p.len(), p);
    proof {
        assert(v@.subrange(lo as int, hi as int).subrange(0, p@.len() as int) =~= v@.subrange(
            lo as int,
            lo + p@.len(),
        ));
    }
    r
}

/// Join a folder's remote path and a path relative to it.
pub fn remote_join(base: &str, rel: &str) -> (r: String)
    ensures
        r@ == remote_join_spec(base@, rel@),
{
    let v = chars_of(base);
    let a = trim_start_bound(&v, 0, v.len(), '/');
    let b = trim_end_bound(&v, a, v.len(), '/');
    proof {
        assert(v@.subrange(0, v@.len() as int) =~= base@);
    }
    let mut r = String::new();
    push_char(&mut r, '/');
    if a < b {
        push_range(&mut r, &v, a, b);
        push_char(&mut r, '/');
    }
    r.append(rel);
    proof {
        let t = trim_c(base@, '/');
        assert(t == v@.subrange(a as int, b as int));
        if a < b {
            assert(r@ =~= seq!['/'] + t + seq!['/'] + rel@);
        } else {
            assert(r@ =~= seq!['/'] + rel@);
        }
    }
    r
}

/// Relativise a listed remote path against the folder's base path.
pub fn rel_to_base(base: &str, path: &str) -> (r: String)
    ensures
        r@ == rel_to_base_spec(base@, path@),
{
    let pv = chars_of(path);
    let bv = chars_of(base);
    let pe = trim_end_bound(&pv, 0, pv.len(), '/');
    let be = trim_end_bound(&bv, 0, bv.len(), '/');
    proof {
        assert(pv@.subrange(0, pv@.len() as int) =~= path@);
        assert(bv@.subrange(0, bv@.len() as int) =~= base@);
    }
    let bt = string_of(&bv, 0, be);
    let btv = chars_of(bt.as_str());
    let start = if be == 0 {
        0
    } else if starts_with_range(&pv, 0, pe, &btv) {
        be
    } else {
        0
    };
    let a = trim_start_bound(&pv, start, pe, '/');
    proof {
        let p = trim_end_c(path@, '/');
        assert(p == pv@.subrange(0, pe as int));
        if be != 0 && is_prefix(btv@, p) {
            assert(p.skip(be as int) =~= pv@.subrange(be as int, pe as int));
        } else {
            assert(pv@.subrange(0, pe as int) == p);
        }
    }
    string_of(&pv, a, pe)
}

/// Map a DAV path to the part below a synced folder's remote base, if any.
pub fn dav_under(remote_base: &str, dav: &str) -> (r: Option<String>)
    ensures
        opt_view(r) == dav_under_spec(remote_base@, dav@),
{
    let bv = chars_of(remote_base);
    let pv = chars_of(dav);
    let be = trim_end_bound(&bv, 0, bv.len(), '/');
    let pe = trim_end_bound(&pv, 0, pv.len(), '/');
    proof {
        assert(pv@.subrange(0, pv@.len() as int) =~= dav@);
        assert(bv@.subrange(0, bv@.len() as int) =~= remote_base@);
    }
    if be == 0 {
        let a = trim_start_bound(&pv, 0, pe, '/');
        return Some(string_of(&pv, a, pe));
    }
    let mut bs = string_of(&bv, 0, be);
    let bsv = chars_of(bs.as_str());
    if range_eq(&pv, 0, pe, &bsv) {
        return Some(String::new());
    }
    push_char(&mut bs, '/');
    let bsv2 = chars_of(bs.as_str());
    if starts_with_range(&pv, 0, pe, &bsv2) {
        let r = string_of(&pv, be + 1, pe);
        proof {
            assert(pv@.subrange(0, pe as int).skip(be + 1) =~= pv@.subrange(be + 1, pe as int));
        }
        return Some(r);
    }
    None
}

/// Normalised `dir/` form of a folder path, as characters.
fn dir_norm_vec(p: &str) -> (r: Vec<char>)
    ensures
        r@ == dir_norm(p@),
{
    let v = chars_of(p);
    let e = trim_end_bound(&v, 0, v.len(), '/');
    proof {
        assert(v@.subrange(0, v@.len() as int) =~= p@);
    }
    let mut out: Vec<char> = Vec::new();
    let mut i: usize = 0;
    while i < e
        invariant
            0 <= i <= e <= v.len(),
            out@ == v@.subrange(0, i as int),
        decreases e - i,
    {
        out.push(v[i]);
        proof {
            assert(v@.subrange(0, i + 1) =~= v@.subrange(0, i as int).push(v@[i as int]));
        }
        i = i + 1;
    }
    out.push('/');
    out
}

/// Do two folder paths overlap — equal, or one nested inside the other —
/// compared by whole path segments (`/a/bc` does not overlap `/a/b`)?
pub fn paths_overlap(a: &str, b: &str) -> (r: bool)
    ensures
        r == paths_overlap_spec(a@, b@),
{
    let na = dir_norm_vec(a);
    let nb = dir_norm_vec(b);
    let x = starts_with_range(&na, 0, na.len(), &nb);
    let y = starts_with_range(&nb, 0, nb.len(), &na);
    proof {
        assert(na@.subrange(0, na@.len() as int) =~= na@);
        assert(nb@.subrange(0, nb@.len() as int) =~= nb@);
    }
    x || y
}

/// Candidate `n` (from 1) for a new folder pair's server path: `base`
/// itself, then `base 2`, `base 3`, …
pub open spec fn unique_candidate_spec(base: Seq<char>, n: nat) -> Seq<char> {
    if n <= 1 {
        base
    } else {
        base + seq![' '] + crate::num::digits(n)
    }
}

/// Candidate `n` for a new folder pair's server path.
pub fn unique_candidate(base: &str, n: u32) -> (r: String)
    ensures
        r@ == unique_candidate_spec(base@, n as nat),
{
    let mut r = crate::text::copy_str(base);
    if n > 1 {
        push_char(&mut r, ' ');
        let d = crate::num::u64_digits(n as u64);
        r.append(d.as_str());
    }
    r
}

/// A candidate can be used when nothing is there, or an empty folder: it
/// holds nothing a new pair could absorb.
pub fn candidate_free(taken: bool, is_dir: bool, empty: bool) -> (b: bool)
    ensures
        b == (!taken || (is_dir && empty)),
{
    !taken || (is_dir && empty)
}

/// The last candidate tried for a new folder pair's server path.
pub const LAST_CANDIDATE: u32 = 99;

/// What the search for a free server path does after looking at candidate
/// `n`.
#[derive(Debug, PartialEq, Eq, Structural)]
pub enum CandidateStep {
    /// Use candidate `n`.
    Take,
    /// Look at this candidate next.
    Next(u32),
    /// No candidate up to [`LAST_CANDIDATE`] is free.
    GiveUp,
}

/// One step of the search for a free server path, given what the server
/// holds at candidate `n` (`taken`; a folder, `is_dir`; with nothing in it,
/// `empty`): take `n` when it is free, else try `n + 1` while `n` is below
/// [`LAST_CANDIDATE`], else give up.
pub fn candidate_step(n: u32, taken: bool, is_dir: bool, empty: bool) -> (s: CandidateStep)
    requires
        1 <= n <= LAST_CANDIDATE,
    ensures
        s == if !taken || (is_dir && empty) {
            CandidateStep::Take
        } else if n < LAST_CANDIDATE {
            CandidateStep::Next((n + 1) as u32)
        } else {
            CandidateStep::GiveUp
        },
{
    if candidate_free(taken, is_dir, empty) {
        CandidateStep::Take
    } else if n < LAST_CANDIDATE {
        CandidateStep::Next(n + 1)
    } else {
        CandidateStep::GiveUp
    }
}

/// The collections from the root down to `pieces`' path: for each non-empty
/// piece, the previous collection followed by `/` and the piece.
pub open spec fn dir_chain(pieces: Seq<Seq<char>>) -> Seq<Seq<char>>
    decreases pieces.len(),
{
    if pieces.len() == 0 {
        Seq::empty()
    } else {
        let r = dir_chain(pieces.drop_last());
        let p = pieces.last();
        if p.len() == 0 {
            r
        } else {
            let prev = if r.len() == 0 {
                Seq::<char>::empty()
            } else {
                r.last()
            };
            r.push(prev + seq!['/'] + p)
        }
    }
}

/// The collections to create, root first, so that `path` exists on the
/// server: `/a`, `/a/b`, … for the non-empty `/`-separated pieces of `path`.
pub open spec fn remote_ancestors_spec(path: Seq<char>) -> Seq<Seq<char>> {
    dir_chain(crate::contentline::split_c(path, '/'))
}

/// [`remote_ancestors_spec`] of `path`.
pub fn remote_ancestors(path: &str) -> (r: Vec<String>)
    ensures
        r@.len() == remote_ancestors_spec(path@).len(),
        forall|i: int| 0 <= i < r@.len() ==> (#[trigger] r@[i])@ == remote_ancestors_spec(path@)[i],
{
    let v = chars_of(path);
    let parts = crate::contentline::split_ranges(&v, '/');
    let ghost ps = crate::contentline::split_c(v@, '/');
    let mut out: Vec<String> = Vec::new();
    let mut acc = String::new();
    let mut i: usize = 0;
    while i < parts.len()
        invariant
            v@ == path@,
            ps == crate::contentline::split_c(v@, '/'),
            parts@.len() == ps.len(),
            forall|x: int| #![trigger parts@[x]] 0 <= x < parts@.len() ==> parts@[x].0 <= parts@[x].1 && parts@[x].1
                <= v@.len() && v@.subrange(parts@[x].0 as int, parts@[x].1 as int) == ps[x],
            0 <= i <= parts@.len(),
            out@.len() == dir_chain(ps.take(i as int)).len(),
            forall|k: int| 0 <= k < out@.len() ==> (#[trigger] out@[k])@ == dir_chain(ps.take(i as int))[k],
            acc@ == if out@.len() == 0 {
                Seq::<char>::empty()
            } else {
                dir_chain(ps.take(i as int)).last()
            },
        decreases parts.len() - i,
    {
        let (lo, hi) = parts[i];
        proof {
            assert(ps.take(i + 1).drop_last() =~= ps.take(i as int));
            assert(ps.take(i + 1).last() == ps[i as int]);
        }
        if lo < hi {
            push_char(&mut acc, '/');
            push_range(&mut acc, &v, lo, hi);
            let ghost before = out@;
            out.push(crate::text::copy_str(acc.as_str()));
            proof {
                let d = dir_chain(ps.take(i + 1));
                assert(d.len() == before.len() + 1);
                assert forall|k: int| 0 <= k < out@.len() implies (#[trigger] out@[k])@ == d[k] by {
                    if k < before.len() {
                        assert(out@[k] == before[k]);
                    }
                }
            }
        }
        i = i + 1;
    }
    proof {
        assert(ps.take(ps.len() as int) =~= ps);
    }
    out
}

/// The search for a free server path never tries the same name twice.
pub proof fn law_candidates_are_distinct(base: Seq<char>, n: nat, m: nat)
    requires
        1 <= n < m,
    ensures
        unique_candidate_spec(base, n) != unique_candidate_spec(base, m),
{
    let cm = unique_candidate_spec(base, m);
    let cn = unique_candidate_spec(base, n);
    if n == 1 {
        assert(cm.len() > base.len());
    } else {
        crate::num::lemma_digits_injective(n, m);
        let dn = crate::num::digits(n);
        let dm = crate::num::digits(m);
        if cn == cm {
            assert(cn.skip(base.len() + 1int) =~= dn);
            assert(cm.skip(base.len() + 1int) =~= dm);
        }
    }
}

} // verus!
