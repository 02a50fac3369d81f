//! Server-side checksums (`oc:checksums`, e.g. `SHA1:ab12… MD5:cd34…`): which
//! one a local file is compared against, and how the comparison reads.
//! Hashing the file is the caller's part.

use vstd::prelude::*;
use crate::text::{chars_of, eq_ic, eq_ic_str, find_from, is_ws, string_of, upper_seq};

verus! {

/// A hash the local side can compute.
#[derive(Clone, Copy, PartialEq, Eq, Debug, Structural)]
pub enum HashAlgo {
    Sha1,
    Md5,
}

/// End of the run of non-whitespace characters starting at `i`.
pub open spec fn token_end(s: Seq<char>, i: int) -> int
    decreases s.len() - i,
{
    if i < 0 || i >= s.len() || is_ws(s[i]) {
        i
    } else {
        token_end(s, i + 1)
    }
}

pub proof fn lemma_token_end(s: Seq<char>, i: int)
    requires
        0 <= i <= s.len(),
    ensures
        i <= token_end(s, i) <= s.len(),
        forall|k: int| i <= k < token_end(s, i) ==> !is_ws(s[k]),
        token_end(s, i) < s.len() ==> is_ws(s[token_end(s, i)]),
    decreases s.len() - i,
{
    if i < s.len() && !is_ws(s[i]) {
        lemma_token_end(s, i + 1);
    }
}

/// The first supported checksum among the whitespace-separated tokens of
/// `s` from `from` on, as `str::split_whitespace` and `split_once(':')`
/// read them: a token without `:` ends the search with nothing, a token
/// naming another algorithm is skipped, and the algorithm is matched
/// ignoring ASCII case.
pub open spec fn checksum_pick(s: Seq<char>, from: int) -> Option<(HashAlgo, Seq<char>)>
    decreases s.len() - from,
{
    if from < 0 || from >= s.len() {
        None
    } else if is_ws(s[from]) {
        checksum_pick(s, from + 1)
    } else {
        let b = token_end(s, from + 1);
        let t = s.subrange(from, b);
        match find_from(t, seq![':'], 0) {
            None => None,
            Some(k) => {
                let algo = upper_seq(t.take(k));
                if algo == "SHA1"@ {
                    Some((HashAlgo::Sha1, t.skip(k + 1)))
                } else if algo == "MD5"@ {
                    Some((HashAlgo::Md5, t.skip(k + 1)))
                } else {
                    proof {
                        lemma_token_end(s, from + 1);
                    }
                    checksum_pick(s, b)
                }
            },
        }
    }
}

/// The checksum to compare a local file against: the first supported one
/// of the server's list, or `None` (compare the bytes instead).
pub fn pick_checksum(sums: &str) -> (r: Option<(HashAlgo, String)>)
    ensures
        match r {
            Some((a, e)) => checksum_pick(sums@, 0) == Some((a, e@)),
            None => checksum_pick(sums@, 0) is None,
        },
{
    let v = chars_of(sums);
    let colon = vec![':'];
    proof {
        assert(colon@ =~= seq![':']);
    }
    let mut i: usize = 0;
    while i < v.len()
        invariant
            v@ == sums@,
            colon@ == seq![':'],
            0 <= i <= v@.len(),
            checksum_pick(v@, 0) == checksum_pick(v@, i as int),
        decreases v@.len() - i,
    {
        if crate::text::is_ws_char(v[i]) {
            i = i + 1;
        } else {
            let mut b = i + 1;
            proof {
                lemma_token_end(v@, i + 1);
            }
            while b < v.len() && !crate::text::is_ws_char(v[b])
                invariant
                    v@ == sums@,
                    i < b <= v@.len(),
                    token_end(v@, i + 1) == token_end(v@, b as int),
                decreases v@.len() - b,
            {
                b = b + 1;
            }
            let t = string_of(&v, i, b);
            let tv = chars_of(t.as_str());
            let k = match crate::text::find_exec(&tv, &colon, 0) {
                Some(k) => k,
                None => return None,
            };
            proof {
                crate::text::lemma_find_from(tv@, colon@, 0);
            }
            let algo = string_of(&tv, 0, k);
            let upper = crate::text::upper_string(algo.as_str());
            let rest = string_of(&tv, k + 1, tv.len());
            proof {
                assert(tv@.take(k as int) =~= tv@.subrange(0, k as int));
                assert(tv@.skip(k + 1) =~= tv@.subrange(k + 1, tv@.len() as int));
                reveal_strlit("SHA1");
                reveal_strlit("MD5");
            }
            if crate::text::str_eq(upper.as_str(), "SHA1") {
                return Some((HashAlgo::Sha1, rest));
            }
            if crate::text::str_eq(upper.as_str(), "MD5") {
                return Some((HashAlgo::Md5, rest));
            }
            i = b;
        }
    }
    None
}

/// Whether a locally computed digest matches the server's, ignoring ASCII
/// case.
pub fn checksum_agrees(actual: &str, expected: &str) -> (b: bool)
    ensures
        b == eq_ic(actual@, expected@),
{
    eq_ic_str(actual, expected)
}

} // verus!
