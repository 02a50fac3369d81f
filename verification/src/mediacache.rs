//! Names of the media cache: a server file that is not synced locally is
//! downloaded once into the cache, under a name keyed by its path and ETag
//! so that a changed file is fetched again.

use vstd::prelude::*;
use crate::config::{short_hash, short_hash_spec};
use crate::text::{chars_of, copy_str, opt_view, push_char, string_of, trim_end_c};
use crate::vcard::{last_index, or_default};

verus! {

pub proof fn lemma_trim_end_c_len(s: Seq<char>, c: char)
    ensures
        trim_end_c(s, c).len() <= s.len(),
        trim_end_c(s, c) == s.take(trim_end_c(s, c).len() as int),
    decreases s.len(),
{
    if s.len() > 0 && s.last() == c {
        lemma_trim_end_c_len(s.drop_last(), c);
        assert(s.drop_last().take(trim_end_c(s, c).len() as int) =~= s.take(trim_end_c(s, c).len() as int));
    } else {
        assert(s.take(s.len() as int) =~= s);
    }
}

/// `Path::file_name` of a Unix path: its last component, where trailing
/// slashes and `.` components do not count; none when that component is
/// `..` or the path has none.
pub open spec fn path_file_name(p: Seq<char>) -> Option<Seq<char>>
    decreases p.len(),
{
    let t = trim_end_c(p, '/');
    if t.len() == 0 {
        None
    } else {
        let seg = crate::caldav::last_segment(t);
        if seg == seq!['.'] {
            proof {
                lemma_trim_end_c_len(p, '/');
            }
            path_file_name(t.drop_last())
        } else if seg == seq!['.', '.'] {
            None
        } else {
            Some(seg)
        }
    }
}

/// The file name of a path, as `Path::file_name` gives it.
pub fn file_name_of(path: &str) -> (r: Option<String>)
    ensures
        opt_view(r) == path_file_name(path@),
{
    let v = chars_of(path);
    let mut hi = v.len();
    proof {
        assert(v@.take(hi as int) =~= path@);
    }
    loop
        invariant
            v@ == path@,
            hi <= v@.len(),
            path_file_name(path@) == path_file_name(v@.take(hi as int)),
        decreases hi,
    {
        let e = crate::text::trim_end_bound(&v, 0, hi, '/');
        proof {
            assert(v@.subrange(0, hi as int) =~= v@.take(hi as int));
            assert(v@.subrange(0, e as int) =~= v@.take(e as int));
        }
        if e == 0 {
            return None;
        }
        let mut lo = e;
        proof {
            assert(v@.take(e as int).take(lo as int) =~= v@.take(e as int));
        }
        while lo > 0 && v[lo - 1] != '/'
            invariant
                lo <= e <= v@.len(),
                last_index(v@.take(e as int), '/') == last_index(v@.take(e as int).take(lo as int), '/'),
            decreases lo,
        {
            proof {
                assert(v@.take(e as int).take(lo as int).drop_last() =~= v@.take(e as int).take(lo - 1));
            }
            lo = lo - 1;
        }
        let ghost t = v@.take(e as int);
        proof {
            if lo > 0 {
                assert(t.take(lo as int).last() == '/');
                assert(last_index(t, '/') == Some(lo - 1));
                assert(crate::caldav::last_segment(t) =~= v@.subrange(lo as int, e as int));
            } else {
                assert(t.take(0) =~= Seq::<char>::empty());
                assert(crate::caldav::last_segment(t) =~= v@.subrange(0, e as int));
            }
        }
        if e - lo == 1 && v[lo] == '.' {
            proof {
                assert(v@.subrange(lo as int, e as int) =~= seq!['.']);
                assert(t.drop_last() =~= v@.take(e - 1));
            }
            hi = e - 1;
        } else if e - lo == 2 && v[lo] == '.' && v[lo + 1] == '.' {
            proof {
                assert(v@.subrange(lo as int, e as int) =~= seq!['.', '.']);
            }
            return None;
        } else {
            proof {
                if v@.subrange(lo as int, e as int) == seq!['.'] {
                    assert(v@.subrange(lo as int, e as int)[0] == v@[lo as int]);
                }
                if v@.subrange(lo as int, e as int) == seq!['.', '.'] {
                    assert(v@.subrange(lo as int, e as int)[0] == v@[lo as int]);
                    assert(v@.subrange(lo as int, e as int)[1] == v@[lo + 1]);
                }
            }
            return Some(string_of(&v, lo, e));
        }
    }
}

/// The cache file's base name: the server file's name, else `media`.
pub open spec fn cache_base(path: Seq<char>) -> Seq<char> {
    match path_file_name(path) {
        Some(n) => n,
        None => "media"@,
    }
}

/// What the cache key hashes: the path, a NUL, and the ETag (empty when
/// unknown).
pub open spec fn cache_key_input(path: Seq<char>, etag: Option<Seq<char>>) -> Seq<char> {
    path + seq!['\0'] + or_default(etag)
}

/// The cache file of a server file and the temporary name it is downloaded
/// under before the rename: `<key>-<name>` and `<key>-<name>.part`.
pub fn media_cache_names(path: &str, etag: Option<&str>) -> (r: (String, String))
    ensures
        r.0@ == short_hash_spec(
            cache_key_input(
                path@,
                match etag {
                    Some(e) => Some(e@),
                    None => None,
                },
            ),
        ) + seq!['-'] + cache_base(path@),
        r.1@ == r.0@ + ".part"@,
{
    let mut input = copy_str(path);
    push_char(&mut input, '\0');
    match etag {
        Some(e) => input.append(e),
        None => {},
    }
    let key = short_hash(input.as_str());
    let base = match file_name_of(path) {
        Some(n) => n,
        None => copy_str("media"),
    };
    let mut dest = key;
    push_char(&mut dest, '-');
    dest.append(base.as_str());
    let mut tmp = copy_str(dest.as_str());
    tmp.append(".part");
    proof {
        assert(input@ =~= cache_key_input(
            path@,
            match etag {
                Some(e) => Some(e@),
                None => None,
            },
        ));
    }
    (dest, tmp)
}

} // verus!
