//! Names of the on-disk caches of calendars and address books.

use vstd::prelude::*;
use crate::text::{chars_of, copy_str, push_char};

verus! {

/// Characters kept verbatim in a cache-file component.
pub open spec fn safe_char(c: char) -> bool {
    ('a' <= c && c <= 'z') || ('A' <= c && c <= 'Z') || ('0' <= c && c <= '9') || c == '-' || c == '_'
}

pub open spec fn cleaned(id: Seq<char>) -> Seq<char> {
    Seq::new(id.len(), |i: int| if safe_char(id[i]) { id[i] } else { '_' })
}

/// Sanitize a collection id or URL segment into a safe cache-file component:
/// `<prefix>-<id>` with every character but ASCII letters, digits, `-` and
/// `_` replaced by `_`.
pub fn safe_name(prefix: &str, id: &str) -> (r: String)
    ensures
        r@ == prefix@ + seq!['-'] + cleaned(id@),
{
    let mut r = copy_str(prefix);
    push_char(&mut r, '-');
    let v = chars_of(id);
    let ghost start = r@;
    let mut i: usize = 0;
    while i < v.len()
        invariant
            0 <= i <= v@.len(),
            v@ == id@,
            r@ == start + cleaned(v@).take(i as int),
        decreases v@.len() - i,
    {
        let c = v[i];
        let k = if ('a' <= c && c <= 'z') || ('A' <= c && c <= 'Z') || ('0' <= c && c <= '9') || c == '-' || c == '_' {
            c
        } else {
            '_'
        };
        push_char(&mut r, k);
        proof {
            assert(cleaned(v@).take(i + 1) =~= cleaned(v@).take(i as int).push(k));
        }
        i = i + 1;
    }
    proof {
        assert(cleaned(v@).take(v@.len() as int) =~= cleaned(v@));
    }
    r
}

} // verus!
