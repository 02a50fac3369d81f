//! The file browser's own rules around the server calls: where an uploaded
//! file goes, which search runs, and how large a text preview may be.

use vstd::prelude::*;
use crate::mediacache::{file_name_of, path_file_name};
use crate::text::{chars_of, copy_str, opt_view, push_char, string_of, trim_end_c, trim_str, trim_ws};

verus! {

/// Text previews are refused above this many bytes.
pub const MAX_TEXT_PREVIEW: usize = 2000000;

/// Whether a file of `len` bytes may be previewed as text.
pub fn preview_fits(len: usize) -> (b: bool)
    ensures
        b == (len <= MAX_TEXT_PREVIEW),
{
    len <= MAX_TEXT_PREVIEW
}

/// Where an uploaded local file lands: the remote folder (without trailing
/// slashes), `/`, and the local file's name (`file` when it has none).
pub open spec fn upload_destination_spec(remote_dir: Seq<char>, local_path: Seq<char>) -> Seq<char> {
    trim_end_c(remote_dir, '/') + seq!['/'] + match path_file_name(local_path) {
        Some(n) => n,
        None => "file"@,
    }
}

pub fn upload_destination(remote_dir: &str, local_path: &str) -> (r: String)
    ensures
        r@ == upload_destination_spec(remote_dir@, local_path@),
{
    let v = chars_of(remote_dir);
    let e = crate::text::trim_end_bound(&v, 0, v.len(), '/');
    proof {
        assert(v@.subrange(0, v@.len() as int) =~= v@);
    }
    let mut r = string_of(&v, 0, e);
    push_char(&mut r, '/');
    let name = match file_name_of(local_path) {
        Some(n) => n,
        None => copy_str("file"),
    };
    r.append(name.as_str());
    r
}

/// The text a search runs with: the query without surrounding whitespace,
/// or no search at all when that leaves nothing.
pub fn search_query(query: &str) -> (r: Option<String>)
    ensures
        opt_view(r) == if trim_ws(query@).len() == 0 {
            None
        } else {
            Some(trim_ws(query@))
        },
{
    let q = trim_str(query);
    if q.as_str().unicode_len() == 0 {
        None
    } else {
        Some(q)
    }
}

} // verus!
