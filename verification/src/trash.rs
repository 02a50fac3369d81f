//! The Nextcloud trash bin (`trashbin` DAV endpoint): reading its listing,
//! newest deletion first, and the DAV paths used to restore or purge.

use vstd::prelude::*;
use crate::dav::{or_empty, percent_decode, percent_decoded, second_piece};
use crate::num::{parse_i64, parse_i64_spec, parse_u64, parse_u64_spec};
use crate::text::{chars_of, copy_str, opt_view, string_of, trim_end_c};
use crate::webdav::{
    dav_ns, encode_path, encode_path_spec, first_tagged_child, first_tagged_desc, is_tagged, nc_ns, tagged,
    tagged_child, tagged_desc,
};
use crate::xml::{nodes_view, parse_xml, xml_flat, XmlNode, XmlNodeV};

verus! {

/// One deleted file or folder.
pub struct TrashEntry {
    /// Id path inside the trash bin (e.g. `file.txt.d1720000000`).
    pub trash_id: String,
    pub name: String,
    /// Original location relative to the files root.
    pub original_location: String,
    /// Unix seconds of deletion.
    pub deleted_at: i64,
    pub size: u64,
    pub is_dir: bool,
}

pub struct TrashEntryV {
    pub trash_id: Seq<char>,
    pub name: Seq<char>,
    pub original_location: Seq<char>,
    pub deleted_at: i64,
    pub size: u64,
    pub is_dir: bool,
}

impl View for TrashEntry {
    type V = TrashEntryV;

    open spec fn view(&self) -> TrashEntryV {
        TrashEntryV {
            trash_id: self.trash_id@,
            name: self.name@,
            original_location: self.original_location@,
            deleted_at: self.deleted_at,
            size: self.size,
            is_dir: self.is_dir,
        }
    }
}

pub open spec fn trash_view(v: Seq<TrashEntry>) -> Seq<TrashEntryV> {
    Seq::new(v.len(), |i: int| v[i]@)
}

/// The text of the first node with the tag in the subtree of `p`.
pub open spec fn desc_text(nodes: Seq<XmlNodeV>, p: Option<int>, ns: Seq<char>, name: Seq<char>) -> Option<Seq<char>> {
    match p {
        Some(p) => match first_tagged_desc(nodes, p, ns, name, 0) {
            Some(c) => nodes[c].text,
            None => None,
        },
        None => None,
    }
}

/// The trash entry a `<d:response>` at node `r` describes; `None` for the
/// trash root itself.
pub open spec fn trash_entry_of(nodes: Seq<XmlNodeV>, r: int) -> Option<TrashEntryV> {
    let href = match first_tagged_child(nodes, r, dav_ns(), "href"@, 0) {
        Some(h) => or_empty(nodes[h].text),
        None => Seq::empty(),
    };
    match second_piece(percent_decoded(href), "/trash/"@) {
        Some(tail) => if tail.len() == 0 {
            None
        } else {
            let id = trim_end_c(tail, '/');
            let prop = first_tagged_desc(nodes, r, dav_ns(), "prop"@, 0);
            let is_dir = match prop {
                Some(p) => match first_tagged_desc(nodes, p, dav_ns(), "resourcetype"@, 0) {
                    Some(rt) => first_tagged_child(nodes, rt, dav_ns(), "collection"@, 0) is Some,
                    None => false,
                },
                None => false,
            };
            Some(
                TrashEntryV {
                    trash_id: id,
                    name: match desc_text(nodes, prop, nc_ns(), "trashbin-filename"@) {
                        Some(n) => n,
                        None => id,
                    },
                    original_location: or_empty(desc_text(nodes, prop, nc_ns(), "trashbin-original-location"@)),
                    deleted_at: match desc_text(nodes, prop, nc_ns(), "trashbin-deletion-time"@) {
                        Some(t) => match parse_i64_spec(t) {
                            Some(v) => v,
                            None => 0,
                        },
                        None => 0,
                    },
                    size: match desc_text(nodes, prop, dav_ns(), "getcontentlength"@) {
                        Some(t) => match parse_u64_spec(t) {
                            Some(v) => v,
                            None => 0,
                        },
                        None => 0,
                    },
                    is_dir,
                },
            )
        },
        None => None,
    }
}

/// The trash entries of the responses before `upto`, in document order.
pub open spec fn trash_in(nodes: Seq<XmlNodeV>, upto: int) -> Seq<TrashEntryV>
    decreases upto,
{
    if upto <= 0 || upto > nodes.len() {
        Seq::empty()
    } else {
        let j = upto - 1;
        let acc = trash_in(nodes, j);
        if tagged(nodes[j], dav_ns(), "response"@) {
            match trash_entry_of(nodes, j) {
                Some(e) => acc.push(e),
                None => acc,
            }
        } else {
            acc
        }
    }
}

/// Where a stable newest-first sort places `x`: before the first entry
/// deleted earlier.
pub open spec fn newest_pos(s: Seq<TrashEntryV>, x: TrashEntryV, from: int) -> int
    decreases s.len() - from,
{
    if from < 0 || from >= s.len() {
        s.len() as int
    } else if s[from].deleted_at < x.deleted_at {
        from
    } else {
        newest_pos(s, x, from + 1)
    }
}

/// The stable sort of `s` by deletion time, newest first.
pub open spec fn newest_first(s: Seq<TrashEntryV>) -> Seq<TrashEntryV>
    decreases s.len(),
{
    if s.len() == 0 {
        Seq::empty()
    } else {
        let r = newest_first(s.drop_last());
        r.insert(newest_pos(r, s.last(), 0), s.last())
    }
}

fn desc_text_exec(ns: &Vec<XmlNode>, p: Option<usize>, nsu: &str, name: &str) -> (r: Option<String>)
    ensures
        opt_view(r) == desc_text(
            nodes_view(ns@),
            match p {
                Some(x) => Some(x as int),
                None => None,
            },
            nsu@,
            name@,
        ),
{
    match p {
        Some(p) => match tagged_desc(ns, p, nsu, name) {
            Some(c) => {
                proof {
                    assert(nodes_view(ns@)[c as int] == ns@[c as int]@);
                }
                crate::text::clone_opt(&ns[c].text)
            },
            None => None,
        },
        None => None,
    }
}

fn read_trash_entry(ns: &Vec<XmlNode>, r: usize) -> (e: Option<TrashEntry>)
    ensures
        match e {
            Some(x) => trash_entry_of(nodes_view(ns@), r as int) == Some(x@),
            None => trash_entry_of(nodes_view(ns@), r as int) is None,
        },
{
    let ghost nv = nodes_view(ns@);
    let href = match tagged_child(ns, r, "DAV:", "href") {
        Some(h) => {
            proof {
                assert(nv[h as int] == ns@[h as int]@);
            }
            match &ns[h].text {
                Some(t) => copy_str(t.as_str()),
                None => String::new(),
            }
        },
        None => String::new(),
    };
    let decoded = percent_decode(href.as_str());
    let v = chars_of(decoded.as_str());
    let pat = chars_of("/trash/");
    let i = match crate::text::find_exec(&v, &pat, 0) {
        Some(i) => i,
        None => return None,
    };
    proof {
        crate::text::lemma_find_from(v@, pat@, 0);
        assert(crate::text::occurs_at(v@, pat@, i as int));
    }
    let vl = v.len();
    let pl = pat.len();
    let start = i + pl;
    let rest = string_of(&v, start, vl);
    let rv = chars_of(rest.as_str());
    proof {
        assert(v@.subrange(start as int, vl as int) =~= v@.skip(i + pat@.len()));
    }
    let tail = match crate::text::find_exec(&rv, &pat, 0) {
        Some(j) => {
            proof {
                crate::text::lemma_find_from(rv@, pat@, 0);
                assert(rv@.subrange(0, j as int) =~= rv@.take(j as int));
            }
            string_of(&rv, 0, j)
        },
        None => rest,
    };
    if tail.as_str().is_empty() {
        return None;
    }
    let tv = chars_of(tail.as_str());
    let b = crate::text::trim_end_bound(&tv, 0, tv.len(), '/');
    proof {
        assert(tv@.subrange(0, tv@.len() as int) =~= tv@);
    }
    let trash_id = string_of(&tv, 0, b);
    let prop = tagged_desc(ns, r, "DAV:", "prop");
    let is_dir = match prop {
        Some(p) => match tagged_desc(ns, p, "DAV:", "resourcetype") {
            Some(rt) => tagged_child(ns, rt, "DAV:", "collection").is_some(),
            None => false,
        },
        None => false,
    };
    let name = match desc_text_exec(ns, prop, "http://nextcloud.org/ns", "trashbin-filename") {
        Some(n) => n,
        None => copy_str(trash_id.as_str()),
    };
    let original_location = match desc_text_exec(ns, prop, "http://nextcloud.org/ns", "trashbin-original-location") {
        Some(l) => l,
        None => String::new(),
    };
    let deleted_at = match desc_text_exec(ns, prop, "http://nextcloud.org/ns", "trashbin-deletion-time") {
        Some(t) => match parse_i64(t.as_str()) {
            Some(x) => x,
            None => 0,
        },
        None => 0,
    };
    let size = match desc_text_exec(ns, prop, "DAV:", "getcontentlength") {
        Some(t) => match parse_u64(t.as_str()) {
            Some(x) => x,
            None => 0,
        },
        None => 0,
    };
    Some(TrashEntry { trash_id, name, original_location, deleted_at, size, is_dir })
}

/// Parse a trash-bin listing (a Depth-1 PROPFIND `multistatus` body) into
/// entries, newest deletion first; `Err` when the body is not well-formed.
pub fn parse_trash(xml: &str) -> (r: Result<Vec<TrashEntry>, String>)
    ensures
        match r {
            Ok(v) => xml_flat(xml@) matches Some(nodes) && trash_view(v@) == newest_first(
                trash_in(nodes, nodes.len() as int),
            ),
            Err(_) => xml_flat(xml@) is None,
        },
{
    let ns = match parse_xml(xml) {
        Ok(ns) => ns,
        Err(e) => {
            let m = copy_str("bad trashbin xml: ");
            return Err(m.concat(e.as_str()));
        },
    };
    let ghost nv = nodes_view(ns@);
    let mut found: Vec<TrashEntry> = Vec::new();
    let mut j: usize = 0;
    while j < ns.len()
        invariant
            nv == nodes_view(ns@),
            0 <= j <= nv.len(),
            trash_view(found@) == trash_in(nv, j as int),
        decreases nv.len() - j,
    {
        proof {
            assert(nv[j as int] == ns@[j as int]@);
        }
        if is_tagged(&ns[j], "DAV:", "response") {
            match read_trash_entry(&ns, j) {
                Some(e) => {
                    let ghost before = found@;
                    let ghost ev = e@;
                    found.push(e);
                    proof {
                        assert(trash_view(found@) =~= trash_view(before).push(ev));
                    }
                },
                None => {},
            }
        }
        j = j + 1;
    }
    let fl = found.len();
    let ghost fv = trash_view(found@);
    proof {
        assert(fv.skip(0) =~= fv);
        assert(fv.len() == fl);
    }
    let mut out: Vec<TrashEntry> = Vec::new();
    let mut i: usize = 0;
    proof {
        assert(trash_view(out@) =~= newest_first(fv.take(0)));
    }
    while found.len() > 0
        invariant
            fv.len() <= usize::MAX,
            i + found@.len() == fv.len(),
            trash_view(found@) == fv.skip(i as int),
            trash_view(out@) == newest_first(fv.take(i as int)),
        decreases found@.len(),
    {
        let ghost ob = found@;
        let x = found.remove(0);
        proof {
            assert(found@ == ob.remove(0));
            assert(trash_view(ob)[0] == x@);
            assert(fv.skip(i as int)[0] == x@);
            assert forall|q: int| 0 <= q < found@.len() implies trash_view(found@)[q] == fv.skip(i + 1)[q] by {
                assert(found@[q] == ob[q + 1]);
                assert(trash_view(ob)[q + 1] == fv.skip(i as int)[q + 1]);
            }
            assert(trash_view(found@) =~= fv.skip(i + 1));
            assert(fv.take(i + 1).drop_last() =~= fv.take(i as int));
            assert(fv.take(i + 1).last() == x@);
        }
        let ghost sv = trash_view(out@);
        let mut k: usize = 0;
        while k < out.len() && !(out[k].deleted_at < x.deleted_at)
            invariant
                sv == trash_view(out@),
                0 <= k <= out@.len(),
                newest_pos(sv, x@, 0) == newest_pos(sv, x@, k as int),
            decreases out@.len() - k,
        {
            proof {
                assert(sv[k as int] == out@[k as int]@);
            }
            k = k + 1;
        }
        proof {
            if k < out@.len() {
                assert(sv[k as int] == out@[k as int]@);
            }
            assert(newest_pos(sv, x@, 0) == k);
        }
        let ghost xv = x@;
        out.insert(k, x);
        proof {
            assert(trash_view(out@) =~= sv.insert(k as int, xv));
        }
        i = i + 1;
    }
    proof {
        assert(fv.take(fv.len() as int) =~= fv);
    }
    Ok(out)
}

/// The DAV path of the trash bin of `user` (relative to `/remote.php/dav/`).
pub fn trash_base(user: &str) -> (r: String)
    ensures
        r@ == "trashbin/"@ + user@ + "/trash"@,
{
    let mut r = copy_str("trashbin/");
    r.append(user);
    r.append("/trash");
    r
}

/// The DAV path of one trashed item.
pub fn trash_item(user: &str, trash_id: &str) -> (r: String)
    ensures
        r@ == "trashbin/"@ + user@ + "/trash/"@ + trash_id@,
{
    let mut r = copy_str("trashbin/");
    r.append(user);
    r.append("/trash/");
    r.append(trash_id);
    r
}

/// The `Destination` of a restore: the server's `restore` collection for
/// `user`, plus the encoded trash id.
pub fn restore_destination(server_base: &str, user: &str, trash_id: &str) -> (r: String)
    ensures
        r@ == server_base@ + "/remote.php/dav/trashbin/"@ + user@ + "/restore/"@ + encode_path_spec(trash_id@),
{
    let mut r = copy_str(server_base);
    r.append("/remote.php/dav/trashbin/");
    r.append(user);
    r.append("/restore/");
    let e = encode_path(trash_id);
    r.append(e.as_str());
    r
}

} // verus!
