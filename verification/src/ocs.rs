//! Nextcloud's OCS API: public-link shares and the server-side activity
//! feed. The JSON answers are read field by field into plain values first;
//! this module decides what each field becomes and builds the share requests.

use vstd::prelude::*;
use crate::num::{i64_string, i64_text};
use crate::text::{copy_str, opt_view};
use crate::vcard::{non_empty, non_empty_exec, or_default};
use crate::webdav::{encode_local_path, pct_encode};

verus! {

/// The OCS shares endpoint, relative to the server.
pub open spec fn shares_endpoint() -> Seq<char> {
    "/ocs/v2.php/apps/files_sharing/api/v1/shares"@
}

/// The first of two looked-up values that is present and not empty.
pub open spec fn first_filled(a: Option<Seq<char>>, b: Option<Seq<char>>) -> Option<Seq<char>> {
    match non_empty(a) {
        Some(s) => Some(s),
        None => non_empty(b),
    }
}

/// The fields of one share object of an OCS answer, as found: each is
/// `None` when the key is missing or holds another JSON type.
pub struct ShareFields {
    /// `id` when it is a string.
    pub id_text: Option<String>,
    /// `id` when it is an integer.
    pub id_number: Option<i64>,
    pub share_type: Option<i64>,
    pub url: Option<String>,
    pub token: Option<String>,
    pub path: Option<String>,
    pub permissions: Option<i64>,
    pub expiration: Option<String>,
    pub label: Option<String>,
    pub share_with_displayname: Option<String>,
    pub share_with: Option<String>,
}

/// A share as shown in the UI.
pub struct Share {
    pub id: String,
    /// 3 = public link, 0 = user, 1 = group, …
    pub share_type: i64,
    pub url: Option<String>,
    pub token: Option<String>,
    pub path: String,
    pub permissions: i64,
    pub expiration: Option<String>,
    pub label: Option<String>,
    /// Recipient (user and group shares); `None` for public links.
    pub share_with: Option<String>,
}

/// The id of a share: its text, else its number in decimal, else empty.
pub open spec fn share_id(f: ShareFields) -> Seq<char> {
    match f.id_text {
        Some(s) => s@,
        None => match f.id_number {
            Some(n) => i64_text(n as int),
            None => Seq::empty(),
        },
    }
}

/// Read one share object: missing text becomes empty (or `None` where the
/// UI tells absence apart), a missing type is `-1` and missing permissions
/// are `0`; the recipient is the display name when there is one.
pub fn parse_share(f: &ShareFields) -> (s: Share)
    ensures
        s.id@ == share_id(*f),
        s.share_type == match f.share_type {
            Some(t) => t as int,
            None => -1int,
        },
        opt_view(s.url) == non_empty(opt_view(f.url)),
        opt_view(s.token) == non_empty(opt_view(f.token)),
        s.path@ == or_default(opt_view(f.path)),
        s.permissions == match f.permissions {
            Some(p) => p as int,
            None => 0int,
        },
        opt_view(s.expiration) == non_empty(opt_view(f.expiration)),
        opt_view(s.label) == non_empty(opt_view(f.label)),
        opt_view(s.share_with) == first_filled(opt_view(f.share_with_displayname), opt_view(f.share_with)),
{
    let id = match &f.id_text {
        Some(t) => copy_str(t.as_str()),
        None => match f.id_number {
            Some(n) => i64_string(n),
            None => String::new(),
        },
    };
    let share_with = match non_empty_exec(crate::text::clone_opt(&f.share_with_displayname)) {
        Some(s) => Some(s),
        None => non_empty_exec(crate::text::clone_opt(&f.share_with)),
    };
    Share {
        id,
        share_type: match f.share_type {
            Some(t) => t,
            None => -1,
        },
        url: non_empty_exec(crate::text::clone_opt(&f.url)),
        token: non_empty_exec(crate::text::clone_opt(&f.token)),
        path: match &f.path {
            Some(p) => copy_str(p.as_str()),
            None => String::new(),
        },
        permissions: match f.permissions {
            Some(p) => p,
            None => 0,
        },
        expiration: non_empty_exec(crate::text::clone_opt(&f.expiration)),
        label: non_empty_exec(crate::text::clone_opt(&f.label)),
        share_with,
    }
}

/// The URL (relative to the server) that lists shares: all of them, or
/// those on `path`, percent-encoded.
pub fn shares_url(path: Option<&str>) -> (r: String)
    ensures
        r@ == match path {
            Some(p) => shares_endpoint() + "?format=json&reshares=false&path="@ + pct_encode(
                vstd::utf8::encode_utf8(p@),
                false,
            ),
            None => shares_endpoint() + "?format=json"@,
        },
{
    let mut r = copy_str("/ocs/v2.php/apps/files_sharing/api/v1/shares");
    match path {
        Some(p) => {
            r.append("?format=json&reshares=false&path=");
            let e = encode_local_path(p);
            r.append(e.as_str());
        },
        None => {
            r.append("?format=json");
        },
    }
    r
}

/// The URL (relative to the server) that revokes share `id`.
pub fn share_delete_url(id: &str) -> (r: String)
    ensures
        r@ == shares_endpoint() + seq!['/'] + id@ + "?format=json"@,
{
    let mut r = copy_str("/ocs/v2.php/apps/files_sharing/api/v1/shares");
    crate::text::push_char(&mut r, '/');
    r.append(id);
    r.append("?format=json");
    r
}

pub open spec fn pairs_of(v: Seq<(String, String)>) -> Seq<(Seq<char>, Seq<char>)> {
    Seq::new(v.len(), |i: int| (v[i].0@, v[i].1@))
}

/// The form fields that create a read-only public link for `path`: the
/// password and the expiry date only when given and not empty.
pub open spec fn share_form_spec(path: Seq<char>, password: Option<Seq<char>>, expire: Option<Seq<char>>) -> Seq<(Seq<char>, Seq<char>)> {
    let base = seq![("shareType"@, "3"@), ("path"@, path), ("permissions"@, "1"@)];
    let with_pw = match non_empty(password) {
        Some(p) => base.push(("password"@, p)),
        None => base,
    };
    match non_empty(expire) {
        Some(e) => with_pw.push(("expireDate"@, e)),
        None => with_pw,
    }
}

/// The form of a share-creation request.
pub fn share_form(path: &str, password: Option<&str>, expire_date: Option<&str>) -> (form: Vec<(String, String)>)
    ensures
        pairs_of(form@) == share_form_spec(
            path@,
            match password {
                Some(p) => Some(p@),
                None => None,
            },
            match expire_date {
                Some(e) => Some(e@),
                None => None,
            },
        ),
{
    let mut form: Vec<(String, String)> = Vec::new();
    form.push((copy_str("shareType"), copy_str("3")));
    form.push((copy_str("path"), copy_str(path)));
    form.push((copy_str("permissions"), copy_str("1")));
    let ghost base = pairs_of(form@);
    proof {
        assert(base =~= seq![("shareType"@, "3"@), ("path"@, path@), ("permissions"@, "1"@)]);
    }
    match password {
        Some(p) => if p.unicode_len() > 0 {
            form.push((copy_str("password"), copy_str(p)));
        },
        None => {},
    }
    let ghost mid = pairs_of(form@);
    proof {
        assert(mid =~= match non_empty(
            match password {
                Some(p) => Some(p@),
                None => None,
            },
        ) {
            Some(p) => base.push(("password"@, p)),
            None => base,
        });
    }
    match expire_date {
        Some(e) => if e.unicode_len() > 0 {
            form.push((copy_str("expireDate"), copy_str(e)));
        },
        None => {},
    }
    proof {
        assert(pairs_of(form@) =~= match non_empty(
            match expire_date {
                Some(e) => Some(e@),
                None => None,
            },
        ) {
            Some(e) => mid.push(("expireDate"@, e)),
            None => mid,
        });
    }
    form
}

// ---------------------------------------------------------------------------
// Activity feed
// ---------------------------------------------------------------------------

/// The fields of one activity object of an OCS answer, as found.
pub struct ActivityFields {
    pub subject: Option<String>,
    pub message: Option<String>,
    pub datetime: Option<String>,
    pub activity_type: Option<String>,
    pub object_name: Option<String>,
}

/// One entry of the server-side activity feed.
pub struct ActivityItem {
    pub subject: String,
    pub message: Option<String>,
    pub time: String,
    pub activity_type: String,
    pub object_name: Option<String>,
}

/// Read one activity object: missing text becomes empty, and the message
/// and object name are `None` when missing or empty.
pub fn activity_item(f: &ActivityFields) -> (a: ActivityItem)
    ensures
        a.subject@ == or_default(opt_view(f.subject)),
        opt_view(a.message) == non_empty(opt_view(f.message)),
        a.time@ == or_default(opt_view(f.datetime)),
        a.activity_type@ == or_default(opt_view(f.activity_type)),
        opt_view(a.object_name) == non_empty(opt_view(f.object_name)),
{
    ActivityItem {
        subject: or_empty(&f.subject),
        message: non_empty_exec(crate::text::clone_opt(&f.message)),
        time: or_empty(&f.datetime),
        activity_type: or_empty(&f.activity_type),
        object_name: non_empty_exec(crate::text::clone_opt(&f.object_name)),
    }
}

/// The text, or empty when absent.
fn or_empty(o: &Option<String>) -> (r: String)
    ensures
        r@ == or_default(opt_view(*o)),
{
    match o {
        Some(s) => copy_str(s.as_str()),
        None => String::new(),
    }
}

} // verus!
