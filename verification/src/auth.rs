//! Account sign-in helpers that do not talk to the network or the keyring.

use vstd::prelude::*;
use crate::config::{account_id_spec, Account, AccountV, ServerKind};
use crate::text::{chars_of, copy_str, is_prefix, string_of, trim_bounds, trim_end_c, trim_str, trim_ws};

verus! {

/// A server URL as stored: trimmed, without trailing slashes, and with
/// `https://` in front when it names no scheme.
pub open spec fn normalized_url(input: Seq<char>) -> Seq<char> {
    let t = trim_end_c(trim_ws(input), '/');
    if is_prefix("http://"@, t) || is_prefix("https://"@, t) {
        t
    } else {
        "https://"@ + t
    }
}

/// Normalise a server URL typed by the user.
pub fn normalize_server_url(input: &str) -> (r: String)
    ensures
        r@ == normalized_url(input@),
{
    let v = chars_of(input);
    let (a, b) = trim_bounds(&v, 0, v.len());
    let e = crate::text::trim_end_bound(&v, a, b, '/');
    proof {
        assert(v@.subrange(0, v@.len() as int) =~= v@);
    }
    let t = string_of(&v, a, e);
    let tv = chars_of(t.as_str());
    let http = chars_of("http://");
    let https = chars_of("https://");
    let has = (tv.len() >= http.len() && crate::text::range_eq(&tv, 0, http.len(), &http)) || (tv.len()
        >= https.len() && crate::text::range_eq(&tv, 0, https.len(), &https));
    if has {
        t
    } else {
        let r = copy_str("https://");
        r.concat(t.as_str())
    }
}

/// Handed to the UI so it can open the browser and start polling.
pub struct LoginFlowInit {
    pub login_url: String,
    pub poll_token: String,
    pub poll_endpoint: String,
}

/// Where Login Flow v2 starts for a server URL typed by the user.
pub fn login_start_url(server_url: &str) -> (r: String)
    ensures
        r@ == normalized_url(server_url@) + "/index.php/login/v2"@,
{
    let mut r = normalize_server_url(server_url);
    r.append("/index.php/login/v2");
    r
}

/// What one poll of Login Flow v2 answered.
pub enum PollOutcome {
    /// 404: the user has not approved the login yet.
    Pending,
    /// Another status outside 2xx: the login failed.
    Failed,
    /// A 2xx status: the body holds the app password.
    Approved,
}

/// Classify the HTTP status of a login poll.
pub fn poll_outcome(status: u16) -> (o: PollOutcome)
    ensures
        status == 404 ==> o is Pending,
        status != 404 && (status < 200 || status > 299) ==> o is Failed,
        200 <= status <= 299 ==> o is Approved,
{
    if status == 404 {
        PollOutcome::Pending
    } else if status < 200 || status > 299 {
        PollOutcome::Failed
    } else {
        PollOutcome::Approved
    }
}

/// The account an approved Login Flow v2 creates: the server the answer
/// names, without trailing slashes, and the login name it gives.
pub fn approved_account(server: &str, login_name: &str) -> (a: Account)
    ensures
        a@ == (AccountV {
            id: account_id_spec(trim_end_c(server@, '/'), login_name@),
            server_url: trim_end_c(server@, '/'),
            username: login_name@,
            kind: ServerKind::Nextcloud,
        }),
{
    let v = chars_of(server);
    let e = crate::text::trim_end_bound(&v, 0, v.len(), '/');
    proof {
        assert(v@.subrange(0, v@.len() as int) =~= v@);
    }
    let s = string_of(&v, 0, e);
    Account::new(s, copy_str(login_name), ServerKind::Nextcloud)
}

/// The account a manual connect creates: the normalised server URL and the
/// user name without surrounding whitespace.
pub fn manual_account(server_url: &str, username: &str, kind: ServerKind) -> (a: Account)
    ensures
        a@ == (AccountV {
            id: account_id_spec(normalized_url(server_url@), trim_ws(username@)),
            server_url: normalized_url(server_url@),
            username: trim_ws(username@),
            kind,
        }),
{
    Account::new(normalize_server_url(server_url), trim_str(username), kind)
}

} // verus!
