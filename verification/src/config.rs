//! Persistent, non-secret application configuration: the connected accounts
//! and the synced folders, with the migration applied after loading. App
//! passwords never live here. Reading and writing the JSON file is done by
//! the application.

use vstd::prelude::*;
use sha1::Digest;
use crate::text::{chars_of, copy_str, opt_view, push_char, str_eq, trim_end_c};

verus! {

/// The server platform an account connects to. Nextcloud and ownCloud share
/// the same WebDAV surface; this only affects the login flow.
#[derive(Clone, Copy, PartialEq, Eq, Debug, Structural)]
pub enum ServerKind {
    Nextcloud,
    Owncloud,
}

/// A connected account (identity only, no secret).
pub struct Account {
    /// Stable identifier, derived from `username@server_url`.
    pub id: String,
    /// Base server URL, e.g. `https://cloud.example.com` (no trailing slash).
    pub server_url: String,
    /// The login name.
    pub username: String,
    pub kind: ServerKind,
}

pub struct AccountV {
    pub id: Seq<char>,
    pub server_url: Seq<char>,
    pub username: Seq<char>,
    pub kind: ServerKind,
}

impl View for Account {
    type V = AccountV;

    open spec fn view(&self) -> AccountV {
        AccountV { id: self.id@, server_url: self.server_url@, username: self.username@, kind: self.kind }
    }
}

// ---------------------------------------------------------------------------
// Account ids
// ---------------------------------------------------------------------------

/// What SHA-1 gives for `data` (20 bytes).
pub uninterp spec fn sha1_digest(data: Seq<u8>) -> Seq<u8>;

/// `Sha1::new()`, one `update(data)` and `finalize()`, as bytes. Claims that
/// the digest is SHA-1 of `data` and 20 bytes long.
#[verifier::external_body]
fn sha1_bytes(data: &[u8]) -> (r: Vec<u8>)
    ensures
        r@ == sha1_digest(data@),
        r@.len() == 20,
{
    let mut h = <sha1::Sha1 as Digest>::new();
    h.update(data);
    h.finalize().to_vec()
}

/// Lower-case hex digit of a nibble.
pub open spec fn hex_digit(n: int) -> char {
    if n < 10 {
        ((n + 48) as u32) as char
    } else {
        ((n + 87) as u32) as char
    }
}

/// `hex::encode`: two lower-case hex digits per byte, high nibble first.
pub open spec fn hex_text(b: Seq<u8>) -> Seq<char>
    decreases b.len(),
{
    if b.len() == 0 {
        Seq::empty()
    } else {
        hex_text(b.drop_last()) + seq![hex_digit(b.last() as int / 16), hex_digit(b.last() as int % 16)]
    }
}

/// `hex::encode(bytes)`: lower-case hex, two digits per byte, high nibble
/// first, as its documentation states.
#[verifier::external_body]
fn hex_encode(bytes: &[u8]) -> (r: String)
    ensures
        r@ == hex_text(bytes@),
{
    hex::encode(bytes)
}

/// Text made only of lower-case hex digits.
pub open spec fn lower_hex(s: Seq<char>) -> bool {
    forall|k: int| 0 <= k < s.len() ==> ('0' <= #[trigger] s[k] <= '9' || 'a' <= s[k] <= 'f')
}

/// Hex text is two lower-case hex digits per byte.
pub proof fn lemma_hex_text(b: Seq<u8>)
    ensures
        hex_text(b).len() == 2 * b.len(),
        lower_hex(hex_text(b)),
    decreases b.len(),
{
    if b.len() > 0 {
        lemma_hex_text(b.drop_last());
        let hi = b.last() as int / 16;
        let lo = b.last() as int % 16;
        let p = hex_text(b.drop_last());
        let q = seq![hex_digit(hi), hex_digit(lo)];
        assert(0 <= hi < 16 && 0 <= lo < 16);
        assert(('0' <= hex_digit(hi) <= '9' || 'a' <= hex_digit(hi) <= 'f'));
        assert(('0' <= hex_digit(lo) <= '9' || 'a' <= hex_digit(lo) <= 'f'));
        assert forall|k: int| 0 <= k < (p + q).len() implies ('0' <= #[trigger] (p + q)[k] <= '9' || 'a' <= (p
            + q)[k] <= 'f') by {
            if k < p.len() {
                assert((p + q)[k] == p[k]);
            } else {
                assert((p + q)[k] == q[k - p.len()]);
            }
        }
    }
}

/// The bytes hashed for an account id: `username`, `@`, and the server URL
/// without trailing slashes, in UTF-8.
pub open spec fn account_id_input(server_url: Seq<char>, username: Seq<char>) -> Seq<u8> {
    vstd::utf8::encode_utf8(username) + seq![64u8] + vstd::utf8::encode_utf8(trim_end_c(server_url, '/'))
}

/// Deterministic, stable id for an account: hex of the first 8 bytes of the
/// SHA-1 of `username@server_url`.
pub open spec fn account_id_spec(server_url: Seq<char>, username: Seq<char>) -> Seq<char> {
    hex_text(sha1_digest(account_id_input(server_url, username)).take(8))
}

/// Deterministic, stable id for an account so re-adding the same server and
/// user does not duplicate it and migrations are reproducible.
pub fn account_id(server_url: &str, username: &str) -> (r: String)
    ensures
        r@ == account_id_spec(server_url@, username@),
        r@.len() == 16,
        lower_hex(r@),
{
    let v = chars_of(server_url);
    let b = crate::text::trim_end_bound(&v, 0, v.len(), '/');
    let trimmed = crate::text::string_of(&v, 0, b);
    proof {
        assert(v@.subrange(0, v@.len() as int) =~= v@);
    }
    let mut data: Vec<u8> = Vec::new();
    let ub = username.as_bytes();
    let tb = trimmed.as_str().as_bytes();
    let mut i: usize = 0;
    while i < ub.len()
        invariant
            0 <= i <= ub@.len(),
            data@ == ub@.take(i as int),
        decreases ub@.len() - i,
    {
        data.push(ub[i]);
        proof {
            assert(ub@.take(i + 1) =~= ub@.take(i as int).push(ub@[i as int]));
        }
        i = i + 1;
    }
    data.push(64u8);
    let ghost head = data@;
    let mut k: usize = 0;
    while k < tb.len()
        invariant
            0 <= k <= tb@.len(),
            data@ == head + tb@.take(k as int),
        decreases tb@.len() - k,
    {
        data.push(tb[k]);
        proof {
            assert(tb@.take(k + 1) =~= tb@.take(k as int).push(tb@[k as int]));
        }
        k = k + 1;
    }
    proof {
        assert(ub@.take(ub@.len() as int) =~= ub@);
        assert(tb@.take(tb@.len() as int) =~= tb@);
        assert(data@ =~= account_id_input(server_url@, username@));
    }
    let digest = sha1_bytes(data.as_slice());
    let mut first: Vec<u8> = Vec::new();
    let mut j: usize = 0;
    while j < 8
        invariant
            0 <= j <= 8,
            digest@.len() == 20,
            first@ == digest@.take(j as int),
        decreases 8 - j,
    {
        first.push(digest[j]);
        proof {
            assert(digest@.take(j + 1) =~= digest@.take(j as int).push(digest@[j as int]));
        }
        j = j + 1;
    }
    proof {
        lemma_hex_text(first@);
    }
    hex_encode(first.as_slice())
}

/// An account's id does not depend on trailing slashes of the server URL:
/// `https://host/` and `https://host` name the same account.
pub proof fn law_account_id_ignores_trailing_slash(server_url: Seq<char>, username: Seq<char>)
    ensures
        account_id_spec(server_url.push('/'), username) == account_id_spec(server_url, username),
{
    assert(server_url.push('/').drop_last() =~= server_url);
    assert(trim_end_c(server_url.push('/'), '/') == trim_end_c(server_url, '/'));
}

impl Account {
    /// A new account with its stable id computed.
    pub fn new(server_url: String, username: String, kind: ServerKind) -> (a: Account)
        ensures
            a@ == (AccountV {
                id: account_id_spec(server_url@, username@),
                server_url: server_url@,
                username: username@,
                kind,
            }),
            a.id@.len() == 16,
            lower_hex(a.id@),
    {
        let id = account_id(server_url.as_str(), username.as_str());
        Account { id, server_url, username, kind }
    }

    /// Compute the stable id if it is missing (migration / older configs).
    pub fn ensure_id(&mut self)
        ensures
            final(self)@ == ensure_id_spec(old(self)@),
            final(self)@.id.len() > 0,
    {
        if self.id.as_str().is_empty() {
            self.id = account_id(self.server_url.as_str(), self.username.as_str());
        }
    }

    pub fn duplicate(&self) -> (r: Account)
        ensures
            r@ == self@,
    {
        Account {
            id: copy_str(self.id.as_str()),
            server_url: copy_str(self.server_url.as_str()),
            username: copy_str(self.username.as_str()),
            kind: self.kind,
        }
    }
}

/// An account with its id filled in when it was missing.
pub open spec fn ensure_id_spec(a: AccountV) -> AccountV {
    if a.id.len() == 0 {
        AccountV { id: account_id_spec(a.server_url, a.username), ..a }
    } else {
        a
    }
}

// ---------------------------------------------------------------------------
// Folder pairs and the whole configuration
// ---------------------------------------------------------------------------

/// One folder pair kept in sync (always two-way) between the local disk and
/// a server.
pub struct SyncFolder {
    pub id: String,
    /// Which [`Account`] this folder syncs against.
    pub account_id: String,
    /// Absolute local directory path.
    pub local_path: String,
    /// Remote path relative to the user's WebDAV root, e.g. `/Music`.
    pub remote_path: String,
    /// When false the folder is registered but not actively synced.
    pub enabled: bool,
}

pub struct SyncFolderV {
    pub id: Seq<char>,
    pub account_id: Seq<char>,
    pub local_path: Seq<char>,
    pub remote_path: Seq<char>,
    pub enabled: bool,
}

impl View for SyncFolder {
    type V = SyncFolderV;

    open spec fn view(&self) -> SyncFolderV {
        SyncFolderV {
            id: self.id@,
            account_id: self.account_id@,
            local_path: self.local_path@,
            remote_path: self.remote_path@,
            enabled: self.enabled,
        }
    }
}

impl SyncFolder {
    pub fn duplicate(&self) -> (r: SyncFolder)
        ensures
            r@ == self@,
    {
        SyncFolder {
            id: copy_str(self.id.as_str()),
            account_id: copy_str(self.account_id.as_str()),
            local_path: copy_str(self.local_path.as_str()),
            remote_path: copy_str(self.remote_path.as_str()),
            enabled: self.enabled,
        }
    }
}

/// The default of a folder's `enabled` flag when the stored config lacks it.
pub fn default_true() -> (b: bool)
    ensures
        b,
{
    true
}

pub struct AppConfig {
    /// All connected accounts.
    pub accounts: Vec<Account>,
    /// The account currently browsed (by id).
    pub active_account: Option<String>,
    /// Legacy single-account field; migrated into `accounts` on load.
    pub account: Option<Account>,
    pub sync_folders: Vec<SyncFolder>,
    /// Global pause: when true the engine skips all runs.
    pub paused: bool,
    /// Glob-ish patterns; matching files and directories are never synced.
    pub ignore_patterns: Vec<String>,
}

pub open spec fn accounts_view(v: Seq<Account>) -> Seq<AccountV> {
    Seq::new(v.len(), |i: int| v[i]@)
}

pub open spec fn folders_view(v: Seq<SyncFolder>) -> Seq<SyncFolderV> {
    Seq::new(v.len(), |i: int| v[i]@)
}

pub open spec fn has_account(accts: Seq<AccountV>, id: Seq<char>) -> bool {
    exists|i: int| 0 <= i < accts.len() && accts[i].id == id
}

/// Accounts after the legacy single account (ids filled in) is folded in.
pub open spec fn merged_accounts(accts: Seq<AccountV>, legacy: Option<AccountV>) -> Seq<AccountV> {
    let base = Seq::new(accts.len(), |i: int| ensure_id_spec(accts[i]));
    match legacy {
        Some(old) => {
            let o = ensure_id_spec(old);
            if has_account(base, o.id) {
                base
            } else {
                base.push(o)
            }
        },
        None => base,
    }
}

/// The active account after migration: kept when it names a known account,
/// else the first account's id.
pub open spec fn migrated_active(accts: Seq<AccountV>, active: Option<Seq<char>>) -> Option<Seq<char>> {
    match active {
        Some(id) => if has_account(accts, id) {
            Some(id)
        } else if accts.len() > 0 {
            Some(accts[0].id)
        } else {
            None
        },
        None => if accts.len() > 0 {
            Some(accts[0].id)
        } else {
            None
        },
    }
}

/// Folders after migration: those without an account are bound to the
/// active account, when there is one.
pub open spec fn migrated_folders(fs: Seq<SyncFolderV>, active: Option<Seq<char>>) -> Seq<SyncFolderV> {
    match active {
        Some(d) => Seq::new(
            fs.len(),
            |i: int|
                if fs[i].account_id.len() == 0 {
                    SyncFolderV { account_id: d, ..fs[i] }
                } else {
                    fs[i]
                },
        ),
        None => fs,
    }
}

/// Migration settles after one run: on a configuration as `migrate` leaves
/// it (no legacy account, every account with an id, the active account and
/// the folder pairs migrated from any earlier values), a second migration
/// keeps the accounts, the active account and the folder pairs as they are.
pub proof fn law_migrate_settles(
    accts: Seq<AccountV>,
    active_before: Option<Seq<char>>,
    folders_before: Seq<SyncFolderV>,
)
    requires
        forall|i: int| 0 <= i < accts.len() ==> (#[trigger] accts[i]).id.len() > 0,
    ensures
        ({
            let active = migrated_active(accts, active_before);
            let folders = migrated_folders(folders_before, active);
            &&& merged_accounts(accts, None) == accts
            &&& migrated_active(merged_accounts(accts, None), active) == active
            &&& migrated_folders(folders, migrated_active(merged_accounts(accts, None), active)) == folders
        }),
{
    let base = Seq::new(accts.len(), |i: int| ensure_id_spec(accts[i]));
    assert(base =~= accts);
    let active = migrated_active(accts, active_before);
    if accts.len() > 0 {
        assert(has_account(accts, accts[0].id));
    }
    match active_before {
        Some(id) => if has_account(accts, id) {
            assert(has_account(accts, id));
        },
        None => {},
    }
    let folders = migrated_folders(folders_before, active);
    match active {
        Some(d) => {
            assert(migrated_folders(folders, active) =~= folders);
        },
        None => {},
    }
}

pub open spec fn opt_account(o: Option<Account>) -> Option<AccountV> {
    match o {
        Some(a) => Some(a@),
        None => None,
    }
}

fn find_account(accts: &Vec<Account>, id: &str) -> (r: Option<usize>)
    ensures
        r matches Some(i) ==> i < accts@.len() && accts@[i as int]@.id == id@ && forall|j: int|
            0 <= j < i ==> accts@[j]@.id != id@,
        r is None ==> !has_account(accounts_view(accts@), id@),
{
    let mut i: usize = 0;
    while i < accts.len()
        invariant
            0 <= i <= accts@.len(),
            forall|j: int| 0 <= j < i ==> accts@[j]@.id != id@,
        decreases accts@.len() - i,
    {
        if str_eq(accts[i].id.as_str(), id) {
            return Some(i);
        }
        i = i + 1;
    }
    proof {
        assert forall|j: int| 0 <= j < accounts_view(accts@).len() implies accounts_view(accts@)[j].id != id@ by {
            assert(accounts_view(accts@)[j] == accts@[j]@);
        }
    }
    None
}

impl AppConfig {
    /// Fold a legacy single `account` into the `accounts` list, backfill
    /// account ids, pick an active account, and bind orphan folders to it.
    #[verifier::spinoff_prover]
    pub fn migrate(&mut self)
        ensures
            accounts_view(final(self).accounts@) == merged_accounts(
                accounts_view(old(self).accounts@),
                opt_account(old(self).account),
            ),
            final(self).account is None,
            opt_view(final(self).active_account) == migrated_active(
                accounts_view(final(self).accounts@),
                opt_view(old(self).active_account),
            ),
            folders_view(final(self).sync_folders@) == migrated_folders(
                folders_view(old(self).sync_folders@),
                opt_view(final(self).active_account),
            ),
            final(self).paused == old(self).paused,
            final(self).ignore_patterns@ == old(self).ignore_patterns@,
            forall|i: int|
                0 <= i < final(self).accounts@.len() ==> (#[trigger] final(self).accounts@[i])@.id.len() > 0,
    {
        let ghost oa = accounts_view(self.accounts@);
        let mut accts: Vec<Account> = Vec::new();
        let mut i: usize = 0;
        while i < self.accounts.len()
            invariant
                oa == accounts_view(self.accounts@),
                0 <= i <= oa.len(),
                accounts_view(accts@) =~= Seq::new(i as nat, |x: int| ensure_id_spec(oa[x])),
                forall|x: int| 0 <= x < accts@.len() ==> (#[trigger] accts@[x])@.id.len() > 0,
            decreases oa.len() - i,
        {
            let mut a = self.accounts[i].duplicate();
            a.ensure_id();
            let ghost before = accts@;
            accts.push(a);
            proof {
                assert(accounts_view(accts@) =~= accounts_view(before).push(a@));
                assert(oa[i as int] == self.accounts@[i as int]@);
            }
            i = i + 1;
        }
        let ghost base = accounts_view(accts@);
        proof {
            assert(base =~= Seq::new(oa.len(), |x: int| ensure_id_spec(oa[x])));
        }
        let legacy = self.account.take();
        match legacy {
            Some(old_account) => {
                let mut o = old_account;
                o.ensure_id();
                match find_account(&accts, o.id.as_str()) {
                    Some(x) => {
                        proof {
                            assert(base[x as int] == accts@[x as int]@);
                            assert(has_account(base, o@.id));
                        }
                    },
                    None => {
                        let ghost before = accts@;
                        accts.push(o);
                        proof {
                            assert(accounts_view(accts@) =~= accounts_view(before).push(o@));
                        }
                    },
                }
            },
            None => {},
        }
        proof {
            assert(accounts_view(accts@) == merged_accounts(oa, opt_account(old(self).account)));
        }
        self.accounts = accts;
        let keep = match &self.active_account {
            Some(id) => {
                let found = find_account(&self.accounts, id.as_str());
                proof {
                    if let Some(x) = found {
                        assert(accounts_view(self.accounts@)[x as int] == self.accounts@[x as int]@);
                        assert(has_account(accounts_view(self.accounts@), id@));
                    }
                }
                found.is_some()
            },
            None => false,
        };
        if !keep {
            self.active_account = if self.accounts.len() > 0 {
                Some(copy_str(self.accounts[0].id.as_str()))
            } else {
                None
            };
            proof {
                if self.accounts@.len() > 0 {
                    assert(accounts_view(self.accounts@)[0] == self.accounts@[0]@);
                }
            }
        }
        let ghost of = folders_view(self.sync_folders@);
        match &self.active_account {
            Some(d) => {
                let mut fs: Vec<SyncFolder> = Vec::new();
                let mut k: usize = 0;
                while k < self.sync_folders.len()
                    invariant
                        of == folders_view(self.sync_folders@),
                        0 <= k <= of.len(),
                        folders_view(fs@) =~= Seq::new(
                            k as nat,
                            |x: int|
                                if of[x].account_id.len() == 0 {
                                    SyncFolderV { account_id: d@, ..of[x] }
                                } else {
                                    of[x]
                                },
                        ),
                    decreases of.len() - k,
                {
                    let mut f = self.sync_folders[k].duplicate();
                    if f.account_id.as_str().is_empty() {
                        f.account_id = copy_str(d.as_str());
                    }
                    let ghost before = fs@;
                    fs.push(f);
                    proof {
                        assert(folders_view(fs@) =~= folders_view(before).push(f@));
                        assert(of[k as int] == self.sync_folders@[k as int]@);
                    }
                    k = k + 1;
                }
                self.sync_folders = fs;
            },
            None => {},
        }
    }

    /// The account with the given id.
    pub fn account_by_id(&self, id: &str) -> (r: Option<&Account>)
        ensures
            r matches Some(a) ==> exists|i: int|
                0 <= i < self.accounts@.len() && self.accounts@[i] == *a && a@.id == id@ && forall|j: int|
                    0 <= j < i ==> self.accounts@[j]@.id != id@,
            r is None ==> !has_account(accounts_view(self.accounts@), id@),
    {
        match find_account(&self.accounts, id) {
            Some(i) => Some(&self.accounts[i]),
            None => None,
        }
    }
}

/// Accounts after `a` is connected: appended unless one with its id is
/// already there.
pub open spec fn with_account(accts: Seq<AccountV>, a: AccountV) -> Seq<AccountV> {
    if has_account(accts, a.id) {
        accts
    } else {
        accts.push(a)
    }
}

/// Accounts without those whose id is `id`.
pub open spec fn without_account(accts: Seq<AccountV>, id: Seq<char>) -> Seq<AccountV>
    decreases accts.len(),
{
    if accts.len() == 0 {
        Seq::empty()
    } else {
        let prev = without_account(accts.drop_last(), id);
        if accts.last().id == id {
            prev
        } else {
            prev.push(accts.last())
        }
    }
}

/// Folder pairs without those bound to account `id`.
pub open spec fn without_folders_of(fs: Seq<SyncFolderV>, id: Seq<char>) -> Seq<SyncFolderV>
    decreases fs.len(),
{
    if fs.len() == 0 {
        Seq::empty()
    } else {
        let prev = without_folders_of(fs.drop_last(), id);
        if fs.last().account_id == id {
            prev
        } else {
            prev.push(fs.last())
        }
    }
}

/// The active account once account `id` is gone: the first remaining one
/// when `id` was active, else unchanged.
pub open spec fn active_after_removal(active: Option<Seq<char>>, remaining: Seq<AccountV>, id: Seq<char>) -> Option<Seq<char>> {
    if active == Some(id) {
        if remaining.len() > 0 {
            Some(remaining[0].id)
        } else {
            None
        }
    } else {
        active
    }
}

impl Account {
    /// The keyring user an account's app password is stored under:
    /// `<username>@<server url>`.
    pub fn keyring_user(&self) -> (r: String)
        ensures
            r@ == self.username@ + seq!['@'] + self.server_url@,
    {
        let mut r = copy_str(self.username.as_str());
        crate::text::push_char(&mut r, '@');
        r.append(self.server_url.as_str());
        r
    }
}

impl AppConfig {
    /// Record a freshly connected account (once) and make it the active one
    /// when none is set yet.
    pub fn add_account(&mut self, account: Account)
        ensures
            accounts_view(final(self).accounts@) == with_account(accounts_view(old(self).accounts@), account@),
            opt_view(final(self).active_account) == match opt_view(old(self).active_account) {
                Some(x) => Some(x),
                None => Some(account@.id),
            },
            folders_view(final(self).sync_folders@) == folders_view(old(self).sync_folders@),
            opt_account(final(self).account) == opt_account(old(self).account),
            final(self).paused == old(self).paused,
            final(self).ignore_patterns@ == old(self).ignore_patterns@,
    {
        if self.active_account.is_none() {
            self.active_account = Some(copy_str(account.id.as_str()));
        }
        match find_account(&self.accounts, account.id.as_str()) {
            Some(x) => {
                proof {
                    assert(accounts_view(self.accounts@)[x as int] == self.accounts@[x as int]@);
                }
            },
            None => {
                let ghost before = self.accounts@;
                self.accounts.push(account);
                proof {
                    assert(accounts_view(self.accounts@) =~= accounts_view(before).push(account@));
                }
            },
        }
    }

    /// Forget account `id`: drop it and the folder pairs bound to it, and
    /// move the active account to the first remaining one if it was active.
    #[verifier::spinoff_prover]
    pub fn remove_account(&mut self, id: &str)
        ensures
            accounts_view(final(self).accounts@) == without_account(accounts_view(old(self).accounts@), id@),
            folders_view(final(self).sync_folders@) == without_folders_of(
                folders_view(old(self).sync_folders@),
                id@,
            ),
            opt_view(final(self).active_account) == active_after_removal(
                opt_view(old(self).active_account),
                accounts_view(final(self).accounts@),
                id@,
            ),
            opt_account(final(self).account) == opt_account(old(self).account),
            final(self).paused == old(self).paused,
            final(self).ignore_patterns@ == old(self).ignore_patterns@,
    {
        let ghost oa = accounts_view(self.accounts@);
        let mut accts: Vec<Account> = Vec::new();
        let mut i: usize = 0;
        proof {
            assert(oa.take(0) =~= Seq::<AccountV>::empty());
        }
        while i < self.accounts.len()
            invariant
                oa == accounts_view(self.accounts@),
                0 <= i <= oa.len(),
                accounts_view(accts@) == without_account(oa.take(i as int), id@),
            decreases oa.len() - i,
        {
            proof {
                assert(oa.take(i + 1).drop_last() =~= oa.take(i as int));
                assert(oa[i as int] == self.accounts@[i as int]@);
            }
            if !str_eq(self.accounts[i].id.as_str(), id) {
                let a = self.accounts[i].duplicate();
                let ghost before = accts@;
                accts.push(a);
                proof {
                    assert(accounts_view(accts@) =~= accounts_view(before).push(a@));
                }
            }
            i = i + 1;
        }
        proof {
            assert(oa.take(oa.len() as int) =~= oa);
        }
        let ghost of = folders_view(self.sync_folders@);
        let mut fs: Vec<SyncFolder> = Vec::new();
        let mut k: usize = 0;
        proof {
            assert(of.take(0) =~= Seq::<SyncFolderV>::empty());
        }
        while k < self.sync_folders.len()
            invariant
                of == folders_view(self.sync_folders@),
                0 <= k <= of.len(),
                folders_view(fs@) == without_folders_of(of.take(k as int), id@),
            decreases of.len() - k,
        {
            proof {
                assert(of.take(k + 1).drop_last() =~= of.take(k as int));
                assert(of[k as int] == self.sync_folders@[k as int]@);
            }
            if !str_eq(self.sync_folders[k].account_id.as_str(), id) {
                let f = self.sync_folders[k].duplicate();
                let ghost before = fs@;
                fs.push(f);
                proof {
                    assert(folders_view(fs@) =~= folders_view(before).push(f@));
                }
            }
            k = k + 1;
        }
        proof {
            assert(of.take(of.len() as int) =~= of);
        }
        self.accounts = accts;
        self.sync_folders = fs;
        let was_active = match &self.active_account {
            Some(a) => str_eq(a.as_str(), id),
            None => false,
        };
        if was_active {
            self.active_account = if self.accounts.len() > 0 {
                Some(copy_str(self.accounts[0].id.as_str()))
            } else {
                None
            };
            proof {
                if self.accounts@.len() > 0 {
                    assert(accounts_view(self.accounts@)[0] == self.accounts@[0]@);
                }
            }
        }
    }
}

/// Folder pairs without those whose id is `id`.
pub open spec fn without_folder(fs: Seq<SyncFolderV>, id: Seq<char>) -> Seq<SyncFolderV>
    decreases fs.len(),
{
    if fs.len() == 0 {
        Seq::empty()
    } else {
        let prev = without_folder(fs.drop_last(), id);
        if fs.last().id == id {
            prev
        } else {
            prev.push(fs.last())
        }
    }
}

/// Folder pairs with the enabled flag of every pair with id `id` set.
pub open spec fn with_folder_enabled(fs: Seq<SyncFolderV>, id: Seq<char>, enabled: bool) -> Seq<SyncFolderV> {
    Seq::new(
        fs.len(),
        |i: int|
            if fs[i].id == id {
                SyncFolderV { enabled, ..fs[i] }
            } else {
                fs[i]
            },
    )
}

pub open spec fn has_folder(fs: Seq<SyncFolderV>, id: Seq<char>) -> bool {
    exists|i: int| 0 <= i < fs.len() && fs[i].id == id
}

impl AppConfig {
    /// Forget folder pair `id`.
    pub fn remove_folder(&mut self, id: &str)
        ensures
            folders_view(final(self).sync_folders@) == without_folder(folders_view(old(self).sync_folders@), id@),
            accounts_view(final(self).accounts@) == accounts_view(old(self).accounts@),
            opt_view(final(self).active_account) == opt_view(old(self).active_account),
            opt_account(final(self).account) == opt_account(old(self).account),
            final(self).paused == old(self).paused,
            final(self).ignore_patterns@ == old(self).ignore_patterns@,
    {
        let ghost of = folders_view(self.sync_folders@);
        let mut fs: Vec<SyncFolder> = Vec::new();
        let mut k: usize = 0;
        proof {
            assert(of.take(0) =~= Seq::<SyncFolderV>::empty());
        }
        while k < self.sync_folders.len()
            invariant
                of == folders_view(self.sync_folders@),
                0 <= k <= of.len(),
                folders_view(fs@) == without_folder(of.take(k as int), id@),
            decreases of.len() - k,
        {
            proof {
                assert(of.take(k + 1).drop_last() =~= of.take(k as int));
                assert(of[k as int] == self.sync_folders@[k as int]@);
            }
            if !str_eq(self.sync_folders[k].id.as_str(), id) {
                let f = self.sync_folders[k].duplicate();
                let ghost before = fs@;
                fs.push(f);
                proof {
                    assert(folders_view(fs@) =~= folders_view(before).push(f@));
                }
            }
            k = k + 1;
        }
        proof {
            assert(of.take(of.len() as int) =~= of);
        }
        self.sync_folders = fs;
    }

    /// Enable or disable folder pair `id`; an error when there is none.
    pub fn set_folder_enabled(&mut self, id: &str, enabled: bool) -> (r: Result<(), String>)
        ensures
            r is Ok <==> has_folder(folders_view(old(self).sync_folders@), id@),
            r matches Err(m) ==> m@ == "unknown sync folder"@,
            folders_view(final(self).sync_folders@) == with_folder_enabled(
                folders_view(old(self).sync_folders@),
                id@,
                enabled,
            ),
            accounts_view(final(self).accounts@) == accounts_view(old(self).accounts@),
            opt_view(final(self).active_account) == opt_view(old(self).active_account),
            opt_account(final(self).account) == opt_account(old(self).account),
            final(self).paused == old(self).paused,
            final(self).ignore_patterns@ == old(self).ignore_patterns@,
    {
        let ghost of = folders_view(self.sync_folders@);
        let mut fs: Vec<SyncFolder> = Vec::new();
        let mut found = false;
        let mut k: usize = 0;
        while k < self.sync_folders.len()
            invariant
                of == folders_view(self.sync_folders@),
                0 <= k <= of.len(),
                folders_view(fs@) =~= with_folder_enabled(of, id@, enabled).take(k as int),
                found == has_folder(of.take(k as int), id@),
            decreases of.len() - k,
        {
            let mut f = self.sync_folders[k].duplicate();
            let hit = str_eq(f.id.as_str(), id);
            if hit {
                f.enabled = enabled;
            }
            let ghost before = fs@;
            fs.push(f);
            proof {
                assert(of[k as int] == self.sync_folders@[k as int]@);
                assert(folders_view(fs@) =~= folders_view(before).push(f@));
                assert(with_folder_enabled(of, id@, enabled).take(k + 1) =~= with_folder_enabled(of, id@, enabled).take(
                    k as int,
                ).push(with_folder_enabled(of, id@, enabled)[k as int]));
                if has_folder(of.take(k + 1), id@) && !hit {
                    let t = of.take(k + 1);
                    let i = choose|i: int| 0 <= i < t.len() && t[i].id == id@;
                    assert(of.take(k as int)[i] == of[i]);
                }
                if has_folder(of.take(k as int), id@) {
                    let t = of.take(k as int);
                    let i = choose|i: int| 0 <= i < t.len() && t[i].id == id@;
                    assert(of.take(k + 1)[i] == of[i]);
                }
                if hit {
                    assert(of.take(k + 1)[k as int] == of[k as int]);
                }
            }
            found = found || hit;
            k = k + 1;
        }
        proof {
            assert(of.take(of.len() as int) =~= of);
        }
        self.sync_folders = fs;
        if found {
            Ok(())
        } else {
            Err(copy_str("unknown sync folder"))
        }
    }

    /// Record a new folder pair.
    pub fn add_folder(&mut self, folder: SyncFolder)
        ensures
            folders_view(final(self).sync_folders@) == folders_view(old(self).sync_folders@).push(folder@),
            accounts_view(final(self).accounts@) == accounts_view(old(self).accounts@),
            opt_view(final(self).active_account) == opt_view(old(self).active_account),
            opt_account(final(self).account) == opt_account(old(self).account),
            final(self).paused == old(self).paused,
            final(self).ignore_patterns@ == old(self).ignore_patterns@,
    {
        let ghost before = self.sync_folders@;
        self.sync_folders.push(folder);
        proof {
            assert(folders_view(self.sync_folders@) =~= folders_view(before).push(folder@));
        }
    }
}

proof fn lemma_without_folder(fs: Seq<SyncFolderV>, id: Seq<char>)
    ensures
        !has_folder(without_folder(fs, id), id),
        forall|f: SyncFolderV| #[trigger] without_folder(fs, id).contains(f) <==> (f.id != id && fs.contains(f)),
    decreases fs.len(),
{
    if fs.len() > 0 {
        let d = fs.drop_last();
        lemma_without_folder(d, id);
        let prev = without_folder(d, id);
        assert forall|f: SyncFolderV| #[trigger] without_folder(fs, id).contains(f) <==> (f.id != id && fs.contains(f)) by {
            if f.id != id && fs.contains(f) {
                let m = choose|m: int| 0 <= m < fs.len() && fs[m] == f;
                if m < fs.len() - 1 {
                    assert(d[m] == f);
                    assert(d.contains(f));
                    assert(without_folder(d, id).contains(f));
                    let q = choose|q: int| 0 <= q < prev.len() && prev[q] == f;
                    if fs.last().id != id {
                        assert(prev.push(fs.last())[q] == f);
                    }
                } else {
                    assert(prev.push(fs.last())[prev.len() as int] == f);
                }
            }
            if without_folder(fs, id).contains(f) {
                let q = choose|q: int| 0 <= q < without_folder(fs, id).len() && without_folder(fs, id)[q] == f;
                if q < prev.len() {
                    assert(prev[q] == f);
                    assert(prev.contains(f));
                    let m = choose|m: int| 0 <= m < d.len() && d[m] == f;
                    assert(fs[m] == f);
                } else {
                    assert(fs[fs.len() - 1] == f);
                }
            }
        }
        if fs.last().id != id {
            assert forall|i: int| 0 <= i < prev.push(fs.last()).len() implies prev.push(fs.last())[i].id != id by {
                if i < prev.len() {
                    assert(prev.push(fs.last())[i] == prev[i]);
                }
            }
        }
    }
}

/// Removing a folder pair leaves no pair with its id and keeps every other
/// pair; toggling one pair changes only its enabled flag.
pub proof fn law_folder_edits(fs: Seq<SyncFolderV>, id: Seq<char>, enabled: bool)
    ensures
        !has_folder(without_folder(fs, id), id),
        forall|f: SyncFolderV| #[trigger] without_folder(fs, id).contains(f) <==> (f.id != id && fs.contains(f)),
        with_folder_enabled(fs, id, enabled).len() == fs.len(),
        forall|i: int|
            0 <= i < fs.len() ==> (#[trigger] with_folder_enabled(fs, id, enabled)[i]).id == fs[i].id
                && with_folder_enabled(fs, id, enabled)[i].local_path == fs[i].local_path
                && with_folder_enabled(fs, id, enabled)[i].remote_path == fs[i].remote_path
                && with_folder_enabled(fs, id, enabled)[i].account_id == fs[i].account_id
                && with_folder_enabled(fs, id, enabled)[i].enabled == if fs[i].id == id {
                enabled
            } else {
                fs[i].enabled
            },
{
    lemma_without_folder(fs, id);
}

/// Every account left after `without_account(accts, id)` keeps its place
/// among the others and none has id `id`.
proof fn lemma_without_account(accts: Seq<AccountV>, id: Seq<char>)
    ensures
        !has_account(without_account(accts, id), id),
        forall|a: AccountV| #[trigger] without_account(accts, id).contains(a) ==> accts.contains(a),
    decreases accts.len(),
{
    if accts.len() > 0 {
        lemma_without_account(accts.drop_last(), id);
        let prev = without_account(accts.drop_last(), id);
        assert forall|a: AccountV| #[trigger] without_account(accts, id).contains(a) implies accts.contains(a) by {
            if prev.contains(a) {
                let k = choose|k: int| 0 <= k < prev.len() && prev[k] == a;
                assert(accts.drop_last().contains(a));
                let j = choose|j: int| 0 <= j < accts.drop_last().len() && accts.drop_last()[j] == a;
                assert(accts[j] == a);
            } else {
                assert(a == accts.last());
                assert(accts[accts.len() - 1] == a);
            }
        }
        if accts.last().id != id {
            assert forall|i: int| 0 <= i < prev.push(accts.last()).len() implies prev.push(accts.last())[i].id != id by {
                if i < prev.len() {
                    assert(prev.push(accts.last())[i] == prev[i]);
                }
            }
        }
    }
}

proof fn lemma_without_folders(fs: Seq<SyncFolderV>, id: Seq<char>)
    ensures
        forall|i: int| 0 <= i < without_folders_of(fs, id).len() ==> (#[trigger] without_folders_of(fs, id)[i]).account_id != id,
    decreases fs.len(),
{
    if fs.len() > 0 {
        lemma_without_folders(fs.drop_last(), id);
        let prev = without_folders_of(fs.drop_last(), id);
        if fs.last().account_id != id {
            assert forall|i: int| 0 <= i < prev.push(fs.last()).len() implies (#[trigger] prev.push(fs.last())[i]).account_id != id by {
                if i < prev.len() {
                    assert(prev.push(fs.last())[i] == prev[i]);
                }
            }
        }
    }
}

/// Connecting an account that is already connected changes nothing.
pub proof fn law_add_account_idempotent(accts: Seq<AccountV>, a: AccountV)
    ensures
        with_account(with_account(accts, a), a) == with_account(accts, a),
{
    if !has_account(accts, a.id) {
        assert(accts.push(a)[accts.len() as int] == a);
        assert(has_account(accts.push(a), a.id));
    }
}

/// Disconnecting an account leaves no account with its id and no folder
/// pair bound to it, and every account that stays was there before.
pub proof fn law_removed_account_is_gone(accts: Seq<AccountV>, fs: Seq<SyncFolderV>, id: Seq<char>)
    ensures
        !has_account(without_account(accts, id), id),
        forall|a: AccountV| #[trigger] without_account(accts, id).contains(a) ==> accts.contains(a),
        forall|i: int|
            0 <= i < without_folders_of(fs, id).len() ==> (#[trigger] without_folders_of(fs, id)[i]).account_id != id,
{
    lemma_without_account(accts, id);
    lemma_without_folders(fs, id);
}

/// Connecting an account and then disconnecting it leaves the other
/// accounts exactly as they were.
pub proof fn law_add_then_remove(accts: Seq<AccountV>, a: AccountV)
    ensures
        without_account(with_account(accts, a), a.id) == without_account(accts, a.id),
{
    if !has_account(accts, a.id) {
        assert(accts.push(a).drop_last() =~= accts);
    }
}

proof fn lemma_hex_len(b: Seq<u8>)
    ensures
        hex_text(b).len() == 2 * b.len(),
    decreases b.len(),
{
    if b.len() > 0 {
        lemma_hex_len(b.drop_last());
    }
}

proof fn lemma_hex_prefix(b: Seq<u8>, k: int)
    requires
        0 <= k <= b.len(),
    ensures
        hex_text(b).take(2 * k) == hex_text(b.take(k)),
    decreases b.len(),
{
    lemma_hex_len(b);
    if k == b.len() {
        assert(b.take(k) =~= b);
        assert(hex_text(b).take(2 * k) =~= hex_text(b));
    } else {
        let d = b.drop_last();
        lemma_hex_len(d);
        lemma_hex_prefix(d, k);
        assert(d.take(k) =~= b.take(k));
        assert(hex_text(b).take(2 * k) =~= hex_text(d).take(2 * k));
    }
}

/// First 16 hex digits of the SHA-1 of `s` (UTF-8).
pub open spec fn short_hash_spec(s: Seq<char>) -> Seq<char> {
    hex_text(sha1_digest(vstd::utf8::encode_utf8(s))).take(16)
}

/// First 16 hex chars of the SHA-1 of `s`: a compact, stable key for a
/// string (a cache file name, a chunked-upload session).
pub fn short_hash(s: &str) -> (r: String)
    ensures
        r@ == short_hash_spec(s@),
{
    let digest = sha1_bytes(s.as_bytes());
    let mut first: Vec<u8> = Vec::new();
    let mut j: usize = 0;
    while j < 8
        invariant
            0 <= j <= 8,
            digest@.len() == 20,
            first@ == digest@.take(j as int),
        decreases 8 - j,
    {
        first.push(digest[j]);
        proof {
            assert(digest@.take(j + 1) =~= digest@.take(j as int).push(digest@[j as int]));
        }
        j = j + 1;
    }
    proof {
        lemma_hex_prefix(digest@, 8);
    }
    hex_encode(first.as_slice())
}

} // verus!
