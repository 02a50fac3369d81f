//! The sync status surface (tray, widget, UI) and the decisions of a sync
//! round around the engine: status after pausing, after a finished round,
//! the notices shown to the user, and the checks made when a folder pair is
//! added.

use vstd::prelude::*;
use crate::config::{SyncFolder, SyncFolderV, folders_view};
use crate::journal::Journal;
use crate::num::{digits, u64_digits};
use crate::paths::{paths_overlap, paths_overlap_spec, dav_under, dav_under_spec};
use crate::text::{clone_opt, copy_str, opt_view, str_eq, trim_str, trim_ws};

verus! {

/// Coarse sync state, mirrored to the widget.
#[derive(Clone, Copy, PartialEq, Eq, Debug, Structural)]
pub enum SyncState {
    Idle,
    Syncing,
    Paused,
    Error,
    Offline,
}

pub struct SyncStatus {
    pub state: SyncState,
    pub active_folder: Option<String>,
    pub message: Option<String>,
    pub last_sync: Option<String>,
    pub folder_count: usize,
    pub paused: bool,
}

pub struct SyncStatusV {
    pub state: SyncState,
    pub active_folder: Option<Seq<char>>,
    pub message: Option<Seq<char>>,
    pub last_sync: Option<Seq<char>>,
    pub folder_count: usize,
    pub paused: bool,
}

impl View for SyncStatus {
    type V = SyncStatusV;

    open spec fn view(&self) -> SyncStatusV {
        SyncStatusV {
            state: self.state,
            active_folder: opt_view(self.active_folder),
            message: opt_view(self.message),
            last_sync: opt_view(self.last_sync),
            folder_count: self.folder_count,
            paused: self.paused,
        }
    }
}

pub open spec fn fresh_status(count: usize) -> SyncStatusV {
    SyncStatusV {
        state: SyncState::Idle,
        active_folder: None,
        message: None,
        last_sync: None,
        folder_count: count,
        paused: false,
    }
}

impl SyncStatus {
    /// An idle status for `count` enabled folders.
    pub fn new(count: usize) -> (s: SyncStatus)
        ensures
            s@ == fresh_status(count),
    {
        SyncStatus { state: SyncState::Idle, active_folder: None, message: None, last_sync: None, folder_count: count, paused: false }
    }

    pub fn duplicate(&self) -> (r: SyncStatus)
        ensures
            r@ == self@,
    {
        SyncStatus {
            state: self.state,
            active_folder: clone_opt(&self.active_folder),
            message: clone_opt(&self.message),
            last_sync: clone_opt(&self.last_sync),
            folder_count: self.folder_count,
            paused: self.paused,
        }
    }
}

/// The status published right after the pause flag changes: paused or idle,
/// and a resumed engine drops the previous message.
pub fn paused_status(current: &SyncStatus, paused: bool) -> (s: SyncStatus)
    ensures
        s@ == (SyncStatusV {
            paused,
            state: if paused {
                SyncState::Paused
            } else {
                SyncState::Idle
            },
            message: if paused {
                current@.message
            } else {
                None
            },
            ..current@
        }),
{
    let mut s = current.duplicate();
    s.paused = paused;
    s.state = if paused { SyncState::Paused } else { SyncState::Idle };
    if !paused {
        s.message = None;
    }
    s
}

/// An interim status (paused, offline, syncing): the time the folders last
/// finished a full round is kept.
pub fn interim_status(
    state: SyncState,
    active: Option<String>,
    message: Option<String>,
    count: usize,
    paused: bool,
    last_sync: Option<String>,
) -> (s: SyncStatus)
    ensures
        s@ == (SyncStatusV {
            state,
            active_folder: opt_view(active),
            message: opt_view(message),
            last_sync: opt_view(last_sync),
            folder_count: count,
            paused,
        }),
{
    SyncStatus { state, active_folder: active, message, last_sync, folder_count: count, paused }
}

/// The status after a completed round: an error when any folder failed,
/// else idle, stamped with the round's end time.
pub fn finished_status(count: usize, last_error: Option<String>, now: String) -> (s: SyncStatus)
    ensures
        s@ == (SyncStatusV {
            state: if last_error is Some {
                SyncState::Error
            } else {
                SyncState::Idle
            },
            message: opt_view(last_error),
            last_sync: Some(now@),
            ..fresh_status(count)
        }),
{
    let mut s = SyncStatus::new(count);
    s.state = if last_error.is_some() { SyncState::Error } else { SyncState::Idle };
    s.message = last_error;
    s.last_sync = Some(now);
    s
}

pub open spec fn state_text(state: SyncState) -> Seq<char> {
    match state {
        SyncState::Idle => "idle"@,
        SyncState::Syncing => "syncing"@,
        SyncState::Paused => "paused"@,
        SyncState::Error => "error"@,
        SyncState::Offline => "offline"@,
    }
}

/// The state's name on the widget interface.
pub fn state_string(state: SyncState) -> (r: &'static str)
    ensures
        r@ == state_text(state),
{
    match state {
        SyncState::Idle => "idle",
        SyncState::Syncing => "syncing",
        SyncState::Paused => "paused",
        SyncState::Error => "error",
        SyncState::Offline => "offline",
    }
}

/// RGBA colour of the tray badge for a state.
pub fn badge_color(state: SyncState) -> (c: [u8; 4])
    ensures
        c@ == match state {
            SyncState::Idle => seq![39u8, 174u8, 96u8, 255u8],
            SyncState::Syncing => seq![61u8, 174u8, 233u8, 255u8],
            SyncState::Paused => seq![246u8, 116u8, 0u8, 255u8],
            SyncState::Error => seq![218u8, 68u8, 83u8, 255u8],
            SyncState::Offline => seq![127u8, 140u8, 141u8, 255u8],
        },
{
    let c: [u8; 4] = match state {
        SyncState::Idle => [39, 174, 96, 255],
        SyncState::Syncing => [61, 174, 233, 255],
        SyncState::Paused => [246, 116, 0, 255],
        SyncState::Error => [218, 68, 83, 255],
        SyncState::Offline => [127, 140, 141, 255],
    };
    proof {
        assert(c@ =~= match state {
            SyncState::Idle => seq![39u8, 174u8, 96u8, 255u8],
            SyncState::Syncing => seq![61u8, 174u8, 233u8, 255u8],
            SyncState::Paused => seq![246u8, 116u8, 0u8, 255u8],
            SyncState::Error => seq![218u8, 68u8, 83u8, 255u8],
            SyncState::Offline => seq![127u8, 140u8, 141u8, 255u8],
        });
    }
    c
}

pub open spec fn tooltip_spec(s: SyncStatusV) -> Seq<char> {
    match s.state {
        SyncState::Idle => "Cirrust — synced"@,
        SyncState::Syncing => match s.active_folder {
            Some(f) => "Cirrust — syncing "@ + f,
            None => "Cirrust — syncing…"@,
        },
        SyncState::Paused => "Cirrust — sync paused"@,
        SyncState::Error => "Cirrust — sync error"@,
        SyncState::Offline => match s.message {
            Some(m) => "Cirrust — offline: "@ + m,
            None => "Cirrust — offline / not signed in"@,
        },
    }
}

/// The tray tooltip for a status.
pub fn tooltip(status: &SyncStatus) -> (r: String)
    ensures
        r@ == tooltip_spec(status@),
{
    match status.state {
        SyncState::Idle => copy_str("Cirrust — synced"),
        SyncState::Syncing => match &status.active_folder {
            Some(f) => {
                let r = copy_str("Cirrust — syncing ");
                r.concat(f.as_str())
            },
            None => copy_str("Cirrust — syncing…"),
        },
        SyncState::Paused => copy_str("Cirrust — sync paused"),
        SyncState::Error => copy_str("Cirrust — sync error"),
        SyncState::Offline => match &status.message {
            Some(m) => {
                let r = copy_str("Cirrust — offline: ");
                r.concat(m.as_str())
            },
            None => copy_str("Cirrust — offline / not signed in"),
        },
    }
}

// ---------------------------------------------------------------------------
// Notices of a sync round
// ---------------------------------------------------------------------------

/// The error kept for a folder whose mass deletion was refused.
pub open spec fn blocked_message_spec(remote_path: Seq<char>, blocked: u32) -> Seq<char> {
    remote_path + ": refused to delete "@ + digits(blocked as nat)
        + " files — one side looked missing or emptied; the files were kept and will be restored by the next sync"@
}

pub fn blocked_message(remote_path: &str, blocked: u32) -> (r: String)
    ensures
        r@ == blocked_message_spec(remote_path@, blocked),
{
    let r = copy_str(remote_path);
    let r = r.concat(": refused to delete ");
    let n = u64_digits(blocked as u64);
    let r = r.concat(n.as_str());
    r.concat(" files — one side looked missing or emptied; the files were kept and will be restored by the next sync")
}

/// Body of the notification about fresh conflicts.
pub open spec fn conflict_notice_spec(n: u32) -> Seq<char> {
    digits(n as nat) + " file"@ + (if n == 1 {
        Seq::empty()
    } else {
        "s"@
    }) + " had conflicting changes — review them in Synced folders."@
}

pub fn conflict_notice(n: u32) -> (r: String)
    ensures
        r@ == conflict_notice_spec(n),
{
    let d = u64_digits(n as u64);
    let r = d.concat(" file");
    let r = if n == 1 { r } else { r.concat("s") };
    r.concat(" had conflicting changes — review them in Synced folders.")
}

/// Body of the notification about a failed round.
pub fn error_notice(err: &str) -> (r: String)
    ensures
        r@ == "Syncing failed: "@ + err@,
{
    let r = copy_str("Syncing failed: ");
    r.concat(err)
}

/// Per-round bookkeeping of the runner: the last error seen, the conflicts
/// created, and whether some folder's account was not connected.
pub struct RoundSummary {
    pub last_error: Option<String>,
    pub new_conflicts: u32,
    pub any_offline: bool,
}

impl RoundSummary {
    pub fn new() -> (r: RoundSummary)
        ensures
            r.last_error is None,
            r.new_conflicts == 0,
            !r.any_offline,
    {
        RoundSummary { last_error: None, new_conflicts: 0, any_offline: false }
    }

    /// Take in the statistics of one synced folder.
    pub fn add_stats(&mut self, remote_path: &str, stats: &crate::plan::SyncStats)
        requires
            old(self).new_conflicts + stats.conflicts <= u32::MAX,
        ensures
            final(self).new_conflicts == old(self).new_conflicts + stats.conflicts,
            final(self).any_offline == old(self).any_offline,
            opt_view(final(self).last_error) == if stats.blocked_deletions > 0 {
                Some(blocked_message_spec(remote_path@, stats.blocked_deletions))
            } else {
                opt_view(old(self).last_error)
            },
    {
        self.new_conflicts = self.new_conflicts + stats.conflicts;
        if stats.blocked_deletions > 0 {
            self.last_error = Some(blocked_message(remote_path, stats.blocked_deletions));
        }
    }

    /// After scanning: no folder could be prepared, none failed, and some
    /// account was unreachable, so the round reports offline.
    pub fn offline_after_scan(&self, prepared: usize) -> (b: bool)
        ensures
            b == (prepared == 0 && self.last_error is None && self.any_offline),
    {
        prepared == 0 && self.last_error.is_none() && self.any_offline
    }
}

// ---------------------------------------------------------------------------
// Folder pairs
// ---------------------------------------------------------------------------

/// Number of enabled folders.
pub open spec fn enabled_count(fs: Seq<SyncFolderV>) -> int
    decreases fs.len(),
{
    if fs.len() == 0 {
        0
    } else {
        enabled_count(fs.drop_last()) + if fs.last().enabled {
            1int
        } else {
            0int
        }
    }
}

proof fn lemma_enabled_count(fs: Seq<SyncFolderV>)
    ensures
        0 <= enabled_count(fs) <= fs.len(),
    decreases fs.len(),
{
    if fs.len() > 0 {
        lemma_enabled_count(fs.drop_last());
    }
}

/// How many folders are enabled.
pub fn enabled_folder_count(folders: &Vec<SyncFolder>) -> (n: usize)
    ensures
        n == enabled_count(folders_view(folders@)),
{
    let ghost fv = folders_view(folders@);
    let mut n: usize = 0;
    let mut i: usize = 0;
    while i < folders.len()
        invariant
            fv == folders_view(folders@),
            0 <= i <= fv.len(),
            n == enabled_count(fv.take(i as int)),
        decreases fv.len() - i,
    {
        proof {
            assert(fv.take(i + 1).drop_last() =~= fv.take(i as int));
            assert(fv.take(i + 1).last() == folders@[i as int]@);
            lemma_enabled_count(fv.take(i as int));
        }
        if folders[i].enabled {
            n = n + 1;
        }
        i = i + 1;
    }
    proof {
        assert(fv.take(fv.len() as int) =~= fv);
    }
    n
}

/// The first reason a new folder pair would overlap an existing one: the
/// same account's remote tree, or any local tree.
pub open spec fn overlap_error(
    fs: Seq<SyncFolderV>,
    account: Seq<char>,
    local: Seq<char>,
    remote: Seq<char>,
) -> Option<Seq<char>>
    decreases fs.len(),
{
    if fs.len() == 0 {
        None
    } else {
        let f = fs[0];
        if f.account_id == account && paths_overlap_spec(f.remote_path, remote) {
            Some(
                remote + " is already being synced to "@ + f.local_path
                    + " — remove that folder pair first, or choose a different server folder"@,
            )
        } else if paths_overlap_spec(f.local_path, local) {
            Some(local + " overlaps the synced folder "@ + f.local_path + " — choose a different local folder"@)
        } else {
            overlap_error(fs.drop_first(), account, local, remote)
        }
    }
}

/// Refuse overlapping folder pairs: the same remote tree twice means
/// duplicate downloads and fighting deletions; the same local tree twice
/// means two engines writing into each other.
pub fn check_new_folder(folders: &Vec<SyncFolder>, account_id: &str, local_path: &str, remote_path: &str) -> (r: Result<(), String>)
    ensures
        match r {
            Ok(()) => overlap_error(folders_view(folders@), account_id@, local_path@, remote_path@) is None,
            Err(m) => overlap_error(folders_view(folders@), account_id@, local_path@, remote_path@) == Some(m@),
        },
{
    let ghost fv = folders_view(folders@);
    let mut i: usize = 0;
    proof {
        assert(fv.skip(0) =~= fv);
    }
    while i < folders.len()
        invariant
            fv == folders_view(folders@),
            0 <= i <= fv.len(),
            overlap_error(fv, account_id@, local_path@, remote_path@) == overlap_error(
                fv.skip(i as int),
                account_id@,
                local_path@,
                remote_path@,
            ),
        decreases fv.len() - i,
    {
        let f = &folders[i];
        proof {
            assert(fv.skip(i as int)[0] == f@);
            assert(fv.skip(i as int).drop_first() =~= fv.skip(i + 1));
        }
        if str_eq(f.account_id.as_str(), account_id) && paths_overlap(f.remote_path.as_str(), remote_path) {
            let m = copy_str(remote_path);
            let m = m.concat(" is already being synced to ");
            let m = m.concat(f.local_path.as_str());
            let m = m.concat(" — remove that folder pair first, or choose a different server folder");
            return Err(m);
        }
        if paths_overlap(f.local_path.as_str(), local_path) {
            let m = copy_str(local_path);
            let m = m.concat(" overlaps the synced folder ");
            let m = m.concat(f.local_path.as_str());
            let m = m.concat(" — choose a different local folder");
            return Err(m);
        }
        i = i + 1;
    }
    Ok(())
}

/// The account a new folder pair syncs against: the requested one, else the
/// active one, else the first account.
pub fn choose_account(requested: Option<String>, active: Option<String>, first: Option<String>) -> (r: Option<String>)
    ensures
        opt_view(r) == match opt_view(requested) {
            Some(a) => Some(a),
            None => match opt_view(active) {
                Some(a) => Some(a),
                None => opt_view(first),
            },
        },
{
    match requested {
        Some(a) => Some(a),
        None => match active {
            Some(a) => Some(a),
            None => first,
        },
    }
}

pub open spec fn clean_patterns_spec(ps: Seq<String>) -> Seq<Seq<char>>
    decreases ps.len(),
{
    if ps.len() == 0 {
        Seq::empty()
    } else {
        let r = clean_patterns_spec(ps.drop_last());
        let t = trim_ws(ps.last()@);
        if t.len() == 0 {
            r
        } else {
            r.push(t)
        }
    }
}

pub open spec fn strings_view(v: Seq<String>) -> Seq<Seq<char>> {
    Seq::new(v.len(), |i: int| v[i]@)
}

/// Ignore patterns as stored: each trimmed, blank ones dropped, order kept.
pub fn clean_patterns(patterns: &Vec<String>) -> (r: Vec<String>)
    ensures
        strings_view(r@) == clean_patterns_spec(patterns@),
{
    let mut out: Vec<String> = Vec::new();
    let mut i: usize = 0;
    while i < patterns.len()
        invariant
            0 <= i <= patterns@.len(),
            strings_view(out@) == clean_patterns_spec(patterns@.take(i as int)),
        decreases patterns@.len() - i,
    {
        proof {
            assert(patterns@.take(i + 1).drop_last() =~= patterns@.take(i as int));
            assert(patterns@.take(i + 1).last() == patterns@[i as int]);
        }
        let t = trim_str(patterns[i].as_str());
        if !t.as_str().is_empty() {
            let ghost before = out@;
            out.push(t);
            proof {
                assert(strings_view(out@) =~= strings_view(before).push(t@));
            }
        }
        i = i + 1;
    }
    proof {
        assert(patterns@.take(patterns@.len() as int) =~= patterns@);
    }
    out
}

/// Files and bytes tracked by a journal (directories not counted).
pub open spec fn journal_totals(s: Seq<crate::pathmap::PathEntry<crate::journal::JournalEntry>>) -> (int, int)
    decreases s.len(),
{
    if s.len() == 0 {
        (0, 0)
    } else {
        let p = journal_totals(s.drop_last());
        let e = s.last().value;
        if e.is_dir {
            p
        } else {
            (p.0 + 1, p.1 + e.size)
        }
    }
}

proof fn lemma_journal_totals(s: Seq<crate::pathmap::PathEntry<crate::journal::JournalEntry>>)
    ensures
        0 <= journal_totals(s).0 <= s.len(),
        0 <= journal_totals(s).1,
        forall|i: int| 0 <= i <= s.len() ==> #[trigger] journal_totals(s.take(i)).1 <= journal_totals(s).1,
    decreases s.len(),
{
    if s.len() > 0 {
        let d = s.drop_last();
        lemma_journal_totals(d);
        assert forall|i: int| 0 <= i <= s.len() implies #[trigger] journal_totals(s.take(i)).1 <= journal_totals(s).1 by {
            if i < s.len() {
                assert(s.take(i) =~= d.take(i));
            } else {
                assert(s.take(i) =~= s);
            }
        }
    }
}

/// How many files a journal tracks and their total size.
pub fn journal_stats(journal: &Journal) -> (r: (u64, u64))
    requires
        journal_totals(journal.entries.entries@).1 <= u64::MAX,
    ensures
        (r.0 as int, r.1 as int) == journal_totals(journal.entries.entries@),
{
    let ghost s = journal.entries.entries@;
    proof {
        lemma_journal_totals(s);
    }
    let mut files: u64 = 0;
    let mut bytes: u64 = 0;
    let mut i: usize = 0;
    while i < journal.entries.entries.len()
        invariant
            s == journal.entries.entries@,
            0 <= i <= s.len(),
            (files as int, bytes as int) == journal_totals(s.take(i as int)),
            journal_totals(s).1 <= u64::MAX,
            forall|n: int| 0 <= n <= s.len() ==> #[trigger] journal_totals(s.take(n)).1 <= journal_totals(s).1,
        decreases s.len() - i,
    {
        proof {
            assert(s.take(i + 1).drop_last() =~= s.take(i as int));
            lemma_journal_totals(s.take(i + 1));
        }
        let e = &journal.entries.entries[i].value;
        if !e.is_dir {
            files = files + 1;
            bytes = bytes + e.size;
        }
        i = i + 1;
    }
    proof {
        assert(s.take(s.len() as int) =~= s);
    }
    (files, bytes)
}

/// Per-folder metadata for the folder list.
pub struct FolderStat {
    pub id: String,
    pub files: u64,
    pub bytes: u64,
    pub last_sync: Option<String>,
}

pub struct SyncSettings {
    pub paused: bool,
    pub ignore_patterns: Vec<String>,
}

/// A leftover conflicted-copy file.
pub struct Conflict {
    pub folder_id: String,
    pub folder_remote: String,
    /// Absolute local path of the conflicted-copy file.
    pub local_path: String,
    pub name: String,
    pub original_name: String,
}

/// Which side a conflict resolution keeps.
#[derive(Clone, Copy, PartialEq, Eq, Debug, Structural)]
pub enum Keep {
    /// Replace the original with the local edit.
    Local,
    /// Discard the local copy.
    Remote,
}

/// Parse the `keep` argument of a conflict resolution.
pub fn parse_keep(keep: &str) -> (r: Result<Keep, String>)
    ensures
        keep@ == "local"@ ==> r == Ok::<Keep, String>(Keep::Local),
        keep@ == "remote"@ ==> r == Ok::<Keep, String>(Keep::Remote),
        keep@ != "local"@ && keep@ != "remote"@ ==> (r matches Err(m) && m@ == "keep must be 'local' or 'remote'"@),
{
    proof {
        reveal_strlit("local");
        reveal_strlit("remote");
        assert("local"@[0] != "remote"@[0]);
    }
    if str_eq(keep, "local") {
        Ok(Keep::Local)
    } else if str_eq(keep, "remote") {
        Ok(Keep::Remote)
    } else {
        Err(copy_str("keep must be 'local' or 'remote'"))
    }
}

// ---------------------------------------------------------------------------
// Mapping server paths to synced local files
// ---------------------------------------------------------------------------

/// Enabled folders holding `dav`, those of the active account first (order
/// otherwise kept), as `(local folder, path inside it)`.
pub open spec fn local_candidates_spec(
    fs: Seq<SyncFolderV>,
    active: Option<Seq<char>>,
    dav: Seq<char>,
    want_active: bool,
) -> Seq<(Seq<char>, Seq<char>)>
    decreases fs.len(),
{
    if fs.len() == 0 {
        Seq::empty()
    } else {
        let r = local_candidates_spec(fs.drop_last(), active, dav, want_active);
        let f = fs.last();
        let is_active = active == Some(f.account_id);
        if f.enabled && is_active == want_active {
            match dav_under_spec(f.remote_path, dav) {
                Some(rel) => r.push((f.local_path, rel)),
                None => r,
            }
        } else {
            r
        }
    }
}

pub open spec fn pairs_view(v: Seq<(String, String)>) -> Seq<(Seq<char>, Seq<char>)> {
    Seq::new(v.len(), |i: int| (v[i].0@, v[i].1@))
}

fn push_candidates(
    out: &mut Vec<(String, String)>,
    folders: &Vec<SyncFolder>,
    active: Option<&str>,
    dav_path: &str,
    want_active: bool,
)
    ensures
        pairs_view(final(out)@) == pairs_view(old(out)@) + local_candidates_spec(
            folders_view(folders@),
            match active {
                Some(a) => Some(a@),
                None => None,
            },
            dav_path@,
            want_active,
        ),
{
    let ghost fv = folders_view(folders@);
    let ghost av: Option<Seq<char>> = match active {
        Some(a) => Some(a@),
        None => None,
    };
    let ghost start = pairs_view(out@);
    let mut i: usize = 0;
    while i < folders.len()
        invariant
            fv == folders_view(folders@),
            av == match active {
                Some(a) => Some(a@),
                None => None::<Seq<char>>,
            },
            0 <= i <= fv.len(),
            pairs_view(out@) == start + local_candidates_spec(fv.take(i as int), av, dav_path@, want_active),
        decreases fv.len() - i,
    {
        let f = &folders[i];
        proof {
            assert(fv.take(i + 1).drop_last() =~= fv.take(i as int));
            assert(fv.take(i + 1).last() == f@);
        }
        let is_active = match active {
            Some(a) => str_eq(a, f.account_id.as_str()),
            None => false,
        };
        proof {
            assert(is_active == (av == Some(f@.account_id)));
        }
        if f.enabled && is_active == want_active {
            match dav_under(f.remote_path.as_str(), dav_path) {
                Some(rel) => {
                    proof {
                        assert(dav_under_spec(f@.remote_path, dav_path@) == Some(rel@));
                    }
                    let ghost before = out@;
                    let pair = (copy_str(f.local_path.as_str()), rel);
                    out.push(pair);
                    proof {
                        assert(pairs_view(out@) =~= pairs_view(before).push((pair.0@, pair.1@)));
                    }
                },
                None => {},
            }
        }
        i = i + 1;
    }
    proof {
        assert(fv.take(fv.len() as int) =~= fv);
    }
}

/// Where a server path may be found on disk: `(local folder, path inside
/// it)` for every enabled folder holding it, the active account's first.
pub fn local_candidates(folders: &Vec<SyncFolder>, active: Option<&str>, dav_path: &str) -> (r: Vec<(String, String)>)
    ensures
        ({
            let av = match active {
                Some(a) => Some(a@),
                None => None,
            };
            pairs_view(r@) == local_candidates_spec(folders_view(folders@), av, dav_path@, true)
                + local_candidates_spec(folders_view(folders@), av, dav_path@, false)
        }),
{
    let mut out: Vec<(String, String)> = Vec::new();
    proof {
        assert(pairs_view(out@) =~= Seq::<(Seq<char>, Seq<char>)>::empty());
    }
    push_candidates(&mut out, folders, active, dav_path, true);
    push_candidates(&mut out, folders, active, dav_path, false);
    proof {
        let av = match active {
            Some(a) => Some(a@),
            None => None,
        };
        assert(Seq::<(Seq<char>, Seq<char>)>::empty() + local_candidates_spec(folders_view(folders@), av, dav_path@, true)
            =~= local_candidates_spec(folders_view(folders@), av, dav_path@, true));
    }
    out
}

/// The tray icon is repainted only when the shown state or the active
/// folder changes (a repaint makes some trays flicker).
pub fn repaint_needed(last_state: SyncState, last_folder: &Option<String>, status: &SyncStatus) -> (b: bool)
    ensures
        b == !(status.state == last_state && opt_view(status.active_folder) == opt_view(*last_folder)),
{
    let same_folder = crate::text::opt_str_eq(&status.active_folder, last_folder);
    !(status.state == last_state && same_folder)
}

/// The leftover conflicted copy `name` found at `local_path` inside folder
/// pair `folder`, or `None` when the name is not a conflicted copy's.
pub fn conflict_of(folder: &SyncFolder, local_path: &str, name: &str) -> (r: Option<Conflict>)
    ensures
        r is Some <==> crate::engine::conflict_original_spec(name@) is Some,
        r matches Some(c) ==> c.folder_id@ == folder.id@ && c.folder_remote@ == folder.remote_path@
            && c.local_path@ == local_path@ && c.name@ == name@ && crate::engine::conflict_original_spec(name@)
            == Some(c.original_name@),
{
    match crate::engine::conflict_original(name) {
        Some(original_name) => Some(
            Conflict {
                folder_id: copy_str(folder.id.as_str()),
                folder_remote: copy_str(folder.remote_path.as_str()),
                local_path: copy_str(local_path),
                name: copy_str(name),
                original_name,
            },
        ),
        None => None,
    }
}

} // verus!
