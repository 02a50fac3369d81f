//! The live controls of the background engine: the global pause, the set of
//! disabled folders (a run of a disabled folder is cancelled at its next
//! safe point), the status published at start-up, the connectivity
//! watchdog's transitions and the notices of a finished round.

use vstd::prelude::*;
use crate::config::{AppConfig, SyncFolderV, folders_view};
use crate::dav::strings_view;
use crate::status::{conflict_notice, conflict_notice_spec, error_notice, SyncState, SyncStatus, SyncStatusV};
use crate::text::{copy_str, opt_view, str_eq};

verus! {

/// The engine's live controls.
pub struct Control {
    /// Global pause: every run is skipped or cancelled.
    pub paused: bool,
    /// Ids of the folders currently disabled, each once.
    pub disabled: Vec<String>,
}

/// No id occurs twice.
pub open spec fn no_dups(s: Seq<Seq<char>>) -> bool {
    forall|i: int, j: int| 0 <= i < j < s.len() ==> s[i] != s[j]
}

/// The ids of the folders of `fs` that are not enabled, each once, in the
/// order of their first appearance.
pub open spec fn disabled_ids(fs: Seq<SyncFolderV>) -> Seq<Seq<char>>
    decreases fs.len(),
{
    if fs.len() == 0 {
        Seq::empty()
    } else {
        let prev = disabled_ids(fs.drop_last());
        let f = fs.last();
        if !f.enabled && !prev.contains(f.id) {
            prev.push(f.id)
        } else {
            prev
        }
    }
}

proof fn lemma_disabled_ids(fs: Seq<SyncFolderV>)
    ensures
        no_dups(disabled_ids(fs)),
        forall|id: Seq<char>|
            disabled_ids(fs).contains(id) <==> exists|i: int| 0 <= i < fs.len() && !fs[i].enabled && fs[i].id == id,
    decreases fs.len(),
{
    if fs.len() > 0 {
        let prev = disabled_ids(fs.drop_last());
        lemma_disabled_ids(fs.drop_last());
        let f = fs.last();
        assert forall|id: Seq<char>|
            disabled_ids(fs).contains(id) <==> exists|i: int| 0 <= i < fs.len() && !fs[i].enabled && fs[i].id == id by {
            if disabled_ids(fs).contains(id) {
                if prev.contains(id) {
                    let i = choose|i: int| 0 <= i < fs.drop_last().len() && !fs.drop_last()[i].enabled && fs.drop_last()[i].id == id;
                    assert(fs[i] == fs.drop_last()[i]);
                } else {
                    let k = choose|k: int| 0 <= k < disabled_ids(fs).len() && disabled_ids(fs)[k] == id;
                    if k < prev.len() {
                        assert(disabled_ids(fs)[k] == prev[k]);
                    }
                    assert(fs[fs.len() - 1] == f);
                }
            }
            if exists|i: int| 0 <= i < fs.len() && !fs[i].enabled && fs[i].id == id {
                let i = choose|i: int| 0 <= i < fs.len() && !fs[i].enabled && fs[i].id == id;
                if i < fs.len() - 1 {
                    assert(fs.drop_last()[i] == fs[i]);
                    assert(prev.contains(id));
                    let k = choose|k: int| 0 <= k < prev.len() && prev[k] == id;
                    if !f.enabled && !prev.contains(f.id) {
                        assert(prev.push(f.id)[k] == id);
                    }
                } else if !prev.contains(f.id) {
                    assert(prev.push(f.id)[prev.len() as int] == id);
                }
            }
        }
    }
}

/// `s` without the entries equal to `id`.
pub open spec fn without_id(s: Seq<Seq<char>>, id: Seq<char>) -> Seq<Seq<char>>
    decreases s.len(),
{
    if s.len() == 0 {
        Seq::empty()
    } else {
        let prev = without_id(s.drop_last(), id);
        if s.last() == id {
            prev
        } else {
            prev.push(s.last())
        }
    }
}

proof fn lemma_without_id(s: Seq<Seq<char>>, id: Seq<char>)
    ensures
        forall|k: Seq<char>| #[trigger] without_id(s, id).contains(k) <==> (k != id && s.contains(k)),
        no_dups(s) ==> no_dups(without_id(s, id)),
    decreases s.len(),
{
    if s.len() > 0 {
        let d = s.drop_last();
        lemma_without_id(d, id);
        let prev = without_id(d, id);
        assert forall|k: Seq<char>| #[trigger] without_id(s, id).contains(k) <==> (k != id && s.contains(k)) by {
            if s.contains(k) && k != id {
                let m = choose|m: int| 0 <= m < s.len() && s[m] == k;
                if m < s.len() - 1 {
                    assert(d[m] == k);
                    assert(d.contains(k));
                    assert(without_id(d, id).contains(k));
                    assert(prev.contains(k));
                    let q = choose|q: int| 0 <= q < prev.len() && prev[q] == k;
                    if s.last() != id {
                        assert(prev.push(s.last())[q] == k);
                    }
                } else {
                    assert(prev.push(s.last())[prev.len() as int] == k);
                }
            }
            if without_id(s, id).contains(k) {
                let q = choose|q: int| 0 <= q < without_id(s, id).len() && without_id(s, id)[q] == k;
                if q < prev.len() {
                    assert(prev[q] == k);
                    assert(prev.contains(k));
                    let m = choose|m: int| 0 <= m < d.len() && d[m] == k;
                    assert(s[m] == k);
                } else {
                    assert(s[s.len() - 1] == k);
                }
            }
        }
        if no_dups(s) {
            assert(no_dups(d)) by {
                assert forall|a: int, b: int| 0 <= a < b < d.len() implies d[a] != d[b] by {
                    assert(s[a] == d[a] && s[b] == d[b]);
                }
            }
            if s.last() != id {
                assert forall|a: int, b: int| 0 <= a < b < prev.push(s.last()).len() implies prev.push(s.last())[a]
                    != prev.push(s.last())[b] by {
                    if b == prev.len() {
                        assert(prev.push(s.last())[a] == prev[a]);
                        assert(prev.contains(prev[a]));
                        assert(d.contains(prev[a]));
                        let m = choose|m: int| 0 <= m < d.len() && d[m] == prev[a];
                        assert(s[m] == d[m]);
                    } else {
                        assert(prev.push(s.last())[a] == prev[a]);
                        assert(prev.push(s.last())[b] == prev[b]);
                    }
                }
            }
        }
    }
}

impl Control {
    pub open spec fn wf(&self) -> bool {
        no_dups(strings_view(self.disabled@))
    }

    /// The ids of the disabled folders.
    pub open spec fn disabled_set(&self) -> Seq<Seq<char>> {
        strings_view(self.disabled@)
    }

    /// The controls at start-up: the stored pause flag and every folder
    /// that is not enabled.
    pub fn from_config(cfg: &AppConfig) -> (c: Control)
        ensures
            c.wf(),
            c.paused == cfg.paused,
            forall|id: Seq<char>|
                c.disabled_set().contains(id) <==> exists|i: int|
                    0 <= i < cfg.sync_folders@.len() && !cfg.sync_folders@[i].enabled && cfg.sync_folders@[i]@.id == id,
    {
        let ghost fv = folders_view(cfg.sync_folders@);
        let mut d: Vec<String> = Vec::new();
        let mut i: usize = 0;
        proof {
            assert(fv.take(0) =~= Seq::<SyncFolderV>::empty());
        }
        while i < cfg.sync_folders.len()
            invariant
                fv == folders_view(cfg.sync_folders@),
                0 <= i <= fv.len(),
                strings_view(d@) == disabled_ids(fv.take(i as int)),
            decreases fv.len() - i,
        {
            proof {
                assert(fv.take(i + 1).drop_last() =~= fv.take(i as int));
                assert(fv[i as int] == cfg.sync_folders@[i as int]@);
            }
            let f = &cfg.sync_folders[i];
            if !f.enabled && !crate::caldav::contains_str(&d, f.id.as_str()) {
                let ghost before = d@;
                d.push(copy_str(f.id.as_str()));
                proof {
                    assert(strings_view(d@) =~= strings_view(before).push(f.id@));
                }
            }
            i = i + 1;
        }
        proof {
            assert(fv.take(fv.len() as int) =~= fv);
            lemma_disabled_ids(fv);
            assert forall|id: Seq<char>|
                #[trigger] strings_view(d@).contains(id) <==> (exists|i: int|
                    0 <= i < cfg.sync_folders@.len() && !cfg.sync_folders@[i].enabled && cfg.sync_folders@[i]@.id == id) by {
                if exists|i: int| 0 <= i < fv.len() && !fv[i].enabled && fv[i].id == id {
                    let i = choose|i: int| 0 <= i < fv.len() && !fv[i].enabled && fv[i].id == id;
                    assert(fv[i] == cfg.sync_folders@[i]@);
                }
                if exists|i: int| 0 <= i < cfg.sync_folders@.len() && !cfg.sync_folders@[i].enabled && cfg.sync_folders@[i]@.id == id {
                    let i = choose|i: int| 0 <= i < cfg.sync_folders@.len() && !cfg.sync_folders@[i].enabled && cfg.sync_folders@[i]@.id == id;
                    assert(fv[i] == cfg.sync_folders@[i]@);
                }
            }
        }
        Control { paused: cfg.paused, disabled: d }
    }

    /// Whether a run of folder `id` must stop: the global pause, or the
    /// folder being disabled.
    pub fn is_cancelled(&self, id: &str) -> (b: bool)
        ensures
            b == (self.paused || self.disabled_set().contains(id@)),
    {
        self.paused || crate::caldav::contains_str(&self.disabled, id)
    }

    /// Flip a folder's enabled flag for the running engine.
    pub fn set_folder_enabled(&mut self, id: &str, enabled: bool)
        requires
            old(self).wf(),
        ensures
            final(self).wf(),
            final(self).paused == old(self).paused,
            forall|k: Seq<char>|
                #[trigger] final(self).disabled_set().contains(k) <==> if k == id@ {
                    !enabled
                } else {
                    old(self).disabled_set().contains(k)
                },
    {
        let ghost old_set = self.disabled_set();
        let mut kept: Vec<String> = Vec::new();
        let mut i: usize = 0;
        proof {
            assert(old_set.take(0) =~= Seq::<Seq<char>>::empty());
        }
        while i < self.disabled.len()
            invariant
                old_set == strings_view(self.disabled@),
                0 <= i <= old_set.len(),
                strings_view(kept@) == without_id(old_set.take(i as int), id@),
            decreases old_set.len() - i,
        {
            proof {
                assert(old_set.take(i + 1).drop_last() =~= old_set.take(i as int));
            }
            if !str_eq(self.disabled[i].as_str(), id) {
                let ghost before = kept@;
                kept.push(copy_str(self.disabled[i].as_str()));
                proof {
                    assert(strings_view(kept@) =~= strings_view(before).push(old_set[i as int]));
                }
            }
            i = i + 1;
        }
        proof {
            assert(old_set.take(old_set.len() as int) =~= old_set);
            lemma_without_id(old_set, id@);
        }
        if !enabled {
            let ghost before = kept@;
            kept.push(copy_str(id));
            proof {
                let w = strings_view(before);
                assert(strings_view(kept@) =~= w.push(id@));
                assert(!w.contains(id@));
                assert forall|a: int, b: int| 0 <= a < b < w.push(id@).len() implies w.push(id@)[a] != w.push(
                    id@,
                )[b] by {
                    if b == w.len() {
                        assert(w.push(id@)[a] == w[a]);
                        assert(w.contains(w[a]));
                    } else {
                        assert(w.push(id@)[a] == w[a]);
                        assert(w.push(id@)[b] == w[b]);
                    }
                }
                assert forall|k: Seq<char>|
                    #[trigger] w.push(id@).contains(k) <==> (k == id@ || w.contains(k)) by {
                    if w.push(id@).contains(k) && k != id@ {
                        let m = choose|m: int| 0 <= m < w.push(id@).len() && w.push(id@)[m] == k;
                        assert(w[m] == k);
                    }
                    if w.contains(k) {
                        let m = choose|m: int| 0 <= m < w.len() && w[m] == k;
                        assert(w.push(id@)[m] == k);
                    }
                    if k == id@ {
                        assert(w.push(id@)[w.len() as int] == k);
                    }
                }
            }
        }
        self.disabled = kept;
    }

    /// The status shown before anything is known of the server: paused when
    /// the engine starts paused, else offline (never a guessed "synced").
    pub fn initial_status(&self, count: usize) -> (s: SyncStatus)
        ensures
            s@ == (SyncStatusV {
                state: if self.paused {
                    SyncState::Paused
                } else {
                    SyncState::Offline
                },
                active_folder: None,
                message: None,
                last_sync: None,
                folder_count: count,
                paused: self.paused,
            }),
    {
        let mut s = SyncStatus::new(count);
        s.paused = self.paused;
        s.state = if self.paused { SyncState::Paused } else { SyncState::Offline };
        s
    }
}

/// Disabling a folder cancels its runs; enabling it again lets them go on
/// unless the engine is paused.
pub proof fn law_toggle_controls_cancellation(c1: Control, c2: Control, id: Seq<char>, enabled: bool)
    requires
        c2.paused == c1.paused,
        forall|k: Seq<char>|
            #[trigger] c2.disabled_set().contains(k) <==> if k == id {
                !enabled
            } else {
                c1.disabled_set().contains(k)
            },
    ensures
        (c2.paused || c2.disabled_set().contains(id)) == (c1.paused || !enabled),
        forall|k: Seq<char>|
            k != id ==> ((c2.paused || c2.disabled_set().contains(k)) == (c1.paused || c1.disabled_set().contains(k))),
{
    assert(c2.disabled_set().contains(id) == !enabled);
}

// ---------------------------------------------------------------------------
// Connectivity watchdog
// ---------------------------------------------------------------------------

/// What the watchdog does after one probe.
#[derive(Clone, Copy, PartialEq, Eq, Debug, Structural)]
pub enum HealthAction {
    Nothing,
    /// The server answers again: start a sync now.
    ResumeSync,
    /// The server stopped answering: publish the offline status.
    ReportOffline,
}

/// The watchdog's step: `reachable` is the probe's answer (`None` when no
/// account is signed in). A paused engine and a missing account change
/// nothing; otherwise only a change of reachability acts.
pub open spec fn health_spec(paused: bool, reachable: Option<bool>, was_online: bool) -> (bool, HealthAction) {
    if paused {
        (was_online, HealthAction::Nothing)
    } else {
        match reachable {
            None => (was_online, HealthAction::Nothing),
            Some(r) => if r == was_online {
                (r, HealthAction::Nothing)
            } else if r {
                (r, HealthAction::ResumeSync)
            } else {
                (r, HealthAction::ReportOffline)
            },
        }
    }
}

/// One step of the connectivity watchdog: the new online flag and the action.
pub fn health_step(paused: bool, reachable: Option<bool>, was_online: bool) -> (r: (bool, HealthAction))
    ensures
        r == health_spec(paused, reachable, was_online),
{
    if paused {
        return (was_online, HealthAction::Nothing);
    }
    match reachable {
        None => (was_online, HealthAction::Nothing),
        Some(r) => if r == was_online {
            (r, HealthAction::Nothing)
        } else if r {
            (r, HealthAction::ResumeSync)
        } else {
            (r, HealthAction::ReportOffline)
        },
    }
}

/// The watchdog acts once per change: probing again with the same answer
/// does nothing more, and it reports a loss only when it saw the server up.
pub proof fn law_watchdog_acts_once_per_change(paused: bool, reachable: Option<bool>, was_online: bool)
    ensures
        health_spec(paused, reachable, health_spec(paused, reachable, was_online).0).1 == HealthAction::Nothing,
        health_spec(paused, reachable, was_online).1 == HealthAction::ReportOffline ==> was_online && reachable
            == Some(false),
        health_spec(paused, reachable, was_online).1 == HealthAction::ResumeSync ==> !was_online && reachable
            == Some(true),
{
}

/// Shown whenever the server cannot be reached.
pub open spec fn offline_message_spec() -> Seq<char> {
    "server unreachable — check your connection"@
}

pub fn offline_message() -> (r: String)
    ensures
        r@ == offline_message_spec(),
{
    copy_str("server unreachable — check your connection")
}

// ---------------------------------------------------------------------------
// Notices of a finished round
// ---------------------------------------------------------------------------

/// The desktop notifications of a finished round: the error only when the
/// previous round did not already end in one, the conflicts when there are
/// fresh ones.
pub fn round_notices(last_error: Option<&str>, was_error: bool, new_conflicts: u32) -> (r: (Option<String>, Option<String>))
    ensures
        opt_view(r.0) == match last_error {
            Some(e) => if was_error {
                None
            } else {
                Some("Syncing failed: "@ + e@)
            },
            None => None,
        },
        opt_view(r.1) == if new_conflicts > 0 {
            Some(conflict_notice_spec(new_conflicts))
        } else {
            None
        },
{
    let e = match last_error {
        Some(e) => if was_error {
            None
        } else {
            Some(error_notice(e))
        },
        None => None,
    };
    let c = if new_conflicts > 0 {
        Some(conflict_notice(new_conflicts))
    } else {
        None
    };
    (e, c)
}

// ---------------------------------------------------------------------------
// Folder pair ids
// ---------------------------------------------------------------------------

/// Lower-case hex digits of `n` without leading zeros (`0` for zero).
pub open spec fn hex_digits(n: nat) -> Seq<char>
    decreases n,
{
    if n < 16 {
        seq![crate::config::hex_digit(n as int)]
    } else {
        hex_digits(n / 16).push(crate::config::hex_digit((n % 16) as int))
    }
}

fn hex_char(d: u128) -> (c: char)
    requires
        d < 16,
    ensures
        c == crate::config::hex_digit(d as int),
{
    let b = d as u8;
    if b < 10 {
        (b + 48) as char
    } else {
        (b + 87) as char
    }
}

/// The id of a new folder pair: `f` and the creation time (nanoseconds
/// since the epoch) in lower-case hex.
pub fn new_folder_id(nanos: u128) -> (r: String)
    ensures
        r@ == seq!['f'] + hex_digits(nanos as nat),
{
    let mut rev: Vec<char> = Vec::new();
    let mut m = nanos;
    while m >= 16
        invariant
            hex_digits(nanos as nat) == hex_digits(m as nat) + crate::num::rev_seq(rev@),
        decreases m,
    {
        let c = hex_char(m % 16);
        proof {
            assert(hex_digits(m as nat) == hex_digits((m / 16) as nat).push(crate::config::hex_digit((m % 16) as int)));
            assert(crate::num::rev_seq(rev@.push(c)) == seq![c] + crate::num::rev_seq(rev@)) by {
                assert(rev@.push(c).drop_last() =~= rev@);
            }
            assert(hex_digits(m as nat) + crate::num::rev_seq(rev@) =~= hex_digits((m / 16) as nat)
                + crate::num::rev_seq(rev@.push(c)));
        }
        rev.push(c);
        m = m / 16;
    }
    let c = hex_char(m);
    proof {
        assert(crate::num::rev_seq(rev@.push(c)) == seq![c] + crate::num::rev_seq(rev@)) by {
            assert(rev@.push(c).drop_last() =~= rev@);
        }
        assert(hex_digits(m as nat) == seq![crate::config::hex_digit(m as int)]);
    }
    rev.push(c);
    let mut out = String::new();
    crate::text::push_char(&mut out, 'f');
    let ghost start = out@;
    let mut k = rev.len();
    proof {
        assert(rev@.take(k as int) =~= rev@);
        assert(seq!['f'] + hex_digits(nanos as nat) =~= out@ + crate::num::rev_seq(rev@.take(k as int)));
    }
    while k > 0
        invariant
            k <= rev@.len(),
            seq!['f'] + hex_digits(nanos as nat) == out@ + crate::num::rev_seq(rev@.take(k as int)),
        decreases k,
    {
        let ghost before = out@;
        proof {
            assert(rev@.take(k as int).drop_last() =~= rev@.take(k - 1));
            assert(rev@.take(k as int).last() == rev@[k - 1]);
        }
        crate::text::push_char(&mut out, rev[k - 1]);
        proof {
            assert(out@ + crate::num::rev_seq(rev@.take(k - 1)) =~= before + crate::num::rev_seq(rev@.take(k as int)));
        }
        k = k - 1;
    }
    proof {
        assert(rev@.take(0) =~= Seq::<char>::empty());
        assert(out@ =~= out@ + crate::num::rev_seq(rev@.take(0)));
    }
    out
}

} // verus!
