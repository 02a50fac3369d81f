//! The plan of one sync run of a folder pair: every path seen on either side
//! or in the journal, visited in sorted order (parents before children),
//! classified, and turned into the step the application carries out.
//! Also the run's tallies, its statistics and the mass-deletion guard.

use vstd::prelude::*;
use crate::engine::{
    classify, classify_spec, deletion_sweep_suspicious, is_conflicted, is_ignored, is_ignored_spec,
    suspicious_spec, Decision, LocalMeta, RemoteMeta, RemoteV,
};
use crate::journal::{EntryV, Journal, JournalEntry};
use crate::pathmap::{has_path, lemma_lookup, paths_of, strictly_sorted, PathMap};
use crate::paths::{remote_join, remote_join_spec};
use crate::text::{clone_opt, copy_str, opt_view};

verus! {

// ---------------------------------------------------------------------------
// The union of all paths
// ---------------------------------------------------------------------------

pub open spec fn views(v: Seq<String>) -> Seq<Seq<char>> {
    Seq::new(v.len(), |i: int| v[i]@)
}

fn add_paths<V>(m: &mut PathMap<bool>, src: &PathMap<V>)
    requires
        old(m).wf(),
    ensures
        final(m).wf(),
        forall|k: Seq<char>| #[trigger] has_path(final(m).entries@, k) == (has_path(old(m).entries@, k) || has_path(src.entries@, k)),
{
    let ghost se = src.entries@;
    let ghost start = m.entries@;
    let mut i: usize = 0;
    while i < src.entries.len()
        invariant
            m.wf(),
            se == src.entries@,
            0 <= i <= se.len(),
            forall|k: Seq<char>| #[trigger] has_path(m.entries@, k) == (has_path(start, k) || has_path(se.take(i as int), k)),
        decreases se.len() - i,
    {
        let p = src.entries[i].path.as_str();
        let ghost before = m.entries@;
        let ghost old_m = *m;
        proof {
            lemma_lookup(before, p@);
        }
        m.insert(p, true);
        proof {
            let t0 = se.take(i as int);
            let t1 = se.take(i + 1);
            assert(t1[i as int] == se[i as int]);
            assert(se[i as int].path@ == p@);
            assert(has_path(t1, p@));
            assert(m.get_spec(p@) == Some(true));
            lemma_lookup(m.entries@, p@);
            assert(has_path(m.entries@, p@));
            assert forall|k: Seq<char>| #[trigger] has_path(m.entries@, k) == (has_path(start, k) || has_path(t1, k)) by {
                lemma_lookup(m.entries@, k);
                lemma_lookup(before, k);
                assert(has_path(before, k) == (has_path(start, k) || has_path(t0, k)));
                if k != p@ {
                    assert(m.get_spec(k) == old_m.get_spec(k));
                    assert(has_path(m.entries@, k) == has_path(before, k));
                    if has_path(t1, k) {
                        let x = choose|x: int| 0 <= x < t1.len() && #[trigger] t1[x].path@ == k;
                        assert(x < i);
                        assert(t0[x] == se[x]);
                        assert(has_path(t0, k));
                    }
                    if has_path(t0, k) {
                        let x = choose|x: int| 0 <= x < t0.len() && #[trigger] t0[x].path@ == k;
                        assert(t1[x] == se[x]);
                        assert(has_path(t1, k));
                    }
                    assert(has_path(t1, k) == has_path(t0, k));
                } else {
                    assert(has_path(t1, k));
                }
            }
        }
        i = i + 1;
    }
    proof {
        assert(se.take(se.len() as int) =~= se);
    }
}

/// Every path known to the remote tree, the local tree or the journal, each
/// once, in sorted order (so parents precede their children).
pub fn all_keys(remote: &PathMap<RemoteMeta>, local: &PathMap<LocalMeta>, journal: &Journal) -> (keys: Vec<String>)
    ensures
        strictly_sorted(views(keys@)),
        forall|k: Seq<char>|
            views(keys@).contains(k) <==> (has_path(remote.entries@, k) || has_path(local.entries@, k) || has_path(
                journal.entries.entries@,
                k,
            )),
{
    let mut m: PathMap<bool> = PathMap::new();
    add_paths(&mut m, remote);
    add_paths(&mut m, local);
    add_paths(&mut m, &journal.entries);
    let mut keys: Vec<String> = Vec::new();
    let mut i: usize = 0;
    while i < m.entries.len()
        invariant
            0 <= i <= m.entries@.len(),
            views(keys@) == paths_of(m.entries@).take(i as int),
        decreases m.entries@.len() - i,
    {
        let ghost before = keys@;
        let c = copy_str(m.entries[i].path.as_str());
        keys.push(c);
        proof {
            assert(c@ == paths_of(m.entries@)[i as int]);
            assert(keys@ == before.push(c));
            assert(views(before).len() == before.len());
            assert(paths_of(m.entries@).take(i as int).len() == i);
            assert(before.len() == i);
            assert forall|j: int| 0 <= j < i + 1 implies views(keys@)[j] == paths_of(m.entries@).take(i + 1)[j] by {
                if j < i {
                    assert(keys@[j] == before[j]);
                    assert(views(before)[j] == paths_of(m.entries@).take(i as int)[j]);
                }
            }
            assert(views(keys@) =~= paths_of(m.entries@).take(i + 1));
        }
        i = i + 1;
    }
    proof {
        assert(views(keys@) =~= paths_of(m.entries@));
        assert forall|k: Seq<char>| views(keys@).contains(k) <==> has_path(m.entries@, k) by {
            if views(keys@).contains(k) {
                let x = choose|x: int| 0 <= x < views(keys@).len() && views(keys@)[x] == k;
                assert(m.entries@[x].path@ == k);
            }
            if has_path(m.entries@, k) {
                let x = choose|x: int| 0 <= x < m.entries@.len() && #[trigger] m.entries@[x].path@ == k;
                assert(views(keys@)[x] == k);
            }
        }
    }
    keys
}

// ---------------------------------------------------------------------------
// Steps
// ---------------------------------------------------------------------------

#[derive(Clone, Copy, PartialEq, Eq, Debug, Structural)]
pub enum TransferKind {
    Upload,
    Download,
    /// Diverging file: preserve the local copy, then download the server's.
    ConflictDownload,
}

/// A file transfer queued for concurrent execution after the directory pass.
pub struct TransferItem {
    pub key: String,
    pub remote_full: String,
    pub kind: TransferKind,
    /// Expected size (remote for downloads, local for uploads).
    pub size: u64,
    /// Local mtime for uploads; recomputed after downloads.
    pub mtime: i64,
    /// Remote etag for downloads; obtained from the PUT for uploads.
    pub etag: Option<String>,
}

pub struct TransferV {
    pub key: Seq<char>,
    pub remote_full: Seq<char>,
    pub kind: TransferKind,
    pub size: u64,
    pub mtime: i64,
    pub etag: Option<Seq<char>>,
}

impl View for TransferItem {
    type V = TransferV;

    open spec fn view(&self) -> TransferV {
        TransferV {
            key: self.key@,
            remote_full: self.remote_full@,
            kind: self.kind,
            size: self.size,
            mtime: self.mtime,
            etag: opt_view(self.etag),
        }
    }
}

/// A same-size file changed on both sides, queued for content comparison.
pub struct VerifyItem {
    pub key: String,
    pub remote_full: String,
    pub size: u64,
    pub mtime: i64,
    pub etag: Option<String>,
    pub checksums: Option<String>,
}

pub struct VerifyV {
    pub key: Seq<char>,
    pub remote_full: Seq<char>,
    pub size: u64,
    pub mtime: i64,
    pub etag: Option<Seq<char>>,
    pub checksums: Option<Seq<char>>,
}

impl View for VerifyItem {
    type V = VerifyV;

    open spec fn view(&self) -> VerifyV {
        VerifyV {
            key: self.key@,
            remote_full: self.remote_full@,
            size: self.size,
            mtime: self.mtime,
            etag: opt_view(self.etag),
            checksums: opt_view(self.checksums),
        }
    }
}

/// What the application does for one path, in key order.
pub enum Step {
    /// Both sides agree: record the pair in the new journal.
    Record { key: String, entry: JournalEntry },
    Transfer(TransferItem),
    Verify(VerifyItem),
    /// Create the local directory, then record it with this etag and the
    /// directory's mtime.
    MkdirLocal { key: String, etag: Option<String> },
    /// Create the remote collection, then record it with its etag and this mtime.
    MkdirRemote { key: String, remote_full: String, mtime: i64 },
    DeleteRemote { key: String },
    DeleteLocal { key: String },
}

pub enum StepV {
    Record { key: Seq<char>, entry: EntryV },
    Transfer(TransferV),
    Verify(VerifyV),
    MkdirLocal { key: Seq<char>, etag: Option<Seq<char>> },
    MkdirRemote { key: Seq<char>, remote_full: Seq<char>, mtime: i64 },
    DeleteRemote { key: Seq<char> },
    DeleteLocal { key: Seq<char> },
}

impl View for Step {
    type V = StepV;

    open spec fn view(&self) -> StepV {
        match self {
            Step::Record { key, entry } => StepV::Record { key: key@, entry: entry@ },
            Step::Transfer(t) => StepV::Transfer(t@),
            Step::Verify(v) => StepV::Verify(v@),
            Step::MkdirLocal { key, etag } => StepV::MkdirLocal { key: key@, etag: opt_view(*etag) },
            Step::MkdirRemote { key, remote_full, mtime } => StepV::MkdirRemote {
                key: key@,
                remote_full: remote_full@,
                mtime: *mtime,
            },
            Step::DeleteRemote { key } => StepV::DeleteRemote { key: key@ },
            Step::DeleteLocal { key } => StepV::DeleteLocal { key: key@ },
        }
    }
}

pub open spec fn steps_view(s: Seq<Step>) -> Seq<StepV> {
    Seq::new(s.len(), |i: int| s[i]@)
}

/// The step for one path, from its remote, local and journal state.
pub open spec fn step_spec(
    key: Seq<char>,
    root: Seq<char>,
    r: Option<RemoteV>,
    l: Option<LocalMeta>,
    j: Option<EntryV>,
) -> Option<StepV> {
    let full = remote_join_spec(root, key);
    match (r, l) {
        (Some(r), Some(l)) => match classify_spec(Some(r), Some(l), j) {
            Decision::NoAction => Some(
                StepV::Record {
                    key,
                    entry: EntryV {
                        is_dir: r.is_dir,
                        etag: r.etag,
                        size: if r.is_dir {
                            0
                        } else {
                            l.size
                        },
                        local_mtime: l.mtime,
                    },
                },
            ),
            Decision::Download => Some(
                StepV::Transfer(
                    TransferV {
                        key,
                        remote_full: full,
                        kind: TransferKind::Download,
                        size: r.size,
                        mtime: 0,
                        etag: r.etag,
                    },
                ),
            ),
            Decision::Upload => Some(
                StepV::Transfer(
                    TransferV {
                        key,
                        remote_full: full,
                        kind: TransferKind::Upload,
                        size: l.size,
                        mtime: l.mtime,
                        etag: None,
                    },
                ),
            ),
            _ => if !r.is_dir && r.size == l.size {
                Some(
                    StepV::Verify(
                        VerifyV {
                            key,
                            remote_full: full,
                            size: l.size,
                            mtime: l.mtime,
                            etag: r.etag,
                            checksums: r.checksums,
                        },
                    ),
                )
            } else {
                Some(
                    StepV::Transfer(
                        TransferV {
                            key,
                            remote_full: full,
                            kind: TransferKind::ConflictDownload,
                            size: r.size,
                            mtime: 0,
                            etag: r.etag,
                        },
                    ),
                )
            },
        },
        (Some(r), None) => match classify_spec(Some(r), None, j) {
            Decision::DeleteRemote => Some(StepV::DeleteRemote { key }),
            Decision::MkdirLocal => Some(StepV::MkdirLocal { key, etag: r.etag }),
            _ => Some(
                StepV::Transfer(
                    TransferV {
                        key,
                        remote_full: full,
                        kind: TransferKind::Download,
                        size: r.size,
                        mtime: 0,
                        etag: r.etag,
                    },
                ),
            ),
        },
        (None, Some(l)) => match classify_spec(None, Some(l), j) {
            Decision::DeleteLocal => Some(StepV::DeleteLocal { key }),
            Decision::MkdirRemote => Some(StepV::MkdirRemote { key, remote_full: full, mtime: l.mtime }),
            _ => Some(
                StepV::Transfer(
                    TransferV {
                        key,
                        remote_full: full,
                        kind: TransferKind::Upload,
                        size: l.size,
                        mtime: l.mtime,
                        etag: None,
                    },
                ),
            ),
        },
        (None, None) => None,
    }
}

pub open spec fn remote_at(remote: PathMap<RemoteMeta>, k: Seq<char>) -> Option<RemoteV> {
    match remote.get_spec(k) {
        Some(m) => Some(m@),
        None => None,
    }
}

/// The steps of a run over `keys`, in key order; ignored paths are skipped.
pub open spec fn plan_spec(
    keys: Seq<Seq<char>>,
    root: Seq<char>,
    remote: PathMap<RemoteMeta>,
    local: PathMap<LocalMeta>,
    journal: Journal,
    ignore: Seq<String>,
) -> Seq<StepV>
    decreases keys.len(),
{
    if keys.len() == 0 {
        Seq::empty()
    } else {
        let prev = plan_spec(keys.drop_last(), root, remote, local, journal, ignore);
        let k = keys.last();
        if is_ignored_spec(k, ignore) {
            prev
        } else {
            match step_spec(k, root, remote_at(remote, k), local.get_spec(k), journal.get_spec(k)) {
                Some(s) => prev.push(s),
                None => prev,
            }
        }
    }
}

fn step_for(
    key: &str,
    root: &str,
    r: Option<&RemoteMeta>,
    l: Option<&LocalMeta>,
    j: Option<&JournalEntry>,
) -> (s: Option<Step>)
    ensures
        match s {
            Some(x) => Some(x@),
            None => None::<StepV>,
        } == step_spec(key@, root@, crate::engine::opt_remote(r), crate::engine::opt_local(l), crate::engine::opt_entry(j)),
{
    let d = classify(r, l, j);
    match (r, l) {
        (Some(r), Some(l)) => match d {
            Decision::NoAction => Some(
                Step::Record {
                    key: copy_str(key),
                    entry: JournalEntry {
                        is_dir: r.is_dir,
                        etag: clone_opt(&r.etag),
                        size: if r.is_dir {
                            0
                        } else {
                            l.size
                        },
                        local_mtime: l.mtime,
                    },
                },
            ),
            Decision::Download => Some(
                Step::Transfer(
                    TransferItem {
                        key: copy_str(key),
                        remote_full: remote_join(root, key),
                        kind: TransferKind::Download,
                        size: r.size,
                        mtime: 0,
                        etag: clone_opt(&r.etag),
                    },
                ),
            ),
            Decision::Upload => Some(
                Step::Transfer(
                    TransferItem {
                        key: copy_str(key),
                        remote_full: remote_join(root, key),
                        kind: TransferKind::Upload,
                        size: l.size,
                        mtime: l.mtime,
                        etag: None,
                    },
                ),
            ),
            _ => if !r.is_dir && r.size == l.size {
                Some(
                    Step::Verify(
                        VerifyItem {
                            key: copy_str(key),
                            remote_full: remote_join(root, key),
                            size: l.size,
                            mtime: l.mtime,
                            etag: clone_opt(&r.etag),
                            checksums: clone_opt(&r.checksums),
                        },
                    ),
                )
            } else {
                Some(
                    Step::Transfer(
                        TransferItem {
                            key: copy_str(key),
                            remote_full: remote_join(root, key),
                            kind: TransferKind::ConflictDownload,
                            size: r.size,
                            mtime: 0,
                            etag: clone_opt(&r.etag),
                        },
                    ),
                )
            },
        },
        (Some(r), None) => match d {
            Decision::DeleteRemote => Some(Step::DeleteRemote { key: copy_str(key) }),
            Decision::MkdirLocal => Some(Step::MkdirLocal { key: copy_str(key), etag: clone_opt(&r.etag) }),
            _ => Some(
                Step::Transfer(
                    TransferItem {
                        key: copy_str(key),
                        remote_full: remote_join(root, key),
                        kind: TransferKind::Download,
                        size: r.size,
                        mtime: 0,
                        etag: clone_opt(&r.etag),
                    },
                ),
            ),
        },
        (None, Some(l)) => match d {
            Decision::DeleteLocal => Some(Step::DeleteLocal { key: copy_str(key) }),
            Decision::MkdirRemote => Some(
                Step::MkdirRemote { key: copy_str(key), remote_full: remote_join(root, key), mtime: l.mtime },
            ),
            _ => Some(
                Step::Transfer(
                    TransferItem {
                        key: copy_str(key),
                        remote_full: remote_join(root, key),
                        kind: TransferKind::Upload,
                        size: l.size,
                        mtime: l.mtime,
                        etag: None,
                    },
                ),
            ),
        },
        (None, None) => None,
    }
}

/// The steps of a run over `keys` (normally [`all_keys`]), in key order;
/// paths matching an ignore pattern are skipped.
pub fn plan(
    keys: &Vec<String>,
    root: &str,
    remote: &PathMap<RemoteMeta>,
    local: &PathMap<LocalMeta>,
    journal: &Journal,
    ignore: &[String],
) -> (steps: Vec<Step>)
    requires
        remote.wf(),
        local.wf(),
        journal.wf(),
    ensures
        steps_view(steps@) == plan_spec(views(keys@), root@, *remote, *local, *journal, ignore@),
{
    let mut steps: Vec<Step> = Vec::new();
    let mut i: usize = 0;
    while i < keys.len()
        invariant
            remote.wf(),
            local.wf(),
            journal.wf(),
            0 <= i <= keys@.len(),
            steps_view(steps@) == plan_spec(views(keys@).take(i as int), root@, *remote, *local, *journal, ignore@),
        decreases keys@.len() - i,
    {
        let k = keys[i].as_str();
        proof {
            assert(views(keys@).take(i + 1).drop_last() =~= views(keys@).take(i as int));
            assert(views(keys@).take(i + 1).last() == k@);
        }
        if !is_ignored(k, ignore) {
            let r = remote.get(k);
            let l = local.get(k);
            let j = journal.get(k);
            let s = step_for(k, root, r, l, j);
            match s {
                Some(x) => {
                    let ghost before = steps@;
                    steps.push(x);
                    proof {
                        assert(steps_view(steps@) =~= steps_view(before).push(x@));
                    }
                },
                None => {},
            }
        }
        i = i + 1;
    }
    proof {
        assert(views(keys@).take(keys@.len() as int) =~= views(keys@));
    }
    steps
}

// ---------------------------------------------------------------------------
// Tallies
// ---------------------------------------------------------------------------

/// What one path adds to the run's plan: `(files to transfer, bytes to
/// transfer, files to compare)`. Same-size files changed on both sides are
/// compared, not transferred.
pub open spec fn tally_step(r: Option<RemoteV>, l: Option<LocalMeta>, j: Option<EntryV>) -> (int, int, int) {
    let rsize: int = match r {
        Some(r) => r.size as int,
        None => 0,
    };
    match classify_spec(r, l, j) {
        Decision::Download => (1, rsize, 0),
        Decision::Conflict => match (r, l) {
            (Some(rr), Some(ll)) => if !rr.is_dir && rr.size == ll.size {
                (0, 0, 1)
            } else {
                (1, rsize, 0)
            },
            _ => (1, rsize, 0),
        },
        Decision::Upload => (
            1,
            match l {
                Some(l) => l.size as int,
                None => 0,
            },
            0,
        ),
        _ => (0, 0, 0),
    }
}

pub open spec fn tally_spec(
    keys: Seq<Seq<char>>,
    remote: PathMap<RemoteMeta>,
    local: PathMap<LocalMeta>,
    journal: Journal,
    ignore: Seq<String>,
) -> (int, int, int)
    decreases keys.len(),
{
    if keys.len() == 0 {
        (0, 0, 0)
    } else {
        let p = tally_spec(keys.drop_last(), remote, local, journal, ignore);
        let k = keys.last();
        if is_ignored_spec(k, ignore) {
            p
        } else {
            let t = tally_step(remote_at(remote, k), local.get_spec(k), journal.get_spec(k));
            (p.0 + t.0, p.1 + t.1, p.2 + t.2)
        }
    }
}

proof fn lemma_tally_bounds(
    keys: Seq<Seq<char>>,
    remote: PathMap<RemoteMeta>,
    local: PathMap<LocalMeta>,
    journal: Journal,
    ignore: Seq<String>,
)
    ensures
        0 <= tally_spec(keys, remote, local, journal, ignore).0,
        0 <= tally_spec(keys, remote, local, journal, ignore).1,
        0 <= tally_spec(keys, remote, local, journal, ignore).2,
        tally_spec(keys, remote, local, journal, ignore).0 + tally_spec(keys, remote, local, journal, ignore).2
            <= keys.len(),
        forall|i: int|
            0 <= i <= keys.len() ==> #[trigger] tally_spec(keys.take(i), remote, local, journal, ignore).1
                <= tally_spec(keys, remote, local, journal, ignore).1,
    decreases keys.len(),
{
    if keys.len() > 0 {
        let d = keys.drop_last();
        lemma_tally_bounds(d, remote, local, journal, ignore);
        assert forall|i: int| 0 <= i <= keys.len() implies #[trigger] tally_spec(keys.take(i), remote, local, journal, ignore).1
            <= tally_spec(keys, remote, local, journal, ignore).1 by {
            if i < keys.len() {
                assert(keys.take(i) =~= d.take(i));
            } else {
                assert(keys.take(i) =~= keys);
            }
        }
    }
}

/// Walk every path as the plan would and count what it transfers:
/// `(files, bytes, files to compare)`.
pub fn tally(
    keys: &Vec<String>,
    remote: &PathMap<RemoteMeta>,
    local: &PathMap<LocalMeta>,
    journal: &Journal,
    ignore: &[String],
) -> (t: (u64, u64, u64))
    requires
        remote.wf(),
        local.wf(),
        journal.wf(),
        tally_spec(views(keys@), *remote, *local, *journal, ignore@).1 <= u64::MAX,
    ensures
        (t.0 as int, t.1 as int, t.2 as int) == tally_spec(views(keys@), *remote, *local, *journal, ignore@),
{
    let ghost ks = views(keys@);
    proof {
        lemma_tally_bounds(ks, *remote, *local, *journal, ignore@);
    }
    let mut files: u64 = 0;
    let mut bytes: u64 = 0;
    let mut verify: u64 = 0;
    let mut i: usize = 0;
    while i < keys.len()
        invariant
            remote.wf(),
            local.wf(),
            journal.wf(),
            ks == views(keys@),
            0 <= i <= keys@.len(),
            (files as int, bytes as int, verify as int) == tally_spec(ks.take(i as int), *remote, *local, *journal, ignore@),
            tally_spec(ks, *remote, *local, *journal, ignore@).1 <= u64::MAX,
            forall|n: int|
                0 <= n <= ks.len() ==> #[trigger] tally_spec(ks.take(n), *remote, *local, *journal, ignore@).1
                    <= tally_spec(ks, *remote, *local, *journal, ignore@).1,
        decreases keys@.len() - i,
    {
        let k = keys[i].as_str();
        proof {
            assert(ks.take(i + 1).drop_last() =~= ks.take(i as int));
            assert(ks.take(i + 1).last() == k@);
            lemma_tally_bounds(ks.take(i + 1), *remote, *local, *journal, ignore@);
            assert(ks.take(i + 1).len() == i + 1);
        }
        if !is_ignored(k, ignore) {
            let r = remote.get(k);
            let l = local.get(k);
            let j = journal.get(k);
            match classify(r, l, j) {
                Decision::Download => {
                    files = files + 1;
                    bytes = bytes + match r {
                        Some(r) => r.size,
                        None => 0,
                    };
                },
                Decision::Conflict => {
                    let same = match (r, l) {
                        (Some(rr), Some(ll)) => !rr.is_dir && rr.size == ll.size,
                        _ => false,
                    };
                    if same {
                        verify = verify + 1;
                    } else {
                        files = files + 1;
                        bytes = bytes + match r {
                            Some(r) => r.size,
                            None => 0,
                        };
                    }
                },
                Decision::Upload => {
                    files = files + 1;
                    bytes = bytes + match l {
                        Some(l) => l.size,
                        None => 0,
                    };
                },
                _ => {},
            }
        }
        i = i + 1;
    }
    proof {
        assert(ks.take(keys@.len() as int) =~= ks);
    }
    (files, bytes, verify)
}

/// The prepared state of one folder pair: both trees walked, the journal
/// loaded, every path in order, and the transfer plan tallied.
pub struct Prepared {
    pub remote: PathMap<RemoteMeta>,
    pub local: PathMap<LocalMeta>,
    pub journal: Journal,
    pub keys: Vec<String>,
    pub files_total: u64,
    pub bytes_total: u64,
    /// Same-size both-sides files headed for comparison rather than transfer.
    pub verify_files: u64,
}

/// `keys` lists every path of the two trees and the journal once, in order.
pub open spec fn key_order(
    keys: Seq<Seq<char>>,
    remote: PathMap<RemoteMeta>,
    local: PathMap<LocalMeta>,
    journal: Journal,
) -> bool {
    &&& strictly_sorted(keys)
    &&& forall|k: Seq<char>|
        keys.contains(k) <==> (has_path(remote.entries@, k) || has_path(local.entries@, k) || has_path(
            journal.entries.entries@,
            k,
        ))
}

/// Gather the paths of a folder pair and tally what a sync would transfer.
pub fn prepare(
    remote: PathMap<RemoteMeta>,
    local: PathMap<LocalMeta>,
    journal: Journal,
    ignore: &[String],
) -> (p: Prepared)
    requires
        remote.wf(),
        local.wf(),
        journal.wf(),
        forall|keys: Seq<Seq<char>>| #[trigger] key_order(keys, remote, local, journal) ==> tally_spec(keys, remote, local, journal, ignore@).1 <= u64::MAX,
    ensures
        p.remote == remote,
        p.local == local,
        p.journal == journal,
        strictly_sorted(views(p.keys@)),
        forall|k: Seq<char>|
            views(p.keys@).contains(k) <==> (has_path(remote.entries@, k) || has_path(local.entries@, k) || has_path(
                journal.entries.entries@,
                k,
            )),
        (p.files_total as int, p.bytes_total as int, p.verify_files as int) == tally_spec(
            views(p.keys@),
            remote,
            local,
            journal,
            ignore@,
        ),
{
    let keys = all_keys(&remote, &local, &journal);
    proof {
        assert(key_order(views(keys@), remote, local, journal));
    }
    let t = tally(&keys, &remote, &local, &journal, ignore);
    Prepared { remote, local, journal, keys, files_total: t.0, bytes_total: t.1, verify_files: t.2 }
}

// ---------------------------------------------------------------------------
// Statistics and the mass-deletion guard
// ---------------------------------------------------------------------------

/// Per-run statistics.
#[derive(Clone, Copy, PartialEq, Eq, Debug, Structural)]
pub struct SyncStats {
    pub uploaded: u32,
    pub downloaded: u32,
    pub deleted_local: u32,
    pub deleted_remote: u32,
    pub conflicts: u32,
    /// Deletions refused by the mass-deletion guard.
    pub blocked_deletions: u32,
}

impl SyncStats {
    /// All counters at zero.
    pub fn new() -> (s: SyncStats)
        ensures
            s == (SyncStats {
                uploaded: 0,
                downloaded: 0,
                deleted_local: 0,
                deleted_remote: 0,
                conflicts: 0,
                blocked_deletions: 0,
            }),
    {
        SyncStats { uploaded: 0, downloaded: 0, deleted_local: 0, deleted_remote: 0, conflicts: 0, blocked_deletions: 0 }
    }

    /// Count one completed transfer of the given kind.
    pub fn count_transfer(&mut self, kind: TransferKind)
        requires
            kind == TransferKind::Upload ==> old(self).uploaded < u32::MAX,
            kind == TransferKind::Download ==> old(self).downloaded < u32::MAX,
            kind == TransferKind::ConflictDownload ==> old(self).conflicts < u32::MAX,
        ensures
            *final(self) == match kind {
                TransferKind::Upload => SyncStats { uploaded: (old(self).uploaded + 1) as u32, ..*old(self) },
                TransferKind::Download => SyncStats { downloaded: (old(self).downloaded + 1) as u32, ..*old(self) },
                TransferKind::ConflictDownload => SyncStats {
                    conflicts: (old(self).conflicts + 1) as u32,
                    ..*old(self)
                },
            },
    {
        match kind {
            TransferKind::Upload => self.uploaded = self.uploaded + 1,
            TransferKind::Download => self.downloaded = self.downloaded + 1,
            TransferKind::ConflictDownload => self.conflicts = self.conflicts + 1,
        }
    }

    /// Count one diverging same-size file whose remote copy was taken.
    pub fn count_conflict(&mut self)
        requires
            old(self).conflicts < u32::MAX,
        ensures
            *final(self) == (SyncStats { conflicts: (old(self).conflicts + 1) as u32, ..*old(self) }),
    {
        self.conflicts = self.conflicts + 1;
    }

    /// Count one applied deletion, on the server or locally.
    pub fn count_deleted(&mut self, remote: bool)
        requires
            remote ==> old(self).deleted_remote < u32::MAX,
            !remote ==> old(self).deleted_local < u32::MAX,
        ensures
            *final(self) == if remote {
                SyncStats { deleted_remote: (old(self).deleted_remote + 1) as u32, ..*old(self) }
            } else {
                SyncStats { deleted_local: (old(self).deleted_local + 1) as u32, ..*old(self) }
            },
    {
        if remote {
            self.deleted_remote = self.deleted_remote + 1;
        } else {
            self.deleted_local = self.deleted_local + 1;
        }
    }
}

/// The mass-deletion guard: a sweep that would delete most of one side is
/// state loss, not intent. When [`deletion_sweep_suspicious`] holds for the
/// planned deletions and that side's entry count, the whole sweep is refused:
/// the list is emptied and its length counted as blocked.
pub fn guard_deletions(planned: &mut Vec<String>, side_total: usize, stats: &mut SyncStats) -> (refused: bool)
    requires
        suspicious_spec(old(planned)@.len() as int, side_total as int) ==> old(stats).blocked_deletions + (old(
            planned,
        )@.len() as u32) <= u32::MAX,
    ensures
        refused == suspicious_spec(old(planned)@.len() as int, side_total as int),
        refused ==> final(planned)@.len() == 0 && *final(stats) == (SyncStats {
            blocked_deletions: (old(stats).blocked_deletions + (old(planned)@.len() as u32)) as u32,
            ..*old(stats)
        }),
        !refused ==> final(planned)@ == old(planned)@ && *final(stats) == *old(stats),
{
    if deletion_sweep_suspicious(planned.len(), side_total) {
        stats.blocked_deletions = stats.blocked_deletions + planned.len() as u32;
        planned.clear();
        true
    } else {
        false
    }
}

/// Large files take two permits of the transfer budget, small ones one.
pub const LARGE_FILE_BYTES: u64 = 52428800;

/// The shared permit budget of concurrent transfers.
pub const TRANSFER_CONCURRENCY: u32 = 8;

/// The permits a transfer of `size` bytes takes: two above
/// [`LARGE_FILE_BYTES`], else one, so at most four large files run at once.
pub fn transfer_weight(size: u64) -> (w: u32)
    ensures
        w == if size > LARGE_FILE_BYTES {
            2u32
        } else {
            1u32
        },
        w <= TRANSFER_CONCURRENCY,
{
    if size > LARGE_FILE_BYTES {
        2
    } else {
        1
    }
}

/// Whether a planned remote deletion goes ahead once the server has been
/// asked: a file always does; a folder only when its listing came back and
/// was empty (`entries` is the number of entries listed, `None` when the
/// listing failed), so that anything added to it on the server meanwhile is
/// kept.
pub fn remote_deletion_allowed(is_dir: bool, entries: Option<usize>) -> (b: bool)
    ensures
        b == (!is_dir || entries == Some(0usize)),
{
    if !is_dir {
        return true;
    }
    match entries {
        Some(n) => n == 0,
        None => false,
    }
}

/// The order in which planned deletions are applied: reverse key order.
pub fn deletion_order(planned: &Vec<String>) -> (r: Vec<String>)
    ensures
        views(r@) == views(planned@).reverse(),
{
    let mut r: Vec<String> = Vec::new();
    let mut i = planned.len();
    while i > 0
        invariant
            i <= planned@.len(),
            views(r@) == views(planned@).reverse().take(planned@.len() - i),
        decreases i,
    {
        let ghost before = r@;
        r.push(copy_str(planned[i - 1].as_str()));
        proof {
            let rev = views(planned@).reverse();
            assert(views(r@) =~= views(before).push(planned@[i - 1]@));
            assert(rev[planned@.len() - i] == planned@[i - 1]@);
            assert(rev.take(planned@.len() - i + 1) =~= rev.take(planned@.len() - i).push(rev[planned@.len() - i]));
        }
        i = i - 1;
    }
    proof {
        assert(views(planned@).reverse().take(planned@.len() as int) =~= views(planned@).reverse());
    }
    r
}

/// `path` lies inside the folder `dir`.
pub open spec fn inside(dir: Seq<char>, path: Seq<char>) -> bool {
    path.len() > dir.len() && path.take(dir.len() as int) == dir && path[dir.len() as int] == '/'
}

proof fn lemma_prefix_lex_lt(a: Seq<char>, b: Seq<char>)
    requires
        a.len() < b.len(),
        b.take(a.len() as int) == a,
    ensures
        crate::pathmap::lex_lt(a, b),
    decreases a.len(),
{
    if a.len() > 0 {
        assert(a[0] == b.take(a.len() as int)[0]);
        assert(b.drop_first().take(a.drop_first().len() as int) =~= a.drop_first()) by {
            assert forall|k: int| 0 <= k < a.len() - 1 implies b.drop_first()[k] == a.drop_first()[k] by {
                assert(b.take(a.len() as int)[k + 1] == a[k + 1]);
            }
        }
        lemma_prefix_lex_lt(a.drop_first(), b.drop_first());
    }
}

/// Applied in [`deletion_order`], everything planned for deletion inside a
/// folder goes before the folder itself, so a folder is reached only once
/// its own entries are gone.
pub proof fn law_children_deleted_first(planned: Seq<Seq<char>>, folder: int, child: int)
    requires
        strictly_sorted(planned),
        0 <= folder < planned.len(),
        0 <= child < planned.len(),
        inside(planned.reverse()[folder], planned.reverse()[child]),
    ensures
        child < folder,
{
    let n = planned.len() as int;
    let a = planned.reverse()[folder];
    let b = planned.reverse()[child];
    assert(a == planned[n - 1 - folder]);
    assert(b == planned[n - 1 - child]);
    lemma_prefix_lex_lt(a, b);
    if child >= folder {
        if child == folder {
            crate::pathmap::lemma_lex_irrefl(a);
        } else {
            assert(crate::pathmap::lex_lt(planned[n - 1 - child], planned[n - 1 - folder]));
            crate::pathmap::lemma_lex_asym(a, b);
        }
    }
}

// ---------------------------------------------------------------------------
// Walk helpers
// ---------------------------------------------------------------------------

/// Suffix of in-progress transfer temp files; the walks skip such names.
pub open spec fn tmp_suffix() -> Seq<char> {
    kw_tmp()
}

pub open spec fn kw_tmp() -> Seq<char> {
    seq!['.', 'n', 'c', 's', 'y', 'n', 'c', '-', 't', 'm', 'p']
}

fn ends_with_tmp(s: &str) -> (b: bool)
    ensures
        b == crate::text::is_suffix(tmp_suffix(), s@),
{
    let v = crate::text::chars_of(s);
    let t = vec!['.', 'n', 'c', 's', 'y', 'n', 'c', '-', 't', 'm', 'p'];
    proof {
        assert(t@ =~= tmp_suffix());
    }
    if v.len() < t.len() {
        return false;
    }
    let r = crate::text::range_eq(&v, v.len() - t.len(), v.len(), &t);
    proof {
        assert(v@.subrange(v@.len() - t@.len(), v@.len() as int) =~= v@.skip(v@.len() - t@.len()));
    }
    r
}

/// The temp file name used while downloading `file_name`.
pub fn tmp_path(file_name: &str) -> (r: String)
    ensures
        r@ == file_name@ + tmp_suffix(),
{
    let mut r = copy_str(file_name);
    let t = crate::text::string_of_all(&vec!['.', 'n', 'c', 's', 'y', 'n', 'c', '-', 't', 'm', 'p']);
    r.append(t.as_str());
    proof {
        assert(t@ =~= tmp_suffix());
    }
    r
}

/// Record a path's synced state in a journal.
pub fn record(journal: &mut Journal, key: &str, is_dir: bool, etag: Option<String>, size: u64, mtime: i64)
    requires
        old(journal).wf(),
    ensures
        final(journal).wf(),
        final(journal).get_spec(key@) == Some(EntryV { is_dir, etag: opt_view(etag), size, local_mtime: mtime }),
        forall|k: Seq<char>| k != key@ ==> final(journal).get_spec(k) == old(journal).get_spec(k),
{
    journal.insert(key, JournalEntry { is_dir, etag, size, local_mtime: mtime });
}

/// The root a remote walk starts from: `/` plus the base without its
/// surrounding slashes.
pub fn walk_base(base: &str) -> (r: String)
    ensures
        r@ == seq!['/'] + crate::text::trim_c(base@, '/'),
{
    let v = crate::text::chars_of(base);
    let a = crate::text::trim_start_bound(&v, 0, v.len(), '/');
    let b = crate::text::trim_end_bound(&v, a, v.len(), '/');
    let mut r = String::new();
    crate::text::push_char(&mut r, '/');
    crate::text::push_range(&mut r, &v, a, b);
    proof {
        assert(v@.subrange(0, v@.len() as int) =~= v@);
        assert(r@ =~= seq!['/'] + crate::text::trim_c(base@, '/'));
    }
    r
}

/// A remote listing entry as the walk records it, or `None` for the walked
/// folder itself and for in-progress upload temps. Directories carry no size
/// and no checksums.
pub fn remote_entry(
    base_norm: &str,
    path: &str,
    is_dir: bool,
    size: u64,
    etag: Option<String>,
    checksums: Option<String>,
) -> (r: Option<(String, RemoteMeta)>)
    ensures
        ({
            let rel = crate::paths::rel_to_base_spec(base_norm@, path@);
            &&& r is None <==> (rel.len() == 0 || crate::text::is_suffix(tmp_suffix(), rel))
            &&& r matches Some(x) ==> x.0@ == rel && x.1@ == (RemoteV {
                is_dir,
                size: if is_dir {
                    0
                } else {
                    size
                },
                etag: opt_view(etag),
                checksums: if is_dir {
                    None
                } else {
                    opt_view(checksums)
                },
            })
        }),
{
    let rel = crate::paths::rel_to_base(base_norm, path);
    if rel.as_str().is_empty() || ends_with_tmp(rel.as_str()) {
        return None;
    }
    let meta = if is_dir {
        RemoteMeta { is_dir: true, size: 0, etag, checksums: None }
    } else {
        RemoteMeta { is_dir: false, size, etag, checksums }
    };
    Some((rel, meta))
}

/// Whether the local walk keeps a relative path: not the root itself, not a
/// conflicted copy, not a download temp.
pub fn local_path_kept(rel: &str) -> (b: bool)
    ensures
        b == !(rel@.len() == 0 || crate::text::find_from(rel@, crate::engine::conflict_mark(), 0) is Some
            || crate::text::is_suffix(tmp_suffix(), rel@)),
{
    !(rel.is_empty() || is_conflicted(rel) || ends_with_tmp(rel))
}

/// The local walk's metadata for one entry: directories carry no size.
pub fn local_meta(is_dir: bool, len: u64, mtime: i64) -> (m: LocalMeta)
    ensures
        m == (LocalMeta {
            is_dir,
            size: if is_dir {
                0
            } else {
                len
            },
            mtime,
        }),
{
    LocalMeta { is_dir, size: if is_dir { 0 } else { len }, mtime }
}

// ---------------------------------------------------------------------------
// Laws of the plan
// ---------------------------------------------------------------------------

/// The path a step is about.
pub open spec fn step_key(s: StepV) -> Seq<char> {
    match s {
        StepV::Record { key, .. } => key,
        StepV::Transfer(t) => t.key,
        StepV::Verify(v) => v.key,
        StepV::MkdirLocal { key, .. } => key,
        StepV::MkdirRemote { key, .. } => key,
        StepV::DeleteRemote { key } => key,
        StepV::DeleteLocal { key } => key,
    }
}

/// A path is deleted on one side only when it is gone from the other side
/// and the journal knows it: an unknown path is mirrored, never deleted.
pub open spec fn deletion_justified(
    s: StepV,
    remote: PathMap<RemoteMeta>,
    local: PathMap<LocalMeta>,
    journal: Journal,
) -> bool {
    match s {
        StepV::DeleteRemote { key } => remote_at(remote, key) is Some && local.get_spec(key) is None
            && journal.get_spec(key) is Some,
        StepV::DeleteLocal { key } => local.get_spec(key) is Some && remote_at(remote, key) is None
            && journal.get_spec(key) is Some,
        _ => true,
    }
}

proof fn lemma_step_key(key: Seq<char>, root: Seq<char>, r: Option<RemoteV>, l: Option<LocalMeta>, j: Option<EntryV>)
    ensures
        step_spec(key, root, r, l, j) matches Some(s) ==> step_key(s) == key,
        step_spec(key, root, r, l, j) matches Some(s) ==> match s {
            StepV::DeleteRemote { .. } => r is Some && l is None && j is Some,
            StepV::DeleteLocal { .. } => l is Some && r is None && j is Some,
            _ => true,
        },
{
}

/// The plan visits paths in strictly increasing order, so each path gets at
/// most one step and every directory's step comes before its children's; no
/// ignored path gets a step, every step is about one of the given paths, and
/// every deletion is of a path the journal knows and the other side lacks.
pub proof fn law_plan_order_and_safety(
    keys: Seq<Seq<char>>,
    root: Seq<char>,
    remote: PathMap<RemoteMeta>,
    local: PathMap<LocalMeta>,
    journal: Journal,
    ignore: Seq<String>,
)
    requires
        strictly_sorted(keys),
    ensures
        ({
            let p = plan_spec(keys, root, remote, local, journal, ignore);
            &&& forall|a: int, b: int| 0 <= a < b < p.len() ==> crate::pathmap::lex_lt(step_key(#[trigger] p[a]), step_key(#[trigger] p[b]))
            &&& forall|a: int| 0 <= a < p.len() ==> keys.contains(step_key(#[trigger] p[a]))
            &&& forall|a: int| 0 <= a < p.len() ==> !is_ignored_spec(step_key(#[trigger] p[a]), ignore)
            &&& forall|a: int| 0 <= a < p.len() ==> deletion_justified(#[trigger] p[a], remote, local, journal)
        }),
    decreases keys.len(),
{
    if keys.len() > 0 {
        let d = keys.drop_last();
        assert(strictly_sorted(d)) by {
            assert forall|a: int, b: int| 0 <= a < b < d.len() implies crate::pathmap::lex_lt(#[trigger] d[a], #[trigger] d[b]) by {
                assert(d[a] == keys[a]);
                assert(d[b] == keys[b]);
            }
        }
        law_plan_order_and_safety(d, root, remote, local, journal, ignore);
        let prev = plan_spec(d, root, remote, local, journal, ignore);
        let k = keys.last();
        lemma_step_key(k, root, remote_at(remote, k), local.get_spec(k), journal.get_spec(k));
        assert forall|a: int| 0 <= a < prev.len() implies crate::pathmap::lex_lt(step_key(#[trigger] prev[a]), k) by {
            let x = choose|x: int| 0 <= x < d.len() && d[x] == step_key(prev[a]);
            assert(keys[x] == d[x]);
            assert(crate::pathmap::lex_lt(keys[x], keys[keys.len() - 1]));
        }
        assert forall|a: int| 0 <= a < prev.len() implies keys.contains(step_key(#[trigger] prev[a])) by {
            let x = choose|x: int| 0 <= x < d.len() && d[x] == step_key(prev[a]);
            assert(keys[x] == d[x]);
        }
        assert(keys[keys.len() - 1] == k);
    }
}

/// A deletion never loses an edit: a remote file is deleted only when its
/// etag is the one the journal recorded, a local file only when its size and
/// mtime are the recorded ones, and a directory only when the journal knew it
/// as a directory.
pub proof fn law_classify_keeps_edits(r: Option<RemoteV>, l: Option<LocalMeta>, j: Option<EntryV>)
    ensures
        classify_spec(r, l, j) == Decision::DeleteRemote ==> match (r, l, j) {
            (Some(rr), None, Some(jj)) => if rr.is_dir {
                jj.is_dir
            } else {
                !jj.is_dir && jj.etag == rr.etag
            },
            _ => false,
        },
        classify_spec(r, l, j) == Decision::DeleteLocal ==> match (r, l, j) {
            (None, Some(ll), Some(jj)) => if ll.is_dir {
                jj.is_dir
            } else {
                !jj.is_dir && jj.size == ll.size && jj.local_mtime == ll.mtime
            },
            _ => false,
        },
        r is Some && l is Some ==> classify_spec(r, l, j) != Decision::DeleteRemote && classify_spec(r, l, j)
            != Decision::DeleteLocal,
        j is None ==> classify_spec(r, l, j) != Decision::DeleteRemote && classify_spec(r, l, j)
            != Decision::DeleteLocal,
{
}

/// A path the journal does not know is copied to the side that lacks it.
/// This is how the run after a refused deletion sweep restores the files it
/// kept: a refused deletion leaves no journal entry behind.
pub proof fn law_unknown_paths_are_mirrored(r: Option<RemoteV>, l: Option<LocalMeta>)
    ensures
        match (r, l) {
            (Some(rr), None) => classify_spec(r, l, None) == if rr.is_dir {
                Decision::MkdirLocal
            } else {
                Decision::Download
            },
            (None, Some(ll)) => classify_spec(r, l, None) == if ll.is_dir {
                Decision::MkdirRemote
            } else {
                Decision::Upload
            },
            _ => true,
        },
{
}

proof fn lemma_trim_end_c_last(s: Seq<char>, c: char)
    ensures
        trim_end_c_len(s, c),
    decreases s.len(),
{
    if s.len() > 0 && s.last() == c {
        lemma_trim_end_c_last(s.drop_last(), c);
        let t = crate::text::trim_end_c(s, c);
        assert(s.drop_last().take(t.len() as int) =~= s.take(t.len() as int));
    } else {
        assert(s.take(s.len() as int) =~= s);
    }
}

spec fn trim_end_c_len(s: Seq<char>, c: char) -> bool {
    let t = crate::text::trim_end_c(s, c);
    &&& t.len() > 0 ==> t.last() != c
    &&& t.len() <= s.len()
    &&& t == s.take(t.len() as int)
}

proof fn lemma_trim_start_c_first(s: Seq<char>, c: char)
    ensures
        crate::text::trim_start_c(s, c).len() > 0 ==> crate::text::trim_start_c(s, c)[0] != c,
    decreases s.len(),
{
    if s.len() > 0 && s[0] == c {
        lemma_trim_start_c_first(s.drop_first(), c);
    }
}

/// A path the walk finds at `remote_join(base, key)` is recorded under
/// `key` again: the relative key of a remote path survives the round trip
/// through the server (for keys without a leading or trailing `/`).
pub proof fn law_walk_recovers_key(base: Seq<char>, key: Seq<char>)
    requires
        key.len() == 0 || (key[0] != '/' && key.last() != '/'),
    ensures
        crate::paths::rel_to_base_spec(seq!['/'] + crate::text::trim_c(base, '/'), remote_join_spec(base, key)) == key,
{
    let ts = crate::text::trim_start_c(base, '/');
    let b = crate::text::trim_c(base, '/');
    lemma_trim_end_c_last(ts, '/');
    lemma_trim_start_c_first(base, '/');
    assert(b.len() > 0 ==> b.last() != '/');
    assert(b.len() > 0 ==> b[0] == ts[0]);
    let path = remote_join_spec(base, key);
    let w = seq!['/'] + b;
    if b.len() == 0 {
        assert(path =~= seq!['/'] + key);
        assert(w =~= seq!['/']);
        assert(crate::text::trim_end_c(Seq::<char>::empty(), '/') == Seq::<char>::empty());
        assert(crate::text::trim_end_c(w, '/') =~= Seq::<char>::empty()) by {
            assert(w.drop_last() =~= Seq::<char>::empty());
        }
        if key.len() == 0 {
            assert(crate::text::trim_end_c(path, '/') =~= Seq::<char>::empty()) by {
                assert(path.drop_last() =~= Seq::<char>::empty());
            }
            assert(crate::text::trim_start_c(Seq::<char>::empty(), '/') == Seq::<char>::empty());
        } else {
            assert(path.last() == key.last());
            assert(crate::text::trim_start_c(path, '/') == crate::text::trim_start_c(path.drop_first(), '/'));
            assert(path.drop_first() =~= key);
        }
    } else {
        assert(crate::text::trim_end_c(w, '/') == w) by {
            assert(w.last() == b.last());
        }
        if key.len() == 0 {
            assert(path =~= w.push('/'));
            assert(crate::text::trim_end_c(path, '/') == w) by {
                assert(path.drop_last() =~= w);
            }
            assert(w.skip(w.len() as int) =~= Seq::<char>::empty());
            assert(crate::text::is_prefix(w, w)) by {
                assert(w.subrange(0, w.len() as int) =~= w);
            }
        } else {
            assert(path =~= w + (seq!['/'] + key));
            assert(path.last() == key.last());
            assert(crate::text::trim_end_c(path, '/') == path);
            assert(crate::text::is_prefix(w, path)) by {
                assert(path.subrange(0, w.len() as int) =~= w);
            }
            let rest = path.skip(w.len() as int);
            assert(rest =~= seq!['/'] + key);
            assert(crate::text::trim_start_c(rest, '/') == crate::text::trim_start_c(rest.drop_first(), '/'));
            assert(rest.drop_first() =~= key);
        }
    }
}

} // verus!
