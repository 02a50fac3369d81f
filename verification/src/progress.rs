//! Live sync progress and activity reporting. The engine emits fine-grained
//! [`SyncEvent`]s; an [`Aggregator`] folds them into a single [`Progress`]
//! snapshot (files and bytes done against the plan, files in flight) and
//! names the entries of the capped activity log. The application runs the
//! event loop, the timer and the smoothed speed estimate.

use vstd::prelude::*;
use std::collections::VecDeque;
use crate::pathmap::PathMap;
use crate::text::{copy_str, opt_view};

verus! {

/// Most entries the activity log keeps; the oldest goes first.
pub const ACTIVITY_CAP: usize = 200;

#[derive(Clone, Copy, PartialEq, Eq, Debug, Structural)]
pub enum Direction {
    Upload,
    Download,
    /// Byte comparison of same-size files on both sides.
    Verify,
}

impl Direction {
    pub open spec fn text(self) -> Seq<char> {
        match self {
            Direction::Upload => "upload"@,
            Direction::Download => "download"@,
            Direction::Verify => "verify"@,
        }
    }

    /// Lower-case name shown in the UI.
    pub fn as_str(self) -> (r: &'static str)
        ensures
            r@ == self.text(),
    {
        match self {
            Direction::Upload => "upload",
            Direction::Download => "download",
            Direction::Verify => "verify",
        }
    }
}

/// Event stream from the engine to the aggregator.
pub enum SyncEvent {
    /// Start of a run: clears the previous snapshot.
    SessionReset,
    /// Scan-phase progress: entries discovered so far in `folder`.
    ScanProgress { folder: String, entries: u64 },
    /// Additive plan for a folder about to sync.
    SessionPlan { files: u64, bytes: u64 },
    /// End of a run.
    SessionEnd,
    FileStart { path: String, dir: Direction, total: u64 },
    FileProgress { path: String, done: u64, total: u64 },
    FileDone { path: String, dir: Direction, size: u64 },
    /// A transfer failed or gave up: drop it from the in-flight set.
    FileAborted { path: String },
    /// A file was verified identical on both sides.
    VerifyDone { path: String, size: u64 },
    Deleted { path: String, remote: bool },
    Conflict { path: String },
    Error { path: String, message: String },
}

/// One file currently being transferred.
pub struct ActiveFile {
    pub path: String,
    /// `upload` or `download`.
    pub direction: String,
    pub done: u64,
    pub total: u64,
}

pub struct ActiveFileV {
    pub path: Seq<char>,
    pub direction: Seq<char>,
    pub done: u64,
    pub total: u64,
}

impl View for ActiveFile {
    type V = ActiveFileV;

    open spec fn view(&self) -> ActiveFileV {
        ActiveFileV { path: self.path@, direction: self.direction@, done: self.done, total: self.total }
    }
}

impl ActiveFile {
    pub fn duplicate(&self) -> (r: ActiveFile)
        ensures
            r@ == self@,
    {
        ActiveFile {
            path: copy_str(self.path.as_str()),
            direction: copy_str(self.direction.as_str()),
            done: self.done,
            total: self.total,
        }
    }
}

/// Live snapshot of an in-flight (or just-finished) sync run.
pub struct Progress {
    pub active: bool,
    /// `scanning` while folders are walked, `transferring` afterwards.
    pub phase: String,
    /// Remote entries discovered so far in the folder being scanned.
    pub scanned: u64,
    /// Folder currently being scanned (scan phase only).
    pub current_file: String,
    /// Every file in flight, ordered by path.
    pub active_files: Vec<ActiveFile>,
    pub files_done: u64,
    pub files_total: u64,
    pub bytes_done: u64,
    pub bytes_total: u64,
    /// Bytes per second (smoothed by the application).
    pub speed: u64,
    /// Estimated seconds until the run finishes, when computable.
    pub eta_secs: Option<u64>,
}

pub struct ProgressV {
    pub active: bool,
    pub phase: Seq<char>,
    pub scanned: u64,
    pub current_file: Seq<char>,
    pub active_files: Seq<ActiveFileV>,
    pub files_done: u64,
    pub files_total: u64,
    pub bytes_done: u64,
    pub bytes_total: u64,
    pub speed: u64,
    pub eta_secs: Option<u64>,
}

pub open spec fn files_view(v: Seq<ActiveFile>) -> Seq<ActiveFileV> {
    Seq::new(v.len(), |i: int| v[i]@)
}

impl View for Progress {
    type V = ProgressV;

    open spec fn view(&self) -> ProgressV {
        ProgressV {
            active: self.active,
            phase: self.phase@,
            scanned: self.scanned,
            current_file: self.current_file@,
            active_files: files_view(self.active_files@),
            files_done: self.files_done,
            files_total: self.files_total,
            bytes_done: self.bytes_done,
            bytes_total: self.bytes_total,
            speed: self.speed,
            eta_secs: self.eta_secs,
        }
    }
}

/// The empty snapshot.
pub open spec fn idle_progress() -> ProgressV {
    ProgressV {
        active: false,
        phase: Seq::empty(),
        scanned: 0,
        current_file: Seq::empty(),
        active_files: Seq::empty(),
        files_done: 0,
        files_total: 0,
        bytes_done: 0,
        bytes_total: 0,
        speed: 0,
        eta_secs: None,
    }
}

impl Progress {
    /// The empty snapshot.
    pub fn new() -> (p: Progress)
        ensures
            p@ == idle_progress(),
    {
        let p = Progress {
            active: false,
            phase: String::new(),
            scanned: 0,
            current_file: String::new(),
            active_files: Vec::new(),
            files_done: 0,
            files_total: 0,
            bytes_done: 0,
            bytes_total: 0,
            speed: 0,
            eta_secs: None,
        };
        proof {
            assert(files_view(p.active_files@) =~= Seq::<ActiveFileV>::empty());
        }
        p
    }
}

/// One entry for the recent-activity log: `uploaded`, `downloaded`,
/// `verified`, `deleted`, `conflict` or `error`.
pub struct Note {
    pub kind: String,
    pub path: String,
    pub size: u64,
    pub message: Option<String>,
}

pub struct NoteV {
    pub kind: Seq<char>,
    pub path: Seq<char>,
    pub size: u64,
    pub message: Option<Seq<char>>,
}

impl View for Note {
    type V = NoteV;

    open spec fn view(&self) -> NoteV {
        NoteV { kind: self.kind@, path: self.path@, size: self.size, message: opt_view(self.message) }
    }
}

pub open spec fn opt_note(n: Option<Note>) -> Option<NoteV> {
    match n {
        Some(x) => Some(x@),
        None => None,
    }
}

pub open spec fn sat_sub(a: u64, b: u64) -> u64 {
    if a >= b {
        (a - b) as u64
    } else {
        0
    }
}

/// Folds engine events into the progress snapshot. In-flight files are kept
/// by path, so the snapshot lists them in path order.
pub struct Aggregator {
    pub progress: Progress,
    pub active: PathMap<ActiveFile>,
    /// `bytes_done` at the previous tick, for the speed estimate.
    pub last_bytes: u64,
}

/// The in-flight file recorded for `k`.
pub open spec fn active_at(m: PathMap<ActiveFile>, k: Seq<char>) -> Option<ActiveFileV> {
    match m.get_spec(k) {
        Some(a) => Some(a@),
        None => None,
    }
}

/// Bytes of `k` already counted as done.
pub open spec fn seen_bytes(m: PathMap<ActiveFile>, k: Seq<char>) -> u64 {
    match m.get_spec(k) {
        Some(a) => a.done,
        None => 0,
    }
}

impl Aggregator {
    pub open spec fn wf(&self) -> bool {
        self.active.wf()
    }

    /// An aggregator with the empty snapshot.
    pub fn new() -> (a: Aggregator)
        ensures
            a.wf(),
            a.progress@ == idle_progress(),
            forall|k: Seq<char>| a.active.get_spec(k) is None,
            a.last_bytes == 0,
    {
        Aggregator { progress: Progress::new(), active: PathMap::new(), last_bytes: 0 }
    }

    /// The event can be folded in without a counter overflowing.
    pub open spec fn fits(&self, ev: SyncEvent) -> bool {
        let p = self.progress;
        match ev {
            SyncEvent::SessionPlan { files, bytes } => p.files_total + files <= u64::MAX && p.bytes_total + bytes
                <= u64::MAX,
            SyncEvent::FileProgress { path, done, total } => p.bytes_done + sat_sub(done, seen_bytes(self.active, path@))
                <= u64::MAX,
            SyncEvent::FileDone { path, dir, size } => p.files_done < u64::MAX && p.bytes_done + sat_sub(
                size,
                seen_bytes(self.active, path@),
            ) <= u64::MAX,
            SyncEvent::VerifyDone { path, size } => p.files_done < u64::MAX && p.bytes_done + size <= u64::MAX,
            _ => true,
        }
    }

    /// Whether [`Aggregator::fits`] holds of `ev`.
    pub fn fits_exec(&self, ev: &SyncEvent) -> (b: bool)
        requires
            self.wf(),
        ensures
            b == self.fits(*ev),
    {
        let p = &self.progress;
        match ev {
            SyncEvent::SessionPlan { files, bytes } => *files <= u64::MAX - p.files_total && *bytes <= u64::MAX
                - p.bytes_total,
            SyncEvent::FileProgress { path, done, total } => {
                let seen = match self.active.get(path.as_str()) {
                    Some(a) => a.done,
                    None => 0,
                };
                let add = if *done >= seen {
                    *done - seen
                } else {
                    0
                };
                add <= u64::MAX - p.bytes_done
            },
            SyncEvent::FileDone { path, dir, size } => {
                let seen = match self.active.get(path.as_str()) {
                    Some(a) => a.done,
                    None => 0,
                };
                let add = if *size >= seen {
                    *size - seen
                } else {
                    0
                };
                p.files_done < u64::MAX && add <= u64::MAX - p.bytes_done
            },
            SyncEvent::VerifyDone { path, size } => p.files_done < u64::MAX && *size <= u64::MAX - p.bytes_done,
            _ => true,
        }
    }

    /// Fold one event into the snapshot; returns the activity-log entry it
    /// produces, if any.
    pub fn apply(&mut self, ev: SyncEvent) -> (note: Option<Note>)
        requires
            old(self).wf(),
            old(self).fits(ev),
        ensures
            final(self).wf(),
            ({
                let o = old(self).progress@;
                let n = final(self).progress@;
                let oa = old(self).active;
                let na = final(self).active;
                match ev {
                    SyncEvent::SessionReset => {
                        &&& n == (ProgressV { active: true, phase: "scanning"@, ..idle_progress() })
                        &&& forall|k: Seq<char>| na.get_spec(k) is None
                        &&& final(self).last_bytes == 0
                        &&& note is None
                    },
                    SyncEvent::ScanProgress { folder, entries } => {
                        &&& n == (ProgressV {
                            active: true,
                            phase: "scanning"@,
                            current_file: folder@,
                            scanned: entries,
                            ..o
                        })
                        &&& forall|k: Seq<char>| active_at(na, k) == active_at(oa, k)
                        &&& final(self).last_bytes == old(self).last_bytes
                        &&& note is None
                    },
                    SyncEvent::SessionPlan { files, bytes } => {
                        &&& n == (ProgressV {
                            active: true,
                            phase: "transferring"@,
                            current_file: Seq::empty(),
                            files_total: (o.files_total + files) as u64,
                            bytes_total: (o.bytes_total + bytes) as u64,
                            ..o
                        })
                        &&& forall|k: Seq<char>| active_at(na, k) == active_at(oa, k)
                        &&& final(self).last_bytes == old(self).last_bytes
                        &&& note is None
                    },
                    SyncEvent::SessionEnd => {
                        &&& n == (ProgressV {
                            active: false,
                            phase: Seq::empty(),
                            scanned: 0,
                            current_file: Seq::empty(),
                            active_files: Seq::empty(),
                            speed: 0,
                            eta_secs: None,
                            ..o
                        })
                        &&& forall|k: Seq<char>| na.get_spec(k) is None
                        &&& final(self).last_bytes == old(self).last_bytes
                        &&& note is None
                    },
                    SyncEvent::FileStart { path, dir, total } => {
                        &&& n == o
                        &&& active_at(na, path@) == Some(
                            ActiveFileV { path: path@, direction: dir.text(), done: 0, total },
                        )
                        &&& forall|k: Seq<char>| k != path@ ==> active_at(na, k) == active_at(oa, k)
                        &&& final(self).last_bytes == old(self).last_bytes
                        &&& note is None
                    },
                    SyncEvent::FileProgress { path, done, total } => {
                        &&& n == (ProgressV {
                            bytes_done: (o.bytes_done + sat_sub(done, seen_bytes(oa, path@))) as u64,
                            ..o
                        })
                        &&& active_at(na, path@) == Some(
                            ActiveFileV {
                                path: path@,
                                direction: match active_at(oa, path@) {
                                    Some(a) => a.direction,
                                    None => "download"@,
                                },
                                done,
                                total,
                            },
                        )
                        &&& forall|k: Seq<char>| k != path@ ==> active_at(na, k) == active_at(oa, k)
                        &&& final(self).last_bytes == old(self).last_bytes
                        &&& note is None
                    },
                    SyncEvent::FileDone { path, dir, size } => {
                        &&& n == (ProgressV {
                            files_done: (o.files_done + 1) as u64,
                            bytes_done: (o.bytes_done + sat_sub(size, seen_bytes(oa, path@))) as u64,
                            ..o
                        })
                        &&& na.get_spec(path@) is None
                        &&& forall|k: Seq<char>| k != path@ ==> active_at(na, k) == active_at(oa, k)
                        &&& final(self).last_bytes == old(self).last_bytes
                        &&& opt_note(note) == Some(
                            NoteV {
                                kind: match dir {
                                    Direction::Upload => "uploaded"@,
                                    Direction::Download => "downloaded"@,
                                    Direction::Verify => "verified"@,
                                },
                                path: path@,
                                size,
                                message: None,
                            },
                        )
                    },
                    SyncEvent::VerifyDone { path, size } => {
                        &&& n == (ProgressV {
                            files_done: (o.files_done + 1) as u64,
                            bytes_done: (o.bytes_done + size) as u64,
                            ..o
                        })
                        &&& forall|k: Seq<char>| active_at(na, k) == active_at(oa, k)
                        &&& final(self).last_bytes == old(self).last_bytes
                        &&& opt_note(note) == Some(NoteV { kind: "verified"@, path: path@, size, message: None })
                    },
                    SyncEvent::FileAborted { path } => {
                        &&& n == (ProgressV { bytes_done: sat_sub(o.bytes_done, seen_bytes(oa, path@)), ..o })
                        &&& na.get_spec(path@) is None
                        &&& forall|k: Seq<char>| k != path@ ==> active_at(na, k) == active_at(oa, k)
                        &&& final(self).last_bytes == old(self).last_bytes
                        &&& note is None
                    },
                    SyncEvent::Deleted { path, remote } => {
                        &&& n == o
                        &&& forall|k: Seq<char>| active_at(na, k) == active_at(oa, k)
                        &&& final(self).last_bytes == old(self).last_bytes
                        &&& opt_note(note) == Some(
                            NoteV {
                                kind: "deleted"@,
                                path: path@,
                                size: 0,
                                message: Some(
                                    if remote {
                                        "on server"@
                                    } else {
                                        "locally"@
                                    },
                                ),
                            },
                        )
                    },
                    SyncEvent::Conflict { path } => {
                        &&& n == o
                        &&& forall|k: Seq<char>| active_at(na, k) == active_at(oa, k)
                        &&& final(self).last_bytes == old(self).last_bytes
                        &&& opt_note(note) == Some(NoteV { kind: "conflict"@, path: path@, size: 0, message: None })
                    },
                    SyncEvent::Error { path, message } => {
                        &&& n == o
                        &&& forall|k: Seq<char>| active_at(na, k) == active_at(oa, k)
                        &&& final(self).last_bytes == old(self).last_bytes
                        &&& opt_note(note) == Some(
                            NoteV { kind: "error"@, path: path@, size: 0, message: Some(message@) },
                        )
                    },
                }
            }),
    {
        match ev {
            SyncEvent::SessionReset => {
                self.progress = Progress::new();
                self.progress.active = true;
                self.progress.phase = copy_str("scanning");
                self.last_bytes = 0;
                self.active.clear();
                None
            },
            SyncEvent::ScanProgress { folder, entries } => {
                self.progress.active = true;
                self.progress.phase = copy_str("scanning");
                self.progress.current_file = folder;
                self.progress.scanned = entries;
                None
            },
            SyncEvent::SessionPlan { files, bytes } => {
                self.progress.active = true;
                self.progress.phase = copy_str("transferring");
                self.progress.current_file = String::new();
                self.progress.files_total = self.progress.files_total + files;
                self.progress.bytes_total = self.progress.bytes_total + bytes;
                None
            },
            SyncEvent::SessionEnd => {
                self.progress.active = false;
                self.progress.phase = String::new();
                self.progress.scanned = 0;
                self.progress.current_file = String::new();
                self.progress.active_files = Vec::new();
                self.progress.speed = 0;
                self.progress.eta_secs = None;
                self.active.clear();
                proof {
                    assert(files_view(self.progress.active_files@) =~= Seq::<ActiveFileV>::empty());
                }
                None
            },
            SyncEvent::FileStart { path, dir, total } => {
                let d = copy_str(dir.as_str());
                let p2 = copy_str(path.as_str());
                self.active.insert(path.as_str(), ActiveFile { path: p2, direction: d, done: 0, total });
                None
            },
            SyncEvent::FileProgress { path, done, total } => {
                let prev = self.active.remove(path.as_str());
                let (seen, direction) = match prev {
                    Some(a) => (a.done, a.direction),
                    None => (0u64, copy_str("download")),
                };
                let add = if done >= seen {
                    done - seen
                } else {
                    0
                };
                self.progress.bytes_done = self.progress.bytes_done + add;
                let p2 = copy_str(path.as_str());
                self.active.insert(path.as_str(), ActiveFile { path: p2, direction, done, total });
                None
            },
            SyncEvent::FileDone { path, dir, size } => {
                self.progress.files_done = self.progress.files_done + 1;
                let seen = match self.active.remove(path.as_str()) {
                    Some(a) => a.done,
                    None => 0,
                };
                let add = if size >= seen {
                    size - seen
                } else {
                    0
                };
                self.progress.bytes_done = self.progress.bytes_done + add;
                let kind = match dir {
                    Direction::Upload => copy_str("uploaded"),
                    Direction::Download => copy_str("downloaded"),
                    Direction::Verify => copy_str("verified"),
                };
                Some(Note { kind, path, size, message: None })
            },
            SyncEvent::VerifyDone { path, size } => {
                self.progress.files_done = self.progress.files_done + 1;
                self.progress.bytes_done = self.progress.bytes_done + size;
                Some(Note { kind: copy_str("verified"), path, size, message: None })
            },
            SyncEvent::FileAborted { path } => {
                match self.active.remove(path.as_str()) {
                    Some(a) => {
                        self.progress.bytes_done = if self.progress.bytes_done >= a.done {
                            self.progress.bytes_done - a.done
                        } else {
                            0
                        };
                    },
                    None => {},
                }
                None
            },
            SyncEvent::Deleted { path, remote } => {
                let message = if remote {
                    copy_str("on server")
                } else {
                    copy_str("locally")
                };
                Some(Note { kind: copy_str("deleted"), path, size: 0, message: Some(message) })
            },
            SyncEvent::Conflict { path } => Some(Note { kind: copy_str("conflict"), path, size: 0, message: None }),
            SyncEvent::Error { path, message } => Some(
                Note { kind: copy_str("error"), path, size: 0, message: Some(message) },
            ),
        }
    }

    /// Bytes transferred since the previous tick; remembers the current count.
    pub fn tick_delta(&mut self) -> (delta: u64)
        requires
            old(self).wf(),
        ensures
            final(self).wf(),
            delta == sat_sub(old(self).progress.bytes_done, old(self).last_bytes),
            final(self).last_bytes == old(self).progress.bytes_done,
            final(self).progress@ == old(self).progress@,
            final(self).active == old(self).active,
    {
        let d = if self.progress.bytes_done >= self.last_bytes {
            self.progress.bytes_done - self.last_bytes
        } else {
            0
        };
        self.last_bytes = self.progress.bytes_done;
        d
    }

    /// Publish a speed estimate: while a run is active, the speed and, above
    /// 1 KiB/s with bytes still to go, the remaining seconds; otherwise zero
    /// and no estimate.
    pub fn set_speed(&mut self, speed: u64)
        requires
            old(self).wf(),
        ensures
            final(self).wf(),
            final(self).active == old(self).active,
            final(self).last_bytes == old(self).last_bytes,
            ({
                let o = old(self).progress@;
                final(self).progress@ == if o.active {
                    ProgressV {
                        speed,
                        eta_secs: if speed > 1024 && o.bytes_total > o.bytes_done {
                            Some(((o.bytes_total - o.bytes_done) / (speed as int)) as u64)
                        } else {
                            None
                        },
                        ..o
                    }
                } else {
                    ProgressV { speed: 0, eta_secs: None, ..o }
                }
            }),
    {
        if self.progress.active {
            self.progress.speed = speed;
            self.progress.eta_secs = if speed > 1024 && self.progress.bytes_total > self.progress.bytes_done {
                Some((self.progress.bytes_total - self.progress.bytes_done) / speed)
            } else {
                None
            };
        } else {
            self.progress.speed = 0;
            self.progress.eta_secs = None;
        }
    }

    /// Copy the in-flight files into the snapshot, ordered by path.
    pub fn snapshot_files(&mut self)
        requires
            old(self).wf(),
        ensures
            final(self).wf(),
            final(self).active == old(self).active,
            final(self).last_bytes == old(self).last_bytes,
            final(self).progress@ == (ProgressV {
                active_files: Seq::new(
                    old(self).active.entries@.len(),
                    |i: int| old(self).active.entries@[i].value@,
                ),
                ..old(self).progress@
            }),
    {
        let mut files: Vec<ActiveFile> = Vec::new();
        let mut i: usize = 0;
        let ghost es = self.active.entries@;
        while i < self.active.entries.len()
            invariant
                es == self.active.entries@,
                0 <= i <= es.len(),
                files_view(files@) =~= Seq::new(i as nat, |x: int| es[x].value@),
            decreases es.len() - i,
        {
            let f = self.active.entries[i].value.duplicate();
            let ghost before = files@;
            files.push(f);
            proof {
                assert(files_view(files@) =~= files_view(before).push(f@));
                assert(Seq::new((i + 1) as nat, |x: int| es[x].value@) =~= Seq::new(i as nat, |x: int| es[x].value@).push(
                    es[i as int].value@,
                ));
            }
            i = i + 1;
        }
        self.progress.active_files = files;
    }
}

/// Append to a capped log: when full, the oldest entry is dropped first.
pub fn push_capped<T>(log: &mut VecDeque<T>, item: T)
    ensures
        final(log)@ == if old(log)@.len() >= ACTIVITY_CAP {
            old(log)@.drop_first().push(item)
        } else {
            old(log)@.push(item)
        },
{
    if log.len() >= ACTIVITY_CAP {
        log.pop_front();
    }
    log.push_back(item);
}

/// One entry of the recent-activity log.
pub struct Activity {
    pub time: String,
    /// uploaded | downloaded | verified | deleted | conflict | error
    pub kind: String,
    pub path: String,
    pub size: u64,
    pub message: Option<String>,
}

/// Stamp a note with the current time and append it to the capped log.
pub fn push_activity(log: &mut VecDeque<Activity>, note: Note)
    ensures
        final(log)@.len() == if old(log)@.len() >= ACTIVITY_CAP {
            old(log)@.len() as int
        } else {
            old(log)@.len() + 1int
        },
        final(log)@.last().kind@ == note@.kind,
        final(log)@.last().path@ == note@.path,
        final(log)@.last().size == note@.size,
        opt_view(final(log)@.last().message) == note@.message,
        old(log)@.len() < ACTIVITY_CAP ==> final(log)@.drop_last() == old(log)@,
        old(log)@.len() >= ACTIVITY_CAP ==> final(log)@.drop_last() == old(log)@.drop_first(),
{
    let time = crate::clock::now_rfc3339();
    let a = Activity { time, kind: note.kind, path: note.path, size: note.size, message: note.message };
    push_capped(log, a);
}

pub struct ActivityV {
    pub time: Seq<char>,
    pub kind: Seq<char>,
    pub path: Seq<char>,
    pub size: u64,
    pub message: Option<Seq<char>>,
}

impl View for Activity {
    type V = ActivityV;

    open spec fn view(&self) -> ActivityV {
        ActivityV {
            time: self.time@,
            kind: self.kind@,
            path: self.path@,
            size: self.size,
            message: opt_view(self.message),
        }
    }
}

impl Activity {
    pub fn duplicate(&self) -> (r: Activity)
        ensures
            r@ == self@,
    {
        Activity {
            time: copy_str(self.time.as_str()),
            kind: copy_str(self.kind.as_str()),
            path: copy_str(self.path.as_str()),
            size: self.size,
            message: crate::text::clone_opt(&self.message),
        }
    }
}

pub open spec fn activities_view(s: Seq<Activity>) -> Seq<ActivityV> {
    Seq::new(s.len(), |i: int| s[i]@)
}

/// The activity log as the UI lists it: newest first.
pub fn newest_first(log: &VecDeque<Activity>) -> (r: Vec<Activity>)
    ensures
        activities_view(r@) == activities_view(log@).reverse(),
{
    let mut r: Vec<Activity> = Vec::new();
    let mut i = log.len();
    let ghost lv = activities_view(log@);
    while i > 0
        invariant
            i <= log@.len(),
            lv == activities_view(log@),
            activities_view(r@) == lv.reverse().take(log@.len() - i),
        decreases i,
    {
        let a = log[i - 1].duplicate();
        let ghost before = r@;
        r.push(a);
        proof {
            assert(activities_view(r@) =~= activities_view(before).push(lv[i - 1]));
            assert(lv.reverse()[log@.len() - i] == lv[i - 1]);
            assert(lv.reverse().take(log@.len() - i + 1) =~= lv.reverse().take(log@.len() - i).push(
                lv.reverse()[log@.len() - i],
            ));
        }
        i = i - 1;
    }
    proof {
        assert(lv.reverse().take(log@.len() as int) =~= lv.reverse());
    }
    r
}

} // verus!
