//! Per-folder sync journal: the last-synced state of every path, used as the
//! three-way merge base so created / modified / deleted can be told apart on
//! each side. Reading and writing the JSON file is done by the application.

use vstd::prelude::*;
use crate::pathmap::PathMap;
use crate::text::{clone_opt, copy_str, opt_view};

verus! {

/// The recorded state of one path at the time it was last synced.
pub struct JournalEntry {
    pub is_dir: bool,
    /// Remote ETag last seen.
    pub etag: Option<String>,
    /// Local size last seen.
    pub size: u64,
    /// Local mtime (unix seconds) last seen.
    pub local_mtime: i64,
}

/// Mathematical value of a [`JournalEntry`].
pub struct EntryV {
    pub is_dir: bool,
    pub etag: Option<Seq<char>>,
    pub size: u64,
    pub local_mtime: i64,
}

impl View for JournalEntry {
    type V = EntryV;

    open spec fn view(&self) -> EntryV {
        EntryV {
            is_dir: self.is_dir,
            etag: opt_view(self.etag),
            size: self.size,
            local_mtime: self.local_mtime,
        }
    }
}

impl JournalEntry {
    pub fn duplicate(&self) -> (r: JournalEntry)
        ensures
            r@ == self@,
    {
        JournalEntry {
            is_dir: self.is_dir,
            etag: clone_opt(&self.etag),
            size: self.size,
            local_mtime: self.local_mtime,
        }
    }
}

/// The journal of one folder pair, keyed by path relative to the folder root
/// without leading or trailing `/` (e.g. `sub/song.mp3`).
pub struct Journal {
    pub entries: PathMap<JournalEntry>,
}

pub open spec fn opt_entry_view(o: Option<JournalEntry>) -> Option<EntryV> {
    match o {
        Some(e) => Some(e@),
        None => None,
    }
}

impl Journal {
    pub open spec fn wf(&self) -> bool {
        self.entries.wf()
    }

    /// The entry recorded for `k`.
    pub open spec fn get_spec(&self, k: Seq<char>) -> Option<EntryV> {
        opt_entry_view(self.entries.get_spec(k))
    }

    /// An empty journal.
    pub fn new() -> (j: Journal)
        ensures
            j.wf(),
            j.entries.entries@.len() == 0,
            forall|k: Seq<char>| j.get_spec(k) is None,
    {
        Journal { entries: PathMap::new() }
    }

    /// The entry recorded for `key`.
    pub fn get(&self, key: &str) -> (r: Option<&JournalEntry>)
        requires
            self.wf(),
        ensures
            r matches Some(e) ==> self.get_spec(key@) == Some(e@),
            r is None ==> self.get_spec(key@) is None,
    {
        self.entries.get(key)
    }

    /// Record `entry` for `key`, replacing any previous entry.
    pub fn insert(&mut self, key: &str, entry: JournalEntry)
        requires
            old(self).wf(),
        ensures
            final(self).wf(),
            final(self).get_spec(key@) == Some(entry@),
            forall|k: Seq<char>| k != key@ ==> final(self).get_spec(k) == old(self).get_spec(k),
    {
        self.entries.insert(key, entry);
    }

    /// Keep every entry of `self`, and add `old`'s entry for each path that
    /// `self` does not record (a cancelled run carries the previous state of
    /// the paths it never reached).
    pub fn carry_over(&mut self, previous: &Journal)
        requires
            old(self).wf(),
            previous.wf(),
        ensures
            final(self).wf(),
            forall|k: Seq<char>|
                #[trigger] final(self).get_spec(k) == if old(self).get_spec(k) is Some {
                    old(self).get_spec(k)
                } else {
                    previous.get_spec(k)
                },
    {
        let ghost start = *self;
        let ghost pe = previous.entries.entries@;
        let mut i: usize = 0;
        while i < previous.entries.entries.len()
            invariant
                self.wf(),
                previous.wf(),
                pe == previous.entries.entries@,
                0 <= i <= pe.len(),
                forall|k: Seq<char>|
                    #[trigger] self.get_spec(k) == if start.get_spec(k) is Some {
                        start.get_spec(k)
                    } else if crate::pathmap::has_path(pe.take(i as int), k) {
                        previous.get_spec(k)
                    } else {
                        None
                    },
            decreases pe.len() - i,
        {
            let e = &previous.entries.entries[i];
            proof {
                crate::pathmap::lemma_lookup(pe, e.path@);
                assert(previous.get_spec(e.path@) == Some(e.value@));
            }
            if self.get(e.path.as_str()).is_none() {
                let d = e.value.duplicate();
                self.insert(e.path.as_str(), d);
            }
            proof {
                let t0 = pe.take(i as int);
                let t1 = pe.take(i + 1);
                assert forall|k: Seq<char>|
                    crate::pathmap::has_path(t1, k) == (crate::pathmap::has_path(t0, k) || k == e.path@) by {
                    if crate::pathmap::has_path(t1, k) {
                        let x = choose|x: int| 0 <= x < t1.len() && #[trigger] t1[x].path@ == k;
                        if x < i {
                            assert(t0[x] == pe[x]);
                        }
                    }
                    if crate::pathmap::has_path(t0, k) {
                        let x = choose|x: int| 0 <= x < t0.len() && #[trigger] t0[x].path@ == k;
                        assert(t1[x] == pe[x]);
                    }
                    if k == e.path@ {
                        assert(t1[i as int] == pe[i as int]);
                    }
                }
            }
            i = i + 1;
        }
        proof {
            assert(pe.take(pe.len() as int) =~= pe);
            assert forall|k: Seq<char>| #[trigger] self.get_spec(k) == if start.get_spec(k) is Some {
                start.get_spec(k)
            } else {
                previous.get_spec(k)
            } by {
                crate::pathmap::lemma_lookup(pe, k);
            }
        }
    }

    /// Name of the journal file of a folder pair inside the journals directory.
    pub fn file(folder_id: &str) -> (r: String)
        ensures
            r@ == folder_id@ + ".json"@,
    {
        let r = copy_str(folder_id);
        r.concat(".json")
    }
}

} // verus!
