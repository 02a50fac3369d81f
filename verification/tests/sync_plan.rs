use cirrust::engine::{LocalMeta, RemoteMeta};
use cirrust::journal::{Journal, JournalEntry};
use cirrust::pathmap::PathMap;
use cirrust::plan::{
    all_keys, guard_deletions, local_meta, remote_deletion_allowed, local_path_kept, plan, prepare, record, remote_entry, tally, tmp_path,
    walk_base, Step, SyncStats, TransferKind,
};

fn rfile(etag: &str, size: u64) -> RemoteMeta {
    RemoteMeta { is_dir: false, size, etag: Some(etag.into()), checksums: None }
}
fn jfile(etag: &str, size: u64, mtime: i64) -> JournalEntry {
    JournalEntry { is_dir: false, etag: Some(etag.into()), size, local_mtime: mtime }
}

fn trees() -> (PathMap<RemoteMeta>, PathMap<LocalMeta>, Journal) {
    let mut remote = PathMap::new();
    remote.insert("new-remote.txt", rfile("R", 7));
    remote.insert("same.txt", rfile("S", 3));
    remote.insert("skip.tmp", rfile("T", 1));
    let mut local = PathMap::new();
    local.insert("new-local.txt", LocalMeta { is_dir: false, size: 5, mtime: 50 });
    local.insert("same.txt", LocalMeta { is_dir: false, size: 3, mtime: 30 });
    let mut journal = Journal::new();
    journal.insert("same.txt", jfile("S", 3, 30));
    journal.insert("gone.txt", jfile("G", 2, 20));
    (remote, local, journal)
}

#[test]
fn keys_cover_every_tree_once_in_order() {
    let (remote, local, journal) = trees();
    let keys = all_keys(&remote, &local, &journal);
    assert_eq!(keys, vec!["gone.txt", "new-local.txt", "new-remote.txt", "same.txt", "skip.tmp"]);
}

#[test]
fn plan_follows_key_order_and_skips_ignored_paths() {
    let (remote, local, journal) = trees();
    let keys = all_keys(&remote, &local, &journal);
    let ignore = vec!["*.tmp".to_string()];
    let steps = plan(&keys, "/Docs", &remote, &local, &journal, &ignore);
    // gone.txt: gone on both sides, forgotten (no step).
    assert_eq!(steps.len(), 3);
    match &steps[0] {
        Step::Transfer(t) => {
            assert_eq!(t.key, "new-local.txt");
            assert_eq!(t.kind, TransferKind::Upload);
            assert_eq!(t.remote_full, "/Docs/new-local.txt");
            assert_eq!(t.size, 5);
        },
        _ => panic!("expected an upload"),
    }
    match &steps[1] {
        Step::Transfer(t) => {
            assert_eq!(t.key, "new-remote.txt");
            assert_eq!(t.kind, TransferKind::Download);
            assert_eq!(t.size, 7);
            assert_eq!(t.etag.as_deref(), Some("R"));
        },
        _ => panic!("expected a download"),
    }
    match &steps[2] {
        Step::Record { key, entry } => {
            assert_eq!(key, "same.txt");
            assert_eq!(entry.etag.as_deref(), Some("S"));
        },
        _ => panic!("expected a record"),
    }
    let (files, bytes, verify) = tally(&keys, &remote, &local, &journal, &ignore);
    assert_eq!((files, bytes, verify), (2, 12, 0));
}

#[test]
fn prepare_counts_the_plan() {
    let (remote, local, journal) = trees();
    let p = prepare(remote, local, journal, &[]);
    assert_eq!(p.keys.len(), 5);
    // skip.tmp is not ignored here: a third download.
    assert_eq!(p.files_total, 3);
    assert_eq!(p.bytes_total, 13);
}

#[test]
fn guard_refuses_a_sweep_and_counts_it() {
    let mut planned: Vec<String> = (0..10).map(|i| format!("f{i}")).collect();
    let mut stats = SyncStats::new();
    assert!(guard_deletions(&mut planned, 12, &mut stats));
    assert!(planned.is_empty());
    assert_eq!(stats.blocked_deletions, 10);

    let mut few = vec!["a".to_string(), "b".to_string()];
    let mut stats2 = SyncStats::new();
    assert!(!guard_deletions(&mut few, 3, &mut stats2));
    assert_eq!(few.len(), 2);
    assert_eq!(stats2, SyncStats::new());
}

#[test]
fn stats_count_each_kind() {
    let mut s = SyncStats::new();
    s.count_transfer(TransferKind::Upload);
    s.count_transfer(TransferKind::Download);
    s.count_transfer(TransferKind::ConflictDownload);
    s.count_conflict();
    s.count_deleted(true);
    s.count_deleted(false);
    assert_eq!((s.uploaded, s.downloaded, s.conflicts), (1, 1, 2));
    assert_eq!((s.deleted_remote, s.deleted_local), (1, 1));
}

#[test]
fn walk_helpers() {
    assert_eq!(walk_base("/Music/"), "/Music");
    assert_eq!(walk_base(""), "/");
    assert_eq!(tmp_path("song.mp3"), "song.mp3.ncsync-tmp");
    assert!(local_path_kept("a/b.txt"));
    assert!(!local_path_kept(""));
    assert!(!local_path_kept("x (conflicted copy 2026-01-01 000000).txt"));
    assert!(!local_path_kept("song.mp3.ncsync-tmp"));
    let m = local_meta(true, 99, 5);
    assert_eq!((m.is_dir, m.size, m.mtime), (true, 0, 5));
}

#[test]
fn remote_entries_are_relative_and_skip_the_root_and_temps() {
    assert!(remote_entry("/Music", "/Music/", true, 0, None, None).is_none());
    assert!(remote_entry("/Music", "/Music/a.mp3.ncsync-tmp", false, 1, None, None).is_none());
    let (rel, meta) = remote_entry("/Music", "/Music/sub/", true, 4096, Some("E".into()), Some("SHA1:x".into())).unwrap();
    assert_eq!(rel, "sub");
    assert!(meta.is_dir);
    assert_eq!(meta.size, 0);
    assert_eq!(meta.checksums, None);
    let (rel, meta) = remote_entry("/Music", "/Music/a.mp3", false, 12, None, Some("MD5:y".into())).unwrap();
    assert_eq!(rel, "a.mp3");
    assert_eq!(meta.size, 12);
    assert_eq!(meta.checksums.as_deref(), Some("MD5:y"));
}

#[test]
fn recording_overwrites_one_entry() {
    let mut j = Journal::new();
    record(&mut j, "a", false, Some("E1".into()), 1, 10);
    record(&mut j, "b", true, None, 0, 0);
    record(&mut j, "a", false, Some("E2".into()), 2, 20);
    let a = j.get("a").unwrap();
    assert_eq!(a.etag.as_deref(), Some("E2"));
    assert_eq!(a.size, 2);
    assert!(j.get("b").unwrap().is_dir);
    assert!(j.get("c").is_none());
}

#[test]
fn carry_over_keeps_entries_not_seen_again() {
    let mut previous = Journal::new();
    previous.insert("kept.txt", jfile("K", 1, 1));
    previous.insert("seen.txt", jfile("OLD", 1, 1));
    let mut next = Journal::new();
    next.insert("seen.txt", jfile("NEW", 2, 2));
    next.carry_over(&previous);
    assert_eq!(next.get("seen.txt").unwrap().etag.as_deref(), Some("NEW"));
    assert_eq!(next.get("kept.txt").unwrap().etag.as_deref(), Some("K"));
    assert_eq!(Journal::file("f1"), "f1.json");
}

#[test]
fn path_map_keeps_keys_sorted_and_unique() {
    let mut m: PathMap<u32> = PathMap::new();
    m.insert("b", 2);
    m.insert("a", 1);
    m.insert("c", 3);
    m.insert("b", 20);
    assert_eq!(m.len(), 3);
    let keys: Vec<&str> = m.entries.iter().map(|e| e.path.as_str()).collect();
    assert_eq!(keys, vec!["a", "b", "c"]);
    assert_eq!(m.get("b"), Some(&20));
    assert_eq!(m.remove("a"), Some(1));
    assert_eq!(m.remove("a"), None);
    assert_eq!(m.len(), 2);
    m.clear();
    assert_eq!(m.len(), 0);
}

#[test]
fn remote_folder_is_deleted_only_when_listed_empty() {
    assert!(remote_deletion_allowed(false, None));
    assert!(remote_deletion_allowed(true, Some(0)));
    assert!(!remote_deletion_allowed(true, Some(2)));
    assert!(!remote_deletion_allowed(true, None));
}
