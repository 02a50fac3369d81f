use cirrust::engine::{
    classify, conflict_original, conflicted_file_name, conflicted_name, conflicted_name_at, deletion_sweep_suspicious, is_conflicted,
    is_ignored, wildcard_match, Decision, LocalMeta, RemoteMeta,
};
use cirrust::journal::JournalEntry;
use cirrust::paths::{remote_join, rel_to_base};

fn rdir(etag: &str) -> RemoteMeta {
    RemoteMeta { is_dir: true, size: 0, etag: Some(etag.into()), checksums: None }
}
fn ldir() -> LocalMeta {
    LocalMeta { is_dir: true, size: 0, mtime: 0 }
}
fn jdir(etag: &str) -> JournalEntry {
    JournalEntry { is_dir: true, etag: Some(etag.into()), size: 0, local_mtime: 0 }
}
fn rfile(etag: &str, size: u64) -> RemoteMeta {
    RemoteMeta { is_dir: false, size, etag: Some(etag.into()), checksums: None }
}
fn lfile(size: u64, mtime: i64) -> LocalMeta {
    LocalMeta { is_dir: false, size, mtime }
}
fn jfile(etag: &str, size: u64, mtime: i64) -> JournalEntry {
    JournalEntry { is_dir: false, etag: Some(etag.into()), size, local_mtime: mtime }
}

#[test]
fn deleting_local_dir_with_stale_etag_removes_remote() {
    // remote etag "E1" (has children) != journal etag "E0" (recorded empty)
    let d = classify(Some(&rdir("E1")), None, Some(&jdir("E0")));
    assert_eq!(d, Decision::DeleteRemote, "known folder gone locally -> delete remote");
}

#[test]
fn deleting_remote_dir_with_stale_state_removes_local() {
    let d = classify(None, Some(&ldir()), Some(&jdir("E0")));
    assert_eq!(d, Decision::DeleteLocal, "known folder gone remotely -> delete local");
}

#[test]
fn unknown_remote_dir_is_mirrored_not_deleted() {
    assert_eq!(classify(Some(&rdir("E1")), None, None), Decision::MkdirLocal);
}

#[test]
fn unknown_local_dir_is_mirrored_not_deleted() {
    assert_eq!(classify(None, Some(&ldir()), None), Decision::MkdirRemote);
}

#[test]
fn two_present_dirs_are_left_alone() {
    assert_eq!(classify(Some(&rdir("E1")), Some(&ldir()), Some(&jdir("E0"))), Decision::NoAction);
}

#[test]
fn classify_file_matrix() {
    // Fresh pair (no journal): both sides merge.
    assert_eq!(classify(Some(&rfile("E", 1)), None, None), Decision::Download, "unknown remote file downloads");
    assert_eq!(classify(None, Some(&lfile(1, 10)), None), Decision::Upload, "unknown local file uploads");
    assert_eq!(
        classify(Some(&rfile("E", 1)), Some(&lfile(1, 10)), None),
        Decision::Conflict,
        "unknown on both sides goes through conflict/verify (identical content is adopted)"
    );

    // Journaled and unchanged: nothing to do.
    assert_eq!(
        classify(Some(&rfile("E", 1)), Some(&lfile(1, 10)), Some(&jfile("E", 1, 10))),
        Decision::NoAction
    );

    // Exactly one side changed.
    assert_eq!(
        classify(Some(&rfile("E2", 1)), Some(&lfile(1, 10)), Some(&jfile("E", 1, 10))),
        Decision::Download,
        "remote edit downloads"
    );
    assert_eq!(
        classify(Some(&rfile("E", 1)), Some(&lfile(2, 11)), Some(&jfile("E", 1, 10))),
        Decision::Upload,
        "local edit uploads"
    );
    assert_eq!(
        classify(Some(&rfile("E2", 1)), Some(&lfile(2, 11)), Some(&jfile("E", 1, 10))),
        Decision::Conflict,
        "both edited -> conflict"
    );

    // Deletions require an unchanged counterpart; an edit always outranks a deletion.
    assert_eq!(
        classify(None, Some(&lfile(1, 10)), Some(&jfile("E", 1, 10))),
        Decision::DeleteLocal,
        "remote deleted, local unchanged -> delete local"
    );
    assert_eq!(
        classify(None, Some(&lfile(2, 11)), Some(&jfile("E", 1, 10))),
        Decision::Upload,
        "remote deleted but local edited -> local edit wins, file restored"
    );
    assert_eq!(
        classify(Some(&rfile("E", 1)), None, Some(&jfile("E", 1, 10))),
        Decision::DeleteRemote,
        "local deleted, remote unchanged -> delete remote"
    );
    assert_eq!(
        classify(Some(&rfile("E2", 1)), None, Some(&jfile("E", 1, 10))),
        Decision::Download,
        "local deleted but remote edited -> remote edit wins, file restored"
    );

    // Gone on both sides: just forget it.
    assert_eq!(classify(None, None, Some(&jfile("E", 1, 10))), Decision::NoAction);

    // A file/directory type flip is left alone rather than guessed at.
    assert_eq!(classify(Some(&rdir("E")), Some(&lfile(1, 10)), None), Decision::NoAction);
}

#[test]
fn deletion_guard_boundaries() {
    assert!(!deletion_sweep_suspicious(0, 0), "empty plan is never suspicious");
    assert!(!deletion_sweep_suspicious(9, 9), "below the minimum always propagates (even 100%)");
    assert!(deletion_sweep_suspicious(10, 10), "wholesale wipe at the minimum is refused");
    assert!(deletion_sweep_suspicious(10, 20), "exactly half is refused");
    assert!(!deletion_sweep_suspicious(10, 21), "just under half propagates");
    assert!(!deletion_sweep_suspicious(50, 1000), "a small share of a big tree propagates");
    assert!(deletion_sweep_suspicious(600, 1000), "most of a big tree is refused");
}

#[test]
fn rel_to_base_strips_prefix() {
    assert_eq!(rel_to_base("/Music", "/Music/sub/"), "sub");
    assert_eq!(rel_to_base("/Music", "/Music/song.mp3"), "song.mp3");
    assert_eq!(rel_to_base("/Music", "/Music/a/b.txt"), "a/b.txt");
    // Root folder: base normalizes to "/".
    assert_eq!(rel_to_base("/", "/Foo"), "Foo");
}

#[test]
fn remote_join_builds_paths() {
    assert_eq!(remote_join("/Music", "sub/song.mp3"), "/Music/sub/song.mp3");
    assert_eq!(remote_join("/", "song.mp3"), "/song.mp3");
    assert_eq!(remote_join("/Music", "song.mp3"), "/Music/song.mp3");
}

#[test]
fn conflict_naming_roundtrips() {
    let c = conflicted_name("/data/song.mp3");
    assert!(c.contains("song (conflicted copy"));
    assert!(c.ends_with(".mp3"));
    assert!(is_conflicted(c.rsplit('/').next().unwrap()));
    assert!(!is_conflicted("ordinary.txt"));
}

#[test]
fn wildcard_and_ignore() {
    assert!(wildcard_match(b"*.tmp", b"foo.tmp"));
    assert!(!wildcard_match(b"*.tmp", b"foo.txt"));
    assert!(wildcard_match(b"a?c", b"abc"));
    assert!(wildcard_match(b"*", b"anything"));
    assert!(wildcard_match(b"node_modules", b"node_modules"));

    let pats = vec!["*.tmp".to_string(), "node_modules".to_string(), ".git".to_string()];
    assert!(is_ignored("a/b/c.tmp", &pats)); // segment *.tmp
    assert!(is_ignored("node_modules/react/index.js", &pats)); // dir + children
    assert!(is_ignored(".git", &pats));
    assert!(!is_ignored("src/main.rs", &pats));
}

#[test]
fn conflict_original_recovers_name() {
    assert_eq!(
        conflict_original("song (conflicted copy 2026-07-05 120000).mp3").as_deref(),
        Some("song.mp3"),
    );
    assert_eq!(conflict_original("normal.mp3"), None);
}

#[test]
fn conflicted_copy_keeps_directory_and_extension() {
    assert_eq!(
        conflicted_name_at("/data/song.mp3", "2026-07-05 120000"),
        "/data/song (conflicted copy 2026-07-05 120000).mp3"
    );
    assert_eq!(conflicted_name_at("notes", "D"), "notes (conflicted copy D)");
    assert_eq!(conflicted_name_at("/h/.bashrc", "D"), "/h/.bashrc (conflicted copy D)");
    assert_eq!(conflicted_name_at("a.tar.gz", "D"), "a.tar (conflicted copy D).gz");
}

#[test]
fn conflicted_copy_names_its_original() {
    for p in ["/data/song.mp3", "x/a.tar.gz", ".hidden", "plain"] {
        let c = conflicted_name_at(p, "2026-01-02 030405");
        let name = c.rsplit('/').next().unwrap();
        assert!(is_conflicted(name));
        assert_eq!(conflict_original(name).as_deref(), Some(p.rsplit('/').next().unwrap()));
    }
}

#[test]
fn question_mark_matches_exactly_one_byte() {
    assert!(!wildcard_match(b"a?c", b"ac"));
    assert!(!wildcard_match(b"a?c", b"abbc"));
    assert!(wildcard_match(b"**x", b"x"));
    assert!(!wildcard_match(b"", b"a"));
    assert!(wildcard_match(b"", b""));
}

#[test]
fn conflict_original_undoes_naming_for_any_stamp() {
    let name = conflicted_file_name("report", "2026/07/05 12:00", ".tar.gz");
    assert_eq!(name, "report (conflicted copy 2026/07/05 12:00).tar.gz");
    assert_eq!(conflict_original(&name).as_deref(), Some("report.tar.gz"));
    let bare = conflicted_file_name("notes", "x", "");
    assert_eq!(conflict_original(&bare).as_deref(), Some("notes"));
}
