use cirrust::config::SyncFolder;
use cirrust::status::{
    badge_color, blocked_message, check_new_folder, choose_account, clean_patterns, conflict_notice, enabled_folder_count,
    error_notice, finished_status, interim_status, local_candidates, parse_keep, paused_status, state_string, tooltip, Keep,
    RoundSummary, SyncState, SyncStatus,
};
use cirrust::plan::SyncStats;
use cirrust::store::safe_name;

fn folder(id: &str, account: &str, local: &str, remote: &str, enabled: bool) -> SyncFolder {
    SyncFolder { id: id.into(), account_id: account.into(), local_path: local.into(), remote_path: remote.into(), enabled }
}

#[test]
fn overlapping_folder_pairs_are_refused() {
    let fs = vec![folder("f1", "acc", "/home/u/Music", "/Music", true)];
    assert!(check_new_folder(&fs, "acc", "/home/u/Docs", "/Docs").is_ok());
    let e = check_new_folder(&fs, "acc", "/home/u/Other", "/Music/sub").unwrap_err();
    assert!(e.starts_with("/Music/sub is already being synced to /home/u/Music"));
    // Another account may sync the same server path.
    assert!(check_new_folder(&fs, "acc2", "/home/u/M2", "/Music").is_ok());
    let e = check_new_folder(&fs, "acc2", "/home/u/Music/x", "/Z").unwrap_err();
    assert!(e.starts_with("/home/u/Music/x overlaps the synced folder /home/u/Music"));
}

#[test]
fn folder_helpers() {
    let fs = vec![folder("a", "x", "/l1", "/r1", true), folder("b", "x", "/l2", "/r2", false)];
    assert_eq!(enabled_folder_count(&fs), 1);
    assert_eq!(choose_account(None, Some("act".into()), Some("first".into())).as_deref(), Some("act"));
    assert_eq!(choose_account(Some("req".into()), None, None).as_deref(), Some("req"));
    assert_eq!(choose_account(None, None, Some("first".into())).as_deref(), Some("first"));
    let pats = vec![" *.tmp ".to_string(), "   ".to_string(), "node_modules".to_string()];
    assert_eq!(clean_patterns(&pats), vec!["*.tmp", "node_modules"]);
    assert_eq!(parse_keep("local"), Ok(Keep::Local));
    assert_eq!(parse_keep("remote"), Ok(Keep::Remote));
    assert_eq!(parse_keep("both"), Err("keep must be 'local' or 'remote'".to_string()));
}

#[test]
fn server_paths_map_to_local_files() {
    let fs = vec![
        folder("a", "acc", "/home/u/Music", "/Music", true),
        folder("b", "other", "/home/u/M2", "/Music", true),
        folder("c", "acc", "/home/u/Off", "/Music", false),
    ];
    let c = local_candidates(&fs, Some("acc"), "/Music/a/b.mp3");
    assert_eq!(c, vec![("/home/u/Music".to_string(), "a/b.mp3".to_string()), ("/home/u/M2".to_string(), "a/b.mp3".to_string())]);
}

#[test]
fn statuses_and_notices() {
    let s = SyncStatus::new(3);
    assert_eq!(s.state, SyncState::Idle);
    let p = paused_status(&s, true);
    assert_eq!(p.state, SyncState::Paused);
    assert!(p.paused);
    let f = finished_status(3, Some("boom".into()), "2026-01-01T00:00:00Z".into());
    assert_eq!(f.state, SyncState::Error);
    assert_eq!(f.last_sync.as_deref(), Some("2026-01-01T00:00:00Z"));
    let i = interim_status(SyncState::Syncing, Some("/Music".into()), None, 1, false, None);
    assert_eq!(tooltip(&i), "Cirrust — syncing /Music");
    assert_eq!(tooltip(&SyncStatus::new(0)), "Cirrust — synced");
    assert_eq!(state_string(SyncState::Offline), "offline");
    assert_ne!(badge_color(SyncState::Error), badge_color(SyncState::Idle));
    assert_eq!(conflict_notice(1), "1 file had conflicting changes — review them in Synced folders.");
    assert_eq!(conflict_notice(2), "2 files had conflicting changes — review them in Synced folders.");
    assert_eq!(error_notice("x"), "Syncing failed: x");
    assert!(blocked_message("/Music", 12).starts_with("/Music: refused to delete 12 files"));
}

#[test]
fn a_round_summary_collects_folder_results() {
    let mut r = RoundSummary::new();
    let mut st = SyncStats::new();
    st.conflicts = 2;
    r.add_stats("/A", &st);
    assert_eq!(r.new_conflicts, 2);
    assert!(r.last_error.is_none());
    st.blocked_deletions = 11;
    r.add_stats("/B", &st);
    assert_eq!(r.new_conflicts, 4);
    assert!(r.last_error.as_deref().unwrap().starts_with("/B: refused to delete 11 files"));
    r.any_offline = true;
    assert!(!r.offline_after_scan(0));
    let mut q = RoundSummary::new();
    q.any_offline = true;
    assert!(q.offline_after_scan(0));
    assert!(!q.offline_after_scan(1));
}

#[test]
fn cache_names_are_file_safe() {
    assert_eq!(safe_name("events", "personal"), "events-personal");
    assert_eq!(safe_name("events", "a/b c"), "events-a_b_c");
}
