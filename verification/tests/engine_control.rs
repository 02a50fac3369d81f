use cirrust::checksum::{checksum_agrees, pick_checksum, HashAlgo};
use cirrust::config::{AppConfig, SyncFolder};
use cirrust::control::{health_step, new_folder_id, offline_message, round_notices, Control, HealthAction};
use cirrust::files::{preview_fits, search_query, upload_destination, MAX_TEXT_PREVIEW};
use cirrust::mediacache::{file_name_of, media_cache_names};
use cirrust::paths::{candidate_free, candidate_step, remote_ancestors, unique_candidate, CandidateStep};
use cirrust::plan::{deletion_order, transfer_weight, LARGE_FILE_BYTES};
use cirrust::progress::{newest_first, Activity};
use cirrust::status::{conflict_of, repaint_needed, SyncState, SyncStatus};
use cirrust::webdav::{progress_due, resume_outcome, resume_range, search_body};
use std::collections::VecDeque;

fn folder(id: &str, enabled: bool) -> SyncFolder {
    SyncFolder { id: id.into(), account_id: "acc".into(), local_path: format!("/l/{id}"), remote_path: format!("/{id}"), enabled }
}

fn config(folders: Vec<SyncFolder>, paused: bool) -> AppConfig {
    AppConfig { accounts: vec![], active_account: None, account: None, sync_folders: folders, paused, ignore_patterns: vec![] }
}

#[test]
fn disabled_folders_cancel_their_runs() {
    let cfg = config(vec![folder("a", true), folder("b", false), folder("b", false)], false);
    let mut c = Control::from_config(&cfg);
    assert_eq!(c.disabled, vec!["b"]);
    assert!(!c.is_cancelled("a"));
    assert!(c.is_cancelled("b"));
    c.set_folder_enabled("a", false);
    c.set_folder_enabled("a", false);
    assert!(c.is_cancelled("a"));
    assert_eq!(c.disabled.len(), 2);
    c.set_folder_enabled("b", true);
    assert!(!c.is_cancelled("b"));
    c.paused = true;
    assert!(c.is_cancelled("b"));
    let s = c.initial_status(3);
    assert_eq!(s.state, SyncState::Paused);
    assert!(s.paused);
    let fresh = Control::from_config(&config(vec![], false)).initial_status(0);
    assert_eq!(fresh.state, SyncState::Offline);
}

#[test]
fn the_watchdog_acts_on_changes_only() {
    assert_eq!(health_step(false, Some(false), true), (false, HealthAction::ReportOffline));
    assert_eq!(health_step(false, Some(false), false), (false, HealthAction::Nothing));
    assert_eq!(health_step(false, Some(true), false), (true, HealthAction::ResumeSync));
    assert_eq!(health_step(false, None, false), (false, HealthAction::Nothing));
    assert_eq!(health_step(true, Some(false), true), (true, HealthAction::Nothing));
    assert_eq!(offline_message(), "server unreachable — check your connection");
}

#[test]
fn a_persistent_error_is_notified_once() {
    let (e, c) = round_notices(Some("boom"), false, 0);
    assert_eq!(e.as_deref(), Some("Syncing failed: boom"));
    assert!(c.is_none());
    let (e, c) = round_notices(Some("boom"), true, 3);
    assert!(e.is_none());
    assert_eq!(c.as_deref(), Some("3 files had conflicting changes — review them in Synced folders."));
}

#[test]
fn folder_ids_are_hex_timestamps() {
    assert_eq!(new_folder_id(0), "f0");
    assert_eq!(new_folder_id(255), "fff");
    assert_eq!(new_folder_id(0x1234abcd), "f1234abcd");
    assert_eq!(new_folder_id(u128::MAX), format!("f{:x}", u128::MAX));
}

#[test]
fn the_first_supported_checksum_is_used() {
    assert_eq!(pick_checksum("SHA1:ab12 MD5:cd34"), Some((HashAlgo::Sha1, "ab12".to_string())));
    assert_eq!(pick_checksum("  ADLER32:x  md5:CD34 "), Some((HashAlgo::Md5, "CD34".to_string())));
    assert_eq!(pick_checksum("ADLER32:x"), None);
    // A token without a colon ends the search.
    assert_eq!(pick_checksum("junk SHA1:ab"), None);
    assert_eq!(pick_checksum(""), None);
    assert!(checksum_agrees("abcd", "ABCD"));
    assert!(!checksum_agrees("abcd", "abce"));
}

#[test]
fn media_cache_names_follow_the_file_name() {
    assert_eq!(file_name_of("/Music/a.mp3").as_deref(), Some("a.mp3"));
    assert_eq!(file_name_of("/Music/sub/").as_deref(), Some("sub"));
    assert_eq!(file_name_of("/Music/sub/.").as_deref(), Some("sub"));
    assert_eq!(file_name_of("/a/.."), None);
    assert_eq!(file_name_of("/"), None);
    assert_eq!(file_name_of(""), None);
    let (dest, tmp) = media_cache_names("/Music/a.mp3", Some("e1"));
    assert!(dest.ends_with("-a.mp3"));
    assert_eq!(dest.len(), 16 + 1 + 5);
    assert_eq!(tmp, format!("{dest}.part"));
    let (other, _) = media_cache_names("/Music/a.mp3", Some("e2"));
    assert_ne!(dest, other);
    let (root, _) = media_cache_names("/", None);
    assert!(root.ends_with("-media"));
}

#[test]
fn file_browser_rules() {
    assert!(preview_fits(MAX_TEXT_PREVIEW));
    assert!(!preview_fits(MAX_TEXT_PREVIEW + 1));
    assert_eq!(upload_destination("/Docs/", "/home/u/a.txt"), "/Docs/a.txt");
    assert_eq!(upload_destination("/", "/home/u/a.txt"), "/a.txt");
    assert_eq!(upload_destination("/Docs", "/"), "/Docs/file");
    assert_eq!(search_query("  report "), Some("report".to_string()));
    assert_eq!(search_query("   "), None);
}

#[test]
fn new_folder_names_probe_suffixes() {
    assert_eq!(unique_candidate("/Music", 1), "/Music");
    assert_eq!(unique_candidate("/Music", 2), "/Music 2");
    assert_eq!(unique_candidate("/Music", 12), "/Music 12");
    assert!(candidate_free(false, false, false));
    assert!(candidate_free(true, true, true));
    assert!(!candidate_free(true, true, false));
    assert!(!candidate_free(true, false, true));
}

#[test]
fn transfers_and_deletions_are_ordered() {
    assert_eq!(transfer_weight(LARGE_FILE_BYTES), 1);
    assert_eq!(transfer_weight(LARGE_FILE_BYTES + 1), 2);
    let planned = vec!["a".to_string(), "a/b".to_string(), "a/b/c.txt".to_string(), "z.txt".to_string()];
    assert_eq!(deletion_order(&planned), vec!["z.txt", "a/b/c.txt", "a/b", "a"]);
}

#[test]
fn resumed_downloads() {
    assert_eq!(resume_range(0), None);
    assert_eq!(resume_range(1024).as_deref(), Some("bytes=1024-"));
    assert_eq!(resume_outcome(100, 206, Some(50)), (true, Some(150), 100));
    assert_eq!(resume_outcome(100, 200, Some(150)), (false, Some(150), 0));
    assert_eq!(resume_outcome(0, 206, None), (false, None, 0));
    assert!(progress_due(131072, 0));
    assert!(!progress_due(131071, 0));
}

#[test]
fn search_bodies_escape_the_query() {
    let b = search_body("/files/alice/", "a&b", 200);
    assert!(b.contains("<d:href>/files/alice/</d:href>"));
    assert!(b.contains("<d:literal>%a&amp;b%</d:literal>"));
    assert!(b.contains("<d:nresults>200</d:nresults>"));
    assert!(b.starts_with("<?xml version=\"1.0\" encoding=\"UTF-8\"?>\n<d:searchrequest"));
}

#[test]
fn tray_and_conflict_helpers() {
    let mut s = SyncStatus::new(1);
    assert!(!repaint_needed(SyncState::Idle, &None, &s));
    s.state = SyncState::Syncing;
    assert!(repaint_needed(SyncState::Idle, &None, &s));
    s.active_folder = Some("/A".into());
    assert!(repaint_needed(SyncState::Syncing, &None, &s));
    assert!(!repaint_needed(SyncState::Syncing, &Some("/A".into()), &s));

    let f = folder("x", true);
    let c = conflict_of(&f, "/l/x/a (conflicted copy 2026-01-01 000000).txt", "a (conflicted copy 2026-01-01 000000).txt").unwrap();
    assert_eq!(c.original_name, "a.txt");
    assert_eq!(c.folder_remote, "/x");
    assert!(conflict_of(&f, "/l/x/a.txt", "a.txt").is_none());
}

#[test]
fn activity_is_listed_newest_first() {
    let mut log = VecDeque::new();
    for k in ["a", "b", "c"] {
        log.push_back(Activity { time: "t".into(), kind: "uploaded".into(), path: k.into(), size: 1, message: None });
    }
    let l = newest_first(&log);
    let paths: Vec<&str> = l.iter().map(|a| a.path.as_str()).collect();
    assert_eq!(paths, vec!["c", "b", "a"]);
}

#[test]
fn folder_pairs_can_be_toggled_and_removed() {
    let mut cfg = config(vec![folder("a", true), folder("b", true)], false);
    assert!(cfg.set_folder_enabled("b", false).is_ok());
    assert!(!cfg.sync_folders[1].enabled);
    assert_eq!(cfg.set_folder_enabled("zz", true), Err("unknown sync folder".to_string()));
    cfg.add_folder(folder("c", true));
    cfg.remove_folder("a");
    let ids: Vec<&str> = cfg.sync_folders.iter().map(|f| f.id.as_str()).collect();
    assert_eq!(ids, vec!["b", "c"]);
}

#[test]
fn candidate_search_takes_the_first_free_name_and_stops_at_ninety_nine() {
    assert_eq!(candidate_step(1, false, false, false), CandidateStep::Take);
    assert_eq!(candidate_step(1, true, true, true), CandidateStep::Take);
    assert_eq!(candidate_step(1, true, false, false), CandidateStep::Next(2));
    assert_eq!(candidate_step(98, true, true, false), CandidateStep::Next(99));
    assert_eq!(candidate_step(99, true, true, false), CandidateStep::GiveUp);
    assert_eq!(candidate_step(99, false, false, false), CandidateStep::Take);
}

#[test]
fn ancestors_are_created_root_first() {
    assert_eq!(remote_ancestors("/Music/2024//live/"), vec!["/Music", "/Music/2024", "/Music/2024/live"]);
    assert!(remote_ancestors("/").is_empty());
    assert_eq!(remote_ancestors("a"), vec!["/a"]);
}
