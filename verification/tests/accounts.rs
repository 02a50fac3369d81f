use cirrust::auth::{approved_account, login_start_url, manual_account, normalize_server_url, poll_outcome, PollOutcome};
use cirrust::config::{account_id, default_true, short_hash, Account, AppConfig, ServerKind, SyncFolder};

fn folder(id: &str, account: &str, local: &str, remote: &str) -> SyncFolder {
    SyncFolder {
        id: id.into(),
        account_id: account.into(),
        local_path: local.into(),
        remote_path: remote.into(),
        enabled: true,
    }
}

fn empty_config() -> AppConfig {
    AppConfig {
        accounts: vec![],
        active_account: None,
        account: None,
        sync_folders: vec![],
        paused: false,
        ignore_patterns: vec![],
    }
}

#[test]
fn account_ids_are_stable_hex() {
    let a = account_id("https://cloud.example.com", "alice");
    assert_eq!(a.len(), 16);
    assert!(a.chars().all(|c| c.is_ascii_hexdigit() && !c.is_ascii_uppercase()));
    // Trailing slashes of the server do not change the id.
    assert_eq!(a, account_id("https://cloud.example.com//", "alice"));
    assert_ne!(a, account_id("https://cloud.example.com", "bob"));
    let acct = Account::new("https://cloud.example.com".into(), "alice".into(), ServerKind::Nextcloud);
    assert_eq!(acct.id, a);
    assert_eq!(acct.keyring_user(), "alice@https://cloud.example.com");
}

#[test]
fn short_hash_is_a_sha1_prefix() {
    // SHA-1("abc") = a9993e364706816aba3e25717850c26c9cd0d89d
    assert_eq!(short_hash("abc"), "a9993e364706816a");
    assert!(default_true());
}

#[test]
fn migration_folds_the_legacy_account_in() {
    let mut legacy = Account::new("https://a.example".into(), "u".into(), ServerKind::Owncloud);
    legacy.id = String::new();
    let mut cfg = empty_config();
    cfg.account = Some(legacy);
    cfg.sync_folders = vec![folder("f1", "", "/home/u/Cloud", "/")];
    cfg.migrate();
    assert!(cfg.account.is_none());
    assert_eq!(cfg.accounts.len(), 1);
    let id = account_id("https://a.example", "u");
    assert_eq!(cfg.accounts[0].id, id);
    assert_eq!(cfg.active_account.as_deref(), Some(id.as_str()));
    assert_eq!(cfg.sync_folders[0].account_id, id);
    assert!(cfg.account_by_id(&id).is_some());
    assert!(cfg.account_by_id("nope").is_none());
}

#[test]
fn adding_an_account_twice_keeps_one() {
    let mut cfg = empty_config();
    let a = Account::new("https://a.example".into(), "u".into(), ServerKind::Nextcloud);
    let b = Account::new("https://b.example".into(), "v".into(), ServerKind::Nextcloud);
    cfg.add_account(a.duplicate());
    cfg.add_account(b.duplicate());
    cfg.add_account(a.duplicate());
    assert_eq!(cfg.accounts.len(), 2);
    assert_eq!(cfg.active_account.as_deref(), Some(a.id.as_str()));
}

#[test]
fn removing_an_account_drops_its_folders_and_moves_the_active_one() {
    let mut cfg = empty_config();
    let a = Account::new("https://a.example".into(), "u".into(), ServerKind::Nextcloud);
    let b = Account::new("https://b.example".into(), "v".into(), ServerKind::Nextcloud);
    cfg.add_account(a.duplicate());
    cfg.add_account(b.duplicate());
    cfg.sync_folders = vec![folder("f1", &a.id, "/x", "/"), folder("f2", &b.id, "/y", "/")];
    cfg.remove_account(&a.id);
    assert_eq!(cfg.accounts.len(), 1);
    assert_eq!(cfg.accounts[0].id, b.id);
    assert_eq!(cfg.sync_folders.len(), 1);
    assert_eq!(cfg.sync_folders[0].id, "f2");
    assert_eq!(cfg.active_account.as_deref(), Some(b.id.as_str()));
    cfg.remove_account(&b.id);
    assert!(cfg.accounts.is_empty());
    assert_eq!(cfg.active_account, None);
}

#[test]
fn server_urls_are_normalised() {
    assert_eq!(normalize_server_url("  cloud.example.com/ "), "https://cloud.example.com");
    assert_eq!(normalize_server_url("http://local:8080//"), "http://local:8080");
    assert_eq!(login_start_url("cloud.example.com"), "https://cloud.example.com/index.php/login/v2");
}

#[test]
fn login_polls_are_classified() {
    assert!(matches!(poll_outcome(404), PollOutcome::Pending));
    assert!(matches!(poll_outcome(200), PollOutcome::Approved));
    assert!(matches!(poll_outcome(500), PollOutcome::Failed));
    assert!(matches!(poll_outcome(301), PollOutcome::Failed));
}

#[test]
fn new_accounts_are_built_from_the_login() {
    let a = approved_account("https://cloud.example.com/", "alice");
    assert_eq!(a.server_url, "https://cloud.example.com");
    assert_eq!(a.username, "alice");
    assert_eq!(a.id, account_id("https://cloud.example.com", "alice"));
    let m = manual_account("oc.example.org", " bob ", ServerKind::Owncloud);
    assert_eq!(m.server_url, "https://oc.example.org");
    assert_eq!(m.username, "bob");
    assert_eq!(m.kind, ServerKind::Owncloud);
}

#[test]
fn a_second_migration_changes_nothing() {
    let mut legacy = Account::new("https://a.example/".into(), "u".into(), ServerKind::Owncloud);
    legacy.id = String::new();
    let mut cfg = empty_config();
    cfg.accounts = vec![Account::new("https://b.example".into(), "v".into(), ServerKind::Nextcloud)];
    cfg.account = Some(legacy);
    cfg.active_account = Some("gone".into());
    cfg.sync_folders = vec![folder("f1", "", "/home/u/Cloud", "/"), folder("f2", "x", "/home/u/B", "/B")];
    cfg.migrate();
    let ids: Vec<String> = cfg.accounts.iter().map(|a| a.id.clone()).collect();
    let active = cfg.active_account.clone();
    let bound: Vec<String> = cfg.sync_folders.iter().map(|f| f.account_id.clone()).collect();
    assert!(ids.iter().all(|i| i.len() == 16));
    cfg.migrate();
    assert_eq!(cfg.accounts.iter().map(|a| a.id.clone()).collect::<Vec<_>>(), ids);
    assert_eq!(cfg.active_account, active);
    assert_eq!(cfg.sync_folders.iter().map(|f| f.account_id.clone()).collect::<Vec<_>>(), bound);
    assert!(cfg.account.is_none());
}

#[test]
fn new_accounts_carry_sixteen_hex_digits() {
    let a = Account::new("https://a.example".into(), "u".into(), ServerKind::Nextcloud);
    let b = Account::new("https://a.example/".into(), "u".into(), ServerKind::Owncloud);
    assert_eq!(a.id.len(), 16);
    assert!(a.id.chars().all(|c| c.is_ascii_digit() || ('a'..='f').contains(&c)));
    assert_eq!(a.id, b.id);
}
