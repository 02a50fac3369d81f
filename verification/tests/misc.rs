use cirrust::bus::{bus_acquire, BusAcquire, NameRequest};
use cirrust::install::{desktop_entry, icon_path, should_offer_install};
use cirrust::ocs::{activity_item, parse_share, share_delete_url, share_form, shares_url, ActivityFields, ShareFields};
use cirrust::webdav::{
    chunk_path, download_complete, encode_path, is_transient, retry_delay, upload_chunked_first, xml_escape, DavEndpoint,
    Failure, CHUNK_UPLOAD_THRESHOLD,
};

#[test]
fn install_is_offered_once() {
    assert!(should_offer_install(true, true, false, false, false));
    assert!(!should_offer_install(false, true, false, false, false));
    assert!(!should_offer_install(true, false, false, false, false));
    assert!(!should_offer_install(true, true, true, false, false));
    assert!(!should_offer_install(true, true, false, true, false));
    assert!(!should_offer_install(true, true, false, false, true));
    let d = desktop_entry("/home/u/.local/bin/cirrust");
    assert!(d.starts_with("[Desktop Entry]\n"));
    assert!(d.contains("\nExec=/home/u/.local/bin/cirrust %U\n"));
    assert_eq!(icon_path(64), "icons/hicolor/64x64/apps/org.cirrust.client.png");
}

#[test]
fn bus_name_claims_are_classified() {
    assert!(matches!(bus_acquire(NameRequest::PrimaryOwner), BusAcquire::Primary));
    assert!(matches!(bus_acquire(NameRequest::AlreadyOwner), BusAcquire::Primary));
    assert!(matches!(bus_acquire(NameRequest::Exists), BusAcquire::AlreadyRunning));
    assert!(matches!(bus_acquire(NameRequest::NameTaken), BusAcquire::AlreadyRunning));
    assert!(matches!(bus_acquire(NameRequest::NoSession), BusAcquire::NoBus));
    assert!(matches!(bus_acquire(NameRequest::OtherError), BusAcquire::NoBus));
}

#[test]
fn shares_are_read_with_defaults() {
    let f = ShareFields {
        id_text: None,
        id_number: Some(42),
        share_type: None,
        url: Some(String::new()),
        token: Some("tok".into()),
        path: None,
        permissions: Some(1),
        expiration: None,
        label: None,
        share_with_displayname: Some(String::new()),
        share_with: Some("bob".into()),
    };
    let s = parse_share(&f);
    assert_eq!(s.id, "42");
    assert_eq!(s.share_type, -1);
    assert_eq!(s.url, None);
    assert_eq!(s.token.as_deref(), Some("tok"));
    assert_eq!(s.path, "");
    assert_eq!(s.permissions, 1);
    assert_eq!(s.share_with.as_deref(), Some("bob"));
    let n = parse_share(&ShareFields {
        id_text: Some("7".into()),
        id_number: Some(-3),
        share_type: Some(3),
        url: None,
        token: None,
        path: Some("/x".into()),
        permissions: None,
        expiration: Some("2026-01-01".into()),
        label: Some("l".into()),
        share_with_displayname: None,
        share_with: None,
    });
    assert_eq!((n.id.as_str(), n.share_type, n.permissions), ("7", 3, 0));
    assert_eq!(n.expiration.as_deref(), Some("2026-01-01"));
}

#[test]
fn share_requests() {
    assert_eq!(shares_url(None), "/ocs/v2.php/apps/files_sharing/api/v1/shares?format=json");
    assert_eq!(
        shares_url(Some("/My Docs/a.txt")),
        "/ocs/v2.php/apps/files_sharing/api/v1/shares?format=json&reshares=false&path=%2FMy%20Docs%2Fa%2Etxt"
    );
    assert_eq!(share_delete_url("12"), "/ocs/v2.php/apps/files_sharing/api/v1/shares/12?format=json");
    let f = share_form("/a", Some(""), Some("2026-02-01"));
    let pairs: Vec<(&str, &str)> = f.iter().map(|(k, v)| (k.as_str(), v.as_str())).collect();
    assert_eq!(pairs, vec![("shareType", "3"), ("path", "/a"), ("permissions", "1"), ("expireDate", "2026-02-01")]);
    let g = share_form("/a", Some("pw"), None);
    assert_eq!(g.len(), 4);
    assert_eq!(g[3].0, "password");
}

#[test]
fn activity_items_default_missing_text() {
    let a = activity_item(&ActivityFields {
        subject: Some("You changed x".into()),
        message: Some(String::new()),
        datetime: None,
        activity_type: Some("file_changed".into()),
        object_name: Some("/x".into()),
    });
    assert_eq!(a.subject, "You changed x");
    assert_eq!(a.message, None);
    assert_eq!(a.time, "");
    assert_eq!(a.object_name.as_deref(), Some("/x"));
}

#[test]
fn transfer_rules() {
    assert!(upload_chunked_first(CHUNK_UPLOAD_THRESHOLD));
    assert!(!upload_chunked_first(CHUNK_UPLOAD_THRESHOLD - 1));
    assert!(download_complete(0, 5));
    assert!(download_complete(5, 5));
    assert!(!download_complete(5, 4));
    assert!(is_transient(Failure::Http));
    assert!(is_transient(Failure::Server(503)));
    assert!(!is_transient(Failure::Server(404)));
    assert!(!is_transient(Failure::Other));
    assert_eq!(retry_delay(1, true), Some(2));
    assert_eq!(retry_delay(2, true), Some(4));
    assert_eq!(retry_delay(3, true), None);
    assert_eq!(retry_delay(1, false), None);
    assert_eq!(chunk_path("uploads/alice/s1", 10485760), "uploads/alice/s1/0000000010485760");
}

#[test]
fn dav_text_helpers() {
    assert_eq!(xml_escape("a<b & \"c\" 'd'>"), "a&lt;b &amp; &quot;c&quot; &apos;d&apos;&gt;");
    assert_eq!(encode_path("/My Music/a&b.mp3"), "/My%20Music/a%26b.mp3");
    let e = DavEndpoint::new("https://cloud.example.com/", "al ice");
    assert_eq!(e.url_for("/x"), "https://cloud.example.com/remote.php/dav/files/al%20ice/x");
}
