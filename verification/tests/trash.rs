use cirrust::trash::{parse_trash, restore_destination, trash_base, trash_item};

#[test]
fn trash_listing_is_newest_first() {
    let xml = r#"<?xml version="1.0"?>
<d:multistatus xmlns:d="DAV:" xmlns:nc="http://nextcloud.org/ns">
  <d:response>
    <d:href>/remote.php/dav/trashbin/alice/trash/</d:href>
    <d:propstat><d:prop><d:resourcetype><d:collection/></d:resourcetype></d:prop>
      <d:status>HTTP/1.1 200 OK</d:status></d:propstat>
  </d:response>
  <d:response>
    <d:href>/remote.php/dav/trashbin/alice/trash/old.txt.d100</d:href>
    <d:propstat><d:prop>
      <d:resourcetype/>
      <d:getcontentlength>5</d:getcontentlength>
      <nc:trashbin-filename>old.txt</nc:trashbin-filename>
      <nc:trashbin-original-location>docs/old.txt</nc:trashbin-original-location>
      <nc:trashbin-deletion-time>100</nc:trashbin-deletion-time>
    </d:prop><d:status>HTTP/1.1 200 OK</d:status></d:propstat>
  </d:response>
  <d:response>
    <d:href>/remote.php/dav/trashbin/alice/trash/My%20Dir.d200/</d:href>
    <d:propstat><d:prop>
      <d:resourcetype><d:collection/></d:resourcetype>
      <nc:trashbin-deletion-time>200</nc:trashbin-deletion-time>
    </d:prop><d:status>HTTP/1.1 200 OK</d:status></d:propstat>
  </d:response>
</d:multistatus>"#;
    let entries = parse_trash(xml).unwrap();
    assert_eq!(entries.len(), 2);
    assert_eq!(entries[0].trash_id, "My Dir.d200");
    assert_eq!(entries[0].name, "My Dir.d200");
    assert!(entries[0].is_dir);
    assert_eq!(entries[0].deleted_at, 200);
    assert_eq!(entries[1].name, "old.txt");
    assert_eq!(entries[1].original_location, "docs/old.txt");
    assert_eq!(entries[1].size, 5);
    assert!(!entries[1].is_dir);
}

#[test]
fn bad_trash_xml_is_an_error() {
    assert!(parse_trash("not xml <").is_err());
}

#[test]
fn trash_paths() {
    assert_eq!(trash_base("alice"), "trashbin/alice/trash");
    assert_eq!(trash_item("alice", "a.txt.d1"), "trashbin/alice/trash/a.txt.d1");
    assert_eq!(
        restore_destination("https://c.example", "alice", "My File.d1"),
        "https://c.example/remote.php/dav/trashbin/alice/restore/My%20File.d1"
    );
}
