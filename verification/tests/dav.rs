use cirrust::dav::{href_to_dav_path, parse_multistatus, status_line_2xx};
use cirrust::webdav::{parse_http_date, DavEndpoint};

#[test]
fn props_are_not_doubled() {
    let xml = r#"<?xml version="1.0"?>
<d:multistatus xmlns:d="DAV:" xmlns:cs="http://calendarserver.org/ns/">
  <d:response>
    <d:href>/remote.php/dav/addressbooks/users/alice/contacts/</d:href>
    <d:propstat>
      <d:prop>
        <d:displayname>Contacts</d:displayname>
        <cs:getctag>xyz</cs:getctag>
        <d:resourcetype><d:collection/><card:addressbook xmlns:card="urn:ietf:params:xml:ns:carddav"/></d:resourcetype>
      </d:prop>
      <d:status>HTTP/1.1 200 OK</d:status>
    </d:propstat>
  </d:response>
</d:multistatus>"#;
    let responses = parse_multistatus(xml).unwrap();
    assert_eq!(responses.len(), 1);
    assert_eq!(responses[0].prop("displayname"), Some("Contacts"));
    assert_eq!(responses[0].prop("getctag"), Some("xyz"));
    assert!(responses[0].is("addressbook"));
    assert_eq!(href_to_dav_path(&responses[0].href).as_deref(), Some("addressbooks/users/alice/contacts"));
}

#[test]
fn parses_listing_and_skips_self() {
    let xml = r#"<?xml version="1.0"?>
<d:multistatus xmlns:d="DAV:">
  <d:response>
    <d:href>/remote.php/dav/files/alice/Music/</d:href>
    <d:propstat><d:prop><d:resourcetype><d:collection/></d:resourcetype></d:prop>
      <d:status>HTTP/1.1 200 OK</d:status></d:propstat>
  </d:response>
  <d:response>
    <d:href>/remote.php/dav/files/alice/Music/song.mp3</d:href>
    <d:propstat><d:prop>
      <d:resourcetype/>
      <d:getcontentlength>123</d:getcontentlength>
      <d:getcontenttype>audio/mpeg</d:getcontenttype>
      <d:getetag>&quot;abc123&quot;</d:getetag>
    </d:prop><d:status>HTTP/1.1 200 OK</d:status></d:propstat>
  </d:response>
  <d:response>
    <d:href>/remote.php/dav/files/alice/Music/sub/</d:href>
    <d:propstat><d:prop xmlns:oc="http://owncloud.org/ns" xmlns:nc="http://nextcloud.org/ns">
      <d:resourcetype><d:collection/></d:resourcetype>
      <d:getetag>&quot;dir9&quot;</d:getetag>
      <oc:size>4096</oc:size>
      <nc:contained-file-count>7</nc:contained-file-count>
      <nc:contained-folder-count>2</nc:contained-folder-count></d:prop>
      <d:status>HTTP/1.1 200 OK</d:status></d:propstat>
  </d:response>
</d:multistatus>"#;

    let client = DavEndpoint::new("https://cloud.example.com", "alice");
    let entries = client.parse_multistatus(xml, "/Music", false).unwrap();
    // The collection itself is skipped; one file + one dir remain.
    assert_eq!(entries.len(), 2);

    let dir = entries.iter().find(|e| e.is_dir).unwrap();
    assert_eq!(dir.path, "/Music/sub/");
    assert_eq!(dir.name, "sub");
    assert_eq!(dir.size, 4096, "directory size from oc:size");
    assert_eq!(dir.file_count, Some(7));
    assert_eq!(dir.dir_count, Some(2));

    let file = entries.iter().find(|e| !e.is_dir).unwrap();
    assert_eq!(file.path, "/Music/song.mp3");
    assert_eq!(file.size, 123);
    assert_eq!(file.etag.as_deref(), Some("abc123"));
    assert_eq!(file.content_type.as_deref(), Some("audio/mpeg"));
}

#[test]
fn url_encodes_path_segments() {
    let client = DavEndpoint::new("https://cloud.example.com", "alice");
    let url = client.url_for("/My Music/a & b.mp3");
    assert_eq!(url, "https://cloud.example.com/remote.php/dav/files/alice/My%20Music/a%20%26%20b.mp3");
}

#[test]
fn failed_propstat_props_are_dropped() {
    let xml = r#"<?xml version="1.0"?>
<d:multistatus xmlns:d="DAV:">
  <d:response>
    <d:href>https://cloud.example.com/remote.php/dav/calendars/alice/personal/</d:href>
    <d:propstat><d:prop><d:displayname>Personal</d:displayname></d:prop>
      <d:status>HTTP/1.1 200 OK</d:status></d:propstat>
    <d:propstat><d:prop><x:calendar-color xmlns:x="http://apple.com/ns/ical/"/></d:prop>
      <d:status>HTTP/1.1 404 Not Found</d:status></d:propstat>
  </d:response>
</d:multistatus>"#;
    let responses = parse_multistatus(xml).unwrap();
    assert_eq!(responses[0].prop("DisplayName"), Some("Personal"));
    assert_eq!(responses[0].prop("calendar-color"), None);
    assert_eq!(href_to_dav_path(&responses[0].href).as_deref(), Some("calendars/alice/personal"));
}

#[test]
fn malformed_multistatus_is_an_error() {
    assert!(parse_multistatus("<d:multistatus xmlns:d=\"DAV:\"><d:response>").is_err());
}

#[test]
fn href_outside_the_dav_root_has_no_path() {
    assert_eq!(href_to_dav_path("/index.php/apps/files"), None);
    assert_eq!(href_to_dav_path("/remote.php/dav/files/a%20b/x%C3%A9/").as_deref(), Some("files/a b/xé"));
}

#[test]
fn any_2xx_propstat_is_kept() {
    let xml = "<multistatus><response><href>/x/</href><propstat><prop><displayname>A</displayname></prop><status>HTTP/1.1 201 Created</status></propstat><propstat><prop><getetag>E</getetag></prop><status>HTTP/1.1 404 Not Found</status></propstat></response></multistatus>";
    let r = parse_multistatus(xml).unwrap();
    assert_eq!(r.len(), 1);
    assert_eq!(r[0].href, "/x/");
    assert_eq!(r[0].prop("displayname"), Some("A"));
    assert_eq!(r[0].prop("getetag"), None);
}

#[test]
fn status_lines_by_code() {
    assert!(status_line_2xx("HTTP/1.1 200 OK"));
    assert!(status_line_2xx("  HTTP/1.1 207 Multi-Status\n"));
    assert!(status_line_2xx("HTTP/1.1 299"));
    assert!(!status_line_2xx("HTTP/1.1 404 Not Found"));
    assert!(!status_line_2xx("HTTP/1.1 2000 Odd"));
    assert!(!status_line_2xx("HTTP/1.1 302 Found 200"));
    assert!(!status_line_2xx(""));
}

#[test]
fn http_dates_become_rfc3339() {
    assert_eq!(parse_http_date("Sun, 06 Nov 1994 08:49:37 GMT").as_deref(), Some("1994-11-06T08:49:37+00:00"));
    assert_eq!(parse_http_date("Tue, 1 Jul 2003 10:52:37 +0200").as_deref(), Some("2003-07-01T10:52:37+02:00"));
    assert_eq!(parse_http_date("yesterday"), None);
}
