use cirrust::caldav::{
    calendars_from, contains_str, events_from, hex_id, last_segment_of, needs_fetch, new_uid, object_path,
    sources_are_readable, try_events_from, upsert_event, wanted_calendars, CalendarInfo, SaveEventArgs,
};
use cirrust::carddav::{addressbooks_from, contacts_from, upsert_contact, wanted_addressbooks, AddressBookInfo};
use cirrust::dav::parse_multistatus;
use cirrust::ical::{CalEvent, EventInput};

const CAL_HOME: &str = r#"<?xml version="1.0"?>
<d:multistatus xmlns:d="DAV:" xmlns:cs="http://calendarserver.org/ns/" xmlns:c="urn:ietf:params:xml:ns:caldav" xmlns:ic="http://apple.com/ns/ical/">
  <d:response>
    <d:href>/remote.php/dav/calendars/alice/</d:href>
    <d:propstat><d:prop><d:resourcetype><d:collection/></d:resourcetype></d:prop><d:status>HTTP/1.1 200 OK</d:status></d:propstat>
  </d:response>
  <d:response>
    <d:href>/remote.php/dav/calendars/alice/personal/</d:href>
    <d:propstat><d:prop>
      <d:resourcetype><d:collection/><c:calendar/></d:resourcetype>
      <d:displayname>Personal</d:displayname>
      <cs:getctag>c1</cs:getctag>
      <ic:calendar-color> #ff0000 </ic:calendar-color>
      <c:supported-calendar-component-set><c:comp name="VEVENT"/><c:comp name="VTODO"/></c:supported-calendar-component-set>
    </d:prop><d:status>HTTP/1.1 200 OK</d:status></d:propstat>
  </d:response>
  <d:response>
    <d:href>/remote.php/dav/calendars/alice/tasks/</d:href>
    <d:propstat><d:prop>
      <d:resourcetype><d:collection/><c:calendar/></d:resourcetype>
      <c:supported-calendar-component-set><c:comp name="VTODO"/></c:supported-calendar-component-set>
    </d:prop><d:status>HTTP/1.1 200 OK</d:status></d:propstat>
  </d:response>
  <d:response>
    <d:href>/remote.php/dav/calendars/alice/work/</d:href>
    <d:propstat><d:prop>
      <d:resourcetype><d:collection/><c:calendar/></d:resourcetype>
      <d:displayname></d:displayname>
    </d:prop><d:status>HTTP/1.1 200 OK</d:status></d:propstat>
  </d:response>
</d:multistatus>"#;

fn cal(id: &str, ctag: &str) -> CalendarInfo {
    CalendarInfo { id: id.into(), href: format!("calendars/a/{id}"), display_name: id.into(), color: None, ctag: ctag.into() }
}

fn ev(href: &str, summary: &str) -> CalEvent {
    CalEvent {
        uid: "u".into(),
        href: href.into(),
        etag: String::new(),
        calendar_id: "c".into(),
        summary: summary.into(),
        description: None,
        location: None,
        start: "2026-01-01".into(),
        end: None,
        all_day: true,
        rrule: None,
        status: None,
    }
}

#[test]
fn event_calendars_are_discovered() {
    let rs = parse_multistatus(CAL_HOME).unwrap();
    let cals = calendars_from(&rs);
    assert_eq!(cals.len(), 2);
    assert_eq!(cals[0].id, "personal");
    assert_eq!(cals[0].href, "calendars/alice/personal");
    assert_eq!(cals[0].display_name, "Personal");
    assert_eq!(cals[0].color.as_deref(), Some("#ff0000"));
    assert_eq!(cals[0].ctag, "c1");
    // An empty display name falls back to the id; no CTag reads as empty.
    assert_eq!(cals[1].id, "work");
    assert_eq!(cals[1].display_name, "work");
    assert_eq!(cals[1].color, None);
    assert_eq!(cals[1].ctag, "");
}

#[test]
fn events_are_read_from_a_calendar_query() {
    let xml = r#"<?xml version="1.0"?>
<d:multistatus xmlns:d="DAV:" xmlns:c="urn:ietf:params:xml:ns:caldav">
  <d:response>
    <d:href>/remote.php/dav/calendars/alice/personal/e1.ics</d:href>
    <d:propstat><d:prop>
      <d:getetag>"x1"</d:getetag>
      <c:calendar-data>BEGIN:VCALENDAR&#13;
BEGIN:VEVENT&#13;
UID:e1&#13;
SUMMARY:Lunch&#13;
DTSTART;VALUE=DATE:20260708&#13;
END:VEVENT&#13;
END:VCALENDAR&#13;
</c:calendar-data>
    </d:prop><d:status>HTTP/1.1 200 OK</d:status></d:propstat>
  </d:response>
  <d:response>
    <d:href>/remote.php/dav/calendars/alice/personal/todo.ics</d:href>
    <d:propstat><d:prop>
      <c:calendar-data>BEGIN:VCALENDAR&#13;
BEGIN:VTODO&#13;
UID:t&#13;
END:VTODO&#13;
END:VCALENDAR&#13;
</c:calendar-data>
    </d:prop><d:status>HTTP/1.1 200 OK</d:status></d:propstat>
  </d:response>
</d:multistatus>"#;
    let rs = parse_multistatus(xml).unwrap();
    assert!(sources_are_readable(&rs));
    let evs = events_from(&rs, "personal");
    assert_eq!(evs.len(), 1);
    assert_eq!(evs[0].summary, "Lunch");
    assert_eq!(evs[0].href, "calendars/alice/personal/e1.ics");
    assert_eq!(evs[0].etag, "\"x1\"");
    assert_eq!(evs[0].calendar_id, "personal");
    assert_eq!(evs[0].start, "2026-07-08");
    assert_eq!(try_events_from(&rs, "personal").unwrap().len(), 1);
}

#[test]
fn refresh_skips_unchanged_cached_calendars() {
    let previous = vec![cal("a", "c1"), cal("b", "")];
    assert!(!needs_fetch(&previous, &cal("a", "c1"), true));
    assert!(needs_fetch(&previous, &cal("a", "c1"), false));
    assert!(needs_fetch(&previous, &cal("a", "c2"), true));
    // An empty CTag never counts as unchanged.
    assert!(needs_fetch(&previous, &cal("b", ""), true));
    assert!(needs_fetch(&previous, &cal("new", "c1"), true));
}

#[test]
fn shown_calendars_keep_listing_order() {
    let cals = vec![cal("a", ""), cal("b", ""), cal("c", "")];
    assert_eq!(wanted_calendars(&cals, &None), vec!["a", "b", "c"]);
    assert_eq!(wanted_calendars(&cals, &Some(vec!["c".into(), "a".into()])), vec!["a", "c"]);
    assert!(contains_str(&vec!["x".to_string()], "x"));
    assert!(!contains_str(&vec![], "x"));
}

#[test]
fn cached_events_are_replaced_by_href() {
    let mut events = vec![ev("h1", "one"), ev("h2", "two"), ev("h1", "dup")];
    upsert_event(&mut events, "h1", Some(ev("h1", "new")));
    let s: Vec<&str> = events.iter().map(|e| e.summary.as_str()).collect();
    assert_eq!(s, vec!["two", "new"]);
    upsert_event(&mut events, "h2", None);
    assert_eq!(events.len(), 1);
    assert_eq!(events[0].summary, "new");
}

#[test]
fn new_objects_get_uids_and_paths() {
    assert_eq!(hex_id(&[0x00, 0xab, 0x7f, 0x10]), "00ab7f10");
    assert_eq!(new_uid("00ab"), "00ab@cirrust");
    assert_eq!(object_path("calendars/a/personal", "u@cirrust", "ics"), "calendars/a/personal/u@cirrust.ics");
    assert_eq!(last_segment_of("calendars/a/personal"), "personal");
    assert_eq!(last_segment_of("plain"), "plain");
    let input = EventInput { summary: "s".into(), description: None, location: None, start: "2026-01-01".into(), end: None, all_day: true };
    let args = SaveEventArgs { calendar_id: "c".into(), href: Some("h".into()), etag: None, event: input };
    assert!(!args.edits_existing());
}

#[test]
fn address_books_and_contacts() {
    let home = r#"<?xml version="1.0"?>
<d:multistatus xmlns:d="DAV:" xmlns:card="urn:ietf:params:xml:ns:carddav" xmlns:cs="http://calendarserver.org/ns/">
  <d:response>
    <d:href>/remote.php/dav/addressbooks/users/alice/</d:href>
    <d:propstat><d:prop><d:resourcetype><d:collection/></d:resourcetype></d:prop><d:status>HTTP/1.1 200 OK</d:status></d:propstat>
  </d:response>
  <d:response>
    <d:href>/remote.php/dav/addressbooks/users/alice/contacts/</d:href>
    <d:propstat><d:prop>
      <d:resourcetype><d:collection/><card:addressbook/></d:resourcetype>
      <d:displayname>Contacts</d:displayname>
      <cs:getctag>k9</cs:getctag>
    </d:prop><d:status>HTTP/1.1 200 OK</d:status></d:propstat>
  </d:response>
</d:multistatus>"#;
    let books = addressbooks_from(&parse_multistatus(home).unwrap());
    assert_eq!(books.len(), 1);
    assert_eq!(books[0].id, "contacts");
    assert_eq!(books[0].href, "addressbooks/users/alice/contacts");
    assert_eq!(books[0].display_name, "Contacts");
    assert_eq!(books[0].ctag, "k9");
    let list = vec![AddressBookInfo { id: "x".into(), href: "h".into(), display_name: "X".into(), ctag: "1".into() }];
    assert_eq!(wanted_addressbooks(&list, &Some(vec!["y".into()])).len(), 0);
    assert!(!cirrust::carddav::needs_fetch(&list, &list[0], true));

    let query = r#"<?xml version="1.0"?>
<d:multistatus xmlns:d="DAV:" xmlns:card="urn:ietf:params:xml:ns:carddav">
  <d:response>
    <d:href>/remote.php/dav/addressbooks/users/alice/contacts/u1.vcf</d:href>
    <d:propstat><d:prop>
      <d:getetag>"v1"</d:getetag>
      <card:address-data>BEGIN:VCARD&#13;
VERSION:3.0&#13;
UID:u1&#13;
FN:Ada Lovelace&#13;
END:VCARD&#13;
</card:address-data>
    </d:prop><d:status>HTTP/1.1 200 OK</d:status></d:propstat>
  </d:response>
</d:multistatus>"#;
    let mut contacts = contacts_from(&parse_multistatus(query).unwrap(), "contacts");
    assert_eq!(contacts.len(), 1);
    assert_eq!(contacts[0].full_name, "Ada Lovelace");
    assert_eq!(contacts[0].href, "addressbooks/users/alice/contacts/u1.vcf");
    assert_eq!(contacts[0].addressbook_id, "contacts");
    let href = contacts[0].href.clone();
    upsert_contact(&mut contacts, &href, None);
    assert!(contacts.is_empty());
}
