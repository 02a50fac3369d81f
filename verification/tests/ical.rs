use cirrust::ical::{apply_edit, build_new, build_new_at, event_is_readable, input_is_writable, parse_event, sequence_is_bumpable, try_apply_edit, try_build_new, EventInput};

#[test]
fn reads_timed_and_allday() {
    let ics = "BEGIN:VCALENDAR\r\nBEGIN:VEVENT\r\nUID:1\r\nSUMMARY:Meeting\r\nDTSTART:20260708T140000\r\nDTEND:20260708T150000\r\nEND:VEVENT\r\nEND:VCALENDAR\r\n";
    assert!(event_is_readable(ics));
    let ev = parse_event(ics, "personal", "calendars/a/personal/1.ics", "e1").unwrap();
    assert_eq!(ev.summary, "Meeting");
    assert!(!ev.all_day);
    assert_eq!(ev.start, "2026-07-08T14:00:00");

    let ad = "BEGIN:VCALENDAR\r\nBEGIN:VEVENT\r\nUID:2\r\nSUMMARY:Trip\r\nDTSTART;VALUE=DATE:20260708\r\nEND:VEVENT\r\nEND:VCALENDAR\r\n";
    assert!(event_is_readable(ad));
    let ev = parse_event(ad, "personal", "x", "e2").unwrap();
    assert!(ev.all_day);
    assert_eq!(ev.start, "2026-07-08");
}

#[test]
fn edit_preserves_unknown_and_bumps_sequence() {
    let ics = "BEGIN:VCALENDAR\r\nBEGIN:VEVENT\r\nUID:1\r\nSEQUENCE:2\r\nSUMMARY:Old\r\nDTSTART:20260708T140000\r\nRRULE:FREQ=DAILY\r\nBEGIN:VALARM\r\nACTION:DISPLAY\r\nEND:VALARM\r\nEND:VEVENT\r\nEND:VCALENDAR\r\n";
    let input = EventInput {
        summary: "New".into(),
        description: Some("hi".into()),
        location: None,
        start: "2026-07-09T10:00".into(),
        end: Some("2026-07-09T11:00".into()),
        all_day: false,
    };
    assert!(input_is_writable(&input));
    assert!(sequence_is_bumpable(ics));
    let out = apply_edit(ics, &input).unwrap();
    assert!(out.contains("SUMMARY:New"));
    assert!(out.contains("DESCRIPTION:hi"));
    assert!(out.contains("RRULE:FREQ=DAILY")); // preserved
    assert!(out.contains("BEGIN:VALARM")); // preserved
    assert!(out.contains("SEQUENCE:3")); // bumped
    assert!(out.contains("DTSTART:20260709T100000"));
}

#[test]
fn builds_allday_with_exclusive_end() {
    let input = EventInput {
        summary: "Holiday".into(),
        description: None,
        location: None,
        start: "2026-12-24".into(),
        end: Some("2026-12-26".into()),
        all_day: true,
    };
    assert!(input_is_writable(&input));
    let ics = build_new(&input, "uid@cirrust");
    assert!(ics.contains("DTSTART;VALUE=DATE:20261224"));
    assert!(ics.contains("DTEND;VALUE=DATE:20261227")); // last day + 1
}

#[test]
fn timed_event_without_end_lasts_an_hour() {
    let input = EventInput {
        summary: "Call".into(),
        description: None,
        location: Some("Room 1".into()),
        start: "2026-07-09T23:30".into(),
        end: None,
        all_day: false,
    };
    let ics = build_new_at(&input, "u1", "20260101T000000Z", "20260101T000000Z");
    assert!(ics.contains("DTSTART:20260709T233000"));
    assert!(ics.contains("DTEND:20260710T003000"));
    assert!(ics.contains("LOCATION:Room 1"));
    assert!(ics.contains("DTSTAMP:20260101T000000Z"));
    assert!(ics.contains("UID:u1"));
}

#[test]
fn unreadable_input_is_refused_by_the_checked_builders() {
    let bad = EventInput {
        summary: "Bad".into(),
        description: None,
        location: None,
        start: "2026-07-0\u{e9}9".into(),
        end: None,
        all_day: true,
    };
    assert!(!input_is_writable(&bad));
    assert!(try_build_new(&bad, "u").is_none());
    let ics = "BEGIN:VCALENDAR\r\nBEGIN:VEVENT\r\nUID:1\r\nDTSTART:20260708T140000\r\nEND:VEVENT\r\nEND:VCALENDAR\r\n";
    assert_eq!(try_apply_edit(ics, &bad), Err(()));
}

#[test]
fn edit_of_body_without_event_is_none() {
    let input = EventInput {
        summary: "X".into(),
        description: None,
        location: None,
        start: "2026-07-09".into(),
        end: None,
        all_day: true,
    };
    let vcal = "BEGIN:VCALENDAR\r\nBEGIN:VTODO\r\nUID:1\r\nEND:VTODO\r\nEND:VCALENDAR\r\n";
    assert!(apply_edit(vcal, &input).is_none());
    assert!(parse_event(vcal, "c", "h", "e").is_none());
}

#[test]
fn master_event_is_read_before_overrides() {
    let ics = "BEGIN:VCALENDAR\r\nBEGIN:VEVENT\r\nUID:1\r\nRECURRENCE-ID:20260709T140000\r\nSUMMARY:Override\r\nDTSTART:20260709T150000\r\nEND:VEVENT\r\nBEGIN:VEVENT\r\nUID:1\r\nSUMMARY:Master\r\nDTSTART:20260708T140000\r\nRRULE:FREQ=DAILY\r\nEND:VEVENT\r\nEND:VCALENDAR\r\n";
    let ev = parse_event(ics, "c", "h", "e").unwrap();
    assert_eq!(ev.summary, "Master");
    assert_eq!(ev.rrule.as_deref(), Some("FREQ=DAILY"));
}

#[test]
fn new_event_reads_back_its_fields() {
    let input = EventInput {
        summary: "  Team sync, weekly; room 4  ".into(),
        description: Some("   ".into()),
        location: Some(" Hall\nB ".into()),
        start: "2026-07-09T10:00".into(),
        end: None,
        all_day: false,
    };
    let ics = build_new_at(&input, "abc@cirrust", "20260101T000000Z", "20260101T000000Z");
    assert!(event_is_readable(&ics));
    let ev = parse_event(&ics, "personal", "calendars/a/personal/abc.ics", "e").unwrap();
    assert_eq!(ev.uid, "abc@cirrust");
    assert_eq!(ev.summary, "Team sync, weekly; room 4");
    assert_eq!(ev.description, None);
    assert_eq!(ev.location.as_deref(), Some("Hall\nB"));
    assert_eq!(ev.rrule, None);
    assert_eq!(ev.status, None);
    assert!(!ev.all_day);
    assert_eq!(ev.start, "2026-07-09T10:00:00");
    assert_eq!(ev.end.as_deref(), Some("2026-07-09T11:00:00"));
}

#[test]
fn new_timed_event_reads_back_its_end() {
    let input = EventInput {
        summary: "Late".into(),
        description: None,
        location: None,
        start: "2026-12-31T23:30:15".into(),
        end: Some("2027-01-01T01:05".into()),
        all_day: false,
    };
    let ev = parse_event(&build_new(&input, "late@cirrust"), "c", "h", "e").unwrap();
    assert_eq!(ev.start, "2026-12-31T23:30:15");
    assert_eq!(ev.end.as_deref(), Some("2027-01-01T01:05:00"));
    assert!(!ev.all_day);
}

#[test]
fn edited_document_reads_back_with_unknown_lines() {
    let ics = "BEGIN:VCALENDAR\r\nBEGIN:VEVENT\r\nUID:1\r\nSUMMARY:Old\r\nATTENDEE;CN=\"Doe: J\":mailto:j@x\r\nDTSTART:20260708T140000\r\nBEGIN:VALARM\r\nACTION:DISPLAY\r\nEND:VALARM\r\nEND:VEVENT\r\nEND:VCALENDAR\r\n";
    let input = EventInput {
        summary: "New".into(),
        description: None,
        location: Some("Lab".into()),
        start: "2026-07-09T10:00".into(),
        end: None,
        all_day: false,
    };
    let out = apply_edit(ics, &input).unwrap();
    let ev = parse_event(&out, "personal", "x", "e").unwrap();
    assert_eq!(ev.summary, "New");
    assert_eq!(ev.location.as_deref(), Some("Lab"));
    let roots = cirrust::contentline::parse(&out);
    let vevent = roots[0].child("VEVENT").unwrap();
    let attendee = vevent.line("ATTENDEE").unwrap();
    assert_eq!(attendee.params, ";CN=\"Doe: J\"");
    assert_eq!(attendee.value, "mailto:j@x");
    assert!(vevent.child("VALARM").is_some());
}
