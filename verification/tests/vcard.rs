use cirrust::vcard::{apply_edit, apply_edit_at, build_new_at, parse_contact, structured_name, ContactInput, TypedValue};

#[test]
fn reads_common_fields() {
    let vcf = "BEGIN:VCARD\r\nVERSION:3.0\r\nUID:u1\r\nFN:Ada Lovelace\r\nEMAIL;TYPE=WORK:ada@x.com\r\nTEL;TYPE=CELL:+1555\r\nORG:Analytical;Engines\r\nEND:VCARD\r\n";
    let c = parse_contact(vcf, "contacts", "addressbooks/a/contacts/u1.vcf", "e1").unwrap();
    assert_eq!(c.full_name, "Ada Lovelace");
    assert_eq!(c.emails[0].value, "ada@x.com");
    assert_eq!(c.emails[0].label, "work");
    assert_eq!(c.phones[0].value, "+1555");
    assert_eq!(c.org.as_deref(), Some("Analytical · Engines"));
}

#[test]
fn edit_preserves_photo_and_rebuilds_emails() {
    let vcf = "BEGIN:VCARD\r\nVERSION:3.0\r\nUID:u1\r\nFN:Old Name\r\nPHOTO;ENCODING=b:AAAA\r\nEMAIL:old@x.com\r\nEND:VCARD\r\n";
    let input = ContactInput {
        full_name: "New Name".into(),
        emails: vec![TypedValue { label: "home".into(), value: "new@x.com".into() }],
        phones: vec![],
        org: Some("Acme".into()),
        title: None,
        note: None,
    };
    let out = apply_edit(vcf, &input).unwrap();
    assert!(out.contains("FN:New Name"));
    assert!(out.contains("N:Name;New;;;"));
    assert!(out.contains("PHOTO;ENCODING=b:AAAA")); // preserved
    assert!(out.contains("EMAIL;TYPE=HOME:new@x.com"));
    assert!(!out.contains("old@x.com")); // old email replaced
    assert!(out.contains("ORG:Acme"));
}

#[test]
fn structured_name_splits_on_last_space() {
    assert_eq!(structured_name("Ada King Lovelace"), "Lovelace;Ada King;;;");
    assert_eq!(structured_name("Plato"), ";Plato;;;");
}

#[test]
fn name_falls_back_to_structured_name() {
    let vcf = "BEGIN:VCARD\r\nVERSION:3.0\r\nN:Lovelace;Ada;;;\r\nEND:VCARD\r\n";
    let c = parse_contact(vcf, "ab", "h", "e").unwrap();
    assert_eq!(c.full_name, "Ada Lovelace");
}

#[test]
fn new_card_carries_uid_and_revision() {
    let input = ContactInput {
        full_name: "Grace Hopper".into(),
        emails: vec![],
        phones: vec![TypedValue { label: " ".into(), value: "+1 555".into() }],
        org: None,
        title: Some("RADM".into()),
        note: None,
    };
    let out = build_new_at(&input, "u9", "20260101T000000Z");
    assert!(out.contains("UID:u9"));
    assert!(out.contains("REV:20260101T000000Z"));
    assert!(out.contains("FN:Grace Hopper"));
    assert!(out.contains("TEL:+1 555"));
    assert!(out.contains("TITLE:RADM"));
    let back = parse_contact(&out, "ab", "h", "e").unwrap();
    assert_eq!(back.full_name, "Grace Hopper");
    assert_eq!(back.uid, "u9");
}

#[test]
fn editing_text_without_card_is_none() {
    let input = ContactInput {
        full_name: "X".into(),
        emails: vec![],
        phones: vec![],
        org: None,
        title: None,
        note: None,
    };
    assert!(apply_edit_at("BEGIN:VCALENDAR\r\nEND:VCALENDAR\r\n", &input, "r").is_none());
    assert!(parse_contact("", "ab", "h", "e").is_none());
}

#[test]
fn edited_card_reads_back_with_unknown_lines() {
    let vcf = "BEGIN:VCARD\r\nVERSION:3.0\r\nUID:u1\r\nFN:Old Name\r\nX-SOCIAL;TYPE=\"a:b\":@old\r\nADR;TYPE=HOME:;;Main St 1;Town;;;\r\nEND:VCARD\r\n";
    let input = ContactInput {
        full_name: "Ada Lovelace".into(),
        emails: vec![TypedValue { label: "work".into(), value: "ada@x.com".into() }],
        phones: vec![],
        org: None,
        title: Some("Countess".into()),
        note: None,
    };
    let out = apply_edit_at(vcf, &input, "20260101T000000Z").unwrap();
    let c = parse_contact(&out, "contacts", "x", "e").unwrap();
    assert_eq!(c.full_name, "Ada Lovelace");
    assert_eq!(c.title.as_deref(), Some("Countess"));
    assert_eq!(c.emails[0].value, "ada@x.com");
    let roots = cirrust::contentline::parse(&out);
    let social = roots[0].line("X-SOCIAL").unwrap();
    assert_eq!(social.params, ";TYPE=\"a:b\"");
    assert_eq!(social.value, "@old");
    assert_eq!(roots[0].value("ADR"), Some(";;Main St 1;Town;;;"));
}

#[test]
fn new_contact_reads_back_its_fields() {
    let input = ContactInput {
        full_name: "  Grace\r Hopper ".into(),
        emails: vec![
            TypedValue { label: " Work ".into(), value: " grace@navy.mil ".into() },
            TypedValue { label: "home".into(), value: "   ".into() },
            TypedValue { label: "".into(), value: "g@h.org".into() },
        ],
        phones: vec![TypedValue { label: "CELL".into(), value: "+1 555, 0100".into() }],
        org: Some(" US Navy ".into()),
        title: Some("   ".into()),
        note: Some("line one\nline two; more".into()),
    };
    let vcf = build_new_at(&input, "uid-7", "20260101T000000Z");
    let c = parse_contact(&vcf, "book", "h", "e").unwrap();
    assert_eq!(c.uid, "uid-7");
    assert_eq!(c.full_name, "Grace Hopper");
    assert_eq!(c.emails.len(), 2);
    assert_eq!(c.emails[0].label, "work");
    assert_eq!(c.emails[0].value, "grace@navy.mil");
    assert_eq!(c.emails[1].label, "");
    assert_eq!(c.emails[1].value, "g@h.org");
    assert_eq!(c.phones.len(), 1);
    assert_eq!(c.phones[0].label, "cell");
    assert_eq!(c.phones[0].value, "+1 555, 0100");
    assert_eq!(c.org.as_deref(), Some("US Navy"));
    assert_eq!(c.title, None);
    assert_eq!(c.note.as_deref(), Some("line one\nline two; more"));
}

#[test]
fn blank_contact_name_reads_back_blank() {
    let input = ContactInput {
        full_name: "   ".into(),
        emails: vec![],
        phones: vec![],
        org: None,
        title: None,
        note: None,
    };
    let vcf = build_new_at(&input, "u", "r");
    let c = parse_contact(&vcf, "book", "h", "e").unwrap();
    assert_eq!(c.full_name, "");
    assert!(c.emails.is_empty());
    assert_eq!(c.org, None);
}
