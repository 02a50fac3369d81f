use cirrust::contentline::{escape_text, fold, parse, serialize, split_line, unescape_text, Component, Line};

#[test]
fn round_trips_unknown_lines() {
    let ics = "BEGIN:VCALENDAR\r\nVERSION:2.0\r\nBEGIN:VEVENT\r\nUID:abc\r\nSUMMARY:Hi\r\nRRULE:FREQ=WEEKLY\r\nEND:VEVENT\r\nEND:VCALENDAR\r\n";
    let roots = parse(ics);
    assert_eq!(roots.len(), 1);
    let vevent = roots[0].child("VEVENT").unwrap();
    assert_eq!(vevent.value("UID"), Some("abc"));
    assert_eq!(vevent.value("RRULE"), Some("FREQ=WEEKLY"));
    // Re-emitting keeps the RRULE that was never interpreted.
    let out = serialize(&roots);
    assert!(out.contains("RRULE:FREQ=WEEKLY"));
}

#[test]
fn unfolds_continuations() {
    let ics = "BEGIN:VEVENT\r\nDESCRIPTION:hello \r\n world\r\nEND:VEVENT\r\n";
    let roots = parse(ics);
    assert_eq!(roots[0].value("DESCRIPTION"), Some("hello world"));
}

#[test]
fn parses_params_and_colon_in_value() {
    let line = "DTSTART;TZID=Europe/Berlin:20260708T140000";
    let (name, params, value) = split_line(line).unwrap();
    assert_eq!(name, "DTSTART");
    assert_eq!(params, ";TZID=Europe/Berlin");
    assert_eq!(value, "20260708T140000");
    let l = Line::with_params(&name, &params, &value);
    assert_eq!(l.param("TZID").as_deref(), Some("Europe/Berlin"));
}

#[test]
fn folds_long_lines_at_75_octets() {
    let long = "x".repeat(200);
    let mut out = String::new();
    fold(&format!("NOTE:{long}"), &mut out);
    for line in out.split("\r\n").filter(|l| !l.is_empty()) {
        assert!(line.len() <= 75, "line too long: {}", line.len());
    }
    // Unfolding restores the original value.
    let roots_line = out.replace("\r\n ", "");
    assert!(roots_line.contains(&long));
}

#[test]
fn escape_round_trip() {
    let s = "a, b; c\\d\ne";
    assert_eq!(unescape_text(&escape_text(s)), s);
}

#[test]
fn folds_multibyte_text_on_character_boundaries() {
    let long = "é".repeat(100);
    let mut out = String::new();
    fold(&format!("NOTE:{long}"), &mut out);
    for line in out.split("\r\n").filter(|l| !l.is_empty()) {
        assert!(line.len() <= 75, "line too long: {}", line.len());
    }
    assert!(out.replace("\r\n ", "").contains(&long));
}

#[test]
fn escapes_each_special_character() {
    assert_eq!(escape_text("a,b;c\\d\ne"), "a\\,b\\;c\\\\d\\ne");
    assert_eq!(unescape_text("x\\Ny"), "x\ny");
}

#[test]
fn split_line_without_colon_is_none() {
    assert!(split_line("NOCOLON").is_none());
}

fn same_tree(a: &Component, b: &Component) -> bool {
    a.name == b.name
        && a.lines.len() == b.lines.len()
        && a.lines.iter().zip(b.lines.iter()).all(|(x, y)| x.name == y.name && x.params == y.params && x.value == y.value)
        && a.children.len() == b.children.len()
        && a.children.iter().zip(b.children.iter()).all(|(x, y)| same_tree(x, y))
}

#[test]
fn parse_gives_back_what_serialize_wrote() {
    let mut alarm = Component::new("VALARM");
    alarm.set(Line::new("ACTION", "DISPLAY"));
    alarm.set(Line::new("DESCRIPTION", &"é, long text; with: colons ".repeat(12)));
    let mut ev = Component::new("VEVENT");
    ev.set(Line::new("UID", "u-1@x"));
    ev.set(Line::with_params("DTSTART", ";TZID=\"Europe/Berlin:x\";VALUE=DATE-TIME", "20260708T140000"));
    ev.set(Line::new("X-EMPTY", ""));
    ev.children.push(alarm);
    let mut cal = Component::new("VCALENDAR");
    cal.set(Line::new("VERSION", "2.0"));
    cal.children.push(ev);
    let second = Component::new("VTIMEZONE");
    let roots = vec![cal, second];
    let text = serialize(&roots);
    let back = parse(&text);
    assert_eq!(back.len(), 2);
    assert!(same_tree(&roots[0], &back[0]));
    assert!(same_tree(&roots[1], &back[1]));
    assert_eq!(serialize(&back), text);
}

#[test]
fn param_skips_pieces_without_a_value() {
    let l = Line::with_params("EMAIL", ";PREF;type=\"WORK\"", "a@x.com");
    assert_eq!(l.param("TYPE").as_deref(), Some("WORK"));
    assert_eq!(l.param("LANGUAGE"), None);
}
