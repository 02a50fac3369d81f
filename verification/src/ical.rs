//! iCalendar (VEVENT) ⇄ display model. Reading extracts the fields the UI
//! shows; writing either builds a fresh VCALENDAR or patches an existing one
//! in place, preserving every property not touched here (RRULE, VALARM,
//! ATTENDEE, X-*) through the content-line codec.
//!
//! All-day events use `VALUE=DATE`; timed events are read as wall-clock time
//! (UTC `Z` values are shown in the machine's local time) and written back as
//! floating local time.

use vstd::prelude::*;
use crate::contentline::{
    char_len, char_len_exec, comps_view, escape_spec, escape_text, first_child, first_line,
    lemma_comp_view_fields, octets, param_spec, parse, parse_spec, ser_comps, serialize, CompV, Component,
    Line, LineV,
};
use crate::datetime::{
    add_hour, add_hour_exec, chrono_date, chrono_datetime, compact_date, compact_dt, date_in_range,
    display_dt, dt_fields_ok, dt_in_range, inside_bounds, hour_addable, fmt_compact_date, fmt_compact_dt, fmt_display_dt, next_day, next_day_exec,
    parse_date_chrono, parse_datetime_chrono, utc_to_local, widen,
};
use crate::clock::{clock_fields_ok, utc_stamp, ClockFields};
use crate::text::{
    eq_ic, chars_of, copy_str, opt_view, push_char, push_range, str_eq, string_of, trim_end_bound, trim_end_c,
    trim_str, trim_ws,
};
use crate::vcard::{
    kw, map_unescape, non_empty, opt_as_str, or_default, plain, set_or_remove, set_or_remove_spec,
    set_spec, value_of,
};

verus! {

/// A calendar event as shown and edited in the UI.
pub struct CalEvent {
    pub uid: String,
    /// DAV path relative to `/remote.php/dav/`: the object to PUT/DELETE.
    pub href: String,
    pub etag: String,
    pub calendar_id: String,
    pub summary: String,
    pub description: Option<String>,
    pub location: Option<String>,
    /// `YYYY-MM-DD` when `all_day`, else `YYYY-MM-DDTHH:MM:SS` (local wall-clock).
    pub start: String,
    pub end: Option<String>,
    pub all_day: bool,
    pub rrule: Option<String>,
    pub status: Option<String>,
}

/// Mathematical value of a [`CalEvent`].
pub struct CalEventV {
    pub uid: Seq<char>,
    pub href: Seq<char>,
    pub etag: Seq<char>,
    pub calendar_id: Seq<char>,
    pub summary: Seq<char>,
    pub description: Option<Seq<char>>,
    pub location: Option<Seq<char>>,
    pub start: Seq<char>,
    pub end: Option<Seq<char>>,
    pub all_day: bool,
    pub rrule: Option<Seq<char>>,
    pub status: Option<Seq<char>>,
}

impl View for CalEvent {
    type V = CalEventV;

    open spec fn view(&self) -> CalEventV {
        CalEventV {
            uid: self.uid@,
            href: self.href@,
            etag: self.etag@,
            calendar_id: self.calendar_id@,
            summary: self.summary@,
            description: opt_view(self.description),
            location: opt_view(self.location),
            start: self.start@,
            end: opt_view(self.end),
            all_day: self.all_day,
            rrule: opt_view(self.rrule),
            status: opt_view(self.status),
        }
    }
}

/// Event fields coming back from the editor UI.
pub struct EventInput {
    pub summary: String,
    pub description: Option<String>,
    pub location: Option<String>,
    /// `YYYY-MM-DD` (all-day) or `YYYY-MM-DDTHH:MM[:SS]` (timed).
    pub start: String,
    pub end: Option<String>,
    pub all_day: bool,
}

/// Mathematical value of an [`EventInput`].
pub struct EventInputV {
    pub summary: Seq<char>,
    pub description: Option<Seq<char>>,
    pub location: Option<Seq<char>>,
    pub start: Seq<char>,
    pub end: Option<Seq<char>>,
    pub all_day: bool,
}

impl View for EventInput {
    type V = EventInputV;

    open spec fn view(&self) -> EventInputV {
        EventInputV {
            summary: self.summary@,
            description: opt_view(self.description),
            location: opt_view(self.location),
            start: self.start@,
            end: opt_view(self.end),
            all_day: self.all_day,
        }
    }
}

// ---------------------------------------------------------------------------
// Octet positions
// ---------------------------------------------------------------------------

/// How many leading characters of `s` take up exactly `n` UTF-8 octets, when
/// octet `n` falls on a character boundary of `s`.
pub open spec fn cut(s: Seq<char>, n: int) -> Option<int>
    decreases s.len(),
{
    if n == 0 {
        Some(0)
    } else if n < 0 || s.len() == 0 {
        None
    } else {
        match cut(s.drop_first(), n - char_len(s[0])) {
            Some(k) => Some(k + 1),
            None => None,
        }
    }
}

/// The character count of a cut, or 0 when octet `n` is inside a character.
pub open spec fn cut_at(s: Seq<char>, n: int) -> int {
    match cut(s, n) {
        Some(k) => k,
        None => 0,
    }
}

proof fn lemma_char_len_pos(c: char)
    ensures
        1 <= char_len(c) <= 4,
{
}

proof fn lemma_octets_nonneg(s: Seq<char>)
    ensures
        octets(s) >= 0,
    decreases s.len(),
{
    if s.len() > 0 {
        lemma_octets_nonneg(s.drop_first());
    }
}

proof fn lemma_cut_bounds(s: Seq<char>, n: int)
    ensures
        cut(s, n) matches Some(k) ==> 0 <= k <= s.len(),
    decreases s.len(),
{
    if n != 0 && n >= 0 && s.len() > 0 {
        lemma_cut_bounds(s.drop_first(), n - char_len(s[0]));
    }
}

proof fn lemma_cut_mono(s: Seq<char>, m: int, n: int)
    requires
        0 <= m <= n,
        cut(s, m) is Some,
        cut(s, n) is Some,
    ensures
        cut_at(s, m) <= cut_at(s, n) <= s.len(),
    decreases s.len(),
{
    lemma_cut_bounds(s, n);
    lemma_cut_bounds(s, m);
    if m != 0 {
        lemma_char_len_pos(s[0]);
        lemma_cut_mono(s.drop_first(), m - char_len(s[0]), n - char_len(s[0]));
    }
}

/// The cut of `v` at octet `n`.
fn cut_exec(v: &Vec<char>, n: usize) -> (r: Option<usize>)
    requires
        n <= 16,
    ensures
        match r {
            Some(k) => cut(v@, n as int) == Some(k as int) && k <= v@.len(),
            None => cut(v@, n as int) is None,
        },
{
    let mut i: usize = 0;
    let mut acc: usize = 0;
    proof {
        assert(v@.skip(0) =~= v@);
    }
    while acc < n && i < v.len()
        invariant
            0 <= i <= v@.len(),
            n <= 16,
            acc < n + 4,
            cut(v@, n as int) == match cut(v@.skip(i as int), n - acc) {
                Some(k) => Some(k + i),
                None => None,
            },
        decreases v.len() - i,
    {
        proof {
            let t = v@.skip(i as int);
            assert(t[0] == v@[i as int]);
            assert(t.drop_first() =~= v@.skip(i + 1));
            lemma_char_len_pos(v@[i as int]);
        }
        acc = acc + char_len_exec(v[i]);
        i = i + 1;
    }
    if acc == n {
        Some(i)
    } else {
        proof {
            if acc < n {
                assert(v@.skip(i as int).len() == 0);
            }
        }
        None
    }
}

/// `octets(v)`, or `cap + 1` when that is larger than `cap`.
fn octets_capped(v: &Vec<char>, cap: usize) -> (n: usize)
    requires
        cap <= 16,
    ensures
        n == if octets(v@) <= cap {
            octets(v@)
        } else {
            cap + 1
        },
{
    let mut i: usize = 0;
    let mut acc: usize = 0;
    proof {
        assert(v@.skip(0) =~= v@);
    }
    while acc <= cap && i < v.len()
        invariant
            0 <= i <= v@.len(),
            cap <= 16,
            acc <= cap + 4,
            octets(v@) == acc + octets(v@.skip(i as int)),
        decreases v.len() - i,
    {
        proof {
            let t = v@.skip(i as int);
            assert(t[0] == v@[i as int]);
            assert(t.drop_first() =~= v@.skip(i + 1));
        }
        acc = acc + char_len_exec(v[i]);
        i = i + 1;
    }
    proof {
        lemma_octets_nonneg(v@.skip(i as int));
    }
    if acc > cap {
        cap + 1
    } else {
        acc
    }
}

// ---------------------------------------------------------------------------
// Reading
// ---------------------------------------------------------------------------

/// The compact iCalendar date-time form, `%Y%m%dT%H%M%S`.
pub open spec fn ical_fmt() -> Seq<char> {
    kw("%Y%m%dT%H%M%S")
}

/// A DTSTART/DTEND line holds a date when it says `VALUE=DATE`, or when its
/// trimmed value is 8 octets without a `T`.
pub open spec fn is_date_line(l: LineV) -> bool {
    let v = trim_ws(l.value);
    param_spec(l.params, kw("VALUE")) == Some(kw("DATE")) || (octets(v) == 8 && !v.contains('T'))
}

/// The trimmed value with a trailing `Z` (a UTC time).
pub open spec fn is_utc_value(v: Seq<char>) -> bool {
    v.len() > 0 && v.last() == 'Z'
}

/// Reading the line stays on character boundaries (a date value is cut at
/// octets 4, 6 and 8), and a UTC time shown in local time stays inside the
/// dates chrono holds.
pub open spec fn display_ok(l: LineV) -> bool {
    let v = trim_ws(l.value);
    if is_date_line(l) {
        octets(v) >= 8 ==> cut(v, 4) is Some && cut(v, 6) is Some && cut(v, 8) is Some
    } else {
        is_utc_value(v) ==> match chrono_datetime(trim_end_c(v, 'Z'), ical_fmt()) {
            Some(t) => inside_bounds(t),
            None => true,
        }
    }
}

/// An iCalendar date/time line as display text and all-day flag; `local` is
/// the machine-local form of a UTC value.
pub open spec fn to_display_spec(l: LineV, local: (i32, u32, u32, u32, u32, u32, u32)) -> (Seq<char>, bool) {
    let v = trim_ws(l.value);
    if is_date_line(l) {
        if octets(v) >= 8 {
            let a = cut_at(v, 4);
            let b = cut_at(v, 6);
            let c = cut_at(v, 8);
            (v.subrange(0, a) + seq!['-'] + v.subrange(a, b) + seq!['-'] + v.subrange(b, c), true)
        } else {
            (v, true)
        }
    } else {
        match chrono_datetime(trim_end_c(v, 'Z'), ical_fmt()) {
            Some(t) => if is_utc_value(v) {
                (display_dt(widen(local)), false)
            } else {
                (display_dt(widen(t)), false)
            },
            None => (v, false),
        }
    }
}

fn has_char(v: &Vec<char>, c: char) -> (b: bool)
    ensures
        b == v@.contains(c),
{
    let mut i: usize = 0;
    while i < v.len()
        invariant
            0 <= i <= v@.len(),
            forall|k: int| 0 <= k < i ==> v@[k] != c,
        decreases v.len() - i,
    {
        if v[i] == c {
            proof {
                assert(v@[i as int] == c);
            }
            return true;
        }
        i = i + 1;
    }
    false
}

/// iCal date/time value → display string + all-day flag.
fn to_display(line: &Line) -> (r: (String, bool))
    requires
        display_ok(line@),
    ensures
        exists|local: (i32, u32, u32, u32, u32, u32, u32)|
            dt_fields_ok(local) && (r.0@, r.1) == to_display_spec(line@, local),
{
    let ghost w: (i32, u32, u32, u32, u32, u32, u32) = (1970i32, 1u32, 1u32, 0u32, 0u32, 0u32, 0u32);
    let v = trim_str(line.value.as_str());
    let vv = chars_of(v.as_str());
    let vp = line.param("VALUE");
    let by_param = match &vp {
        Some(p) => str_eq(p.as_str(), "DATE"),
        None => false,
    };
    let n = octets_capped(&vv, 16);
    let is_date = by_param || (n == 8 && !has_char(&vv, 'T'));
    proof {
        assert(is_date == is_date_line(line@));
    }
    if is_date {
        if n >= 8 {
            let a = cut_exec(&vv, 4);
            let b = cut_exec(&vv, 6);
            let c = cut_exec(&vv, 8);
            match (a, b, c) {
                (Some(a), Some(b), Some(c)) => {
                    proof {
                        lemma_cut_mono(vv@, 4, 6);
                        lemma_cut_mono(vv@, 6, 8);
                    }
                    let mut out = String::new();
                    push_range(&mut out, &vv, 0, a);
                    push_char(&mut out, '-');
                    push_range(&mut out, &vv, a, b);
                    push_char(&mut out, '-');
                    push_range(&mut out, &vv, b, c);
                    proof {
                        assert(out@ =~= to_display_spec(line@, w).0);
                        assert(dt_fields_ok(w));
                    }
                    return (out, true);
                },
                _ => {
                    return (v, true);
                },
            }
        }
        proof {
            assert(dt_fields_ok(w));
        }
        return (v, true);
    }
    let tb = trim_end_bound(&vv, 0, vv.len(), 'Z');
    proof {
        assert(vv@.subrange(0, vv@.len() as int) =~= vv@);
    }
    let ts = string_of(&vv, 0, tb);
    match parse_datetime_chrono(ts.as_str(), "%Y%m%dT%H%M%S") {
        Some(t) => {
            if vv.len() > 0 && vv[vv.len() - 1] == 'Z' {
                match utc_to_local(t) {
                    Some(l) => (fmt_display_dt(l), false),
                    None => (v, false),
                }
            } else {
                proof {
                    assert(dt_fields_ok(w));
                }
                (fmt_display_dt(t), false)
            }
        },
        None => {
            proof {
                assert(dt_fields_ok(w));
            }
            (v, false)
        },
    }
}

/// Index of the first VEVENT at or after `from` without a RECURRENCE-ID
/// (the master of a recurring series).
pub open spec fn first_master(cs: Seq<CompV>, from: int) -> Option<int>
    decreases cs.len() - from,
{
    if from < 0 || from >= cs.len() {
        None
    } else if crate::text::eq_ic(cs[from].name, kw("VEVENT")) && first_line(cs[from].lines, kw("RECURRENCE-ID"), 0) is None {
        Some(from)
    } else {
        first_master(cs, from + 1)
    }
}

pub(crate) proof fn lemma_first_master(cs: Seq<CompV>, from: int)
    ensures
        first_master(cs, from) matches Some(i) ==> 0 <= from <= i < cs.len(),
    decreases cs.len() - from,
{
    if from >= 0 && from < cs.len() {
        lemma_first_master(cs, from + 1);
    }
}

/// The VEVENT that is read or edited: the master, else the first VEVENT.
pub open spec fn event_index(cs: Seq<CompV>) -> Option<int> {
    match first_master(cs, 0) {
        Some(i) => Some(i),
        None => first_child(cs, kw("VEVENT"), 0),
    }
}

/// The first line named `name`.
pub open spec fn line_of(c: CompV, name: Seq<char>) -> Option<LineV> {
    match first_line(c.lines, name, 0) {
        Some(i) => Some(c.lines[i]),
        None => None,
    }
}

/// The VEVENT that `parse_event` reads, if the document has one.
pub open spec fn event_in(ics: Seq<char>) -> Option<CompV> {
    let roots = parse_spec(ics);
    match first_child(roots, kw("VCALENDAR"), 0) {
        None => None,
        Some(i) => match event_index(roots[i].children) {
            None => None,
            Some(j) => Some(roots[i].children[j]),
        },
    }
}

/// Reading the event's DTSTART and DTEND stays within what
/// [`display_ok`] allows.
pub open spec fn event_readable(ics: Seq<char>) -> bool {
    match event_in(ics) {
        None => true,
        Some(ev) => (line_of(ev, kw("DTSTART")) matches Some(l) ==> display_ok(l)) && (line_of(ev, kw("DTEND")) matches Some(l)
            ==> display_ok(l)),
    }
}

/// The display event read from a VEVENT; `l1` and `l2` are the machine-local
/// forms used for UTC start and end values.
pub open spec fn event_of(
    ev: CompV,
    cal: Seq<char>,
    href: Seq<char>,
    etag: Seq<char>,
    l1: (i32, u32, u32, u32, u32, u32, u32),
    l2: (i32, u32, u32, u32, u32, u32, u32),
) -> CalEventV {
    let st = match line_of(ev, kw("DTSTART")) {
        Some(l) => to_display_spec(l, l1),
        None => (Seq::empty(), false),
    };
    CalEventV {
        uid: or_default(value_of(ev, kw("UID"))),
        href,
        etag,
        calendar_id: cal,
        summary: or_default(map_unescape(value_of(ev, kw("SUMMARY")))),
        description: non_empty(map_unescape(value_of(ev, kw("DESCRIPTION")))),
        location: non_empty(map_unescape(value_of(ev, kw("LOCATION")))),
        start: st.0,
        end: match line_of(ev, kw("DTEND")) {
            Some(l) => Some(to_display_spec(l, l2).0),
            None => None,
        },
        all_day: st.1,
        rrule: value_of(ev, kw("RRULE")),
        status: value_of(ev, kw("STATUS")),
    }
}

/// The status an event shows is the raw value of its first line named
/// `STATUS` (in any case), whatever else the event holds; an event with no
/// such line shows no status.
pub proof fn law_event_status_is_first_status_line(
    ev: CompV,
    cal: Seq<char>,
    href: Seq<char>,
    etag: Seq<char>,
    l1: (i32, u32, u32, u32, u32, u32, u32),
    l2: (i32, u32, u32, u32, u32, u32, u32),
)
    ensures
        forall|k: int|
            0 <= k < ev.lines.len() && eq_ic(ev.lines[k].name, "STATUS"@) && (forall|m: int|
                0 <= m < k ==> !eq_ic(#[trigger] ev.lines[m].name, "STATUS"@)) ==> event_of(
                ev,
                cal,
                href,
                etag,
                l1,
                l2,
            ).status == Some(ev.lines[k].value),
        (forall|k: int| 0 <= k < ev.lines.len() ==> !eq_ic(#[trigger] ev.lines[k].name, "STATUS"@)) ==> event_of(
            ev,
            cal,
            href,
            etag,
            l1,
            l2,
        ).status is None,
{
    let n = kw("STATUS");
    assert(n == "STATUS"@);
    crate::contentline::lemma_first_line(ev.lines, n, 0);
    assert forall|k: int|
        0 <= k < ev.lines.len() && eq_ic(ev.lines[k].name, "STATUS"@) && (forall|m: int|
            0 <= m < k ==> !eq_ic(#[trigger] ev.lines[m].name, "STATUS"@)) implies event_of(
        ev,
        cal,
        href,
        etag,
        l1,
        l2,
    ).status == Some(ev.lines[k].value) by {
        match first_line(ev.lines, n, 0) {
            Some(i) => {
                if i < k {
                    assert(!eq_ic(ev.lines[i].name, "STATUS"@));
                }
                if k < i {
                    assert(!eq_ic(ev.lines[k].name, n));
                }
            },
            None => {
                assert(!eq_ic(ev.lines[k].name, n));
            },
        }
    }
    if forall|k: int| 0 <= k < ev.lines.len() ==> !eq_ic(#[trigger] ev.lines[k].name, "STATUS"@) {
        match first_line(ev.lines, n, 0) {
            Some(i) => {
                assert(!eq_ic(ev.lines[i].name, "STATUS"@));
            },
            None => {},
        }
    }
}

/// Index of the VEVENT to read or edit among `vcal`'s children.
fn event_index_exec(vcal: &Component) -> (r: Option<usize>)
    ensures
        r matches Some(j) ==> event_index(vcal@.children) == Some(j as int) && j < vcal.children@.len(),
        r is None ==> event_index(vcal@.children) is None,
{
    proof {
        lemma_comp_view_fields(*vcal);
        lemma_first_master(vcal@.children, 0);
    }
    let mut i: usize = 0;
    while i < vcal.children.len()
        invariant
            0 <= i <= vcal.children@.len(),
            vcal@.children == comps_view(vcal.children@),
            first_master(vcal@.children, 0) == first_master(vcal@.children, i as int),
        decreases vcal.children.len() - i,
    {
        let c = &vcal.children[i];
        proof {
            lemma_comp_view_fields(*c);
        }
        if crate::text::eq_ic_str(c.name.as_str(), "VEVENT") && c.line("RECURRENCE-ID").is_none() {
            return Some(i);
        }
        i = i + 1;
    }
    vcal.child_index("VEVENT")
}

/// Whether [`parse_event`] may read `ics`: the UI shows the same failure as
/// a read that would cut a character apart.
pub fn event_is_readable(ics: &str) -> (b: bool)
    ensures
        b == event_readable(ics@),
{
    let roots = parse(ics);
    let holder = Component { name: String::new(), lines: Vec::new(), children: roots };
    proof {
        lemma_comp_view_fields(holder);
    }
    let vcal = match holder.child("VCALENDAR") {
        Some(c) => c,
        None => return true,
    };
    let j = match event_index_exec(vcal) {
        Some(j) => j,
        None => return true,
    };
    let ev = &vcal.children[j];
    proof {
        lemma_comp_view_fields(*vcal);
    }
    let a = match ev.line("DTSTART") {
        Some(l) => display_ok_exec(l),
        None => true,
    };
    let b = match ev.line("DTEND") {
        Some(l) => display_ok_exec(l),
        None => true,
    };
    a && b
}

/// Whether [`display_ok`] holds of `line`.
fn display_ok_exec(line: &Line) -> (b: bool)
    ensures
        b == display_ok(line@),
{
    let v = trim_str(line.value.as_str());
    let vv = chars_of(v.as_str());
    let vp = line.param("VALUE");
    let by_param = match &vp {
        Some(p) => str_eq(p.as_str(), "DATE"),
        None => false,
    };
    let n = octets_capped(&vv, 16);
    let is_date = by_param || (n == 8 && !has_char(&vv, 'T'));
    if is_date {
        n < 8 || (cut_exec(&vv, 4).is_some() && cut_exec(&vv, 6).is_some() && cut_exec(&vv, 8).is_some())
    } else if vv.len() > 0 && vv[vv.len() - 1] == 'Z' {
        let tb = trim_end_bound(&vv, 0, vv.len(), 'Z');
        proof {
            assert(vv@.subrange(0, vv@.len() as int) =~= vv@);
        }
        let ts = string_of(&vv, 0, tb);
        match parse_datetime_chrono(ts.as_str(), "%Y%m%dT%H%M%S") {
            Some(t) => !(t.0 == 262142 && t.1 == 12 && t.2 == 31) && !(t.0 == -262143 && t.1 == 1 && t.2 == 1),
            None => true,
        }
    } else {
        true
    }
}

/// Parse the (possibly multi-VEVENT) VCALENDAR body of one CalDAV object into
/// a single display event, taking the master component (no `RECURRENCE-ID`),
/// else the first VEVENT.
pub fn parse_event(ics: &str, calendar_id: &str, href: &str, etag: &str) -> (r: Option<CalEvent>)
    requires
        event_readable(ics@),
    ensures
        r is Some <==> event_in(ics@) is Some,
        r matches Some(e) ==> event_in(ics@) matches Some(ev) && exists|
            l1: (i32, u32, u32, u32, u32, u32, u32),
            l2: (i32, u32, u32, u32, u32, u32, u32),
        |
            dt_fields_ok(l1) && dt_fields_ok(l2) && e@ == event_of(ev, calendar_id@, href@, etag@, l1, l2),
{
    let roots = parse(ics);
    let holder = Component { name: String::new(), lines: Vec::new(), children: roots };
    proof {
        lemma_comp_view_fields(holder);
    }
    let vcal = match holder.child("VCALENDAR") {
        Some(c) => c,
        None => return None,
    };
    let j = match event_index_exec(vcal) {
        Some(j) => j,
        None => return None,
    };
    let ev = &vcal.children[j];
    proof {
        lemma_comp_view_fields(*vcal);
    }
    let ghost w: (i32, u32, u32, u32, u32, u32, u32) = (1970i32, 1u32, 1u32, 0u32, 0u32, 0u32, 0u32);
    let ghost mut l1 = w;
    let ghost mut l2 = w;
    let (start, all_day) = match ev.line("DTSTART") {
        Some(l) => {
            let r = to_display(l);
            proof {
                l1 = choose|x: (i32, u32, u32, u32, u32, u32, u32)|
                    dt_fields_ok(x) && (r.0@, r.1) == to_display_spec(l@, x);
            }
            r
        },
        None => (String::new(), false),
    };
    let end = match ev.line("DTEND") {
        Some(l) => {
            let r = to_display(l);
            proof {
                l2 = choose|x: (i32, u32, u32, u32, u32, u32, u32)|
                    dt_fields_ok(x) && (r.0@, r.1) == to_display_spec(l@, x);
            }
            Some(r.0)
        },
        None => None,
    };
    let uid = match ev.value("UID") {
        Some(u) => copy_str(u),
        None => String::new(),
    };
    let summary = match crate::vcard::unescape_opt(crate::vcard::value_exec(ev, "SUMMARY")) {
        Some(s) => s,
        None => String::new(),
    };
    let description = crate::vcard::non_empty_exec(crate::vcard::unescape_opt(crate::vcard::value_exec(ev, "DESCRIPTION")));
    let location = crate::vcard::non_empty_exec(crate::vcard::unescape_opt(crate::vcard::value_exec(ev, "LOCATION")));
    let rrule = crate::vcard::value_exec(ev, "RRULE");
    let status = crate::vcard::value_exec(ev, "STATUS");
    let e = CalEvent {
        uid,
        href: copy_str(href),
        etag: copy_str(etag),
        calendar_id: copy_str(calendar_id),
        summary,
        description,
        location,
        start,
        end,
        all_day,
        rrule,
        status,
    };
    proof {
        assert(dt_fields_ok(w));
        assert(e@ == event_of(ev@, calendar_id@, href@, etag@, l1, l2));
    }
    Some(e)
}

// ---------------------------------------------------------------------------
// Dates typed in the editor
// ---------------------------------------------------------------------------

pub open spec fn fmt_date() -> Seq<char> {
    kw("%Y-%m-%d")
}

pub open spec fn fmt_seconds() -> Seq<char> {
    kw("%Y-%m-%dT%H:%M:%S")
}

pub open spec fn fmt_minutes() -> Seq<char> {
    kw("%Y-%m-%dT%H:%M")
}

/// A date typed as `YYYY-MM-DD`: the trimmed text, else its first 10 octets
/// (so a date-time text still gives its date).
pub open spec fn parse_date_spec(s: Seq<char>) -> Option<(i32, u32, u32)> {
    let t = trim_ws(s);
    match chrono_date(t, fmt_date()) {
        Some(d) => Some(d),
        None => if octets(t) > 10 && cut(t, 10) is Some {
            chrono_date(t.take(cut_at(t, 10)), fmt_date())
        } else {
            None
        },
    }
}

/// Reading a typed date cuts its text at octet 10 only on a character
/// boundary.
pub open spec fn date_ok(s: Seq<char>) -> bool {
    let t = trim_ws(s);
    chrono_date(t, fmt_date()) is Some || octets(t) <= 10 || cut(t, 10) is Some
}

/// A date-time typed as `YYYY-MM-DDTHH:MM:SS` or `YYYY-MM-DDTHH:MM`, or a bare
/// date at midnight.
pub open spec fn parse_datetime_spec(s: Seq<char>) -> Option<(i32, u32, u32, u32, u32, u32, u32)> {
    let t = trim_ws(s);
    match chrono_datetime(t, fmt_seconds()) {
        Some(x) => Some(x),
        None => match chrono_datetime(t, fmt_minutes()) {
            Some(x) => Some(x),
            None => match parse_date_spec(t) {
                Some(d) => Some((d.0, d.1, d.2, 0u32, 0u32, 0u32, 0u32)),
                None => None,
            },
        },
    }
}

pub open spec fn dt_ok(s: Seq<char>) -> bool {
    let t = trim_ws(s);
    chrono_datetime(t, fmt_seconds()) is Some || chrono_datetime(t, fmt_minutes()) is Some || date_ok(t)
}

proof fn lemma_trim_trim(s: Seq<char>)
    ensures
        trim_ws(trim_ws(s)) == trim_ws(s),
{
    crate::text::lemma_trim_idempotent(s);
}

fn date_ok_exec(s: &str) -> (b: bool)
    ensures
        b == date_ok(s@),
{
    let t = trim_str(s);
    if parse_date_chrono(t.as_str(), "%Y-%m-%d").is_some() {
        return true;
    }
    let tv = chars_of(t.as_str());
    octets_capped(&tv, 10) <= 10 || cut_exec(&tv, 10).is_some()
}

fn dt_ok_exec(s: &str) -> (b: bool)
    ensures
        b == dt_ok(s@),
{
    let t = trim_str(s);
    proof {
        lemma_trim_trim(s@);
    }
    parse_datetime_chrono(t.as_str(), "%Y-%m-%dT%H:%M:%S").is_some() || parse_datetime_chrono(
        t.as_str(),
        "%Y-%m-%dT%H:%M",
    ).is_some() || date_ok_exec(t.as_str())
}

fn parse_date(s: &str) -> (r: Option<(i32, u32, u32)>)
    requires
        date_ok(s@),
    ensures
        r == parse_date_spec(s@),
        r matches Some(d) ==> date_in_range(d),
{
    let t = trim_str(s);
    match parse_date_chrono(t.as_str(), "%Y-%m-%d") {
        Some(d) => Some(d),
        None => {
            let tv = chars_of(t.as_str());
            if octets_capped(&tv, 10) <= 10 {
                return parse_date_chrono(t.as_str(), "%Y-%m-%d");
            }
            match cut_exec(&tv, 10) {
                Some(k) => {
                    let p = string_of(&tv, 0, k);
                    proof {
                        assert(tv@.subrange(0, k as int) =~= tv@.take(k as int));
                    }
                    parse_date_chrono(p.as_str(), "%Y-%m-%d")
                },
                None => None,
            }
        },
    }
}

fn parse_datetime(s: &str) -> (r: Option<(i32, u32, u32, u32, u32, u32, u32)>)
    requires
        dt_ok(s@),
    ensures
        r == parse_datetime_spec(s@),
        r matches Some(t) ==> dt_in_range(t),
{
    let t = trim_str(s);
    proof {
        lemma_trim_trim(s@);
    }
    match parse_datetime_chrono(t.as_str(), "%Y-%m-%dT%H:%M:%S") {
        Some(x) => Some(x),
        None => match parse_datetime_chrono(t.as_str(), "%Y-%m-%dT%H:%M") {
            Some(x) => Some(x),
            None => match parse_date(t.as_str()) {
                Some(d) => Some((d.0, d.1, d.2, 0u32, 0u32, 0u32, 0u32)),
                None => None,
            },
        },
    }
}

// ---------------------------------------------------------------------------
// Writing
// ---------------------------------------------------------------------------

pub open spec fn date_text(d: Option<(i32, u32, u32)>) -> Seq<char> {
    match d {
        Some(d) => compact_date(d.0 as int, d.1 as int, d.2 as int),
        None => Seq::empty(),
    }
}

pub open spec fn dt_text(t: Option<(int, int, int, int, int, int, int)>) -> Seq<char> {
    match t {
        Some(t) => compact_dt(t),
        None => Seq::empty(),
    }
}

/// Display text → `(params, value)` of a DTSTART/DTEND line.
pub open spec fn to_ical_spec(display: Seq<char>, all_day: bool) -> (Seq<char>, Seq<char>) {
    if all_day {
        (kw(";VALUE=DATE"), date_text(parse_date_spec(display)))
    } else {
        (
            Seq::empty(),
            dt_text(
                match parse_datetime_spec(display) {
                    Some(t) => Some(widen(t)),
                    None => None,
                },
            ),
        )
    }
}

/// The last day of an all-day event: the end date, else the start date.
pub open spec fn last_day(input: EventInputV) -> Option<(i32, u32, u32)> {
    match parse_date_spec(
        match input.end {
            Some(e) => e,
            None => input.start,
        },
    ) {
        Some(d) => Some(d),
        None => parse_date_spec(input.start),
    }
}

/// The end of a timed event: the end time, else one hour after the start.
pub open spec fn end_time(input: EventInputV) -> Option<(int, int, int, int, int, int, int)> {
    match match input.end {
        Some(e) => parse_datetime_spec(e),
        None => None,
    } {
        Some(t) => Some(widen(t)),
        None => match parse_datetime_spec(input.start) {
            Some(t) => Some(add_hour(t)),
            None => None,
        },
    }
}

/// The DTEND line: all-day ends are exclusive (the day after the last day).
pub open spec fn end_line(input: EventInputV) -> LineV {
    if input.all_day {
        LineV {
            name: kw("DTEND"),
            params: kw(";VALUE=DATE"),
            value: match last_day(input) {
                Some(d) => {
                    let n = next_day(d);
                    compact_date(n.0, n.1, n.2)
                },
                None => Seq::empty(),
            },
        }
    } else {
        plain(kw("DTEND"), dt_text(end_time(input)))
    }
}

/// The DTSTART line.
pub open spec fn start_line(input: EventInputV) -> LineV {
    let p = to_ical_spec(input.start, input.all_day);
    LineV { name: kw("DTSTART"), params: p.0, value: p.1 }
}

/// The inputs that can be written: each typed date is read without cutting a
/// character apart, and the computed end is a date-time chrono can hold.
pub open spec fn input_ok(input: EventInputV) -> bool {
    if input.all_day {
        &&& date_ok(input.start)
        &&& date_ok(
            match input.end {
                Some(e) => e,
                None => input.start,
            },
        )
        &&& last_day(input) matches Some(d) ==> d != (262142i32, 12u32, 31u32)
    } else {
        &&& dt_ok(input.start)
        &&& input.end matches Some(e) ==> dt_ok(e)
        &&& !(input.end matches Some(e) && parse_datetime_spec(e) is Some) ==> (parse_datetime_spec(
            input.start,
        ) matches Some(t) ==> hour_addable(t))
    }
}

/// The editable fields written onto a VEVENT component.
pub open spec fn apply_input_spec(ev: CompV, input: EventInputV) -> CompV {
    let c1 = set_spec(ev, plain(kw("SUMMARY"), escape_spec(trim_ws(input.summary))));
    let c2 = set_or_remove_spec(c1, kw("DESCRIPTION"), input.description);
    let c3 = set_or_remove_spec(c2, kw("LOCATION"), input.location);
    let c4 = set_spec(c3, start_line(input));
    set_spec(c4, end_line(input))
}

/// Display string → `(params, value)` for a DTSTART/DTEND line.
fn to_ical(display: &str, all_day: bool) -> (r: (String, String))
    requires
        if all_day {
            date_ok(display@)
        } else {
            dt_ok(display@)
        },
    ensures
        (r.0@, r.1@) == to_ical_spec(display@, all_day),
{
    if all_day {
        let v = match parse_date(display) {
            Some(d) => fmt_compact_date(d.0, d.1, d.2),
            None => String::new(),
        };
        (copy_str(";VALUE=DATE"), v)
    } else {
        let v = match parse_datetime(display) {
            Some(t) => fmt_compact_dt(t),
            None => String::new(),
        };
        (String::new(), v)
    }
}

/// The DTEND line, defaulting sensibly when the UI omits an end.
fn compute_end(input: &EventInput) -> (l: Line)
    requires
        input_ok(input@),
    ensures
        l@ == end_line(input@),
{
    if input.all_day {
        let first = match &input.end {
            Some(e) => parse_date(e.as_str()),
            None => parse_date(input.start.as_str()),
        };
        let last = match first {
            Some(d) => Some(d),
            None => parse_date(input.start.as_str()),
        };
        let v = match last {
            Some(d) => {
                let n = next_day_exec(d);
                fmt_compact_date(n.0, n.1, n.2)
            },
            None => String::new(),
        };
        Line::with_params("DTEND", ";VALUE=DATE", v.as_str())
    } else {
        let given = match &input.end {
            Some(e) => parse_datetime(e.as_str()),
            None => None,
        };
        let v = match given {
            Some(t) => fmt_compact_dt(t),
            None => match parse_datetime(input.start.as_str()) {
                Some(t) => {
                    let h = add_hour_exec(t);
                    fmt_compact_dt(h)
                },
                None => String::new(),
            },
        };
        Line::new("DTEND", v.as_str())
    }
}

/// Write the editable fields onto a VEVENT component.
fn apply_input(vevent: &mut Component, input: &EventInput)
    requires
        input_ok(input@),
    ensures
        final(vevent)@ == apply_input_spec(old(vevent)@, input@),
{
    let s = trim_str(input.summary.as_str());
    let es = escape_text(s.as_str());
    vevent.set(Line::new("SUMMARY", es.as_str()));
    set_or_remove(vevent, "DESCRIPTION", opt_as_str(&input.description));
    set_or_remove(vevent, "LOCATION", opt_as_str(&input.location));
    let (sp, sv) = to_ical(input.start.as_str(), input.all_day);
    vevent.set(Line::with_params("DTSTART", sp.as_str(), sv.as_str()));
    let end_line = compute_end(input);
    vevent.set(end_line);
}

/// Whether [`input_ok`] holds of `input`.
pub fn input_is_writable(input: &EventInput) -> (b: bool)
    ensures
        b == input_ok(input@),
{
    if input.all_day {
        if !date_ok_exec(input.start.as_str()) {
            return false;
        }
        let last_text = match &input.end {
            Some(e) => e.as_str(),
            None => input.start.as_str(),
        };
        if !date_ok_exec(last_text) {
            return false;
        }
        let first = parse_date(last_text);
        let last = match first {
            Some(d) => Some(d),
            None => parse_date(input.start.as_str()),
        };
        match last {
            Some(d) => !(d.0 == 262142 && d.1 == 12 && d.2 == 31),
            None => true,
        }
    } else {
        if !dt_ok_exec(input.start.as_str()) {
            return false;
        }
        let given = match &input.end {
            Some(e) => {
                if !dt_ok_exec(e.as_str()) {
                    return false;
                }
                parse_datetime(e.as_str())
            },
            None => None,
        };
        match given {
            Some(_) => true,
            None => match parse_datetime(input.start.as_str()) {
                Some(t) => !(t.0 == 262142 && t.1 == 12 && t.2 == 31 && t.3 == 23),
                None => true,
            },
        }
    }
}

/// A fresh VCALENDAR holding one VEVENT for `input`; `stamp` and `created`
/// are the DTSTAMP and CREATED times.
pub open spec fn new_calendar_spec(input: EventInputV, uid: Seq<char>, stamp: Seq<char>, created: Seq<char>) -> CompV {
    let e0 = CompV { name: kw("VEVENT"), lines: Seq::empty(), children: Seq::empty() };
    let e1 = set_spec(e0, plain(kw("UID"), uid));
    let e2 = set_spec(e1, plain(kw("DTSTAMP"), stamp));
    let e3 = set_spec(e2, plain(kw("CREATED"), created));
    let e4 = set_spec(e3, plain(kw("SEQUENCE"), kw("0")));
    let ev = apply_input_spec(e4, input);
    let c0 = CompV { name: kw("VCALENDAR"), lines: Seq::empty(), children: Seq::empty() };
    let c1 = set_spec(c0, plain(kw("VERSION"), kw("2.0")));
    let c2 = set_spec(c1, plain(kw("PRODID"), kw("-//Cirrust//Cirrust CalDAV//EN")));
    let c3 = set_spec(c2, plain(kw("CALSCALE"), kw("GREGORIAN")));
    CompV { children: c3.children.push(ev), ..c3 }
}

/// Build a brand-new VCALENDAR/VEVENT for `input` with the given DTSTAMP and
/// CREATED times.
pub fn build_new_at(input: &EventInput, uid: &str, stamp: &str, created: &str) -> (r: String)
    requires
        input_ok(input@),
    ensures
        r@ == ser_comps(seq![new_calendar_spec(input@, uid@, stamp@, created@)]),
{
    let mut vevent = Component::new("VEVENT");
    vevent.set(Line::new("UID", uid));
    vevent.set(Line::new("DTSTAMP", stamp));
    vevent.set(Line::new("CREATED", created));
    vevent.set(Line::new("SEQUENCE", "0"));
    apply_input(&mut vevent, input);
    let mut vcal = Component::new("VCALENDAR");
    vcal.set(Line::new("VERSION", "2.0"));
    vcal.set(Line::new("PRODID", "-//Cirrust//Cirrust CalDAV//EN"));
    vcal.set(Line::new("CALSCALE", "GREGORIAN"));
    let ghost before = vcal@;
    let ghost ev = vevent@;
    proof {
        lemma_comp_view_fields(vcal);
    }
    vcal.children.push(vevent);
    proof {
        lemma_comp_view_fields(vcal);
        assert(comps_view(vcal.children@) =~= before.children.push(ev));
        assert(vcal@ == new_calendar_spec(input@, uid@, stamp@, created@));
    }
    let roots = vec![vcal];
    proof {
        assert(comps_view(roots@) =~= seq![vcal@]);
    }
    serialize(roots.as_slice())
}

/// Build a brand-new VCALENDAR/VEVENT for `input`, stamped with the current
/// time. Returns the ics text.
pub fn build_new(input: &EventInput, uid: &str) -> (r: String)
    requires
        input_ok(input@),
    ensures
        exists|t1: ClockFields, t2: ClockFields|
            clock_fields_ok(t1) && clock_fields_ok(t2) && r@ == ser_comps(
                seq![new_calendar_spec(input@, uid@, utc_stamp(t1), utc_stamp(t2))],
            ),
{
    let t1 = crate::clock::utc_now();
    let t2 = crate::clock::utc_now();
    let stamp = crate::clock::utc_stamp_text(t1);
    let created = crate::clock::utc_stamp_text(t2);
    build_new_at(input, uid, stamp.as_str(), created.as_str())
}

/// [`build_new`] for any input: `None` when the input is not one
/// [`input_ok`] admits.
pub fn try_build_new(input: &EventInput, uid: &str) -> (r: Option<String>)
    ensures
        r is Some <==> input_ok(input@),
        r matches Some(t) ==> exists|t1: ClockFields, t2: ClockFields|
            clock_fields_ok(t1) && clock_fields_ok(t2) && t@ == ser_comps(
                seq![new_calendar_spec(input@, uid@, utc_stamp(t1), utc_stamp(t2))],
            ),
{
    if input_is_writable(input) {
        Some(build_new(input, uid))
    } else {
        None
    }
}

/// The SEQUENCE number of a VEVENT: its value as an `i64`, else 0.
pub open spec fn sequence_of(ev: CompV) -> int {
    match value_of(ev, kw("SEQUENCE")) {
        Some(v) => match crate::num::parse_i64_spec(v) {
            Some(n) => n as int,
            None => 0,
        },
        None => 0,
    }
}

/// The VEVENT after an edit: SEQUENCE bumped, DTSTAMP and LAST-MODIFIED set
/// to `stamp` and `modified`, then the editable fields written.
pub open spec fn edited_event(ev: CompV, input: EventInputV, stamp: Seq<char>, modified: Seq<char>) -> CompV {
    let e1 = set_spec(ev, plain(kw("SEQUENCE"), crate::num::i64_text(sequence_of(ev) + 1)));
    let e2 = set_spec(e1, plain(kw("DTSTAMP"), stamp));
    let e3 = set_spec(e2, plain(kw("LAST-MODIFIED"), modified));
    apply_input_spec(e3, input)
}

/// Where the edited event sits: `(calendar index, event index)` among the
/// parsed roots.
pub open spec fn edit_target(ics: Seq<char>) -> Option<(int, int)> {
    let roots = parse_spec(ics);
    match first_child(roots, kw("VCALENDAR"), 0) {
        None => None,
        Some(i) => match event_index(roots[i].children) {
            None => None,
            Some(j) => Some((i, j)),
        },
    }
}

/// The edited event's SEQUENCE can be bumped without overflow.
pub open spec fn sequence_ok(ics: Seq<char>) -> bool {
    match edit_target(ics) {
        None => true,
        Some(p) => sequence_of(parse_spec(ics)[p.0].children[p.1]) < i64::MAX,
    }
}

/// The patched document text, or `None` without a VEVENT to edit.
pub open spec fn apply_edit_spec(ics: Seq<char>, input: EventInputV, stamp: Seq<char>, modified: Seq<char>) -> Option<
    Seq<char>,
> {
    let roots = parse_spec(ics);
    match edit_target(ics) {
        None => None,
        Some(p) => {
            let vcal = roots[p.0];
            let ev = edited_event(vcal.children[p.1], input, stamp, modified);
            Some(ser_comps(roots.update(p.0, CompV { children: vcal.children.update(p.1, ev), ..vcal })))
        },
    }
}

/// Patch an existing CalDAV object in place, preserving unknown properties,
/// with the given DTSTAMP and LAST-MODIFIED times.
pub fn apply_edit_at(existing_ics: &str, input: &EventInput, stamp: &str, modified: &str) -> (r: Option<String>)
    requires
        input_ok(input@),
        sequence_ok(existing_ics@),
    ensures
        opt_view(r) == apply_edit_spec(existing_ics@, input@, stamp@, modified@),
{
    let roots = parse(existing_ics);
    let holder = Component { name: String::new(), lines: Vec::new(), children: roots };
    proof {
        lemma_comp_view_fields(holder);
    }
    let i = match holder.child_index("VCALENDAR") {
        Some(i) => i,
        None => return None,
    };
    let mut roots = holder.children;
    let ghost rv = comps_view(roots@);
    let j = match event_index_exec(&roots[i]) {
        Some(j) => j,
        None => return None,
    };
    let mut vcal = roots.remove(i);
    let ghost vv = vcal@;
    proof {
        assert(vv == rv[i as int]);
        lemma_comp_view_fields(vcal);
    }
    let mut kids: Vec<Component> = Vec::new();
    std::mem::swap(&mut kids, &mut vcal.children);
    let ghost kv = comps_view(kids@);
    let mut ev = kids.remove(j);
    proof {
        assert(ev@ == kv[j as int]);
    }
    let seq: i64 = match ev.value("SEQUENCE") {
        Some(v) => match crate::num::parse_i64(v) {
            Some(n) => n,
            None => 0,
        },
        None => 0,
    };
    let bumped = crate::num::i64_string(seq + 1);
    ev.set(Line::new("SEQUENCE", bumped.as_str()));
    ev.set(Line::new("DTSTAMP", stamp));
    ev.set(Line::new("LAST-MODIFIED", modified));
    apply_input(&mut ev, input);
    let ghost evv = ev@;
    kids.insert(j, ev);
    proof {
        assert(comps_view(kids@) =~= kv.update(j as int, evv));
    }
    vcal.children = kids;
    let ghost vcv = vcal@;
    proof {
        lemma_comp_view_fields(vcal);
        assert(vcv == CompV { children: vv.children.update(j as int, evv), ..vv });
    }
    roots.insert(i, vcal);
    proof {
        assert(comps_view(roots@) =~= rv.update(i as int, vcv));
    }
    Some(serialize(roots.as_slice()))
}

/// Patch an existing CalDAV object in place, preserving unknown properties.
/// Returns the new ics text, or `None` if the body has no VEVENT to edit.
pub fn apply_edit(existing_ics: &str, input: &EventInput) -> (r: Option<String>)
    requires
        input_ok(input@),
        sequence_ok(existing_ics@),
    ensures
        r is Some <==> edit_target(existing_ics@) is Some,
        r matches Some(t) ==> exists|t1: ClockFields, t2: ClockFields|
            clock_fields_ok(t1) && clock_fields_ok(t2) && apply_edit_spec(
                existing_ics@,
                input@,
                utc_stamp(t1),
                utc_stamp(t2),
            ) == Some(t@),
{
    let t1 = crate::clock::utc_now();
    let t2 = crate::clock::utc_now();
    let stamp = crate::clock::utc_stamp_text(t1);
    let modified = crate::clock::utc_stamp_text(t2);
    apply_edit_at(existing_ics, input, stamp.as_str(), modified.as_str())
}

/// [`apply_edit`] for any input: `Err(())` when the input is not one
/// [`input_ok`] admits or the SEQUENCE cannot be bumped.
pub fn try_apply_edit(existing_ics: &str, input: &EventInput) -> (r: Result<Option<String>, ()>)
    ensures
        r is Ok <==> input_ok(input@) && sequence_ok(existing_ics@),
        r matches Ok(o) ==> (o is Some <==> edit_target(existing_ics@) is Some),
        r matches Ok(Some(t)) ==> exists|t1: ClockFields, t2: ClockFields|
            clock_fields_ok(t1) && clock_fields_ok(t2) && apply_edit_spec(
                existing_ics@,
                input@,
                utc_stamp(t1),
                utc_stamp(t2),
            ) == Some(t@),
{
    if input_is_writable(input) && sequence_is_bumpable(existing_ics) {
        Ok(apply_edit(existing_ics, input))
    } else {
        Err(())
    }
}

/// Whether [`sequence_ok`] holds of `ics`.
pub fn sequence_is_bumpable(ics: &str) -> (b: bool)
    ensures
        b == sequence_ok(ics@),
{
    let roots = parse(ics);
    let holder = Component { name: String::new(), lines: Vec::new(), children: roots };
    proof {
        lemma_comp_view_fields(holder);
    }
    let i = match holder.child_index("VCALENDAR") {
        Some(i) => i,
        None => return true,
    };
    let vcal = &holder.children[i];
    let j = match event_index_exec(vcal) {
        Some(j) => j,
        None => return true,
    };
    proof {
        lemma_comp_view_fields(*vcal);
    }
    let ev = &vcal.children[j];
    match ev.value("SEQUENCE") {
        Some(v) => match crate::num::parse_i64(v) {
            Some(n) => n < i64::MAX,
            None => true,
        },
        None => true,
    }
}

/// The properties an edit of an event writes.
pub open spec fn managed_event_name(n: Seq<char>) -> bool {
    eq_ic(n, kw("SEQUENCE")) || eq_ic(n, kw("DTSTAMP")) || eq_ic(n, kw("LAST-MODIFIED")) || eq_ic(n, kw("SUMMARY"))
        || eq_ic(n, kw("DESCRIPTION")) || eq_ic(n, kw("LOCATION")) || eq_ic(n, kw("DTSTART")) || eq_ic(n, kw("DTEND"))
}

proof fn lemma_set_or_remove_keeps(c: CompV, name: Seq<char>, value: Option<Seq<char>>, l: LineV)
    requires
        c.lines.contains(l),
        !eq_ic(l.name, name),
    ensures
        set_or_remove_spec(c, name, value).lines.contains(l),
        set_or_remove_spec(c, name, value).children == c.children,
        set_or_remove_spec(c, name, value).name == c.name,
{
    match value {
        Some(v) => if trim_ws(v).len() > 0 {
            crate::contentline::lemma_set_line_keeps(
                c.lines,
                LineV { name, params: Seq::empty(), value: escape_spec(trim_ws(v)) },
                l,
            );
        } else {
            crate::contentline::lemma_remove_named_keeps(c.lines, name, l);
        },
        None => {
            crate::contentline::lemma_remove_named_keeps(c.lines, name, l);
        },
    }
}

/// Editing an event keeps everything the editor does not manage: every
/// other property line (RRULE, ATTENDEE, X-…), every nested component
/// (VALARM) and the component itself.
pub proof fn law_event_edit_keeps_unmanaged(
    ev: CompV,
    input: EventInputV,
    stamp: Seq<char>,
    modified: Seq<char>,
    l: LineV,
)
    requires
        ev.lines.contains(l),
        !managed_event_name(l.name),
    ensures
        edited_event(ev, input, stamp, modified).lines.contains(l),
        edited_event(ev, input, stamp, modified).children == ev.children,
        edited_event(ev, input, stamp, modified).name == ev.name,
{
    let e1 = set_spec(ev, plain(kw("SEQUENCE"), crate::num::i64_text(sequence_of(ev) + 1)));
    crate::contentline::lemma_set_line_keeps(ev.lines, plain(kw("SEQUENCE"), crate::num::i64_text(sequence_of(ev) + 1)), l);
    let e2 = set_spec(e1, plain(kw("DTSTAMP"), stamp));
    crate::contentline::lemma_set_line_keeps(e1.lines, plain(kw("DTSTAMP"), stamp), l);
    let e3 = set_spec(e2, plain(kw("LAST-MODIFIED"), modified));
    crate::contentline::lemma_set_line_keeps(e2.lines, plain(kw("LAST-MODIFIED"), modified), l);
    let c1 = set_spec(e3, plain(kw("SUMMARY"), escape_spec(trim_ws(input.summary))));
    crate::contentline::lemma_set_line_keeps(e3.lines, plain(kw("SUMMARY"), escape_spec(trim_ws(input.summary))), l);
    let c2 = set_or_remove_spec(c1, kw("DESCRIPTION"), input.description);
    lemma_set_or_remove_keeps(c1, kw("DESCRIPTION"), input.description, l);
    let c3 = set_or_remove_spec(c2, kw("LOCATION"), input.location);
    lemma_set_or_remove_keeps(c2, kw("LOCATION"), input.location, l);
    let c4 = set_spec(c3, start_line(input));
    crate::contentline::lemma_set_line_keeps(c3.lines, start_line(input), l);
    crate::contentline::lemma_set_line_keeps(c4.lines, end_line(input), l);
}

} // verus!
