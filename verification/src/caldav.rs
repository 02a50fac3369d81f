//! CalDAV: which collections of the calendar home are event calendars, how
//! a calendar-query answer turns into display events, and the small cache
//! decisions around a refresh.

use vstd::prelude::*;
use crate::dav::{href_to_dav_path, href_to_dav_path_spec, DavResponse};
use crate::ical::{event_in, event_is_readable, event_of, event_readable, parse_event, CalEvent, CalEventV, EventInput};
use crate::datetime::dt_fields_ok;
use crate::dav::strings_view;
use crate::config::{hex_digit, hex_text};
use crate::text::{chars_of, push_char, copy_str, eq_ic, eq_ic_str, lower_seq, opt_view, str_eq, string_of, trim_str, trim_ws};
use crate::vcard::{last_index, non_empty, or_default};

verus! {

/// A calendar collection the user can browse and edit.
pub struct CalendarInfo {
    /// Last path segment of the collection (stable per account), e.g. `personal`.
    pub id: String,
    /// DAV path (relative to `/remote.php/dav/`) of the collection.
    pub href: String,
    pub display_name: String,
    pub color: Option<String>,
    /// Collection tag: changes whenever any event in it changes.
    pub ctag: String,
}

/// Mathematical value of a [`CalendarInfo`].
pub struct CalendarInfoV {
    pub id: Seq<char>,
    pub href: Seq<char>,
    pub display_name: Seq<char>,
    pub color: Option<Seq<char>>,
    pub ctag: Seq<char>,
}

impl View for CalendarInfo {
    type V = CalendarInfoV;

    open spec fn view(&self) -> CalendarInfoV {
        CalendarInfoV {
            id: self.id@,
            href: self.href@,
            display_name: self.display_name@,
            color: opt_view(self.color),
            ctag: self.ctag@,
        }
    }
}

pub open spec fn calendars_view(v: Seq<CalendarInfo>) -> Seq<CalendarInfoV> {
    Seq::new(v.len(), |i: int| v[i]@)
}

/// Some entry of `v` equals `s` ignoring ASCII case.
pub open spec fn has_ic(v: Seq<String>, s: Seq<char>) -> bool {
    exists|i: int| 0 <= i < v.len() && eq_ic(#[trigger] v[i]@, s)
}

/// A prop of a response, looked up as [`DavResponse::prop`] does.
pub open spec fn prop_of(r: DavResponse, name: Seq<char>) -> Option<Seq<char>> {
    opt_view(r.props.get_spec(lower_seq(name)))
}

/// `p.rsplit('/').next()`: the text after the last `/` (all of `p` without one).
pub open spec fn last_segment(p: Seq<char>) -> Seq<char> {
    match last_index(p, '/') {
        Some(i) => p.skip(i + 1),
        None => p,
    }
}

/// The display name: the `displayname` prop unless it is absent or empty.
pub open spec fn name_or(o: Option<Seq<char>>, id: Seq<char>) -> Seq<char> {
    match non_empty(o) {
        Some(s) => s,
        None => id,
    }
}

/// `o.map(|s| s.trim())`.
pub open spec fn trimmed(o: Option<Seq<char>>) -> Option<Seq<char>> {
    match o {
        Some(s) => Some(trim_ws(s)),
        None => None,
    }
}

/// The calendar a PROPFIND response describes, when it is an event
/// calendar under the DAV root with a non-empty last segment.
pub open spec fn calendar_of_spec(r: DavResponse) -> Option<CalendarInfoV> {
    if !has_ic(r.resourcetypes@, "calendar"@) {
        None
    } else if r.comps@.len() > 0 && !has_ic(r.comps@, "VEVENT"@) {
        None
    } else {
        match href_to_dav_path_spec(r.href@) {
            None => None,
            Some(dav) => {
                let id = last_segment(dav);
                if id.len() == 0 {
                    None
                } else {
                    Some(
                        CalendarInfoV {
                            id,
                            href: dav,
                            display_name: name_or(prop_of(r, "displayname"@), id),
                            color: non_empty(trimmed(prop_of(r, "calendar-color"@))),
                            ctag: or_default(prop_of(r, "getctag"@)),
                        },
                    )
                }
            },
        }
    }
}

/// The event calendars among `rs`, in order.
pub open spec fn calendars_spec(rs: Seq<DavResponse>) -> Seq<CalendarInfoV>
    decreases rs.len(),
{
    if rs.len() == 0 {
        Seq::empty()
    } else {
        let prev = calendars_spec(rs.drop_last());
        match calendar_of_spec(rs.last()) {
            Some(c) => prev.push(c),
            None => prev,
        }
    }
}

/// `p.rsplit('/').next()`, owned.
pub fn last_segment_of(p: &str) -> (r: String)
    ensures
        r@ == last_segment(p@),
{
    let v = chars_of(p);
    let mut i = v.len();
    proof {
        assert(v@.take(i as int) =~= v@);
    }
    while i > 0 && v[i - 1] != '/'
        invariant
            i <= v@.len(),
            v@ == p@,
            last_index(v@, '/') == last_index(v@.take(i as int), '/'),
        decreases i,
    {
        proof {
            assert(v@.take(i as int).drop_last() =~= v@.take(i - 1));
        }
        i = i - 1;
    }
    if i > 0 {
        proof {
            assert(v@.take(i as int).last() == '/');
            assert(v@.skip(i as int) =~= v@.subrange(i as int, v@.len() as int));
        }
        string_of(&v, i, v.len())
    } else {
        proof {
            assert(v@.take(0) =~= Seq::<char>::empty());
        }
        copy_str(p)
    }
}

/// Whether some entry of `v` equals `s` ignoring ASCII case.
pub fn any_ic(v: &Vec<String>, s: &str) -> (b: bool)
    ensures
        b == has_ic(v@, s@),
{
    let mut i: usize = 0;
    while i < v.len()
        invariant
            0 <= i <= v@.len(),
            forall|k: int| 0 <= k < i ==> !eq_ic(#[trigger] v@[k]@, s@),
        decreases v@.len() - i,
    {
        if eq_ic_str(v[i].as_str(), s) {
            return true;
        }
        i = i + 1;
    }
    false
}

/// `Some(s)` without surrounding whitespace, `None` when that leaves nothing.
fn trimmed_non_empty(o: Option<&str>) -> (r: Option<String>)
    ensures
        opt_view(r) == non_empty(trimmed(match o {
            Some(s) => Some(s@),
            None => None,
        })),
{
    match o {
        Some(s) => {
            let t = trim_str(s);
            if t.as_str().unicode_len() == 0 {
                None
            } else {
                Some(t)
            }
        },
        None => None,
    }
}

/// The calendar one PROPFIND response of the calendar home describes.
pub fn calendar_of(r: &DavResponse) -> (c: Option<CalendarInfo>)
    requires
        r.wf(),
    ensures
        match c {
            Some(x) => calendar_of_spec(*r) == Some(x@),
            None => calendar_of_spec(*r) is None,
        },
{
    if !r.is("calendar") {
        return None;
    }
    if r.comps.len() > 0 && !any_ic(&r.comps, "VEVENT") {
        return None;
    }
    let dav = match href_to_dav_path(r.href.as_str()) {
        Some(d) => d,
        None => return None,
    };
    let id = last_segment_of(dav.as_str());
    if id.as_str().unicode_len() == 0 {
        return None;
    }
    let display_name = match r.prop("displayname") {
        Some(s) => if s.unicode_len() > 0 {
            copy_str(s)
        } else {
            copy_str(id.as_str())
        },
        None => copy_str(id.as_str()),
    };
    let color = trimmed_non_empty(r.prop("calendar-color"));
    let ctag = match r.prop("getctag") {
        Some(s) => copy_str(s),
        None => String::new(),
    };
    Some(CalendarInfo { id, href: dav, display_name, color, ctag })
}

/// The writable event calendars of a PROPFIND of the calendar home, in the
/// order the server listed them (the home itself and task-only lists are
/// left out).
pub fn calendars_from(responses: &Vec<DavResponse>) -> (out: Vec<CalendarInfo>)
    requires
        forall|i: int| 0 <= i < responses@.len() ==> (#[trigger] responses@[i]).wf(),
    ensures
        calendars_view(out@) == calendars_spec(responses@),
{
    let mut out: Vec<CalendarInfo> = Vec::new();
    let mut i: usize = 0;
    proof {
        assert(responses@.take(0) =~= Seq::<DavResponse>::empty());
    }
    while i < responses.len()
        invariant
            0 <= i <= responses@.len(),
            forall|k: int| 0 <= k < responses@.len() ==> (#[trigger] responses@[k]).wf(),
            calendars_view(out@) == calendars_spec(responses@.take(i as int)),
        decreases responses@.len() - i,
    {
        proof {
            assert(responses@.take(i + 1).drop_last() =~= responses@.take(i as int));
        }
        let ghost before = out@;
        match calendar_of(&responses[i]) {
            Some(c) => {
                out.push(c);
                proof {
                    assert(calendars_view(out@) =~= calendars_view(before).push(out@.last()@));
                }
            },
            None => {},
        }
        i = i + 1;
    }
    proof {
        assert(responses@.take(responses@.len() as int) =~= responses@);
    }
    out
}

// ---------------------------------------------------------------------------
// Events of a calendar-query answer
// ---------------------------------------------------------------------------

/// What one calendar-query response carries for reading: its calendar data,
/// its DAV path and its ETag (empty when absent).
pub open spec fn event_source(r: DavResponse) -> Option<(Seq<char>, Seq<char>, Seq<char>)> {
    match prop_of(r, "calendar-data"@) {
        None => None,
        Some(data) => match href_to_dav_path_spec(r.href@) {
            None => None,
            Some(p) => Some((data, p, or_default(prop_of(r, "getetag"@)))),
        },
    }
}

/// Every object of the answer can be read (see [`event_readable`]).
pub open spec fn sources_readable(rs: Seq<DavResponse>) -> bool {
    forall|i: int|
        0 <= i < rs.len() ==> match event_source(#[trigger] rs[i]) {
            Some(src) => event_readable(src.0),
            None => true,
        }
}

/// The sources of the answer that hold an event, in order.
pub open spec fn event_sources(rs: Seq<DavResponse>) -> Seq<(Seq<char>, Seq<char>, Seq<char>)>
    decreases rs.len(),
{
    if rs.len() == 0 {
        Seq::empty()
    } else {
        let prev = event_sources(rs.drop_last());
        match event_source(rs.last()) {
            Some(src) => if event_in(src.0) is Some {
                prev.push(src)
            } else {
                prev
            },
            None => prev,
        }
    }
}

/// `e` is the display event read from `src` for calendar `cal`.
pub open spec fn reads_as_event(e: CalEventV, src: (Seq<char>, Seq<char>, Seq<char>), cal: Seq<char>) -> bool {
    match event_in(src.0) {
        Some(ev) => exists|
            l1: (i32, u32, u32, u32, u32, u32, u32),
            l2: (i32, u32, u32, u32, u32, u32, u32),
        | dt_fields_ok(l1) && dt_fields_ok(l2) && e == #[trigger] event_of(ev, cal, src.1, src.2, l1, l2),
        None => false,
    }
}

/// Whether every object of a calendar-query answer can be read.
pub fn sources_are_readable(responses: &Vec<DavResponse>) -> (b: bool)
    requires
        forall|i: int| 0 <= i < responses@.len() ==> (#[trigger] responses@[i]).wf(),
    ensures
        b == sources_readable(responses@),
{
    let mut i: usize = 0;
    while i < responses.len()
        invariant
            0 <= i <= responses@.len(),
            forall|k: int| 0 <= k < responses@.len() ==> (#[trigger] responses@[k]).wf(),
            forall|k: int|
                0 <= k < i ==> match event_source(#[trigger] responses@[k]) {
                    Some(src) => event_readable(src.0),
                    None => true,
                },
        decreases responses@.len() - i,
    {
        let r = &responses[i];
        match r.prop("calendar-data") {
            Some(data) => match href_to_dav_path(r.href.as_str()) {
                Some(_) => {
                    if !event_is_readable(data) {
                        return false;
                    }
                },
                None => {},
            },
            None => {},
        }
        i = i + 1;
    }
    true
}

/// The display events of a calendar-query answer for calendar
/// `calendar_id`: one per response that carries calendar data holding a
/// VEVENT, in the order of the answer.
pub fn events_from(responses: &Vec<DavResponse>, calendar_id: &str) -> (out: Vec<CalEvent>)
    requires
        forall|i: int| 0 <= i < responses@.len() ==> (#[trigger] responses@[i]).wf(),
        sources_readable(responses@),
    ensures
        out@.len() == event_sources(responses@).len(),
        forall|i: int|
            0 <= i < out@.len() ==> reads_as_event(
                (#[trigger] out@[i])@,
                event_sources(responses@)[i],
                calendar_id@,
            ),
{
    let mut out: Vec<CalEvent> = Vec::new();
    let mut i: usize = 0;
    proof {
        assert(responses@.take(0) =~= Seq::<DavResponse>::empty());
    }
    while i < responses.len()
        invariant
            0 <= i <= responses@.len(),
            forall|k: int| 0 <= k < responses@.len() ==> (#[trigger] responses@[k]).wf(),
            sources_readable(responses@),
            out@.len() == event_sources(responses@.take(i as int)).len(),
            forall|k: int|
                0 <= k < out@.len() ==> reads_as_event(
                    (#[trigger] out@[k])@,
                    event_sources(responses@.take(i as int))[k],
                    calendar_id@,
                ),
        decreases responses@.len() - i,
    {
        proof {
            assert(responses@.take(i + 1).drop_last() =~= responses@.take(i as int));
        }
        let r = &responses[i];
        let ghost before = out@;
        match r.prop("calendar-data") {
            Some(data) => match href_to_dav_path(r.href.as_str()) {
                Some(p) => {
                    let etag = match r.prop("getetag") {
                        Some(t) => copy_str(t),
                        None => String::new(),
                    };
                    proof {
                        assert(event_source(responses@[i as int]) == Some((data@, p@, etag@)));
                    }
                    match parse_event(data, calendar_id, p.as_str(), etag.as_str()) {
                        Some(e) => {
                            out.push(e);
                            proof {
                                assert forall|k: int| 0 <= k < out@.len() implies reads_as_event(
                                    (#[trigger] out@[k])@,
                                    event_sources(responses@.take(i + 1))[k],
                                    calendar_id@,
                                ) by {
                                    if k < before.len() {
                                        assert(out@[k] == before[k]);
                                    }
                                }
                            }
                        },
                        None => {},
                    }
                },
                None => {},
            },
            None => {},
        }
        i = i + 1;
    }
    proof {
        assert(responses@.take(responses@.len() as int) =~= responses@);
    }
    out
}

/// [`events_from`] when every object of the answer can be read, else `None`.
pub fn try_events_from(responses: &Vec<DavResponse>, calendar_id: &str) -> (r: Option<Vec<CalEvent>>)
    requires
        forall|i: int| 0 <= i < responses@.len() ==> (#[trigger] responses@[i]).wf(),
    ensures
        r is Some <==> sources_readable(responses@),
        r matches Some(out) ==> out@.len() == event_sources(responses@).len() && forall|i: int|
            0 <= i < out@.len() ==> reads_as_event(
                (#[trigger] out@[i])@,
                event_sources(responses@)[i],
                calendar_id@,
            ),
{
    if sources_are_readable(responses) {
        Some(events_from(responses, calendar_id))
    } else {
        None
    }
}

// ---------------------------------------------------------------------------
// Cache decisions of a refresh
// ---------------------------------------------------------------------------

/// Index of the first calendar at or after `from` whose id is `id`.
pub open spec fn first_with_id(cs: Seq<CalendarInfoV>, id: Seq<char>, from: int) -> Option<int>
    decreases cs.len() - from,
{
    if from < 0 || from >= cs.len() {
        None
    } else if cs[from].id == id {
        Some(from)
    } else {
        first_with_id(cs, id, from + 1)
    }
}

/// The previous listing had the same, non-empty CTag for `cal` (the first
/// entry with its id counts).
pub open spec fn ctag_unchanged(previous: Seq<CalendarInfoV>, cal: CalendarInfoV) -> bool {
    match first_with_id(previous, cal.id, 0) {
        Some(k) => previous[k].ctag.len() > 0 && previous[k].ctag == cal.ctag,
        None => false,
    }
}

/// Whether a refresh must fetch the events of `cal` again: unless its CTag
/// is unchanged since `previous` and its events are cached.
pub fn needs_fetch(previous: &Vec<CalendarInfo>, cal: &CalendarInfo, has_cache: bool) -> (b: bool)
    ensures
        b == !(ctag_unchanged(calendars_view(previous@), cal@) && has_cache),
{
    let ghost pv = calendars_view(previous@);
    let mut i: usize = 0;
    while i < previous.len()
        invariant
            0 <= i <= previous@.len(),
            pv == calendars_view(previous@),
            first_with_id(pv, cal@.id, 0) == first_with_id(pv, cal@.id, i as int),
        decreases previous@.len() - i,
    {
        if str_eq(previous[i].id.as_str(), cal.id.as_str()) {
            let p = &previous[i];
            let unchanged = p.ctag.as_str().unicode_len() > 0 && str_eq(p.ctag.as_str(), cal.ctag.as_str());
            return !(unchanged && has_cache);
        }
        i = i + 1;
    }
    true
}

/// The ids of the calendars to show, in listing order: all of them, or
/// those whose id is among `ids`.
pub open spec fn wanted_spec(cs: Seq<CalendarInfoV>, ids: Option<Seq<Seq<char>>>) -> Seq<Seq<char>>
    decreases cs.len(),
{
    if cs.len() == 0 {
        Seq::empty()
    } else {
        let prev = wanted_spec(cs.drop_last(), ids);
        let keep = match ids {
            Some(s) => s.contains(cs.last().id),
            None => true,
        };
        if keep {
            prev.push(cs.last().id)
        } else {
            prev
        }
    }
}

/// Whether `s` is one of `v`.
pub fn contains_str(v: &Vec<String>, s: &str) -> (b: bool)
    ensures
        b == strings_view(v@).contains(s@),
{
    let mut i: usize = 0;
    while i < v.len()
        invariant
            0 <= i <= v@.len(),
            forall|k: int| 0 <= k < i ==> v@[k]@ != s@,
        decreases v@.len() - i,
    {
        if str_eq(v[i].as_str(), s) {
            proof {
                assert(strings_view(v@)[i as int] == s@);
            }
            return true;
        }
        i = i + 1;
    }
    proof {
        if strings_view(v@).contains(s@) {
            let k = choose|k: int| 0 <= k < strings_view(v@).len() && strings_view(v@)[k] == s@;
            assert(v@[k]@ == s@);
        }
    }
    false
}

/// The ids of the calendars whose cached events are shown.
pub fn wanted_calendars(calendars: &Vec<CalendarInfo>, ids: &Option<Vec<String>>) -> (out: Vec<String>)
    ensures
        strings_view(out@) == wanted_spec(
            calendars_view(calendars@),
            match ids {
                Some(v) => Some(strings_view(v@)),
                None => None,
            },
        ),
{
    let ghost wanted_ids = match ids {
        Some(v) => Some(strings_view(v@)),
        None => None,
    };
    let mut out: Vec<String> = Vec::new();
    let mut i: usize = 0;
    proof {
        assert(calendars_view(calendars@).take(0) =~= Seq::<CalendarInfoV>::empty());
    }
    while i < calendars.len()
        invariant
            0 <= i <= calendars@.len(),
            wanted_ids == match ids {
                Some(v) => Some(strings_view(v@)),
                None => None,
            },
            strings_view(out@) == wanted_spec(calendars_view(calendars@).take(i as int), wanted_ids),
        decreases calendars@.len() - i,
    {
        proof {
            assert(calendars_view(calendars@).take(i + 1).drop_last() =~= calendars_view(calendars@).take(i as int));
        }
        let c = &calendars[i];
        let keep = match ids {
            Some(v) => contains_str(v, c.id.as_str()),
            None => true,
        };
        if keep {
            let ghost before = out@;
            out.push(copy_str(c.id.as_str()));
            proof {
                assert(strings_view(out@) =~= strings_view(before).push(c.id@));
            }
        }
        i = i + 1;
    }
    proof {
        assert(calendars_view(calendars@).take(calendars@.len() as int) =~= calendars_view(calendars@));
    }
    out
}

pub open spec fn events_view(v: Seq<CalEvent>) -> Seq<CalEventV> {
    Seq::new(v.len(), |i: int| v[i]@)
}

/// `events` without the entries at `href`.
pub open spec fn without_event(es: Seq<CalEventV>, href: Seq<char>) -> Seq<CalEventV>
    decreases es.len(),
{
    if es.len() == 0 {
        Seq::empty()
    } else {
        let prev = without_event(es.drop_last(), href);
        if es.last().href == href {
            prev
        } else {
            prev.push(es.last())
        }
    }
}

/// A calendar's cached events after one of them was saved (`Some`) or
/// deleted (`None`): every entry at `href` is dropped, and the saved one is
/// appended.
pub fn upsert_event(events: &mut Vec<CalEvent>, href: &str, value: Option<CalEvent>)
    ensures
        events_view(final(events)@) == match value {
            Some(v) => without_event(events_view(old(events)@), href@).push(v@),
            None => without_event(events_view(old(events)@), href@),
        },
{
    let ghost orig = events_view(old(events)@);
    let mut i: usize = 0;
    let ghost mut j: int = 0;
    proof {
        assert(orig.take(0) =~= Seq::<CalEventV>::empty());
        assert(events_view(events@).take(0) =~= Seq::<CalEventV>::empty());
        assert(events_view(events@).skip(0) =~= orig.skip(0));
    }
    while i < events.len()
        invariant
            0 <= i <= events@.len(),
            0 <= j <= orig.len(),
            events@.len() - i == orig.len() - j,
            events_view(events@).take(i as int) == without_event(orig.take(j), href@),
            events_view(events@).skip(i as int) == orig.skip(j),
        decreases events@.len() - i,
    {
        let ghost before = events_view(events@);
        proof {
            assert(orig.take(j + 1).drop_last() =~= orig.take(j));
            assert(before.skip(i as int)[0] == orig.skip(j)[0]);
            assert(orig[j] == before[i as int]);
        }
        if str_eq(events[i].href.as_str(), href) {
            events.remove(i);
            proof {
                let after = events_view(events@);
                assert(after.take(i as int) =~= before.take(i as int));
                let rest = after.skip(i as int);
                assert forall|k: int| 0 <= k < rest.len() implies #[trigger] rest[k]
                    == orig.skip(j + 1)[k] by {
                    assert(before.skip(i as int)[k + 1] == orig.skip(j)[k + 1]);
                }
                assert(after.skip(i as int) =~= orig.skip(j + 1));
                j = j + 1;
            }
        } else {
            proof {
                let after = events_view(events@);
                assert(after.take(i + 1) =~= before.take(i as int).push(orig[j]));
                let rest = after.skip(i + 1);
                assert forall|k: int| 0 <= k < rest.len() implies #[trigger] rest[k]
                    == orig.skip(j + 1)[k] by {
                    assert(before.skip(i as int)[k + 1] == orig.skip(j)[k + 1]);
                }
                assert(after.skip(i + 1) =~= orig.skip(j + 1));
                j = j + 1;
            }
            i = i + 1;
        }
    }
    proof {
        assert(events_view(events@).take(i as int) =~= events_view(events@));
        assert(orig.take(j) =~= orig);
    }
    match value {
        Some(v) => {
            let ghost before = events_view(events@);
            events.push(v);
            proof {
                assert(events_view(events@) =~= before.push(events@.last()@));
            }
        },
        None => {},
    }
}

// ---------------------------------------------------------------------------
// Saving an event
// ---------------------------------------------------------------------------

/// What the editor sends to save an event.
pub struct SaveEventArgs {
    pub calendar_id: String,
    /// Present when editing an existing event; absent to create a new one.
    pub href: Option<String>,
    pub etag: Option<String>,
    pub event: EventInput,
}

impl SaveEventArgs {
    /// Whether the save edits the stored object in place (both its href and
    /// its ETag are known) rather than creating a new one.
    pub fn edits_existing(&self) -> (b: bool)
        ensures
            b == (self.href is Some && self.etag is Some),
    {
        self.href.is_some() && self.etag.is_some()
    }
}

/// Lower-case hex of `bytes`, two digits each: the random part of a new UID.
pub fn hex_id(bytes: &[u8]) -> (r: String)
    ensures
        r@ == hex_text(bytes@),
{
    let mut r = String::new();
    let mut i: usize = 0;
    proof {
        assert(bytes@.take(0) =~= Seq::<u8>::empty());
    }
    while i < bytes.len()
        invariant
            0 <= i <= bytes@.len(),
            r@ == hex_text(bytes@.take(i as int)),
        decreases bytes@.len() - i,
    {
        let b = bytes[i];
        let hi = b / 16;
        let lo = b % 16;
        let ch = if hi < 10 { (hi + 48) as char } else { (hi + 87) as char };
        let cl = if lo < 10 { (lo + 48) as char } else { (lo + 87) as char };
        proof {
            assert(bytes@.take(i + 1).drop_last() =~= bytes@.take(i as int));
            assert(ch == hex_digit(b as int / 16));
            assert(cl == hex_digit(b as int % 16));
        }
        push_char(&mut r, ch);
        push_char(&mut r, cl);
        i = i + 1;
    }
    proof {
        assert(bytes@.take(bytes@.len() as int) =~= bytes@);
    }
    r
}

/// `<random>@cirrust`: the UID of a newly created event or contact.
pub fn new_uid(random: &str) -> (r: String)
    ensures
        r@ == random@ + "@cirrust"@,
{
    let mut r = copy_str(random);
    r.append("@cirrust");
    r
}

/// `<collection>/<uid>.<ext>`: where a new object is stored.
pub fn object_path(collection: &str, uid: &str, ext: &str) -> (r: String)
    ensures
        r@ == collection@ + seq!['/'] + uid@ + seq!['.'] + ext@,
{
    let mut r = copy_str(collection);
    push_char(&mut r, '/');
    r.append(uid);
    push_char(&mut r, '.');
    r.append(ext);
    r
}

} // verus!
