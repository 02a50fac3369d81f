//! Reading back what was written: a newly built event parses back to
//! itself and shows the fields it was given, and editing a stored event or
//! contact changes the document losslessly, keeping everything the editor
//! does not manage.

use vstd::prelude::*;
use crate::contentline::{
    lemma_split_c_after, lemma_split_c_single, param_from, param_spec, set_line, split_c, lemma_first_child, parse_spec, begin_kw, end_kw, esc_char, escape_spec, first_child, first_line, lacks_char, remove_named, ser_comps,
    unescape_spec, law_unescape_escape, without_cr, CompV, LineV,
};
use crate::clock::lemma_compact_dt_stamp;
use crate::datetime::{chrono_datetime, compact_date, compact_dt, display_dt, next_day, secs, two, widen, year_text};
use crate::ical::{
    apply_edit_spec, edited_event, law_event_edit_keeps_unmanaged, lemma_first_master, managed_event_name,
    sequence_of, apply_input_spec, end_line, end_time, event_in, event_index, event_of, first_master, last_day,
    new_calendar_spec, parse_date_spec, parse_datetime_spec, start_line, to_display_spec, ical_fmt, dt_text, line_of,
    EventInputV,
};
use crate::lookup::{
    lemma_named_remove_other, lemma_named_remove_same, lemma_named_set_other, lemma_named_set_same, named,
};
use crate::lossless::{
    comps_ok, lemma_comps_ok_all, lemma_remove_named_ok, lemma_set_line_ok, lemma_simple_line_ok, line_ok,
    lines_ok, node_ok, quiet, simple_line, law_parse_serialize,
};
use crate::num::{digits, i64_text, lemma_digits_len, zero_pad};
use crate::text::{
    find_from, trim_end_c, trim_start_c, upper, upper_seq, eq_ic, is_ws, lemma_trim_end_keeps_start,
    lemma_trim_start_ws_fixed, lower, lower_seq, trim_end_ws, trim_start_ws, trim_ws,
};
use crate::vcard::{
    contact_of, full_name_spec, name_from_n_spec, new_card_spec, typed_values_spec, kw, law_card_edit_keeps_unmanaged, managed_card_name, map_unescape, non_empty, or_default, plain, push_typed,
    org_spec, replace_semis, set_or_remove_spec, set_spec, structured_name_spec, typed_line_spec, value_of, ContactInputV, TypedV,
};

verus! {

// ---------------------------------------------------------------------------
// Text without line feeds
// ---------------------------------------------------------------------------

proof fn lemma_lacks_cat(a: Seq<char>, b: Seq<char>)
    requires
        lacks_char(a, '\n'),
        lacks_char(b, '\n'),
    ensures
        lacks_char(a + b, '\n'),
{
    assert forall|k: int| 0 <= k < (a + b).len() implies (a + b)[k] != '\n' by {
        if k < a.len() {
            assert((a + b)[k] == a[k]);
        } else {
            assert((a + b)[k] == b[k - a.len()]);
        }
    }
}

proof fn lemma_escape_lacks(s: Seq<char>)
    ensures
        lacks_char(escape_spec(s), '\n'),
    decreases s.len(),
{
    if s.len() > 0 {
        lemma_escape_lacks(s.drop_first());
        let c = s[0];
        assert(lacks_char(esc_char(c), '\n'));
        lemma_lacks_cat(esc_char(c), escape_spec(s.drop_first()));
    } else {
        assert(escape_spec(s) =~= Seq::<char>::empty());
    }
}

proof fn lemma_digits_lacks(n: nat)
    ensures
        lacks_char(digits(n), '\n'),
{
    lemma_digits_len(n);
}

proof fn lemma_pad_lacks(s: Seq<char>, w: int)
    requires
        lacks_char(s, '\n'),
    ensures
        lacks_char(zero_pad(s, w), '\n'),
{
    if s.len() < w {
        let z = Seq::new((w - s.len()) as nat, |i: int| '0');
        assert(lacks_char(z, '\n'));
        lemma_lacks_cat(z, s);
    }
}

proof fn lemma_year_lacks(y: int)
    ensures
        lacks_char(year_text(y), '\n'),
{
    if 0 <= y <= 9999 {
        lemma_digits_lacks(y as nat);
        lemma_pad_lacks(digits(y as nat), 4);
    } else if y < 0 {
        lemma_digits_lacks((-y) as nat);
        lemma_pad_lacks(digits((-y) as nat), 4);
        lemma_lacks_cat(seq!['-'], zero_pad(digits((-y) as nat), 4));
    } else {
        lemma_digits_lacks(y as nat);
        lemma_pad_lacks(digits(y as nat), 4);
        lemma_lacks_cat(seq!['+'], zero_pad(digits(y as nat), 4));
    }
}

proof fn lemma_two_lacks(v: int)
    ensures
        lacks_char(two(v), '\n'),
{
    lemma_digits_lacks(v as nat);
    lemma_pad_lacks(digits(v as nat), 2);
}

proof fn lemma_compact_date_lacks(y: int, m: int, d: int)
    ensures
        lacks_char(compact_date(y, m, d), '\n'),
{
    lemma_year_lacks(y);
    lemma_two_lacks(m);
    lemma_two_lacks(d);
    lemma_lacks_cat(year_text(y), two(m));
    lemma_lacks_cat(year_text(y) + two(m), two(d));
}

proof fn lemma_compact_dt_lacks(t: (int, int, int, int, int, int, int))
    ensures
        lacks_char(compact_dt(t), '\n'),
{
    lemma_compact_date_lacks(t.0, t.1, t.2);
    lemma_two_lacks(t.3);
    lemma_two_lacks(t.4);
    lemma_two_lacks(crate::datetime::secs(t));
    let a = compact_date(t.0, t.1, t.2) + seq!['T'];
    lemma_lacks_cat(compact_date(t.0, t.1, t.2), seq!['T']);
    lemma_lacks_cat(a, two(t.3));
    lemma_lacks_cat(a + two(t.3), two(t.4));
    lemma_lacks_cat(a + two(t.3) + two(t.4), two(crate::datetime::secs(t)));
}

// ---------------------------------------------------------------------------
// Property names
// ---------------------------------------------------------------------------

/// A property name of capital letters and dashes.
pub open spec fn caps(s: Seq<char>) -> bool {
    &&& s.len() > 0
    &&& forall|k: int| 0 <= k < s.len() ==> ('A' <= #[trigger] s[k] <= 'Z' || s[k] == '-')
}

proof fn lemma_ne_ic(a: Seq<char>, b: Seq<char>)
    requires
        a.len() != b.len() || (a.len() > 0 && b.len() > 0 && lower(a[0]) != lower(b[0])),
    ensures
        !eq_ic(a, b),
{
    if eq_ic(a, b) {
        assert(lower_seq(a).len() == a.len());
        assert(lower_seq(b).len() == b.len());
        if a.len() == b.len() {
            assert(lower_seq(a)[0] == lower(a[0]));
            assert(lower_seq(b)[0] == lower(b[0]));
        }
    }
}

proof fn lemma_quiet_plain(s: Seq<char>)
    requires
        forall|k: int| 0 <= k < s.len() ==> s[k] != '"' && s[k] != ':',
    ensures
        quiet(s, false),
    decreases s.len(),
{
    if s.len() > 0 {
        assert forall|k: int| 0 <= k < s.drop_first().len() implies s.drop_first()[k] != '"' && s.drop_first()[k]
            != ':' by {
            assert(s.drop_first()[k] == s[k + 1]);
        }
        lemma_quiet_plain(s.drop_first());
    }
}

/// The parameter text of an all-day date.
proof fn lemma_date_params()
    ensures
        kw(";VALUE=DATE").len() > 0,
        kw(";VALUE=DATE")[0] == ';',
        quiet(kw(";VALUE=DATE").drop_first(), false),
        lacks_char(kw(";VALUE=DATE"), '\n'),
{
    reveal_strlit(";VALUE=DATE");
    let p = kw(";VALUE=DATE");
    assert forall|k: int| 0 <= k < p.drop_first().len() implies p.drop_first()[k] != '"' && p.drop_first()[k]
        != ':' by {
        assert(p.drop_first()[k] == p[k + 1]);
    }
    lemma_quiet_plain(p.drop_first());
}

/// A line with a name of capitals, plain or date parameters and a value
/// without a line feed reads back as itself.
proof fn lemma_written_line_ok(l: LineV)
    requires
        caps(l.name),
        !eq_ic(l.name, begin_kw()),
        !eq_ic(l.name, end_kw()),
        l.params.len() == 0 || l.params == kw(";VALUE=DATE"),
        lacks_char(l.value, '\n'),
    ensures
        line_ok(l),
{
    lemma_date_params();
    assert(l.name[0] != ' ' && l.name[0] != '\t') by {
        assert('A' <= l.name[0] <= 'Z' || l.name[0] == '-');
    }
    assert forall|k: int| 0 <= k < l.name.len() implies l.name[k] != '"' && l.name[k] != ';' && l.name[k] != ':' by {
        assert('A' <= l.name[k] <= 'Z' || l.name[k] == '-');
    }
    assert(lacks_char(l.name, '\n')) by {
        assert forall|k: int| 0 <= k < l.name.len() implies l.name[k] != '\n' by {
            assert('A' <= l.name[k] <= 'Z' || l.name[k] == '-');
        }
    }
    if l.params.len() == 0 {
        assert(lacks_char(l.params, '\n'));
    }
    assert(simple_line(l));
    lemma_simple_line_ok(l);
}

// ---------------------------------------------------------------------------
// Lookups through the writes
// ---------------------------------------------------------------------------

/// The line found under `n` after `set_or_remove_spec` of another name.
proof fn lemma_named_sor_other(c: CompV, name: Seq<char>, value: Option<Seq<char>>, n: Seq<char>)
    requires
        !eq_ic(name, n),
    ensures
        named(set_or_remove_spec(c, name, value).lines, n) == named(c.lines, n),
{
    match value {
        Some(v) => if trim_ws(v).len() > 0 {
            lemma_named_set_other(c.lines, LineV { name, params: Seq::empty(), value: escape_spec(trim_ws(v)) }, n);
        } else {
            lemma_named_remove_other(c.lines, name, n);
        },
        None => lemma_named_remove_other(c.lines, name, n),
    }
}

proof fn lemma_sor_ok(c: CompV, name: Seq<char>, value: Option<Seq<char>>)
    requires
        lines_ok(c.lines),
        caps(name),
        !eq_ic(name, begin_kw()),
        !eq_ic(name, end_kw()),
    ensures
        lines_ok(set_or_remove_spec(c, name, value).lines),
        set_or_remove_spec(c, name, value).name == c.name,
        set_or_remove_spec(c, name, value).children == c.children,
{
    match value {
        Some(v) => if trim_ws(v).len() > 0 {
            let l = LineV { name, params: Seq::empty(), value: escape_spec(trim_ws(v)) };
            lemma_escape_lacks(trim_ws(v));
            lemma_written_line_ok(l);
            lemma_set_line_ok(c.lines, l);
        } else {
            lemma_remove_named_ok(c.lines, name);
        },
        None => lemma_remove_named_ok(c.lines, name),
    }
}

/// What an optional text field shows after being written: its trimmed text
/// without carriage returns, or nothing when it is blank or absent.
pub open spec fn shown(o: Option<Seq<char>>) -> Option<Seq<char>> {
    match o {
        Some(v) => if trim_ws(v).len() > 0 {
            Some(without_cr(trim_ws(v)))
        } else {
            None
        },
        None => None,
    }
}

proof fn lemma_trimmed_head(v: Seq<char>)
    ensures
        trim_ws(v).len() > 0 ==> !is_ws(trim_ws(v)[0]),
{
    let a = trim_start_ws(v);
    lemma_trim_start_ws_fixed(v);
    lemma_trim_end_keeps_start(a);
    lemma_trim_start_ws_fixed(trim_end_ws(a));
}

proof fn lemma_shown(c: CompV, name: Seq<char>, value: Option<Seq<char>>)
    ensures
        non_empty(map_unescape(value_of(set_or_remove_spec(c, name, value), name))) == shown(value),
{
    let r = set_or_remove_spec(c, name, value);
    match value {
        Some(v) => if trim_ws(v).len() > 0 {
            let t = trim_ws(v);
            let l = LineV { name, params: Seq::empty(), value: escape_spec(t) };
            lemma_named_set_same(c.lines, l);
            law_unescape_escape(t);
            lemma_trimmed_head(v);
            assert(t[0] != '\r');
            assert(without_cr(t).len() > 0);
        } else {
            lemma_named_remove_same(c.lines, name);
        },
        None => lemma_named_remove_same(c.lines, name),
    }
}

proof fn lemma_value_of_named(c: CompV, d: CompV, n: Seq<char>)
    requires
        named(c.lines, n) == named(d.lines, n),
    ensures
        value_of(c, n) == value_of(d, n),
{
}

proof fn lemma_start_line_ok(input: EventInputV)
    ensures
        line_ok(start_line(input)),
{
    reveal_strlit("DTSTART");
    lemma_ne_ic(kw("DTSTART"), begin_kw());
    lemma_ne_ic(kw("DTSTART"), end_kw());
    if input.all_day {
        match parse_date_spec(input.start) {
            Some(d) => lemma_compact_date_lacks(d.0 as int, d.1 as int, d.2 as int),
            None => {},
        }
    } else {
        match parse_datetime_spec(input.start) {
            Some(t) => lemma_compact_dt_lacks(widen(t)),
            None => {},
        }
    }
    assert(caps(kw("DTSTART")));
    lemma_written_line_ok(start_line(input));
}

proof fn lemma_end_line_ok(input: EventInputV)
    ensures
        line_ok(end_line(input)),
{
    reveal_strlit("DTEND");
    assert(caps(kw("DTEND")));
    lemma_ne_ic(kw("DTEND"), begin_kw());
    lemma_ne_ic(kw("DTEND"), end_kw());
    if input.all_day {
        match last_day(input) {
            Some(d) => {
                let n = next_day(d);
                lemma_compact_date_lacks(n.0, n.1, n.2);
            },
            None => {},
        }
    } else {
        match end_time(input) {
            Some(t) => lemma_compact_dt_lacks(t),
            None => {},
        }
    }
    lemma_written_line_ok(end_line(input));
}

/// The VEVENT with its identifying lines, before the input is applied.
pub open spec fn stamped_event(uid: Seq<char>, stamp: Seq<char>, created: Seq<char>) -> CompV {
    let e0 = CompV { name: kw("VEVENT"), lines: Seq::empty(), children: Seq::empty() };
    let e1 = set_spec(e0, plain(kw("UID"), uid));
    let e2 = set_spec(e1, plain(kw("DTSTAMP"), stamp));
    let e3 = set_spec(e2, plain(kw("CREATED"), created));
    set_spec(e3, plain(kw("SEQUENCE"), kw("0")))
}

proof fn lemma_named_input_other(e: CompV, input: EventInputV, n: Seq<char>)
    requires
        !eq_ic(kw("SUMMARY"), n),
        !eq_ic(kw("DESCRIPTION"), n),
        !eq_ic(kw("LOCATION"), n),
        !eq_ic(kw("DTSTART"), n),
        !eq_ic(kw("DTEND"), n),
    ensures
        named(apply_input_spec(e, input).lines, n) == named(e.lines, n),
{
    let l_sum = plain(kw("SUMMARY"), escape_spec(trim_ws(input.summary)));
    let c1 = set_spec(e, l_sum);
    let c2 = set_or_remove_spec(c1, kw("DESCRIPTION"), input.description);
    let c3 = set_or_remove_spec(c2, kw("LOCATION"), input.location);
    let c4 = set_spec(c3, start_line(input));
    lemma_named_set_other(e.lines, l_sum, n);
    lemma_named_sor_other(c1, kw("DESCRIPTION"), input.description, n);
    lemma_named_sor_other(c2, kw("LOCATION"), input.location, n);
    lemma_named_set_other(c3.lines, start_line(input), n);
    lemma_named_set_other(c4.lines, end_line(input), n);
}

proof fn lemma_named_stamped_other(uid: Seq<char>, stamp: Seq<char>, created: Seq<char>, n: Seq<char>)
    requires
        !eq_ic(kw("UID"), n),
        !eq_ic(kw("DTSTAMP"), n),
        !eq_ic(kw("CREATED"), n),
        !eq_ic(kw("SEQUENCE"), n),
    ensures
        named(stamped_event(uid, stamp, created).lines, n) is None,
{
    let e0 = CompV { name: kw("VEVENT"), lines: Seq::empty(), children: Seq::empty() };
    let e1 = set_spec(e0, plain(kw("UID"), uid));
    let e2 = set_spec(e1, plain(kw("DTSTAMP"), stamp));
    let e3 = set_spec(e2, plain(kw("CREATED"), created));
    assert(named(e0.lines, n) is None);
    lemma_named_set_other(e0.lines, plain(kw("UID"), uid), n);
    lemma_named_set_other(e1.lines, plain(kw("DTSTAMP"), stamp), n);
    lemma_named_set_other(e2.lines, plain(kw("CREATED"), created), n);
    lemma_named_set_other(e3.lines, plain(kw("SEQUENCE"), kw("0")), n);
}

/// Writing the editor's fields keeps every line reading back, and the
/// component's name and children.
proof fn lemma_input_lines_ok(e: CompV, input: EventInputV)
    requires
        lines_ok(e.lines),
    ensures
        lines_ok(apply_input_spec(e, input).lines),
        apply_input_spec(e, input).name == e.name,
        apply_input_spec(e, input).children == e.children,
{
    reveal_strlit("SUMMARY");
    reveal_strlit("DESCRIPTION");
    reveal_strlit("LOCATION");
    let l_sum = plain(kw("SUMMARY"), escape_spec(trim_ws(input.summary)));
    let c1 = set_spec(e, l_sum);
    let c2 = set_or_remove_spec(c1, kw("DESCRIPTION"), input.description);
    let c3 = set_or_remove_spec(c2, kw("LOCATION"), input.location);
    let c4 = set_spec(c3, start_line(input));
    assert(caps(kw("SUMMARY")));
    assert(caps(kw("DESCRIPTION")));
    assert(caps(kw("LOCATION")));
    lemma_ne_ic(kw("SUMMARY"), begin_kw());
    lemma_ne_ic(kw("SUMMARY"), end_kw());
    lemma_ne_ic(kw("DESCRIPTION"), begin_kw());
    lemma_ne_ic(kw("DESCRIPTION"), end_kw());
    lemma_ne_ic(kw("LOCATION"), begin_kw());
    lemma_ne_ic(kw("LOCATION"), end_kw());
    lemma_escape_lacks(trim_ws(input.summary));
    lemma_written_line_ok(l_sum);
    lemma_set_line_ok(e.lines, l_sum);
    lemma_sor_ok(c1, kw("DESCRIPTION"), input.description);
    lemma_sor_ok(c2, kw("LOCATION"), input.location);
    lemma_start_line_ok(input);
    lemma_end_line_ok(input);
    lemma_set_line_ok(c3.lines, start_line(input));
    lemma_set_line_ok(c4.lines, end_line(input));
}

/// After the editor's fields are written, the event shows them: the trimmed
/// summary, and the trimmed description and location (nothing when blank).
proof fn lemma_input_shown(e: CompV, input: EventInputV)
    ensures
        ({
            let ev = apply_input_spec(e, input);
            &&& or_default(map_unescape(value_of(ev, kw("SUMMARY")))) == without_cr(trim_ws(input.summary))
            &&& non_empty(map_unescape(value_of(ev, kw("DESCRIPTION")))) == shown(input.description)
            &&& non_empty(map_unescape(value_of(ev, kw("LOCATION")))) == shown(input.location)
        }),
{
    reveal_strlit("SUMMARY");
    reveal_strlit("DESCRIPTION");
    reveal_strlit("LOCATION");
    reveal_strlit("DTSTART");
    reveal_strlit("DTEND");
    let sum_n = kw("SUMMARY");
    let desc_n = kw("DESCRIPTION");
    let loc_n = kw("LOCATION");
    let l_sum = plain(sum_n, escape_spec(trim_ws(input.summary)));
    let c1 = set_spec(e, l_sum);
    let c2 = set_or_remove_spec(c1, desc_n, input.description);
    let c3 = set_or_remove_spec(c2, loc_n, input.location);
    let c4 = set_spec(c3, start_line(input));
    let ev = set_spec(c4, end_line(input));
    assert(ev == apply_input_spec(e, input));

    lemma_named_set_same(e.lines, l_sum);
    lemma_ne_ic(desc_n, sum_n);
    lemma_ne_ic(loc_n, sum_n);
    lemma_ne_ic(kw("DTSTART"), sum_n);
    lemma_ne_ic(kw("DTEND"), sum_n);
    lemma_named_sor_other(c1, desc_n, input.description, sum_n);
    lemma_named_sor_other(c2, loc_n, input.location, sum_n);
    lemma_named_set_other(c3.lines, start_line(input), sum_n);
    lemma_named_set_other(c4.lines, end_line(input), sum_n);
    assert(value_of(ev, sum_n) == Some(escape_spec(trim_ws(input.summary))));
    law_unescape_escape(trim_ws(input.summary));

    lemma_shown(c1, desc_n, input.description);
    lemma_ne_ic(loc_n, desc_n);
    lemma_ne_ic(kw("DTSTART"), desc_n);
    lemma_ne_ic(kw("DTEND"), desc_n);
    lemma_named_sor_other(c2, loc_n, input.location, desc_n);
    lemma_named_set_other(c3.lines, start_line(input), desc_n);
    lemma_named_set_other(c4.lines, end_line(input), desc_n);
    lemma_value_of_named(ev, c2, desc_n);

    lemma_shown(c2, loc_n, input.location);
    lemma_ne_ic(kw("DTSTART"), loc_n);
    lemma_ne_ic(kw("DTEND"), loc_n);
    lemma_named_set_other(c3.lines, start_line(input), loc_n);
    lemma_named_set_other(c4.lines, end_line(input), loc_n);
    lemma_value_of_named(ev, c3, loc_n);
}

// ---------------------------------------------------------------------------
// Written times
// ---------------------------------------------------------------------------

/// What a DTSTART/DTEND holding the floating time text `w` shows when read:
/// the time chrono reads from `w` as `%Y%m%dT%H%M%S`, written
/// `%Y-%m-%dT%H:%M:%S`, else `w` itself.
pub open spec fn shown_time(w: Seq<char>) -> Seq<char> {
    match chrono_datetime(w, ical_fmt()) {
        Some(t) => display_dt(widen(t)),
        None => w,
    }
}

/// A line without parameters holding floating time text shows that text as
/// chrono reads it back, and is no all-day line.
proof fn lemma_timed_line_shows(l: LineV, x: Option<(int, int, int, int, int, int, int)>, local: (i32, u32, u32, u32, u32, u32, u32))
    requires
        l.params.len() == 0,
        l.value == dt_text(x),
    ensures
        to_display_spec(l, local) == (shown_time(l.value), false),
{
    reveal_strlit("VALUE");
    let w = l.value;
    let e = Seq::<char>::empty();
    assert(split_c(l.params, ';') =~= seq![e]);
    assert(trim_ws(e) =~= e);
    assert(param_from(split_c(l.params, ';'), 1, kw("VALUE")) is None);
    assert(param_spec(l.params, kw("VALUE")) is None);
    match x {
        Some(t) => {
            lemma_compact_dt_stamp(t);
            assert(!is_ws(w[0])) by {
                assert('0' <= w[0] <= '9' || w[0] == '+' || w[0] == '-' || w[0] == 'T' || w[0] == 'Z');
            }
            assert(!is_ws(w.last()) && w.last() != 'Z') by {
                assert(w.last() == two(secs(t)).last());
                lemma_digits_len(secs(t) as nat);
                let d = digits(secs(t) as nat);
                assert(zero_pad(d, 2).last() == d.last());
                assert(crate::num::is_digit(d[d.len() - 1]));
            }
            assert(trim_start_ws(w) == w);
            assert(trim_end_ws(w) == w);
            assert(trim_ws(w) == w);
            assert(trim_end_c(w, 'Z') == w);
        },
        None => {
            assert(w =~= e);
            assert(trim_ws(w) =~= e);
            assert(trim_end_c(w, 'Z') =~= e);
            assert(crate::contentline::octets(e) == 0);
        },
    }
}

// ---------------------------------------------------------------------------
// The law
// ---------------------------------------------------------------------------

/// A newly built event reads back: the text that building writes parses to
/// the calendar that was built, its event is the one found, and the event
/// read from it shows the UID, the trimmed summary, and the trimmed
/// description and location (nothing when blank), with no recurrence rule
/// or status; a timed event is no all-day event, and its start and end show
/// the floating times written for them (the end an hour after the start when
/// none is given) as chrono reads that text back. Carriage returns do not
/// survive text escaping. Holds whenever the UID and the two time stamps hold
/// no line feed.
pub proof fn law_new_event_reads_back(input: EventInputV, uid: Seq<char>, stamp: Seq<char>, created: Seq<char>)
    requires
        lacks_char(uid, '\n'),
        lacks_char(stamp, '\n'),
        lacks_char(created, '\n'),
    ensures
        ({
            let cal = new_calendar_spec(input, uid, stamp, created);
            let ics = ser_comps(seq![cal]);
            &&& event_in(ics) == Some(cal.children[0])
            &&& forall|
                cal_id: Seq<char>,
                href: Seq<char>,
                etag: Seq<char>,
                l1: (i32, u32, u32, u32, u32, u32, u32),
                l2: (i32, u32, u32, u32, u32, u32, u32),
            |
                {
                    let e = #[trigger] event_of(cal.children[0], cal_id, href, etag, l1, l2);
                    &&& e.uid == uid
                    &&& e.summary == without_cr(trim_ws(input.summary))
                    &&& e.description == shown(input.description)
                    &&& e.location == shown(input.location)
                    &&& e.rrule is None
                    &&& e.status is None
                    &&& !input.all_day ==> {
                        &&& !e.all_day
                        &&& e.start == shown_time(start_line(input).value)
                        &&& e.end == Some(shown_time(end_line(input).value))
                    }
                }
        }),
{
    reveal_strlit("VEVENT");
    reveal_strlit("VCALENDAR");
    reveal_strlit("UID");
    reveal_strlit("DTSTAMP");
    reveal_strlit("CREATED");
    reveal_strlit("SEQUENCE");
    reveal_strlit("0");
    reveal_strlit("SUMMARY");
    reveal_strlit("DESCRIPTION");
    reveal_strlit("LOCATION");
    reveal_strlit("DTSTART");
    reveal_strlit("DTEND");
    reveal_strlit("VERSION");
    reveal_strlit("2.0");
    reveal_strlit("PRODID");
    reveal_strlit("-//Cirrust//Cirrust CalDAV//EN");
    reveal_strlit("CALSCALE");
    reveal_strlit("GREGORIAN");
    reveal_strlit("RRULE");
    reveal_strlit("STATUS");
    reveal_strlit("RECURRENCE-ID");
    reveal_strlit(";VALUE=DATE");
    lemma_ne_ic(begin_kw(), end_kw());
    let ev0 = CompV { name: kw("VEVENT"), lines: Seq::empty(), children: Seq::empty() };
    let l_uid = plain(kw("UID"), uid);
    let e1 = set_spec(ev0, l_uid);
    let l_stamp = plain(kw("DTSTAMP"), stamp);
    let e2 = set_spec(e1, l_stamp);
    let l_created = plain(kw("CREATED"), created);
    let e3 = set_spec(e2, l_created);
    let l_seq = plain(kw("SEQUENCE"), kw("0"));
    let e4 = set_spec(e3, l_seq);
    let l_sum = plain(kw("SUMMARY"), escape_spec(trim_ws(input.summary)));
    let c1 = set_spec(e4, l_sum);
    let c2 = set_or_remove_spec(c1, kw("DESCRIPTION"), input.description);
    let c3 = set_or_remove_spec(c2, kw("LOCATION"), input.location);
    let c4 = set_spec(c3, start_line(input));
    let ev = set_spec(c4, end_line(input));
    assert(ev == apply_input_spec(e4, input));
    let l_ver = plain(kw("VERSION"), kw("2.0"));
    let l_prod = plain(kw("PRODID"), kw("-//Cirrust//Cirrust CalDAV//EN"));
    let l_scale = plain(kw("CALSCALE"), kw("GREGORIAN"));
    let k0 = CompV { name: kw("VCALENDAR"), lines: Seq::empty(), children: Seq::empty() };
    let k1 = set_spec(k0, l_ver);
    let k2 = set_spec(k1, l_prod);
    let k3 = set_spec(k2, l_scale);
    let cal = CompV { children: k3.children.push(ev), ..k3 };
    assert(cal == new_calendar_spec(input, uid, stamp, created));

    // Every written line reads back.
    assert(caps(kw("UID")));
    assert(caps(kw("DTSTAMP")));
    assert(caps(kw("CREATED")));
    assert(caps(kw("SEQUENCE")));
    assert(caps(kw("SUMMARY")));
    assert(caps(kw("DESCRIPTION")));
    assert(caps(kw("LOCATION")));
    assert(caps(kw("VERSION")));
    assert(caps(kw("PRODID")));
    assert(caps(kw("CALSCALE")));
    lemma_ne_ic(kw("UID"), begin_kw());
    lemma_ne_ic(kw("UID"), end_kw());
    lemma_ne_ic(kw("DTSTAMP"), begin_kw());
    lemma_ne_ic(kw("DTSTAMP"), end_kw());
    lemma_ne_ic(kw("CREATED"), begin_kw());
    lemma_ne_ic(kw("CREATED"), end_kw());
    lemma_ne_ic(kw("SEQUENCE"), begin_kw());
    lemma_ne_ic(kw("SEQUENCE"), end_kw());
    lemma_ne_ic(kw("SUMMARY"), begin_kw());
    lemma_ne_ic(kw("SUMMARY"), end_kw());
    lemma_ne_ic(kw("DESCRIPTION"), begin_kw());
    lemma_ne_ic(kw("DESCRIPTION"), end_kw());
    lemma_ne_ic(kw("LOCATION"), begin_kw());
    lemma_ne_ic(kw("LOCATION"), end_kw());
    lemma_ne_ic(kw("VERSION"), begin_kw());
    lemma_ne_ic(kw("VERSION"), end_kw());
    lemma_ne_ic(kw("PRODID"), begin_kw());
    lemma_ne_ic(kw("PRODID"), end_kw());
    lemma_ne_ic(kw("CALSCALE"), begin_kw());
    lemma_ne_ic(kw("CALSCALE"), end_kw());
    lemma_written_line_ok(l_uid);
    lemma_written_line_ok(l_stamp);
    lemma_written_line_ok(l_created);
    lemma_written_line_ok(l_seq);
    lemma_escape_lacks(trim_ws(input.summary));
    lemma_written_line_ok(l_sum);
    lemma_written_line_ok(l_ver);
    lemma_written_line_ok(l_prod);
    lemma_written_line_ok(l_scale);
    lemma_start_line_ok(input);
    lemma_end_line_ok(input);
    lemma_set_line_ok(ev0.lines, l_uid);
    lemma_set_line_ok(e1.lines, l_stamp);
    lemma_set_line_ok(e2.lines, l_created);
    lemma_set_line_ok(e3.lines, l_seq);
    lemma_set_line_ok(e4.lines, l_sum);
    lemma_sor_ok(c1, kw("DESCRIPTION"), input.description);
    lemma_sor_ok(c2, kw("LOCATION"), input.location);
    lemma_set_line_ok(c3.lines, start_line(input));
    lemma_set_line_ok(c4.lines, end_line(input));
    lemma_set_line_ok(k0.lines, l_ver);
    lemma_set_line_ok(k1.lines, l_prod);
    lemma_set_line_ok(k2.lines, l_scale);

    // So the whole tree reads back.
    assert(ev.children =~= Seq::<CompV>::empty());
    assert(node_ok(ev));
    assert(cal.children =~= seq![ev]);
    lemma_comps_ok_all(cal.children);
    assert(node_ok(cal));
    lemma_comps_ok_all(seq![cal]);
    law_parse_serialize(seq![cal]);

    // The event found is the one built.
    assert(e4 == stamped_event(uid, stamp, created));
    let rid = kw("RECURRENCE-ID");
    let rrule = kw("RRULE");
    let status = kw("STATUS");
    let uid_n = kw("UID");
    let sum_n = kw("SUMMARY");
    let desc_n = kw("DESCRIPTION");
    let loc_n = kw("LOCATION");
    let names = seq![uid_n, kw("DTSTAMP"), kw("CREATED"), kw("SEQUENCE"), sum_n, desc_n, loc_n, kw("DTSTART"), kw("DTEND")];
    assert forall|i: int| 0 <= i < names.len() implies !eq_ic(#[trigger] names[i], rid) && !eq_ic(names[i], rrule)
        && !eq_ic(names[i], status) by {
        lemma_ne_ic(names[i], rid);
        lemma_ne_ic(names[i], rrule);
        lemma_ne_ic(names[i], status);
    }
    assert(!eq_ic(names[0], rid) && !eq_ic(names[1], rid) && !eq_ic(names[2], rid) && !eq_ic(names[3], rid));
    assert(!eq_ic(names[4], rid) && !eq_ic(names[5], rid) && !eq_ic(names[6], rid) && !eq_ic(names[7], rid)
        && !eq_ic(names[8], rid));
    lemma_named_stamped_other(uid, stamp, created, rid);
    lemma_named_input_other(e4, input, rid);
    assert(first_line(ev.lines, rid, 0) is None);
    assert(first_child(seq![cal], kw("VCALENDAR"), 0) == Some(0int));
    assert(first_master(cal.children, 0) == Some(0int));
    assert(event_index(cal.children) == Some(0int));

    // What the event shows.
    assert(!eq_ic(names[0], rrule) && !eq_ic(names[1], rrule) && !eq_ic(names[2], rrule) && !eq_ic(names[3], rrule));
    assert(!eq_ic(names[4], rrule) && !eq_ic(names[5], rrule) && !eq_ic(names[6], rrule) && !eq_ic(names[7], rrule)
        && !eq_ic(names[8], rrule));
    lemma_named_stamped_other(uid, stamp, created, rrule);
    lemma_named_input_other(e4, input, rrule);
    assert(!eq_ic(names[0], status) && !eq_ic(names[1], status) && !eq_ic(names[2], status) && !eq_ic(names[3], status));
    assert(!eq_ic(names[4], status) && !eq_ic(names[5], status) && !eq_ic(names[6], status) && !eq_ic(names[7], status)
        && !eq_ic(names[8], status));
    lemma_named_stamped_other(uid, stamp, created, status);
    lemma_named_input_other(e4, input, status);
    assert(value_of(ev, rrule) is None);
    assert(value_of(ev, status) is None);

    lemma_named_set_same(ev0.lines, l_uid);
    lemma_ne_ic(kw("DTSTAMP"), uid_n);
    lemma_ne_ic(kw("CREATED"), uid_n);
    lemma_ne_ic(kw("SEQUENCE"), uid_n);
    lemma_named_set_other(e1.lines, l_stamp, uid_n);
    lemma_named_set_other(e2.lines, l_created, uid_n);
    lemma_named_set_other(e3.lines, l_seq, uid_n);
    lemma_ne_ic(sum_n, uid_n);
    lemma_ne_ic(desc_n, uid_n);
    lemma_ne_ic(loc_n, uid_n);
    lemma_ne_ic(kw("DTSTART"), uid_n);
    lemma_ne_ic(kw("DTEND"), uid_n);
    lemma_named_input_other(e4, input, uid_n);
    assert(value_of(ev, uid_n) == Some(uid));

    lemma_input_shown(e4, input);

    // The start and end of a timed event.
    let st_n = kw("DTSTART");
    let en_n = kw("DTEND");
    lemma_named_set_same(c3.lines, start_line(input));
    lemma_ne_ic(en_n, st_n);
    lemma_named_set_other(c4.lines, end_line(input), st_n);
    lemma_named_set_same(c4.lines, end_line(input));
    assert(line_of(ev, st_n) == Some(start_line(input)));
    assert(line_of(ev, en_n) == Some(end_line(input)));
    if !input.all_day {
        let xs = match parse_datetime_spec(input.start) {
            Some(t) => Some(widen(t)),
            None => None,
        };
        assert(start_line(input).value == dt_text(xs));
        assert(start_line(input).params.len() == 0);
        assert(end_line(input).params.len() == 0);
        assert forall|
            cal_id: Seq<char>,
            href: Seq<char>,
            etag: Seq<char>,
            l1: (i32, u32, u32, u32, u32, u32, u32),
            l2: (i32, u32, u32, u32, u32, u32, u32),
        | {
            let e = #[trigger] event_of(cal.children[0], cal_id, href, etag, l1, l2);
            &&& !e.all_day
            &&& e.start == shown_time(start_line(input).value)
            &&& e.end == Some(shown_time(end_line(input).value))
        } by {
            lemma_timed_line_shows(start_line(input), xs, l1);
            lemma_timed_line_shows(end_line(input), end_time(input), l2);
        }
    }
}



// ---------------------------------------------------------------------------
// Editing a stored event
// ---------------------------------------------------------------------------

proof fn lemma_first_child_same_names(a: Seq<CompV>, b: Seq<CompV>, n: Seq<char>, from: int)
    requires
        a.len() == b.len(),
        forall|k: int| 0 <= k < a.len() ==> (#[trigger] a[k]).name == b[k].name,
    ensures
        first_child(a, n, from) == first_child(b, n, from),
    decreases a.len() - from,
{
    if 0 <= from < a.len() {
        lemma_first_child_same_names(a, b, n, from + 1);
    }
}

proof fn lemma_first_master_same(a: Seq<CompV>, b: Seq<CompV>, from: int)
    requires
        a.len() == b.len(),
        forall|k: int| 0 <= k < a.len() ==> (#[trigger] a[k]).name == b[k].name,
        forall|k: int|
            0 <= k < a.len() ==> (first_line((#[trigger] a[k]).lines, kw("RECURRENCE-ID"), 0) is None <==> first_line(
                b[k].lines,
                kw("RECURRENCE-ID"),
                0,
            ) is None),
    ensures
        first_master(a, from) == first_master(b, from),
    decreases a.len() - from,
{
    if 0 <= from < a.len() {
        lemma_first_master_same(a, b, from + 1);
    }
}

proof fn lemma_i64_text_lacks(v: int)
    ensures
        lacks_char(i64_text(v), '\n'),
{
    if v < 0 {
        lemma_digits_lacks((-v) as nat);
        lemma_lacks_cat(seq!['-'], digits((-v) as nat));
    } else {
        lemma_digits_lacks(v as nat);
    }
}

/// Editing a stored event changes the document losslessly: the edited text
/// parses back to the document with only that event changed, the event
/// found in it is the edited one, it keeps every line the editor does not
/// manage (RRULE, ATTENDEE, X-…) and every nested component (VALARM), and it
/// shows the new summary, description and location. Stated for documents
/// whose every parsed line reads back as itself (`comps_ok`), with time
/// stamps free of line feeds.
pub proof fn law_edit_document_keeps_unmanaged(
    ics: Seq<char>,
    input: EventInputV,
    stamp: Seq<char>,
    modified: Seq<char>,
    l: LineV,
)
    requires
        comps_ok(parse_spec(ics)),
        lacks_char(stamp, '\n'),
        lacks_char(modified, '\n'),
        event_in(ics) matches Some(ev) && ev.lines.contains(l),
        !managed_event_name(l.name),
    ensures
        apply_edit_spec(ics, input, stamp, modified) matches Some(t) && event_in(t) matches Some(ev2) && event_in(
            ics,
        ) matches Some(ev) && ev2 == edited_event(ev, input, stamp, modified) && ev2.lines.contains(l)
            && ev2.children == ev.children && ev2.name == ev.name
            && or_default(map_unescape(value_of(ev2, kw("SUMMARY")))) == without_cr(trim_ws(input.summary))
            && non_empty(map_unescape(value_of(ev2, kw("DESCRIPTION")))) == shown(input.description)
            && non_empty(map_unescape(value_of(ev2, kw("LOCATION")))) == shown(input.location),
{
    reveal_strlit("VCALENDAR");
    reveal_strlit("VEVENT");
    reveal_strlit("SEQUENCE");
    reveal_strlit("DTSTAMP");
    reveal_strlit("LAST-MODIFIED");
    reveal_strlit("RECURRENCE-ID");
    reveal_strlit("SUMMARY");
    reveal_strlit("DESCRIPTION");
    reveal_strlit("LOCATION");
    reveal_strlit("DTSTART");
    reveal_strlit("DTEND");
    let roots = parse_spec(ics);
    let vname = kw("VCALENDAR");
    let i = match first_child(roots, vname, 0) {
        Some(i) => i,
        None => 0,
    };
    lemma_first_child(roots, vname, 0);
    let vcal = roots[i];
    let j = match event_index(vcal.children) {
        Some(j) => j,
        None => 0,
    };
    lemma_first_master(vcal.children, 0);
    lemma_first_child(vcal.children, kw("VEVENT"), 0);
    assert(0 <= j < vcal.children.len());
    let ev = vcal.children[j];
    assert(event_in(ics) == Some(ev));
    let ev2 = edited_event(ev, input, stamp, modified);
    let children2 = vcal.children.update(j, ev2);
    let vcal2 = CompV { children: children2, ..vcal };
    let roots2 = roots.update(i, vcal2);
    assert(apply_edit_spec(ics, input, stamp, modified) == Some(ser_comps(roots2)));

    // The edited event reads back.
    lemma_comps_ok_all(roots);
    assert(node_ok(roots[i]));
    lemma_comps_ok_all(vcal.children);
    assert(node_ok(ev));
    let l1 = plain(kw("SEQUENCE"), i64_text(sequence_of(ev) + 1));
    let e1 = set_spec(ev, l1);
    let l2 = plain(kw("DTSTAMP"), stamp);
    let e2 = set_spec(e1, l2);
    let l3 = plain(kw("LAST-MODIFIED"), modified);
    let e3 = set_spec(e2, l3);
    assert(ev2 == apply_input_spec(e3, input));
    assert(caps(kw("SEQUENCE")));
    assert(caps(kw("DTSTAMP")));
    assert(caps(kw("LAST-MODIFIED")));
    lemma_ne_ic(kw("SEQUENCE"), begin_kw());
    lemma_ne_ic(kw("SEQUENCE"), end_kw());
    lemma_ne_ic(kw("DTSTAMP"), begin_kw());
    lemma_ne_ic(kw("DTSTAMP"), end_kw());
    lemma_ne_ic(kw("LAST-MODIFIED"), begin_kw());
    lemma_ne_ic(kw("LAST-MODIFIED"), end_kw());
    lemma_i64_text_lacks(sequence_of(ev) + 1);
    lemma_written_line_ok(l1);
    lemma_written_line_ok(l2);
    lemma_written_line_ok(l3);
    lemma_set_line_ok(ev.lines, l1);
    lemma_set_line_ok(e1.lines, l2);
    lemma_set_line_ok(e2.lines, l3);
    lemma_input_lines_ok(e3, input);
    assert(node_ok(ev2));

    // So does the whole document.
    assert forall|k: int| 0 <= k < children2.len() implies node_ok(#[trigger] children2[k]) by {
        if k != j {
            assert(children2[k] == vcal.children[k]);
        }
    }
    lemma_comps_ok_all(children2);
    assert(node_ok(vcal2));
    assert forall|k: int| 0 <= k < roots2.len() implies node_ok(#[trigger] roots2[k]) by {
        if k != i {
            assert(roots2[k] == roots[k]);
        }
    }
    lemma_comps_ok_all(roots2);
    law_parse_serialize(roots2);

    // The edited event is the one found in the new text.
    assert forall|k: int| 0 <= k < roots2.len() implies (#[trigger] roots2[k]).name == roots[k].name by {
        if k != i {
            assert(roots2[k] == roots[k]);
        }
    }
    lemma_first_child_same_names(roots2, roots, vname, 0);
    let rid = kw("RECURRENCE-ID");
    lemma_ne_ic(kw("SEQUENCE"), rid);
    lemma_ne_ic(kw("DTSTAMP"), rid);
    lemma_ne_ic(kw("LAST-MODIFIED"), rid);
    lemma_ne_ic(kw("SUMMARY"), rid);
    lemma_ne_ic(kw("DESCRIPTION"), rid);
    lemma_ne_ic(kw("LOCATION"), rid);
    lemma_ne_ic(kw("DTSTART"), rid);
    lemma_ne_ic(kw("DTEND"), rid);
    lemma_named_set_other(ev.lines, l1, rid);
    lemma_named_set_other(e1.lines, l2, rid);
    lemma_named_set_other(e2.lines, l3, rid);
    lemma_named_input_other(e3, input, rid);
    assert(named(ev2.lines, rid) == named(ev.lines, rid));
    assert forall|k: int| 0 <= k < children2.len() implies (#[trigger] children2[k]).name == vcal.children[k].name
        && (first_line(children2[k].lines, rid, 0) is None <==> first_line(vcal.children[k].lines, rid, 0) is None) by {
        if k != j {
            assert(children2[k] == vcal.children[k]);
        }
    }
    lemma_first_master_same(children2, vcal.children, 0);
    lemma_first_child_same_names(children2, vcal.children, kw("VEVENT"), 0);
    assert(event_index(children2) == Some(j));
    assert(event_in(ser_comps(roots2)) == Some(ev2));

    law_event_edit_keeps_unmanaged(ev, input, stamp, modified, l);
    lemma_input_shown(e3, input);
}


// ---------------------------------------------------------------------------
// Editing a stored contact
// ---------------------------------------------------------------------------

/// A label that can stand in a `TYPE` parameter and read back.
pub open spec fn label_safe(s: Seq<char>) -> bool {
    forall|k: int| 0 <= k < s.len() ==> #[trigger] s[k] != '"' && s[k] != ':' && s[k] != '\n'
}

/// Every entry that is written (its value is not blank) has a safe label.
pub open spec fn labels_safe(tvs: Seq<TypedV>) -> bool {
    forall|i: int| 0 <= i < tvs.len() ==> (trim_ws((#[trigger] tvs[i]).value).len() > 0 ==> label_safe(tvs[i].label))
}

proof fn lemma_trim_start_safe(s: Seq<char>)
    requires
        label_safe(s),
    ensures
        label_safe(trim_start_ws(s)),
    decreases s.len(),
{
    if s.len() > 0 && is_ws(s[0]) {
        assert forall|k: int| 0 <= k < s.drop_first().len() implies #[trigger] s.drop_first()[k] != '"'
            && s.drop_first()[k] != ':' && s.drop_first()[k] != '\n' by {
            assert(s.drop_first()[k] == s[k + 1]);
        }
        lemma_trim_start_safe(s.drop_first());
    }
}

proof fn lemma_trim_end_safe(s: Seq<char>)
    requires
        label_safe(s),
    ensures
        label_safe(trim_end_ws(s)),
    decreases s.len(),
{
    if s.len() > 0 && is_ws(s.last()) {
        assert forall|k: int| 0 <= k < s.drop_last().len() implies #[trigger] s.drop_last()[k] != '"'
            && s.drop_last()[k] != ':' && s.drop_last()[k] != '\n' by {
            assert(s.drop_last()[k] == s[k]);
        }
        lemma_trim_end_safe(s.drop_last());
    }
}

proof fn lemma_typed_line_ok(name: Seq<char>, label: Seq<char>, value: Seq<char>)
    requires
        caps(name),
        !eq_ic(name, begin_kw()),
        !eq_ic(name, end_kw()),
        label_safe(label),
    ensures
        line_ok(typed_line_spec(name, label, value)),
{
    reveal_strlit(";TYPE=");
    let l = typed_line_spec(name, label, value);
    let lab = trim_ws(label);
    lemma_trim_start_safe(label);
    lemma_trim_end_safe(trim_start_ws(label));
    lemma_escape_lacks(trim_ws(value));
    assert(l.name[0] != ' ' && l.name[0] != '\t') by {
        assert('A' <= l.name[0] <= 'Z' || l.name[0] == '-');
    }
    assert forall|k: int| 0 <= k < l.name.len() implies l.name[k] != '"' && l.name[k] != ';' && l.name[k] != ':' by {
        assert('A' <= l.name[k] <= 'Z' || l.name[k] == '-');
    }
    assert(lacks_char(l.name, '\n')) by {
        assert forall|k: int| 0 <= k < l.name.len() implies l.name[k] != '\n' by {
            assert('A' <= l.name[k] <= 'Z' || l.name[k] == '-');
        }
    }
    if lab.len() > 0 {
        let p = kw(";TYPE=") + upper_seq(lab);
        assert forall|k: int| 0 <= k < p.len() implies p[k] != '"' && p[k] != ':' && p[k] != '\n' by {
            if k >= 6 {
                assert(p[k] == upper(lab[k - 6]));
                assert(lab[k - 6] != '"' && lab[k - 6] != ':' && lab[k - 6] != '\n');
            }
        }
        assert forall|k: int| 0 <= k < p.drop_first().len() implies p.drop_first()[k] != '"' && p.drop_first()[k]
            != ':' by {
            assert(p.drop_first()[k] == p[k + 1]);
        }
        lemma_quiet_plain(p.drop_first());
        assert(l.params == p);
    }
    assert(simple_line(l));
    lemma_simple_line_ok(l);
}

proof fn lemma_push_typed_ok(ls: Seq<LineV>, name: Seq<char>, tvs: Seq<TypedV>)
    requires
        lines_ok(ls),
        caps(name),
        !eq_ic(name, begin_kw()),
        !eq_ic(name, end_kw()),
        labels_safe(tvs),
    ensures
        lines_ok(push_typed(ls, name, tvs)),
    decreases tvs.len(),
{
    if tvs.len() > 0 {
        let d = tvs.drop_last();
        assert(labels_safe(d)) by {
            assert forall|i: int| 0 <= i < d.len() implies (trim_ws((#[trigger] d[i]).value).len() > 0 ==> label_safe(
                d[i].label,
            )) by {
                assert(d[i] == tvs[i]);
            }
        }
        lemma_push_typed_ok(ls, name, d);
        let r = push_typed(ls, name, d);
        let t = tvs.last();
        if trim_ws(t.value).len() > 0 {
            assert(tvs[tvs.len() - 1] == t);
            lemma_typed_line_ok(name, t.label, t.value);
            let r2 = r.push(typed_line_spec(name, t.label, t.value));
            assert forall|i: int| 0 <= i < r2.len() implies line_ok(#[trigger] r2[i]) by {
                if i < r.len() {
                    assert(r2[i] == r[i]);
                }
            }
        }
    }
}

/// Editing a stored contact changes the document losslessly: the edited
/// text parses back to the document with only that contact changed, the
/// contact found in it is the edited one, and it keeps every line the editor
/// does not manage (PHOTO, ADR, X-…) and every nested component. Stated for
/// documents whose every parsed line reads back as itself (`comps_ok`), a
/// revision stamp free of line feeds, and labels of the written emails and
/// phones free of quotes, colons and line feeds.
pub proof fn law_edit_card_document_keeps_unmanaged(vcf: Seq<char>, input: ContactInputV, rev: Seq<char>, l: LineV)
    requires
        comps_ok(parse_spec(vcf)),
        lacks_char(rev, '\n'),
        labels_safe(input.emails),
        labels_safe(input.phones),
        first_child(parse_spec(vcf), kw("VCARD"), 0) matches Some(i) && parse_spec(vcf)[i].lines.contains(l),
        !managed_card_name(l.name),
    ensures
        crate::vcard::apply_edit_spec(vcf, input, rev) matches Some(t) && first_child(parse_spec(vcf), kw("VCARD"), 0)
            matches Some(i) && first_child(parse_spec(t), kw("VCARD"), 0) == Some(i) && parse_spec(t)[i] == set_spec(
            crate::vcard::apply_input_spec(parse_spec(vcf)[i], input),
            plain(kw("REV"), rev),
        ) && parse_spec(t)[i].lines.contains(l) && parse_spec(t)[i].children == parse_spec(vcf)[i].children,
{
    reveal_strlit("VCARD");
    reveal_strlit("FN");
    reveal_strlit("N");
    reveal_strlit("EMAIL");
    reveal_strlit("TEL");
    reveal_strlit("ORG");
    reveal_strlit("TITLE");
    reveal_strlit("NOTE");
    reveal_strlit("REV");
    let roots = parse_spec(vcf);
    let i = match first_child(roots, kw("VCARD"), 0) {
        Some(i) => i,
        None => 0,
    };
    lemma_first_child(roots, kw("VCARD"), 0);
    let card = roots[i];
    let edited = set_spec(crate::vcard::apply_input_spec(card, input), plain(kw("REV"), rev));
    let roots2 = roots.update(i, edited);
    assert(crate::vcard::apply_edit_spec(vcf, input, rev) == Some(ser_comps(roots2)));

    // The written lines read back.
    lemma_comps_ok_all(roots);
    assert(node_ok(card));
    let f = trim_ws(input.full_name);
    let l_fn = plain(kw("FN"), escape_spec(f));
    let c1 = set_spec(card, l_fn);
    let l_n = plain(kw("N"), structured_name_spec(f));
    let c2 = set_spec(c1, l_n);
    let c3 = CompV { lines: remove_named(remove_named(c2.lines, kw("EMAIL")), kw("TEL")), ..c2 };
    let c4 = CompV {
        lines: push_typed(push_typed(c3.lines, kw("EMAIL"), input.emails), kw("TEL"), input.phones),
        ..c3
    };
    let c5 = set_or_remove_spec(c4, kw("ORG"), input.org);
    let c6 = set_or_remove_spec(c5, kw("TITLE"), input.title);
    let c7 = set_or_remove_spec(c6, kw("NOTE"), input.note);
    assert(c7 == crate::vcard::apply_input_spec(card, input));
    assert(caps(kw("FN")));
    assert(caps(kw("N")));
    assert(caps(kw("EMAIL")));
    assert(caps(kw("TEL")));
    assert(caps(kw("ORG")));
    assert(caps(kw("TITLE")));
    assert(caps(kw("NOTE")));
    assert(caps(kw("REV")));
    lemma_ne_ic(kw("FN"), begin_kw());
    lemma_ne_ic(kw("FN"), end_kw());
    lemma_ne_ic(kw("N"), begin_kw());
    lemma_ne_ic(kw("N"), end_kw());
    lemma_ne_ic(kw("EMAIL"), begin_kw());
    lemma_ne_ic(kw("EMAIL"), end_kw());
    lemma_ne_ic(kw("TEL"), begin_kw());
    lemma_ne_ic(kw("TEL"), end_kw());
    lemma_ne_ic(kw("ORG"), begin_kw());
    lemma_ne_ic(kw("ORG"), end_kw());
    lemma_ne_ic(kw("TITLE"), begin_kw());
    lemma_ne_ic(kw("TITLE"), end_kw());
    lemma_ne_ic(kw("NOTE"), begin_kw());
    lemma_ne_ic(kw("NOTE"), end_kw());
    lemma_ne_ic(kw("REV"), begin_kw());
    lemma_ne_ic(kw("REV"), end_kw());
    lemma_escape_lacks(f);
    lemma_written_line_ok(l_fn);
    lemma_set_line_ok(card.lines, l_fn);
    assert(lacks_char(structured_name_spec(f), '\n')) by {
        let g = trim_ws(f);
        match crate::vcard::last_index(g, ' ') {
            Some(k) => {
                lemma_escape_lacks(g.skip(k + 1));
                lemma_escape_lacks(g.take(k));
                lemma_lacks_cat(escape_spec(g.skip(k + 1)), seq![';']);
                lemma_lacks_cat(escape_spec(g.skip(k + 1)) + seq![';'], escape_spec(g.take(k)));
                lemma_lacks_cat(escape_spec(g.skip(k + 1)) + seq![';'] + escape_spec(g.take(k)), seq![';', ';', ';']);
            },
            None => {
                lemma_escape_lacks(g);
                lemma_lacks_cat(seq![';'], escape_spec(g));
                lemma_lacks_cat(seq![';'] + escape_spec(g), seq![';', ';', ';']);
            },
        }
    }
    lemma_written_line_ok(l_n);
    lemma_set_line_ok(c1.lines, l_n);
    lemma_remove_named_ok(c2.lines, kw("EMAIL"));
    lemma_remove_named_ok(remove_named(c2.lines, kw("EMAIL")), kw("TEL"));
    lemma_push_typed_ok(c3.lines, kw("EMAIL"), input.emails);
    lemma_push_typed_ok(push_typed(c3.lines, kw("EMAIL"), input.emails), kw("TEL"), input.phones);
    lemma_sor_ok(c4, kw("ORG"), input.org);
    lemma_sor_ok(c5, kw("TITLE"), input.title);
    lemma_sor_ok(c6, kw("NOTE"), input.note);
    let l_rev = plain(kw("REV"), rev);
    lemma_written_line_ok(l_rev);
    lemma_set_line_ok(c7.lines, l_rev);
    assert(node_ok(edited));

    // So does the whole document, and the edited contact is found again.
    assert forall|k: int| 0 <= k < roots2.len() implies node_ok(#[trigger] roots2[k]) by {
        if k != i {
            assert(roots2[k] == roots[k]);
        }
    }
    lemma_comps_ok_all(roots2);
    law_parse_serialize(roots2);
    assert forall|k: int| 0 <= k < roots2.len() implies (#[trigger] roots2[k]).name == roots[k].name by {
        if k != i {
            assert(roots2[k] == roots[k]);
        }
    }
    lemma_first_child_same_names(roots2, roots, kw("VCARD"), 0);
    law_card_edit_keeps_unmanaged(card, input, rev, l);
}


// ---------------------------------------------------------------------------
// A new contact
// ---------------------------------------------------------------------------

/// The emails or phones a contact shows after they are written: every entry
/// with a non-blank value, its label trimmed and lower-cased and its value
/// trimmed without carriage returns, in order.
pub open spec fn written_typed(tvs: Seq<TypedV>) -> Seq<TypedV>
    decreases tvs.len(),
{
    if tvs.len() == 0 {
        Seq::empty()
    } else {
        let r = written_typed(tvs.drop_last());
        let t = tvs.last();
        if trim_ws(t.value).len() == 0 {
            r
        } else {
            r.push(TypedV { label: lower_seq(trim_ws(t.label)), value: without_cr(trim_ws(t.value)) })
        }
    }
}

/// A label that reads back from a `TYPE` parameter: no quote, colon,
/// semicolon or line feed.
pub open spec fn label_plain(s: Seq<char>) -> bool {
    &&& label_safe(s)
    &&& forall|k: int| 0 <= k < s.len() ==> #[trigger] s[k] != ';'
}

/// Every entry that is written has a label that reads back.
pub open spec fn labels_plain(tvs: Seq<TypedV>) -> bool {
    forall|i: int| 0 <= i < tvs.len() ==> (trim_ws((#[trigger] tvs[i]).value).len() > 0 ==> label_plain(tvs[i].label))
}

proof fn lemma_tv_update(ls: Seq<LineV>, i: int, l: LineV, n: Seq<char>)
    requires
        0 <= i < ls.len(),
        !eq_ic(ls[i].name, n),
        !eq_ic(l.name, n),
    ensures
        typed_values_spec(ls.update(i, l), n) == typed_values_spec(ls, n),
    decreases ls.len(),
{
    let u = ls.update(i, l);
    if i == ls.len() - 1 {
        assert(u.drop_last() =~= ls.drop_last());
    } else {
        lemma_tv_update(ls.drop_last(), i, l, n);
        assert(u.drop_last() =~= ls.drop_last().update(i, l));
        assert(u.last() == ls.last());
    }
}

proof fn lemma_tv_push_other(ls: Seq<LineV>, l: LineV, n: Seq<char>)
    requires
        !eq_ic(l.name, n),
    ensures
        typed_values_spec(ls.push(l), n) == typed_values_spec(ls, n),
{
    assert(ls.push(l).drop_last() =~= ls);
}

proof fn lemma_tv_set_other(ls: Seq<LineV>, l: LineV, n: Seq<char>)
    requires
        !eq_ic(l.name, n),
    ensures
        typed_values_spec(set_line(ls, l), n) == typed_values_spec(ls, n),
{
    crate::contentline::lemma_first_line(ls, l.name, 0);
    match first_line(ls, l.name, 0) {
        Some(i) => lemma_tv_update(ls, i, l, n),
        None => lemma_tv_push_other(ls, l, n),
    }
}

proof fn lemma_tv_remove_other(ls: Seq<LineV>, m: Seq<char>, n: Seq<char>)
    requires
        !eq_ic(m, n),
    ensures
        typed_values_spec(remove_named(ls, m), n) == typed_values_spec(ls, n),
    decreases ls.len(),
{
    if ls.len() > 0 {
        let d = ls.drop_last();
        let y = ls.last();
        lemma_tv_remove_other(d, m, n);
        let r = remove_named(d, m);
        if !eq_ic(y.name, m) {
            assert(r.push(y).drop_last() =~= r);
        }
    } else {
        assert(remove_named(ls, m) =~= Seq::<LineV>::empty());
    }
}

proof fn lemma_tv_remove_same(ls: Seq<LineV>, n: Seq<char>)
    ensures
        typed_values_spec(remove_named(ls, n), n) == Seq::<TypedV>::empty(),
    decreases ls.len(),
{
    if ls.len() > 0 {
        let d = ls.drop_last();
        let y = ls.last();
        lemma_tv_remove_same(d, n);
        let r = remove_named(d, n);
        if !eq_ic(y.name, n) {
            assert(r.push(y).drop_last() =~= r);
        }
    } else {
        assert(remove_named(ls, n) =~= Seq::<LineV>::empty());
    }
}

proof fn lemma_tv_sor_other(c: CompV, name: Seq<char>, value: Option<Seq<char>>, n: Seq<char>)
    requires
        !eq_ic(name, n),
    ensures
        typed_values_spec(set_or_remove_spec(c, name, value).lines, n) == typed_values_spec(c.lines, n),
{
    match value {
        Some(v) => if trim_ws(v).len() > 0 {
            lemma_tv_set_other(c.lines, LineV { name, params: Seq::empty(), value: escape_spec(trim_ws(v)) }, n);
        } else {
            lemma_tv_remove_other(c.lines, name, n);
        },
        None => lemma_tv_remove_other(c.lines, name, n),
    }
}

proof fn lemma_tv_push_typed_other(ls: Seq<LineV>, name: Seq<char>, tvs: Seq<TypedV>, n: Seq<char>)
    requires
        !eq_ic(name, n),
    ensures
        typed_values_spec(push_typed(ls, name, tvs), n) == typed_values_spec(ls, n),
    decreases tvs.len(),
{
    if tvs.len() > 0 {
        lemma_tv_push_typed_other(ls, name, tvs.drop_last(), n);
        let r = push_typed(ls, name, tvs.drop_last());
        let t = tvs.last();
        if trim_ws(t.value).len() > 0 {
            lemma_tv_push_other(r, typed_line_spec(name, t.label, t.value), n);
        }
    }
}

proof fn lemma_named_push_typed_other(ls: Seq<LineV>, name: Seq<char>, tvs: Seq<TypedV>, n: Seq<char>)
    requires
        !eq_ic(name, n),
    ensures
        named(push_typed(ls, name, tvs), n) == named(ls, n),
    decreases tvs.len(),
{
    if tvs.len() > 0 {
        lemma_named_push_typed_other(ls, name, tvs.drop_last(), n);
        let r = push_typed(ls, name, tvs.drop_last());
        let t = tvs.last();
        if trim_ws(t.value).len() > 0 {
            crate::lookup::lemma_named_push(r, typed_line_spec(name, t.label, t.value), n);
        }
    }
}

proof fn lemma_trimmed_tail(v: Seq<char>)
    ensures
        trim_ws(v).len() > 0 ==> !is_ws(trim_ws(v).last()),
{
    lemma_trim_end_tail(trim_start_ws(v));
}

proof fn lemma_trim_end_tail(s: Seq<char>)
    ensures
        trim_end_ws(s).len() > 0 ==> !is_ws(trim_end_ws(s).last()),
    decreases s.len(),
{
    if s.len() > 0 && is_ws(s.last()) {
        lemma_trim_end_tail(s.drop_last());
    }
}

proof fn lemma_find_char(s: Seq<char>, c: char, from: int, i: int)
    requires
        0 <= from <= i < s.len(),
        s[i] == c,
        forall|k: int| from <= k < i ==> s[k] != c,
    ensures
        find_from(s, seq![c], from) == Some(i),
    decreases i - from,
{
    assert(s.subrange(from, from + 1) =~= seq![s[from]]);
    if from < i {
        assert(seq![s[from]][0] != seq![c][0]);
        assert(!crate::text::occurs_at(s, seq![c], from));
        lemma_find_char(s, c, from + 1, i);
    } else {
        assert(seq![s[from]] =~= seq![c]);
        assert(crate::text::occurs_at(s, seq![c], from));
    }
}

/// The label read back from a written `TYPE` parameter is the trimmed label,
/// lower-cased.
proof fn lemma_type_label(name: Seq<char>, label: Seq<char>, value: Seq<char>)
    requires
        label_plain(label),
    ensures
        lower_seq(or_default(param_spec(typed_line_spec(name, label, value).params, kw("TYPE")))) == lower_seq(
            trim_ws(label),
        ),
{
    reveal_strlit(";TYPE=");
    reveal_strlit("TYPE");
    let lab = trim_ws(label);
    lemma_trim_start_safe(label);
    lemma_trim_end_safe(trim_start_ws(label));
    assert forall|k: int| 0 <= k < lab.len() implies lab[k] != ';' by {
        lemma_trim_is_slice(label, k);
    }
    let params = typed_line_spec(name, label, value).params;
    if lab.len() == 0 {
        assert(params =~= Seq::<char>::empty());
        assert(split_c(params, ';') =~= seq![Seq::<char>::empty()]);
        let parts = split_c(params, ';');
        assert(trim_ws(parts[0]) =~= Seq::<char>::empty());
        assert(param_from(parts, 1, kw("TYPE")) is None);
        assert(lower_seq(Seq::<char>::empty()) =~= lower_seq(lab));
    } else {
        let u = upper_seq(lab);
        let part = kw("TYPE=") + u;
        reveal_strlit("TYPE=");
        assert(params =~= Seq::<char>::empty() + seq![';'] + part);
        assert forall|k: int| 0 <= k < part.len() implies part[k] != ';' by {
            if k >= 5 {
                assert(part[k] == upper(lab[k - 5]));
            }
        }
        lemma_split_c_single(part, ';');
        lemma_split_c_after(Seq::<char>::empty(), part, ';');
        let parts = split_c(params, ';');
        assert(parts =~= seq![Seq::<char>::empty(), part]);
        assert(trim_ws(parts[0]) =~= Seq::<char>::empty());
        // The piece is already trimmed.
        lemma_trimmed_head(label);
        lemma_trimmed_tail(label);
        assert(part[0] == 'T');
        assert(part.last() == upper(lab.last()));
        assert(!is_ws(part.last()));
        assert(trim_start_ws(part) == part);
        assert(trim_end_ws(part) == part);
        assert(trim_ws(part) == part);
        assert(trim_ws(parts[1]) == part);
        lemma_find_char(part, '=', 0, 4);
        assert(part.take(4) =~= kw("TYPE"));
        assert(trim_ws(kw("TYPE")) == kw("TYPE"));
        assert(part.skip(5) =~= u);
        assert(u[0] == upper(lab[0]));
        assert(!is_ws(u[0]));
        assert(u.last() == upper(lab.last()));
        assert(trim_ws(u) == u);
        assert(u[0] != '"');
        assert(u.last() != '"');
        assert(trim_start_c(u, '"') == u);
        assert(trim_end_c(u, '"') == u);
        assert(param_from(parts, 1, kw("TYPE")) == Some(u));
        assert(param_from(parts, 0, kw("TYPE")) == param_from(parts, 1, kw("TYPE")));
        assert(lower_seq(u) =~= lower_seq(lab));
    }
}

proof fn lemma_trim_is_slice(s: Seq<char>, k: int)
    requires
        0 <= k < trim_ws(s).len(),
    ensures
        exists|j: int| 0 <= j < s.len() && s[j] == trim_ws(s)[k],
{
    lemma_trim_start_slice(s);
    lemma_trim_end_slice(trim_start_ws(s));
    let a = trim_start_ws(s);
    let j = (s.len() - a.len()) + k;
    assert(s[j] == a[k]);
}

proof fn lemma_trim_start_slice(s: Seq<char>)
    ensures
        trim_start_ws(s) == s.skip(s.len() - trim_start_ws(s).len()),
        trim_start_ws(s).len() <= s.len(),
    decreases s.len(),
{
    if s.len() > 0 && is_ws(s[0]) {
        lemma_trim_start_slice(s.drop_first());
        assert(s.drop_first().skip(s.drop_first().len() - trim_start_ws(s).len()) =~= s.skip(s.len() - trim_start_ws(
            s,
        ).len()));
    } else {
        assert(s.skip(0) =~= s);
    }
}

proof fn lemma_trim_end_slice(s: Seq<char>)
    ensures
        trim_end_ws(s) == s.take(trim_end_ws(s).len() as int),
        trim_end_ws(s).len() <= s.len(),
    decreases s.len(),
{
    if s.len() > 0 && is_ws(s.last()) {
        lemma_trim_end_slice(s.drop_last());
        assert(s.drop_last().take(trim_end_ws(s).len() as int) =~= s.take(trim_end_ws(s).len() as int));
    } else {
        assert(s.take(s.len() as int) =~= s);
    }
}

/// Writing typed entries under `name` adds, to what is read back under that
/// name, exactly the written entries.
proof fn lemma_tv_push_typed_same(ls: Seq<LineV>, name: Seq<char>, tvs: Seq<TypedV>)
    requires
        labels_plain(tvs),
    ensures
        typed_values_spec(push_typed(ls, name, tvs), name) == typed_values_spec(ls, name) + written_typed(tvs),
    decreases tvs.len(),
{
    if tvs.len() == 0 {
        assert(typed_values_spec(ls, name) + Seq::<TypedV>::empty() =~= typed_values_spec(ls, name));
    } else {
        let d = tvs.drop_last();
        assert(labels_plain(d)) by {
            assert forall|i: int| 0 <= i < d.len() implies (trim_ws((#[trigger] d[i]).value).len() > 0 ==> label_plain(
                d[i].label,
            )) by {
                assert(d[i] == tvs[i]);
            }
        }
        lemma_tv_push_typed_same(ls, name, d);
        let r = push_typed(ls, name, d);
        let t = tvs.last();
        assert(tvs[tvs.len() - 1] == t);
        if trim_ws(t.value).len() > 0 {
            let l = typed_line_spec(name, t.label, t.value);
            assert(r.push(l).drop_last() =~= r);
            assert(r.push(l).last() == l);
            let v = trim_ws(t.value);
            law_unescape_escape(v);
            lemma_trimmed_head(t.value);
            assert(v[0] != '\r');
            assert(without_cr(v) == seq![v[0]] + without_cr(v.drop_first()));
            assert(unescape_spec(l.value).len() > 0);
            lemma_type_label(name, t.label, t.value);
            assert(eq_ic(name, name));
            let x = TypedV { label: lower_seq(trim_ws(t.label)), value: without_cr(v) };
            assert(typed_values_spec(ls, name) + written_typed(d).push(x) =~= (typed_values_spec(ls, name)
                + written_typed(d)).push(x));
        }
    }
}

proof fn lemma_labels_plain_safe(tvs: Seq<TypedV>)
    requires
        labels_plain(tvs),
    ensures
        labels_safe(tvs),
{
    assert forall|i: int| 0 <= i < tvs.len() implies (trim_ws((#[trigger] tvs[i]).value).len() > 0 ==> label_safe(
        tvs[i].label,
    )) by {}
}

proof fn lemma_escape_lacks_semi(s: Seq<char>)
    requires
        lacks_char(s, ';'),
    ensures
        lacks_char(escape_spec(s), ';'),
    decreases s.len(),
{
    if s.len() > 0 {
        let t = s.drop_first();
        assert(lacks_char(t, ';')) by {
            assert forall|k: int| 0 <= k < t.len() implies t[k] != ';' by {
                assert(t[k] == s[k + 1]);
            }
        }
        lemma_escape_lacks_semi(t);
        let a = esc_char(s[0]);
        assert(lacks_char(a, ';'));
        let e = escape_spec(t);
        assert(escape_spec(s) == a + e);
        assert forall|k: int| 0 <= k < (a + e).len() implies (a + e)[k] != ';' by {
            if k < a.len() {
                assert((a + e)[k] == a[k]);
            } else {
                assert((a + e)[k] == e[k - a.len()]);
            }
        }
    } else {
        assert(escape_spec(s) =~= Seq::<char>::empty());
    }
}

proof fn lemma_replace_semis_plain(s: Seq<char>)
    requires
        lacks_char(s, ';'),
    ensures
        replace_semis(s) == s,
    decreases s.len(),
{
    if s.len() > 0 {
        let d = s.drop_last();
        assert(lacks_char(d, ';')) by {
            assert forall|k: int| 0 <= k < d.len() implies d[k] != ';' by {
                assert(d[k] == s[k]);
            }
        }
        lemma_replace_semis_plain(d);
        assert(s.last() == s[s.len() - 1]);
        assert(d + seq![s.last()] =~= s);
    } else {
        assert(replace_semis(s) =~= s);
    }
}

proof fn lemma_without_cr_last(t: Seq<char>)
    requires
        t.len() > 0,
        t.last() != '\r',
    ensures
        without_cr(t).len() > 0,
        without_cr(t).last() == t.last(),
    decreases t.len(),
{
    if t.len() == 1 {
        assert(t.drop_first() =~= Seq::<char>::empty());
        assert(t[0] == t.last());
        assert(without_cr(t.drop_first()) =~= Seq::<char>::empty());
        assert(without_cr(t) == seq![t[0]] + without_cr(t.drop_first()));
        assert(without_cr(t) =~= seq![t[0]]);
    } else {
        let d = t.drop_first();
        assert(d.last() == t.last());
        lemma_without_cr_last(d);
        let w = without_cr(d);
        if t[0] != '\r' {
            assert(without_cr(t) == seq![t[0]] + w);
            assert((seq![t[0]] + w).last() == w.last());
        } else {
            assert(without_cr(t) == w);
        }
    }
}

/// A trimmed text without carriage returns is still trimmed.
proof fn lemma_trim_without_cr(v: Seq<char>)
    requires
        trim_ws(v).len() > 0,
    ensures
        trim_ws(without_cr(trim_ws(v))) == without_cr(trim_ws(v)),
        without_cr(trim_ws(v)).len() > 0,
{
    let t = trim_ws(v);
    lemma_trimmed_head(v);
    lemma_trimmed_tail(v);
    assert(t[0] != '\r');
    assert(t.last() != '\r');
    lemma_without_cr_last(t);
    let w = without_cr(t);
    assert(w == seq![t[0]] + without_cr(t.drop_first()));
    assert(w[0] == t[0]);
    assert(!is_ws(w[0]));
    assert(!is_ws(w.last()));
    assert(trim_start_ws(w) == w);
    assert(trim_end_ws(w) == w);
}

/// The organisation a contact shows after it is written with `org`.
proof fn lemma_org_shown(c: CompV, org: Option<Seq<char>>)
    requires
        org matches Some(o) ==> lacks_char(o, ';'),
    ensures
        org_spec(set_or_remove_spec(c, kw("ORG"), org)) == shown(org),
{
    let r = set_or_remove_spec(c, kw("ORG"), org);
    match org {
        Some(v) => if trim_ws(v).len() > 0 {
            let t = trim_ws(v);
            let l = LineV { name: kw("ORG"), params: Seq::empty(), value: escape_spec(t) };
            lemma_named_set_same(c.lines, l);
            assert(value_of(r, kw("ORG")) == Some(escape_spec(t)));
            assert(lacks_char(t, ';')) by {
                assert forall|k: int| 0 <= k < t.len() implies t[k] != ';' by {
                    lemma_trim_is_slice(v, k);
                }
            }
            lemma_escape_lacks_semi(t);
            lemma_replace_semis_plain(escape_spec(t));
            law_unescape_escape(t);
            lemma_trim_without_cr(v);
        } else {
            lemma_named_remove_same(c.lines, kw("ORG"));
        },
        None => lemma_named_remove_same(c.lines, kw("ORG")),
    }
}

/// Writing the editor's fields onto a card leaves the line found under any
/// other name as it was.
proof fn lemma_named_card_input_other(c: CompV, input: ContactInputV, n: Seq<char>)
    requires
        !eq_ic(kw("FN"), n),
        !eq_ic(kw("N"), n),
        !eq_ic(kw("EMAIL"), n),
        !eq_ic(kw("TEL"), n),
        !eq_ic(kw("ORG"), n),
        !eq_ic(kw("TITLE"), n),
        !eq_ic(kw("NOTE"), n),
    ensures
        named(crate::vcard::apply_input_spec(c, input).lines, n) == named(c.lines, n),
{
    let f = trim_ws(input.full_name);
    let c1 = set_spec(c, plain(kw("FN"), escape_spec(f)));
    let c2 = set_spec(c1, plain(kw("N"), structured_name_spec(f)));
    let c3 = CompV { lines: remove_named(remove_named(c2.lines, kw("EMAIL")), kw("TEL")), ..c2 };
    let c4 = CompV {
        lines: push_typed(push_typed(c3.lines, kw("EMAIL"), input.emails), kw("TEL"), input.phones),
        ..c3
    };
    let c5 = set_or_remove_spec(c4, kw("ORG"), input.org);
    let c6 = set_or_remove_spec(c5, kw("TITLE"), input.title);
    lemma_named_set_other(c.lines, plain(kw("FN"), escape_spec(f)), n);
    lemma_named_set_other(c1.lines, plain(kw("N"), structured_name_spec(f)), n);
    lemma_named_remove_other(c2.lines, kw("EMAIL"), n);
    lemma_named_remove_other(remove_named(c2.lines, kw("EMAIL")), kw("TEL"), n);
    lemma_named_push_typed_other(c3.lines, kw("EMAIL"), input.emails, n);
    lemma_named_push_typed_other(push_typed(c3.lines, kw("EMAIL"), input.emails), kw("TEL"), input.phones, n);
    lemma_named_sor_other(c4, kw("ORG"), input.org, n);
    lemma_named_sor_other(c5, kw("TITLE"), input.title, n);
    lemma_named_sor_other(c6, kw("NOTE"), input.note, n);
}

/// The card after its name lines are written: the emails and phones
/// replaced, the organisation, title and note written.
pub open spec fn card_tail(c: CompV, input: ContactInputV) -> CompV {
    let c3 = CompV { lines: remove_named(remove_named(c.lines, kw("EMAIL")), kw("TEL")), ..c };
    let c4 = CompV {
        lines: push_typed(push_typed(c3.lines, kw("EMAIL"), input.emails), kw("TEL"), input.phones),
        ..c3
    };
    let c5 = set_or_remove_spec(c4, kw("ORG"), input.org);
    let c6 = set_or_remove_spec(c5, kw("TITLE"), input.title);
    set_or_remove_spec(c6, kw("NOTE"), input.note)
}

proof fn lemma_named_card_tail_other(c: CompV, input: ContactInputV, rev: Seq<char>, n: Seq<char>)
    requires
        !eq_ic(kw("EMAIL"), n),
        !eq_ic(kw("TEL"), n),
        !eq_ic(kw("ORG"), n),
        !eq_ic(kw("TITLE"), n),
        !eq_ic(kw("NOTE"), n),
        !eq_ic(kw("REV"), n),
    ensures
        named(set_spec(card_tail(c, input), plain(kw("REV"), rev)).lines, n) == named(c.lines, n),
{
    let c3 = CompV { lines: remove_named(remove_named(c.lines, kw("EMAIL")), kw("TEL")), ..c };
    let c4 = CompV {
        lines: push_typed(push_typed(c3.lines, kw("EMAIL"), input.emails), kw("TEL"), input.phones),
        ..c3
    };
    let c5 = set_or_remove_spec(c4, kw("ORG"), input.org);
    let c6 = set_or_remove_spec(c5, kw("TITLE"), input.title);
    lemma_named_remove_other(c.lines, kw("EMAIL"), n);
    lemma_named_remove_other(remove_named(c.lines, kw("EMAIL")), kw("TEL"), n);
    lemma_named_push_typed_other(c3.lines, kw("EMAIL"), input.emails, n);
    lemma_named_push_typed_other(push_typed(c3.lines, kw("EMAIL"), input.emails), kw("TEL"), input.phones, n);
    lemma_named_sor_other(c4, kw("ORG"), input.org, n);
    lemma_named_sor_other(c5, kw("TITLE"), input.title, n);
    lemma_named_sor_other(c6, kw("NOTE"), input.note, n);
    lemma_named_set_other(card_tail(c, input).lines, plain(kw("REV"), rev), n);
}

/// The name shown for a card whose `FN` is blank and whose `N` was written
/// from a blank name is blank too.
proof fn lemma_blank_name()
    ensures
        name_from_n_spec(structured_name_spec(Seq::<char>::empty())) == Seq::<char>::empty(),
{
    let e = Seq::<char>::empty();
    assert(trim_ws(e) =~= e);
    assert(escape_spec(e) =~= e);
    assert(crate::vcard::last_index(e, ' ') is None);
    let n4 = seq![';', ';', ';', ';'];
    assert(structured_name_spec(e) =~= n4);
    assert(lacks_char(e, ';'));
    assert(n4 =~= e + seq![';'] + seq![';', ';', ';']);
    lemma_split_c_after(e, seq![';', ';', ';'], ';');
    assert(seq![';', ';', ';'] =~= e + seq![';'] + seq![';', ';']);
    lemma_split_c_after(e, seq![';', ';'], ';');
    let parts = split_c(n4, ';');
    assert(parts[0] == e);
    assert(parts[1] == e);
    assert(parts.len() > 1);
    assert(trim_ws(parts[0]) =~= e);
    assert(trim_ws(parts[1]) =~= e);
    let sp = e + seq![' '] + e;
    assert(sp =~= seq![' ']);
    assert(sp.drop_first() =~= e);
    assert(trim_start_ws(sp) =~= e);
    assert(trim_ws(sp) =~= e);
}

/// A newly built contact reads back: the text that building writes parses
/// to the card that was built, that card is the one found, and the contact
/// read from it shows the UID, the trimmed full name, the written emails
/// and phones in order (blank ones dropped, labels trimmed and lower-cased),
/// and the trimmed title and note (nothing when blank); the organisation
/// too, when it holds no semicolon (a semicolon reads back as ` · `).
/// Carriage returns do not survive text escaping. Holds whenever the UID and
/// the revision stamp hold no line feed and every written label holds no
/// quote, colon, semicolon or line feed.
pub proof fn law_new_contact_reads_back(input: ContactInputV, uid: Seq<char>, rev: Seq<char>)
    requires
        lacks_char(uid, '\n'),
        lacks_char(rev, '\n'),
        labels_plain(input.emails),
        labels_plain(input.phones),
    ensures
        ({
            let card = new_card_spec(input, uid, rev);
            let vcf = ser_comps(seq![card]);
            &&& parse_spec(vcf) == seq![card]
            &&& first_child(parse_spec(vcf), kw("VCARD"), 0) == Some(0int)
            &&& forall|ab: Seq<char>, href: Seq<char>, etag: Seq<char>|
                {
                    let c = #[trigger] contact_of(card, ab, href, etag);
                    &&& c.uid == uid
                    &&& c.full_name == without_cr(trim_ws(input.full_name))
                    &&& c.emails == written_typed(input.emails)
                    &&& c.phones == written_typed(input.phones)
                    &&& c.title == shown(input.title)
                    &&& c.note == shown(input.note)
                    &&& (forall|o: Seq<char>| input.org == Some(o) ==> lacks_char(o, ';')) ==> c.org == shown(
                        input.org,
                    )
                }
        }),
{
    reveal_strlit("VCARD");
    reveal_strlit("VERSION");
    reveal_strlit("3.0");
    reveal_strlit("PRODID");
    reveal_strlit("-//Cirrust//Cirrust CardDAV//EN");
    reveal_strlit("UID");
    reveal_strlit("FN");
    reveal_strlit("N");
    reveal_strlit("EMAIL");
    reveal_strlit("TEL");
    reveal_strlit("ORG");
    reveal_strlit("TITLE");
    reveal_strlit("NOTE");
    reveal_strlit("REV");
    lemma_ne_ic(begin_kw(), end_kw());
    let c0 = CompV { name: kw("VCARD"), lines: Seq::empty(), children: Seq::empty() };
    let l_ver = plain(kw("VERSION"), kw("3.0"));
    let c1 = set_spec(c0, l_ver);
    let l_prod = plain(kw("PRODID"), kw("-//Cirrust//Cirrust CardDAV//EN"));
    let c2 = set_spec(c1, l_prod);
    let l_uid = plain(kw("UID"), uid);
    let c3 = set_spec(c2, l_uid);
    let f = trim_ws(input.full_name);
    let l_fn = plain(kw("FN"), escape_spec(f));
    let d1 = set_spec(c3, l_fn);
    let l_n = plain(kw("N"), structured_name_spec(f));
    let d2 = set_spec(d1, l_n);
    let d3 = CompV { lines: remove_named(remove_named(d2.lines, kw("EMAIL")), kw("TEL")), ..d2 };
    let d4 = CompV {
        lines: push_typed(push_typed(d3.lines, kw("EMAIL"), input.emails), kw("TEL"), input.phones),
        ..d3
    };
    let d5 = set_or_remove_spec(d4, kw("ORG"), input.org);
    let d6 = set_or_remove_spec(d5, kw("TITLE"), input.title);
    let d7 = set_or_remove_spec(d6, kw("NOTE"), input.note);
    assert(d7 == crate::vcard::apply_input_spec(c3, input));
    assert(d7 == card_tail(d2, input));
    let l_rev = plain(kw("REV"), rev);
    let card = set_spec(d7, l_rev);
    assert(card == new_card_spec(input, uid, rev));

    // Every written line reads back.
    assert(caps(kw("VERSION")));
    assert(caps(kw("PRODID")));
    assert(caps(kw("UID")));
    assert(caps(kw("FN")));
    assert(caps(kw("N")));
    assert(caps(kw("EMAIL")));
    assert(caps(kw("TEL")));
    assert(caps(kw("ORG")));
    assert(caps(kw("TITLE")));
    assert(caps(kw("NOTE")));
    assert(caps(kw("REV")));
    lemma_ne_ic(kw("VERSION"), begin_kw());
    lemma_ne_ic(kw("VERSION"), end_kw());
    lemma_ne_ic(kw("PRODID"), begin_kw());
    lemma_ne_ic(kw("PRODID"), end_kw());
    lemma_ne_ic(kw("UID"), begin_kw());
    lemma_ne_ic(kw("UID"), end_kw());
    lemma_ne_ic(kw("FN"), begin_kw());
    lemma_ne_ic(kw("FN"), end_kw());
    lemma_ne_ic(kw("N"), begin_kw());
    lemma_ne_ic(kw("N"), end_kw());
    lemma_ne_ic(kw("EMAIL"), begin_kw());
    lemma_ne_ic(kw("EMAIL"), end_kw());
    lemma_ne_ic(kw("TEL"), begin_kw());
    lemma_ne_ic(kw("TEL"), end_kw());
    lemma_ne_ic(kw("ORG"), begin_kw());
    lemma_ne_ic(kw("ORG"), end_kw());
    lemma_ne_ic(kw("TITLE"), begin_kw());
    lemma_ne_ic(kw("TITLE"), end_kw());
    lemma_ne_ic(kw("NOTE"), begin_kw());
    lemma_ne_ic(kw("NOTE"), end_kw());
    lemma_ne_ic(kw("REV"), begin_kw());
    lemma_ne_ic(kw("REV"), end_kw());
    assert(lacks_char(kw("3.0"), '\n'));
    assert(lacks_char(kw("-//Cirrust//Cirrust CardDAV//EN"), '\n'));
    lemma_written_line_ok(l_ver);
    lemma_written_line_ok(l_prod);
    lemma_written_line_ok(l_uid);
    lemma_set_line_ok(c0.lines, l_ver);
    lemma_set_line_ok(c1.lines, l_prod);
    lemma_set_line_ok(c2.lines, l_uid);
    lemma_escape_lacks(f);
    lemma_written_line_ok(l_fn);
    lemma_set_line_ok(c3.lines, l_fn);
    assert(lacks_char(structured_name_spec(f), '\n')) by {
        let g = trim_ws(f);
        match crate::vcard::last_index(g, ' ') {
            Some(k) => {
                lemma_escape_lacks(g.skip(k + 1));
                lemma_escape_lacks(g.take(k));
                lemma_lacks_cat(escape_spec(g.skip(k + 1)), seq![';']);
                lemma_lacks_cat(escape_spec(g.skip(k + 1)) + seq![';'], escape_spec(g.take(k)));
                lemma_lacks_cat(escape_spec(g.skip(k + 1)) + seq![';'] + escape_spec(g.take(k)), seq![';', ';', ';']);
            },
            None => {
                lemma_escape_lacks(g);
                lemma_lacks_cat(seq![';'], escape_spec(g));
                lemma_lacks_cat(seq![';'] + escape_spec(g), seq![';', ';', ';']);
            },
        }
    }
    lemma_written_line_ok(l_n);
    lemma_set_line_ok(d1.lines, l_n);
    lemma_remove_named_ok(d2.lines, kw("EMAIL"));
    lemma_remove_named_ok(remove_named(d2.lines, kw("EMAIL")), kw("TEL"));
    lemma_labels_plain_safe(input.emails);
    lemma_labels_plain_safe(input.phones);
    lemma_push_typed_ok(d3.lines, kw("EMAIL"), input.emails);
    lemma_push_typed_ok(push_typed(d3.lines, kw("EMAIL"), input.emails), kw("TEL"), input.phones);
    lemma_sor_ok(d4, kw("ORG"), input.org);
    lemma_sor_ok(d5, kw("TITLE"), input.title);
    lemma_sor_ok(d6, kw("NOTE"), input.note);
    lemma_written_line_ok(l_rev);
    lemma_set_line_ok(d7.lines, l_rev);

    // So the card reads back, and it is the one found.
    assert(card.children =~= Seq::<CompV>::empty());
    assert(node_ok(card));
    lemma_comps_ok_all(seq![card]);
    law_parse_serialize(seq![card]);
    assert(first_child(seq![card], kw("VCARD"), 0) == Some(0int));

    // The UID.
    let uid_n = kw("UID");
    lemma_named_set_same(c2.lines, l_uid);
    lemma_ne_ic(kw("FN"), uid_n);
    lemma_ne_ic(kw("N"), uid_n);
    lemma_ne_ic(kw("EMAIL"), uid_n);
    lemma_ne_ic(kw("TEL"), uid_n);
    lemma_ne_ic(kw("ORG"), uid_n);
    lemma_ne_ic(kw("TITLE"), uid_n);
    lemma_ne_ic(kw("NOTE"), uid_n);
    lemma_ne_ic(kw("REV"), uid_n);
    lemma_named_card_input_other(c3, input, uid_n);
    lemma_named_set_other(d7.lines, l_rev, uid_n);
    assert(value_of(card, uid_n) == Some(uid));

    // The full name.
    let fn_n = kw("FN");
    let n_n = kw("N");
    lemma_ne_ic(kw("EMAIL"), fn_n);
    lemma_ne_ic(kw("TEL"), fn_n);
    lemma_ne_ic(kw("ORG"), fn_n);
    lemma_ne_ic(kw("TITLE"), fn_n);
    lemma_ne_ic(kw("NOTE"), fn_n);
    lemma_ne_ic(kw("REV"), fn_n);
    lemma_ne_ic(n_n, fn_n);
    lemma_named_set_same(c3.lines, l_fn);
    lemma_named_set_other(d1.lines, l_n, fn_n);
    lemma_named_card_tail_other(d2, input, rev, fn_n);
    assert(value_of(card, fn_n) == Some(escape_spec(f)));
    lemma_ne_ic(kw("EMAIL"), n_n);
    lemma_ne_ic(kw("TEL"), n_n);
    lemma_ne_ic(kw("ORG"), n_n);
    lemma_ne_ic(kw("TITLE"), n_n);
    lemma_ne_ic(kw("NOTE"), n_n);
    lemma_ne_ic(kw("REV"), n_n);
    lemma_named_set_same(d1.lines, l_n);
    lemma_named_card_tail_other(d2, input, rev, n_n);
    assert(value_of(card, n_n) == Some(structured_name_spec(f)));
    law_unescape_escape(f);
    lemma_trimmed_head(input.full_name);
    if f.len() > 0 {
        assert(f[0] != '\r');
        assert(without_cr(f) == seq![f[0]] + without_cr(f.drop_first()));
        assert(full_name_spec(card) == without_cr(f));
    } else {
        assert(f =~= Seq::<char>::empty());
        assert(without_cr(f) =~= Seq::<char>::empty());
        lemma_blank_name();
        assert(full_name_spec(card) == without_cr(f));
    }

    // The emails and phones.
    let em = kw("EMAIL");
    let tel = kw("TEL");
    lemma_ne_ic(tel, em);
    lemma_ne_ic(kw("ORG"), em);
    lemma_ne_ic(kw("TITLE"), em);
    lemma_ne_ic(kw("NOTE"), em);
    lemma_ne_ic(kw("REV"), em);
    lemma_ne_ic(em, tel);
    lemma_ne_ic(kw("ORG"), tel);
    lemma_ne_ic(kw("TITLE"), tel);
    lemma_ne_ic(kw("NOTE"), tel);
    lemma_ne_ic(kw("REV"), tel);
    lemma_tv_set_other(d7.lines, l_rev, em);
    lemma_tv_sor_other(d6, kw("NOTE"), input.note, em);
    lemma_tv_sor_other(d5, kw("TITLE"), input.title, em);
    lemma_tv_sor_other(d4, kw("ORG"), input.org, em);
    lemma_tv_push_typed_other(push_typed(d3.lines, em, input.emails), tel, input.phones, em);
    lemma_tv_push_typed_same(d3.lines, em, input.emails);
    lemma_tv_remove_other(remove_named(d2.lines, em), tel, em);
    lemma_tv_remove_same(d2.lines, em);
    assert(Seq::<TypedV>::empty() + written_typed(input.emails) =~= written_typed(input.emails));
    assert(typed_values_spec(card.lines, em) == written_typed(input.emails));
    lemma_tv_set_other(d7.lines, l_rev, tel);
    lemma_tv_sor_other(d6, kw("NOTE"), input.note, tel);
    lemma_tv_sor_other(d5, kw("TITLE"), input.title, tel);
    lemma_tv_sor_other(d4, kw("ORG"), input.org, tel);
    lemma_tv_push_typed_same(push_typed(d3.lines, em, input.emails), tel, input.phones);
    lemma_tv_push_typed_other(d3.lines, em, input.emails, tel);
    lemma_tv_remove_same(remove_named(d2.lines, em), tel);
    assert(Seq::<TypedV>::empty() + written_typed(input.phones) =~= written_typed(input.phones));
    assert(typed_values_spec(card.lines, tel) == written_typed(input.phones));

    // The title, note and organisation.
    let org_n = kw("ORG");
    let title_n = kw("TITLE");
    let note_n = kw("NOTE");
    lemma_ne_ic(note_n, title_n);
    lemma_ne_ic(kw("REV"), title_n);
    lemma_ne_ic(kw("REV"), note_n);
    lemma_ne_ic(title_n, org_n);
    lemma_ne_ic(note_n, org_n);
    lemma_ne_ic(kw("REV"), org_n);
    lemma_shown(d5, title_n, input.title);
    lemma_named_sor_other(d6, note_n, input.note, title_n);
    lemma_named_set_other(d7.lines, l_rev, title_n);
    lemma_value_of_named(card, d6, title_n);
    lemma_shown(d6, note_n, input.note);
    lemma_named_set_other(d7.lines, l_rev, note_n);
    lemma_value_of_named(card, d7, note_n);
    lemma_named_sor_other(d5, title_n, input.title, org_n);
    lemma_named_sor_other(d6, note_n, input.note, org_n);
    lemma_named_set_other(d7.lines, l_rev, org_n);
    lemma_value_of_named(card, d5, org_n);
    if forall|o: Seq<char>| input.org == Some(o) ==> lacks_char(o, ';') {
        match input.org {
            Some(o) => assert(lacks_char(o, ';')),
            None => {},
        }
        lemma_org_shown(d4, input.org);
    }
}

} // verus!
