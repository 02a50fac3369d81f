//! Calendar date/time values: parsing through chrono, and the compact and
//! display text forms used by iCalendar and the calendar UI.
//!
//! Dates are `(year, month, day)` and date-times are
//! `(year, month, day, hour, minute, second, nanosecond)` tuples, with the
//! fields chrono reports for a `NaiveDate` / `NaiveDateTime`.

use vstd::prelude::*;
use chrono::{Datelike, Timelike, TimeZone};
use crate::num::{digits, u64_digits, zero_pad};
use crate::text::push_char;

verus! {

/// What `NaiveDate::parse_from_str(s, fmt)` gives, as `(year, month, day)`.
pub uninterp spec fn chrono_date(s: Seq<char>, fmt: Seq<char>) -> Option<(i32, u32, u32)>;

/// What `NaiveDateTime::parse_from_str(s, fmt)` gives, as
/// `(year, month, day, hour, minute, second, nanosecond)`.
pub uninterp spec fn chrono_datetime(s: Seq<char>, fmt: Seq<char>) -> Option<(i32, u32, u32, u32, u32, u32, u32)>;

/// A date chrono can hold: from January 1 of year -262143 to December 31 of
/// year 262142, with a real day of the month in the proleptic Gregorian
/// calendar.
pub open spec fn date_in_range(d: (i32, u32, u32)) -> bool {
    -262143 <= d.0 <= 262142 && 1 <= d.1 <= 12 && 1 <= d.2 <= days_in_month(d.0 as int, d.1 as int)
}

/// A time of day chrono can hold; a leap second is second 59 with the
/// nanosecond at or above 10^9.
pub open spec fn time_in_range(t: (i32, u32, u32, u32, u32, u32, u32)) -> bool {
    t.3 < 24 && t.4 < 60 && t.5 < 60 && t.6 < 2_000_000_000 && (t.6 >= 1_000_000_000 ==> t.5 == 59)
}

pub open spec fn dt_in_range(t: (i32, u32, u32, u32, u32, u32, u32)) -> bool {
    date_in_range((t.0, t.1, t.2)) && time_in_range(t)
}

/// The fields of a date-time in their ranges, leaving aside which second a
/// leap second may fall on: a date chrono can hold, hour, minute and second
/// below 24, 60 and 60, and a nanosecond below 2·10^9.
pub open spec fn dt_fields_ok(t: (i32, u32, u32, u32, u32, u32, u32)) -> bool {
    date_in_range((t.0, t.1, t.2)) && t.3 < 24 && t.4 < 60 && t.5 < 60 && t.6 < 2_000_000_000
}

/// A date-time whose date is neither the first nor the last one chrono can
/// hold, so that a time-zone offset (under a day) keeps it representable.
pub open spec fn inside_bounds(t: (i32, u32, u32, u32, u32, u32, u32)) -> bool {
    dt_in_range(t) && (t.0, t.1, t.2) != (262142i32, 12u32, 31u32) && (t.0, t.1, t.2) != (-262143i32, 1u32, 1u32)
}

/// The same instant one hour on may still be held (the panic-free case of
/// `NaiveDateTime + Duration::hours(1)`).
pub open spec fn hour_addable(t: (i32, u32, u32, u32, u32, u32, u32)) -> bool {
    !((t.0, t.1, t.2) == (262142i32, 12u32, 31u32) && t.3 == 23)
}

/// `chrono::NaiveDate::parse_from_str(s, fmt)`, reported as
/// `(year, month, day)`. Claims that the result is the one chrono gives for
/// `(s, fmt)` and that a parsed date is one chrono can hold.
#[verifier::external_body]
pub(crate) fn parse_date_chrono(s: &str, fmt: &str) -> (r: Option<(i32, u32, u32)>)
    ensures
        r == chrono_date(s@, fmt@),
        r matches Some(d) ==> date_in_range(d),
{
    chrono::NaiveDate::parse_from_str(s, fmt).ok().map(|d| (d.year(), d.month(), d.day()))
}

/// `chrono::NaiveDateTime::parse_from_str(s, fmt)`, reported as its fields.
/// Claims that the result is the one chrono gives for `(s, fmt)` and that a
/// parsed value is one chrono can hold.
#[verifier::external_body]
pub(crate) fn parse_datetime_chrono(s: &str, fmt: &str) -> (r: Option<(i32, u32, u32, u32, u32, u32, u32)>)
    ensures
        r == chrono_datetime(s@, fmt@),
        r matches Some(t) ==> dt_in_range(t),
{
    chrono::NaiveDateTime::parse_from_str(s, fmt).ok().map(|d| {
        (d.year(), d.month(), d.day(), d.hour(), d.minute(), d.second(), d.nanosecond())
    })
}

/// A UTC wall-clock value in the machine's local time zone
/// (`Utc.from_utc_datetime(..).with_timezone(&Local).naive_local()`), after
/// building the `NaiveDateTime` from its fields. The result depends on the
/// time zone configured on the machine, so only its shape is claimed: the
/// fields of a value chrono holds arrive as fields in their ranges
/// ([`dt_fields_ok`]). Where a leap second lands is not claimed: chrono
/// keeps the nanosecond while the zone's offset, which need not be whole
/// minutes, moves the second.
#[verifier::external_body]
pub(crate) fn utc_to_local(t: (i32, u32, u32, u32, u32, u32, u32)) -> (r: Option<(i32, u32, u32, u32, u32, u32, u32)>)
    requires
        dt_in_range(t) ==> inside_bounds(t),
    ensures
        dt_in_range(t) ==> r is Some,
        r matches Some(l) ==> dt_fields_ok(l),
{
    chrono::NaiveDate::from_ymd_opt(t.0, t.1, t.2).and_then(|d| d.and_hms_nano_opt(t.3, t.4, t.5, t.6)).map(|n| {
        let l = chrono::Utc.from_utc_datetime(&n).with_timezone(&chrono::Local).naive_local();
        (l.year(), l.month(), l.day(), l.hour(), l.minute(), l.second(), l.nanosecond())
    })
}

// ---------------------------------------------------------------------------
// Calendar arithmetic
// ---------------------------------------------------------------------------

pub open spec fn is_leap(y: int) -> bool {
    y % 4 == 0 && (y % 100 != 0 || y % 400 == 0)
}

pub open spec fn days_in_month(y: int, m: int) -> int {
    if m == 2 {
        if is_leap(y) {
            29
        } else {
            28
        }
    } else if m == 4 || m == 6 || m == 9 || m == 11 {
        30
    } else {
        31
    }
}

/// The day after `(y, m, d)` in the proleptic Gregorian calendar.
pub open spec fn next_day(d: (i32, u32, u32)) -> (int, int, int) {
    if (d.2 as int) < days_in_month(d.0 as int, d.1 as int) {
        (d.0 as int, d.1 as int, d.2 + 1)
    } else if d.1 < 12 {
        (d.0 as int, d.1 + 1, 1)
    } else {
        (d.0 + 1, 1, 1)
    }
}

fn is_leap_exec(y: i32) -> (b: bool)
    ensures
        b == is_leap(y as int),
{
    y % 4 == 0 && (y % 100 != 0 || y % 400 == 0)
}

/// The day after a date reported by chrono.
pub fn next_day_exec(d: (i32, u32, u32)) -> (r: (i32, u32, u32))
    requires
        date_in_range(d),
    ensures
        (r.0 as int, r.1 as int, r.2 as int) == next_day(d),
{
    let (y, m, dd) = d;
    let dim: u32 = if m == 2 {
        if is_leap_exec(y) { 29 } else { 28 }
    } else if m == 4 || m == 6 || m == 9 || m == 11 {
        30
    } else {
        31
    };
    if dd < dim {
        (y, m, dd + 1)
    } else if m < 12 {
        (y, m + 1, 1)
    } else {
        (y + 1, 1, 1)
    }
}

/// One hour after a date-time reported by chrono. Adding a positive span
/// to a leap second (nanosecond at or above 10^9) leaves the leap second.
pub open spec fn add_hour(t: (i32, u32, u32, u32, u32, u32, u32)) -> (int, int, int, int, int, int, int) {
    let ns: int = if t.6 >= 1_000_000_000 {
        t.6 - 1_000_000_000
    } else {
        t.6 as int
    };
    if t.3 < 23 {
        (t.0 as int, t.1 as int, t.2 as int, t.3 + 1, t.4 as int, t.5 as int, ns)
    } else {
        let n = next_day((t.0, t.1, t.2));
        (n.0, n.1, n.2, 0, t.4 as int, t.5 as int, ns)
    }
}

pub fn add_hour_exec(t: (i32, u32, u32, u32, u32, u32, u32)) -> (r: (i32, u32, u32, u32, u32, u32, u32))
    requires
        dt_in_range(t),
    ensures
        (r.0 as int, r.1 as int, r.2 as int, r.3 as int, r.4 as int, r.5 as int, r.6 as int) == add_hour(t),
{
    let ns: u32 = if t.6 >= 1_000_000_000 {
        t.6 - 1_000_000_000
    } else {
        t.6
    };
    if t.3 < 23 {
        (t.0, t.1, t.2, t.3 + 1, t.4, t.5, ns)
    } else {
        let n = next_day_exec((t.0, t.1, t.2));
        (n.0, n.1, n.2, 0, t.4, t.5, ns)
    }
}

// ---------------------------------------------------------------------------
// Text forms
// ---------------------------------------------------------------------------

/// chrono's `%Y`: four digits (zero-padded) for years 0..=9999, otherwise a
/// sign followed by at least four digits.
pub open spec fn year_text(y: int) -> Seq<char> {
    if 0 <= y <= 9999 {
        zero_pad(digits(y as nat), 4)
    } else if y < 0 {
        seq!['-'] + zero_pad(digits((-y) as nat), 4)
    } else {
        seq!['+'] + zero_pad(digits(y as nat), 4)
    }
}

/// chrono's zero-padded two-digit fields (`%m`, `%d`, `%H`, `%M`, `%S`).
pub open spec fn two(v: int) -> Seq<char> {
    zero_pad(digits(v as nat), 2)
}

/// The seconds chrono prints: a leap second shows as 60.
pub open spec fn secs(t: (int, int, int, int, int, int, int)) -> int {
    t.5 + t.6 / 1_000_000_000
}

/// `%Y%m%d`.
pub open spec fn compact_date(y: int, m: int, d: int) -> Seq<char> {
    year_text(y) + two(m) + two(d)
}

/// `%Y%m%dT%H%M%S`.
pub open spec fn compact_dt(t: (int, int, int, int, int, int, int)) -> Seq<char> {
    compact_date(t.0, t.1, t.2) + seq!['T'] + two(t.3) + two(t.4) + two(secs(t))
}

/// `%Y-%m-%dT%H:%M:%S`.
pub open spec fn display_dt(t: (int, int, int, int, int, int, int)) -> Seq<char> {
    year_text(t.0) + seq!['-'] + two(t.1) + seq!['-'] + two(t.2) + seq!['T'] + two(t.3) + seq![':'] + two(
        t.4,
    ) + seq![':'] + two(secs(t))
}

pub open spec fn widen(t: (i32, u32, u32, u32, u32, u32, u32)) -> (int, int, int, int, int, int, int) {
    (t.0 as int, t.1 as int, t.2 as int, t.3 as int, t.4 as int, t.5 as int, t.6 as int)
}

fn push_padded(out: &mut String, v: u64, width: usize)
    requires
        width <= 4,
    ensures
        final(out)@ == old(out)@ + zero_pad(digits(v as nat), width as int),
{
    let ds = u64_digits(v);
    let dv = crate::text::chars_of(ds.as_str());
    let mut k = dv.len();
    let ghost before = out@;
    while k < width
        invariant
            dv@ == digits(v as nat),
            dv@.len() <= k <= width || (k == dv@.len() && k >= width),
            out@ == before + Seq::new((k - dv@.len()) as nat, |i: int| '0'),
        decreases width - k,
    {
        push_char(out, '0');
        proof {
            assert(Seq::new((k + 1 - dv@.len()) as nat, |i: int| '0') =~= Seq::new(
                (k - dv@.len()) as nat,
                |i: int| '0',
            ).push('0'));
        }
        k = k + 1;
    }
    out.append(ds.as_str());
    proof {
        if dv@.len() >= width {
            assert(Seq::new((k - dv@.len()) as nat, |i: int| '0') =~= Seq::<char>::empty());
            assert(out@ =~= before + digits(v as nat));
        } else {
            assert(k == width);
            assert(out@ =~= before + zero_pad(digits(v as nat), width as int));
        }
    }
}

/// Append chrono's `%Y` text of `y`.
fn push_year(out: &mut String, y: i32)
    ensures
        final(out)@ == old(out)@ + year_text(y as int),
{
    if 0 <= y && y <= 9999 {
        push_padded(out, y as u64, 4);
    } else if y < 0 {
        push_char(out, '-');
        let mag: u64 = if y == i32::MIN { 2147483648 } else { (-y) as u64 };
        push_padded(out, mag, 4);
        proof {
            assert(final(out)@ =~= old(out)@ + year_text(y as int));
        }
    } else {
        push_char(out, '+');
        push_padded(out, y as u64, 4);
        proof {
            assert(final(out)@ =~= old(out)@ + year_text(y as int));
        }
    }
}

/// `%Y%m%d` of a date.
pub fn fmt_compact_date(y: i32, m: u32, d: u32) -> (r: String)
    ensures
        r@ == compact_date(y as int, m as int, d as int),
{
    let mut r = String::new();
    push_year(&mut r, y);
    push_padded(&mut r, m as u64, 2);
    push_padded(&mut r, d as u64, 2);
    proof {
        assert(r@ =~= compact_date(y as int, m as int, d as int));
    }
    r
}

/// `%Y%m%dT%H%M%S` of a date-time.
pub fn fmt_compact_dt(t: (i32, u32, u32, u32, u32, u32, u32)) -> (r: String)
    ensures
        r@ == compact_dt(widen(t)),
{
    let mut r = fmt_compact_date(t.0, t.1, t.2);
    push_char(&mut r, 'T');
    push_padded(&mut r, t.3 as u64, 2);
    push_padded(&mut r, t.4 as u64, 2);
    let s = t.5 as u64 + (t.6 / 1_000_000_000) as u64;
    push_padded(&mut r, s, 2);
    proof {
        assert(r@ =~= compact_dt(widen(t)));
    }
    r
}

/// `%Y-%m-%d %H%M%S` of a date-time: the stamp of a conflicted copy.
pub fn fmt_conflict_stamp(t: (i32, u32, u32, u32, u32, u32, u32)) -> (r: String)
    ensures
        r@ == year_text(t.0 as int) + seq!['-'] + two(t.1 as int) + seq!['-'] + two(t.2 as int) + seq![' '] + two(
            t.3 as int,
        ) + two(t.4 as int) + two(secs(widen(t))),
{
    let mut r = String::new();
    push_year(&mut r, t.0);
    push_char(&mut r, '-');
    push_padded(&mut r, t.1 as u64, 2);
    push_char(&mut r, '-');
    push_padded(&mut r, t.2 as u64, 2);
    push_char(&mut r, ' ');
    push_padded(&mut r, t.3 as u64, 2);
    push_padded(&mut r, t.4 as u64, 2);
    let s = t.5 as u64 + (t.6 / 1_000_000_000) as u64;
    push_padded(&mut r, s, 2);
    proof {
        assert(r@ =~= year_text(t.0 as int) + seq!['-'] + two(t.1 as int) + seq!['-'] + two(t.2 as int) + seq![' ']
            + two(t.3 as int) + two(t.4 as int) + two(secs(widen(t))));
    }
    r
}

/// `%Y-%m-%dT%H:%M:%S` of a date-time.
pub fn fmt_display_dt(t: (i32, u32, u32, u32, u32, u32, u32)) -> (r: String)
    ensures
        r@ == display_dt(widen(t)),
{
    let mut r = String::new();
    push_year(&mut r, t.0);
    push_char(&mut r, '-');
    push_padded(&mut r, t.1 as u64, 2);
    push_char(&mut r, '-');
    push_padded(&mut r, t.2 as u64, 2);
    push_char(&mut r, 'T');
    push_padded(&mut r, t.3 as u64, 2);
    push_char(&mut r, ':');
    push_padded(&mut r, t.4 as u64, 2);
    push_char(&mut r, ':');
    let s = t.5 as u64 + (t.6 / 1_000_000_000) as u64;
    push_padded(&mut r, s, 2);
    proof {
        assert(r@ =~= display_dt(widen(t)));
    }
    r
}

} // verus!
