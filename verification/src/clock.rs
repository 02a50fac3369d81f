//! Wall-clock timestamps. The current UTC time is read from the system clock
//! through chrono as its fields; the stamps written from it are laid out here.
//! Of the time itself only the ranges of its fields are claimed.

use vstd::prelude::*;
use chrono::{Datelike, Timelike};
use crate::contentline::lacks_char;
use crate::datetime::{compact_dt, dt_in_range, fmt_compact_dt, fmt_conflict_stamp, secs, two, widen, year_text};
use crate::num::{digits, lemma_digits_len, zero_pad};
use crate::text::push_char;

verus! {

/// A date-time as its fields: year, month, day, hour, minute, second,
/// nanosecond.
pub type ClockFields = (i32, u32, u32, u32, u32, u32, u32);

/// Fields of a clock reading: a date-time chrono holds, never a leap second.
pub open spec fn clock_fields_ok(t: (i32, u32, u32, u32, u32, u32, u32)) -> bool {
    dt_in_range(t) && t.6 < 1_000_000_000
}

/// The current UTC time as `(year, month, day, hour, minute, second,
/// nanosecond)`: the fields of `chrono::Utc::now()`. Claimed: a date-time
/// chrono holds whose nanosecond is below 10^9 (`Utc::now` builds it from the
/// system clock's seconds and sub-second nanoseconds). The time itself is not
/// described.
#[verifier::external_body]
pub(crate) fn utc_now() -> (t: (i32, u32, u32, u32, u32, u32, u32))
    ensures
        clock_fields_ok(t),
{
    let n = chrono::Utc::now();
    (n.year(), n.month(), n.day(), n.hour(), n.minute(), n.second(), n.nanosecond())
}

/// Basic-format UTC stamp `YYYYMMDDThhmmssZ` — the layout shared by iCal
/// `DTSTAMP`/`CREATED`/`LAST-MODIFIED` and vCard `REV`.
pub open spec fn utc_stamp(t: (i32, u32, u32, u32, u32, u32, u32)) -> Seq<char> {
    compact_dt(widen(t)) + seq!['Z']
}

/// The stamp in a conflicted copy's name: `YYYY-MM-DD HHMMSS`.
pub open spec fn conflict_stamp(t: (i32, u32, u32, u32, u32, u32, u32)) -> Seq<char> {
    year_text(t.0 as int) + seq!['-'] + two(t.1 as int) + seq!['-'] + two(t.2 as int) + seq![' '] + two(
        t.3 as int,
    ) + two(t.4 as int) + two(secs(widen(t)))
}

/// The basic-format UTC stamp of clock fields `t`.
pub(crate) fn utc_stamp_text(t: (i32, u32, u32, u32, u32, u32, u32)) -> (r: String)
    ensures
        r@ == utc_stamp(t),
{
    let mut r = fmt_compact_dt(t);
    push_char(&mut r, 'Z');
    r
}

/// The conflicted-copy stamp of clock fields `t`.
pub(crate) fn conflict_stamp_text(t: (i32, u32, u32, u32, u32, u32, u32)) -> (r: String)
    ensures
        r@ == conflict_stamp(t),
{
    fmt_conflict_stamp(t)
}

/// The current UTC time in RFC 3339 form (`chrono::Utc::now().to_rfc3339()`);
/// the time is not described.
#[verifier::external_body]
pub(crate) fn now_rfc3339() -> (r: String) {
    chrono::Utc::now().to_rfc3339()
}

// ---------------------------------------------------------------------------
// The characters of a stamp
// ---------------------------------------------------------------------------

/// Text made only of ASCII digits, a year's sign, `T` and `Z`: the
/// characters a basic-format stamp is written with.
pub open spec fn stamp_chars(s: Seq<char>) -> bool {
    forall|k: int|
        0 <= k < s.len() ==> ('0' <= #[trigger] s[k] <= '9' || s[k] == '+' || s[k] == '-' || s[k] == 'T' || s[k]
            == 'Z')
}

/// A stamp holds no line feed, no `)` and no `/`.
pub proof fn lemma_stamp_plain(s: Seq<char>)
    requires
        stamp_chars(s),
    ensures
        lacks_char(s, '\n'),
        lacks_char(s, ')'),
        lacks_char(s, '/'),
{
    assert forall|k: int| 0 <= k < s.len() implies s[k] != '\n' && s[k] != ')' && s[k] != '/' by {
        assert('0' <= s[k] <= '9' || s[k] == '+' || s[k] == '-' || s[k] == 'T' || s[k] == 'Z');
    }
}

pub(crate) proof fn lemma_cat_stamp(a: Seq<char>, b: Seq<char>)
    requires
        stamp_chars(a),
        stamp_chars(b),
    ensures
        stamp_chars(a + b),
{
    assert forall|k: int| 0 <= k < (a + b).len() implies ('0' <= #[trigger] (a + b)[k] <= '9' || (a + b)[k] == '+'
        || (a + b)[k] == '-' || (a + b)[k] == 'T' || (a + b)[k] == 'Z') by {
        if k < a.len() {
            assert((a + b)[k] == a[k]);
        } else {
            assert((a + b)[k] == b[k - a.len()]);
        }
    }
}

pub(crate) proof fn lemma_padded_stamp(n: nat, w: int)
    ensures
        stamp_chars(zero_pad(digits(n), w)),
        zero_pad(digits(n), w).len() > 0,
{
    lemma_digits_len(n);
    let d = digits(n);
    assert(stamp_chars(d)) by {
        assert forall|k: int| 0 <= k < d.len() implies ('0' <= #[trigger] d[k] <= '9' || d[k] == '+' || d[k] == '-'
            || d[k] == 'T' || d[k] == 'Z') by {
            assert(crate::num::is_digit(d[k]));
        }
    }
    if d.len() < w {
        let z = Seq::new((w - d.len()) as nat, |i: int| '0');
        assert(stamp_chars(z));
        lemma_cat_stamp(z, d);
    }
}

pub(crate) proof fn lemma_year_stamp(y: int)
    ensures
        stamp_chars(year_text(y)),
{
    if 0 <= y <= 9999 {
        lemma_padded_stamp(y as nat, 4);
    } else if y < 0 {
        lemma_padded_stamp((-y) as nat, 4);
        lemma_cat_stamp(seq!['-'], zero_pad(digits((-y) as nat), 4));
    } else {
        lemma_padded_stamp(y as nat, 4);
        lemma_cat_stamp(seq!['+'], zero_pad(digits(y as nat), 4));
    }
}

/// The compact text of a date-time is made of stamp characters, and holds a
/// `T` after its date.
pub(crate) proof fn lemma_compact_dt_stamp(t: (int, int, int, int, int, int, int))
    ensures
        stamp_chars(compact_dt(t)),
        compact_dt(t).len() > 0,
        compact_dt(t).contains('T'),
{
    let yt = year_text(t.0);
    lemma_year_stamp(t.0);
    lemma_padded_stamp(t.1 as nat, 2);
    lemma_padded_stamp(t.2 as nat, 2);
    lemma_padded_stamp(t.3 as nat, 2);
    lemma_padded_stamp(t.4 as nat, 2);
    lemma_padded_stamp(secs(t) as nat, 2);
    let a = yt + two(t.1);
    lemma_cat_stamp(yt, two(t.1));
    lemma_cat_stamp(a, two(t.2));
    let cd = a + two(t.2);
    assert(cd == crate::datetime::compact_date(t.0, t.1, t.2));
    lemma_cat_stamp(cd, seq!['T']);
    let b = cd + seq!['T'];
    lemma_cat_stamp(b, two(t.3));
    lemma_cat_stamp(b + two(t.3), two(t.4));
    lemma_cat_stamp(b + two(t.3) + two(t.4), two(secs(t)));
    let w = compact_dt(t);
    assert(w == b + two(t.3) + two(t.4) + two(secs(t)));
    assert(w[cd.len() as int] == 'T');
}

/// The UTC stamp holds no line feed.
pub proof fn lemma_utc_stamp_plain(t: (i32, u32, u32, u32, u32, u32, u32))
    ensures
        lacks_char(utc_stamp(t), '\n'),
{
    lemma_compact_dt_stamp(widen(t));
    lemma_cat_stamp(compact_dt(widen(t)), seq!['Z']);
    lemma_stamp_plain(utc_stamp(t));
}

proof fn lemma_lacks_cat(a: Seq<char>, b: Seq<char>, c: char)
    requires
        lacks_char(a, c),
        lacks_char(b, c),
    ensures
        lacks_char(a + b, c),
{
    assert forall|k: int| 0 <= k < (a + b).len() implies (a + b)[k] != c by {
        if k < a.len() {
            assert((a + b)[k] == a[k]);
        } else {
            assert((a + b)[k] == b[k - a.len()]);
        }
    }
}

/// A conflicted copy's stamp holds no `)` and no `/`.
pub proof fn lemma_conflict_stamp_plain(t: (i32, u32, u32, u32, u32, u32, u32))
    ensures
        lacks_char(conflict_stamp(t), ')'),
        lacks_char(conflict_stamp(t), '/'),
{
    let w = widen(t);
    lemma_year_stamp(w.0);
    lemma_padded_stamp(w.1 as nat, 2);
    lemma_padded_stamp(w.2 as nat, 2);
    lemma_padded_stamp(w.3 as nat, 2);
    lemma_padded_stamp(w.4 as nat, 2);
    lemma_padded_stamp(secs(w) as nat, 2);
    let p1 = year_text(w.0) + seq!['-'];
    lemma_cat_stamp(year_text(w.0), seq!['-']);
    lemma_cat_stamp(p1, two(w.1));
    lemma_cat_stamp(p1 + two(w.1), seq!['-']);
    let left = p1 + two(w.1) + seq!['-'] + two(w.2);
    lemma_cat_stamp(p1 + two(w.1) + seq!['-'], two(w.2));
    lemma_cat_stamp(two(w.3), two(w.4));
    let right = two(w.3) + two(w.4) + two(secs(w));
    lemma_cat_stamp(two(w.3) + two(w.4), two(secs(w)));
    lemma_stamp_plain(left);
    lemma_stamp_plain(right);
    let sp = seq![' '];
    assert(lacks_char(sp, ')') && lacks_char(sp, '/'));
    lemma_lacks_cat(left, sp, ')');
    lemma_lacks_cat(left, sp, '/');
    lemma_lacks_cat(left + sp, right, ')');
    lemma_lacks_cat(left + sp, right, '/');
    assert(conflict_stamp(t) =~= left + sp + right);
}

} // verus!
