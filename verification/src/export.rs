//! CSV export of the sealed readings of a shift, and calendar dates of time stamps.
use vstd::prelude::*;
use std::collections::VecDeque;
use crate::clock::now_millis;
use crate::decimal::fixed_text;
use crate::events::SignedEvent;
use crate::text::{
    all_ascii, ascii_chars, ascii_string, dec_digits, is_digit, lemma_dec_digits_shape,
    lemma_padded_digits, padded_digits, push_dec, push_padded,
};

verus! {

// ── Calendar ────────────────────────────────────────────────────────────────

/// Gregorian leap year.
pub open spec fn is_leap(y: nat) -> bool {
    (y % 4 == 0 && y % 100 != 0) || y % 400 == 0
}

/// Days in year `y`.
pub open spec fn year_days(y: nat) -> nat {
    if is_leap(y) {
        366
    } else {
        365
    }
}

/// Days in month `m` (1..=12) of year `y`.
pub open spec fn month_days(y: nat, m: nat) -> nat {
    if m == 2 {
        if is_leap(y) {
            29
        } else {
            28
        }
    } else if m == 4 || m == 6 || m == 9 || m == 11 {
        30
    } else {
        31
    }
}

/// Days from 1970-01-01 to the first day of year `y`.
pub open spec fn days_before_year(y: nat) -> nat
    decreases y,
{
    if y <= 1970 {
        0
    } else {
        days_before_year((y - 1) as nat) + year_days((y - 1) as nat)
    }
}

/// Days from the first day of year `y` to the first day of month `m`.
pub open spec fn days_before_month(y: nat, m: nat) -> nat
    decreases m,
{
    if m <= 1 {
        0
    } else {
        days_before_month(y, (m - 1) as nat) + month_days(y, (m - 1) as nat)
    }
}

/// `y-m-d` is a valid date (from 1970 on) lying `days` days after 1970-01-01.
pub open spec fn is_date_of(days: nat, y: nat, m: nat, d: nat) -> bool {
    &&& y >= 1970
    &&& 1 <= m <= 12
    &&& 1 <= d <= month_days(y, m)
    &&& days_before_year(y) + days_before_month(y, m) + d - 1 == days
}

/// The date lying `days` days after 1970-01-01.
pub open spec fn date_of(days: nat) -> (nat, nat, nat) {
    choose|t: (nat, nat, nat)| is_date_of(days, t.0, t.1, t.2)
}

proof fn lemma_dbm_step(y: nat, m: nat)
    requires
        1 <= m,
    ensures
        days_before_month(y, m + 1) == days_before_month(y, m) + month_days(y, m),
{
}

proof fn lemma_dbm_mono(y: nat, a: nat, b: nat)
    requires
        1 <= a <= b,
    ensures
        days_before_month(y, a) + (if a < b { month_days(y, a) } else { 0 }) <= days_before_month(
            y,
            b,
        ),
    decreases b - a,
{
    if a < b {
        lemma_dbm_mono(y, a + 1, b);
        lemma_dbm_step(y, a);
    }
}

proof fn lemma_dbm_year(y: nat)
    ensures
        days_before_month(y, 13) == year_days(y),
{
    reveal_with_fuel(days_before_month, 13);
}

proof fn lemma_dby_mono(a: nat, b: nat)
    requires
        1970 <= a <= b,
    ensures
        days_before_year(a) + (if a < b { year_days(a) } else { 0 }) <= days_before_year(b),
    decreases b - a,
{
    if a < b {
        lemma_dby_mono(a + 1, b);
    }
}

/// Within a valid date, the day count stays inside the year.
proof fn lemma_date_in_year(days: nat, y: nat, m: nat, d: nat)
    requires
        is_date_of(days, y, m, d),
    ensures
        days_before_year(y) <= days < days_before_year(y) + year_days(y),
        days_before_year(y) + days_before_month(y, m) <= days < days_before_year(y)
            + days_before_month(y, m) + month_days(y, m),
{
    lemma_dbm_mono(y, m, 13);
    lemma_dbm_year(y);
}

/// A day count names at most one date.
pub proof fn lemma_date_unique(days: nat, y1: nat, m1: nat, d1: nat, y2: nat, m2: nat, d2: nat)
    requires
        is_date_of(days, y1, m1, d1),
        is_date_of(days, y2, m2, d2),
    ensures
        y1 == y2 && m1 == m2 && d1 == d2,
{
    lemma_date_in_year(days, y1, m1, d1);
    lemma_date_in_year(days, y2, m2, d2);
    if y1 < y2 {
        lemma_dby_mono(y1, y2);
    } else if y2 < y1 {
        lemma_dby_mono(y2, y1);
    }
    assert(y1 == y2);
    if m1 < m2 {
        lemma_dbm_mono(y1, m1, m2);
    } else if m2 < m1 {
        lemma_dbm_mono(y1, m2, m1);
    }
}

/// Whether `year` is a Gregorian leap year.
pub fn is_leap_year(year: u64) -> (r: bool)
    ensures
        r == is_leap(year as nat),
{
    (year % 4 == 0 && year % 100 != 0) || year % 400 == 0
}

fn month_length(year: u64, month: u64) -> (r: u64)
    requires
        1 <= month <= 12,
    ensures
        r == month_days(year as nat, month as nat),
{
    if month == 2 {
        if is_leap_year(year) {
            29
        } else {
            28
        }
    } else if month == 4 || month == 6 || month == 9 || month == 11 {
        30
    } else {
        31
    }
}

fn year_length(year: u64) -> (r: u64)
    ensures
        r == year_days(year as nat),
{
    if is_leap_year(year) {
        366
    } else {
        365
    }
}

/// The date `days` days after 1970-01-01, as (year, month, day).
pub fn days_to_date(days: u64) -> (r: (u64, u64, u64))
    ensures
        is_date_of(days as nat, r.0 as nat, r.1 as nat, r.2 as nat),
        r.0 as nat == date_of(days as nat).0,
        r.1 as nat == date_of(days as nat).1,
        r.2 as nat == date_of(days as nat).2,
{
    let mut remaining = days;
    let mut year: u64 = 1970;
    while remaining >= year_length(year)
        invariant
            1970 <= year,
            (year - 1970) * 365 <= days - remaining,
            remaining <= days,
            days_before_year(year as nat) + remaining == days,
        decreases remaining,
    {
        remaining -= year_length(year);
        year += 1;
        proof {
            assert(days_before_year(year as nat) == days_before_year((year - 1) as nat)
                + year_days((year - 1) as nat));
        }
    }
    let ghost rem_year = remaining;
    proof {
        lemma_dbm_year(year as nat);
    }
    let mut month: u64 = 1;
    while month < 12 && remaining >= month_length(year, month)
        invariant
            1 <= month <= 12,
            days_before_year(year as nat) + rem_year == days,
            rem_year < year_days(year as nat),
            days_before_month(year as nat, month as nat) + remaining == rem_year,
            days_before_month(year as nat, 13) == year_days(year as nat),
        decreases 12 - month,
    {
        remaining -= month_length(year, month);
        month += 1;
        proof {
            lemma_dbm_step(year as nat, (month - 1) as nat);
        }
    }
    proof {
        if month == 12 {
            lemma_dbm_step(year as nat, 12);
        }
    }
    let r = (year, month, remaining + 1);
    proof {
        let t = date_of(days as nat);
        assert(is_date_of(days as nat, year as nat, month as nat, (remaining + 1) as nat));
        assert(exists|t: (nat, nat, nat)| is_date_of(days as nat, t.0, t.1, t.2)) by {
            let w = (year as nat, month as nat, (remaining + 1) as nat);
            assert(is_date_of(days as nat, w.0, w.1, w.2));
        }
        lemma_date_unique(
            days as nat,
            year as nat,
            month as nat,
            (remaining + 1) as nat,
            t.0,
            t.1,
            t.2,
        );
    }
    r
}

// ── Text of dates and times ─────────────────────────────────────────────────

/// "YYYY-MM-DD HH:MM:SS" (UTC) of a time stamp in milliseconds.
pub open spec fn timestamp_text(ms: nat) -> Seq<u8> {
    let secs = ms / 1000;
    let date = date_of(secs / 86400);
    padded_digits(date.0, 4) + seq![45u8] + padded_digits(date.1, 2) + seq![45u8] + padded_digits(
        date.2,
        2,
    ) + seq![32u8] + padded_digits((secs % 86400) / 3600, 2) + seq![58u8] + padded_digits(
        (secs % 3600) / 60,
        2,
    ) + seq![58u8] + padded_digits(secs % 60, 2)
}

/// "YYYYMMDD" of the date `days` days after 1970-01-01.
pub open spec fn day_stamp_text(days: nat) -> Seq<u8> {
    let date = date_of(days);
    padded_digits(date.0, 4) + padded_digits(date.1, 2) + padded_digits(date.2, 2)
}

fn push_timestamp(out: &mut Vec<u8>, ms: u64)
    ensures
        final(out)@ == old(out)@ + timestamp_text(ms as nat),
{
    let secs = ms / 1000;
    let h = (secs % 86400) / 3600;
    let m = (secs % 3600) / 60;
    let s = secs % 60;
    let days = secs / 86400;
    let (year, month, day) = days_to_date(days);
    push_padded(out, year, 4);
    out.push(45);
    push_padded(out, month, 2);
    out.push(45);
    push_padded(out, day, 2);
    out.push(32);
    push_padded(out, h, 2);
    out.push(58);
    push_padded(out, m, 2);
    out.push(58);
    push_padded(out, s, 2);
    proof {
        assert(final(out)@ =~= old(out)@ + timestamp_text(ms as nat));
    }
}

pub proof fn lemma_timestamp_ascii(ms: nat)
    ensures
        all_ascii(timestamp_text(ms)),
        forall|i: int| 0 <= i < timestamp_text(ms).len() ==> #[trigger] timestamp_text(ms)[i] != 10,
{
    let secs = ms / 1000;
    let date = date_of(secs / 86400);
    lemma_padded_digits(date.0, 4);
    lemma_padded_digits(date.1, 2);
    lemma_padded_digits(date.2, 2);
    lemma_padded_digits((secs % 86400) / 3600, 2);
    lemma_padded_digits((secs % 3600) / 60, 2);
    lemma_padded_digits(secs % 60, 2);
    let t = timestamp_text(ms);
    assert forall|i: int| 0 <= i < t.len() implies #[trigger] t[i] < 128 && t[i] != 10 by {
        let a = padded_digits(date.0, 4);
        let b = padded_digits(date.1, 2);
        let c = padded_digits(date.2, 2);
        let d = padded_digits((secs % 86400) / 3600, 2);
        let e = padded_digits((secs % 3600) / 60, 2);
        let f = padded_digits(secs % 60, 2);
        let la = a.len() as int;
        let lb = la + 1 + b.len();
        let lc = lb + 1 + c.len();
        let ld = lc + 1 + d.len();
        let le = ld + 1 + e.len();
        if i < la {
            assert(is_digit(a[i]));
        } else if i == la {
        } else if i < lb {
            assert(is_digit(b[i - la - 1]));
        } else if i == lb {
        } else if i < lc {
            assert(is_digit(c[i - lb - 1]));
        } else if i == lc {
        } else if i < ld {
            assert(is_digit(d[i - lc - 1]));
        } else if i == ld {
        } else if i < le {
            assert(is_digit(e[i - ld - 1]));
        } else if i == le {
        } else {
            assert(is_digit(f[i - le - 1]));
        }
    }
}

/// "YYYY-MM-DD HH:MM:SS" (UTC) of a time stamp in milliseconds.
pub fn format_timestamp(ms: u64) -> (r: String)
    ensures
        r@ == ascii_chars(timestamp_text(ms as nat)),
{
    let mut out: Vec<u8> = Vec::new();
    push_timestamp(&mut out, ms);
    proof {
        lemma_timestamp_ascii(ms as nat);
        assert(out@ =~= timestamp_text(ms as nat));
    }
    ascii_string(out)
}

/// "YYYYMMDD" of the date `days` days after 1970-01-01.
pub fn date_stamp(days: u64) -> (r: String)
    ensures
        r@ == ascii_chars(day_stamp_text(days as nat)),
{
    let (year, month, day) = days_to_date(days);
    let mut out: Vec<u8> = Vec::new();
    push_padded(&mut out, year, 4);
    push_padded(&mut out, month, 2);
    push_padded(&mut out, day, 2);
    proof {
        let date = date_of(days as nat);
        lemma_padded_digits(date.0, 4);
        lemma_padded_digits(date.1, 2);
        lemma_padded_digits(date.2, 2);
        let t = day_stamp_text(days as nat);
        assert(out@ =~= t);
        assert forall|i: int| 0 <= i < t.len() implies #[trigger] t[i] < 128 by {
            let a = padded_digits(date.0, 4);
            let b = padded_digits(date.1, 2);
            let c = padded_digits(date.2, 2);
            if i < a.len() {
                assert(is_digit(a[i]));
            } else if i < a.len() + b.len() {
                assert(is_digit(b[i - a.len()]));
            } else {
                assert(is_digit(c[i - a.len() - b.len()]));
            }
        }
    }
    ascii_string(out)
}

/// The UTC date, "YYYYMMDD", of the clock reading `ms` (milliseconds since
/// the epoch): the date of its whole days.
pub fn day_stamp_at(ms: u64) -> (r: String)
    ensures
        r@ == ascii_chars(day_stamp_text(ms as nat / 86_400_000)),
{
    let r = date_stamp(ms / 1000 / 86400);
    assert(ms / 1000 / 86400 == ms / 86_400_000) by (nonlinear_arith);
    r
}

/// Today's UTC date as "YYYYMMDD": [`day_stamp_at`] of the clock reading.
pub fn today_str() -> (r: String)
    ensures
        exists|ms: u64| r@ == ascii_chars(#[trigger] day_stamp_text(ms as nat / 86_400_000)),
{
    let ms = now_millis();
    day_stamp_at(ms)
}

// ── CSV ─────────────────────────────────────────────────────────────────────

/// Header line of the export.
pub open spec fn csv_header() -> Seq<char> {
    "id,fecha_hora,timestamp_ms,valor,unidad,estable,hmac\n"@
}

/// The leading, purely numeric fields of a row: id, date-time, time stamp and value.
pub open spec fn row_prefix(e: SignedEvent) -> Seq<u8> {
    dec_digits(e.id as nat) + seq![44u8] + timestamp_text(e.timestamp_ms as nat) + seq![44u8]
        + dec_digits(e.timestamp_ms as nat) + seq![44u8] + fixed_text(e.value@, 6) + seq![44u8]
}

/// One CSV line: `id,fecha_hora,timestamp_ms,valor(6 decimals),unidad,estable,hmac`.
pub open spec fn csv_row(e: SignedEvent) -> Seq<char> {
    ascii_chars(row_prefix(e)) + e.unit@ + ","@ + (if e.stable {
        "true"@
    } else {
        "false"@
    }) + ","@ + e.hmac@ + "\n"@
}

/// The rows of `events`, in order.
pub open spec fn csv_rows(events: Seq<SignedEvent>) -> Seq<char>
    decreases events.len(),
{
    if events.len() == 0 {
        Seq::empty()
    } else {
        csv_rows(events.drop_last()) + csv_row(events.last())
    }
}

/// The whole export: header, then one row per event.
pub open spec fn csv_text(events: Seq<SignedEvent>) -> Seq<char> {
    csv_header() + csv_rows(events)
}

proof fn lemma_row_prefix_ascii(e: SignedEvent)
    ensures
        all_ascii(row_prefix(e)),
        forall|i: int| 0 <= i < row_prefix(e).len() ==> #[trigger] row_prefix(e)[i] != 10,
{
    lemma_dec_digits_shape(e.id as nat);
    lemma_dec_digits_shape(e.timestamp_ms as nat);
    lemma_timestamp_ascii(e.timestamp_ms as nat);
    crate::decimal::lemma_fixed_ascii_shape(e.value@, 6);
    let a = dec_digits(e.id as nat);
    let b = timestamp_text(e.timestamp_ms as nat);
    let c = dec_digits(e.timestamp_ms as nat);
    let d = fixed_text(e.value@, 6);
    let p = row_prefix(e);
    assert forall|i: int| 0 <= i < p.len() implies #[trigger] p[i] < 128 && p[i] != 10 by {
        let la = a.len() as int;
        let lb = la + 1 + b.len();
        let lc = lb + 1 + c.len();
        let ld = lc + 1 + d.len();
        if i < la {
            assert(is_digit(a[i]));
        } else if i == la {
        } else if i < lb {
            assert(b[i - la - 1] < 128 && b[i - la - 1] != 10);
        } else if i == lb {
        } else if i < lc {
            assert(is_digit(c[i - lb - 1]));
        } else if i == lc {
        } else if i < ld {
            let x = d[i - lc - 1];
            assert(crate::text::is_digit(x) || x == 45 || x == 46);
        } else {
        }
    }
}

fn append_row(out: &mut String, e: &SignedEvent)
    ensures
        final(out)@ == old(out)@ + csv_row(*e),
{
    let mut prefix: Vec<u8> = Vec::new();
    push_dec(&mut prefix, e.id);
    prefix.push(44);
    push_timestamp(&mut prefix, e.timestamp_ms);
    prefix.push(44);
    push_dec(&mut prefix, e.timestamp_ms);
    prefix.push(44);
    let v = e.value.fixed(6);
    prefix.extend_from_slice(v.as_slice());
    prefix.push(44);
    proof {
        assert(prefix@ =~= row_prefix(*e));
        lemma_row_prefix_ascii(*e);
    }
    let head = ascii_string(prefix);
    out.append(head.as_str());
    out.append(e.unit.as_str());
    out.append(",");
    if e.stable {
        out.append("true");
    } else {
        out.append("false");
    }
    out.append(",");
    out.append(e.hmac.as_str());
    out.append("\n");
    proof {
        assert(final(out)@ =~= old(out)@ + csv_row(*e));
    }
}

/// The sealed readings of the shift as CSV (compatible with spreadsheet tools).
pub fn to_csv(events: &VecDeque<SignedEvent>) -> (r: String)
    ensures
        r@ == csv_text(events@),
{
    let mut out = "id,fecha_hora,timestamp_ms,valor,unidad,estable,hmac\n".to_owned();
    let mut i: usize = 0;
    while i < events.len()
        invariant
            i <= events@.len(),
            out@ == csv_header() + csv_rows(events@.subrange(0, i as int)),
        decreases events@.len() - i,
    {
        let e = &events[i];
        append_row(&mut out, e);
        proof {
            let s = events@.subrange(0, i + 1);
            assert(s.drop_last() =~= events@.subrange(0, i as int));
            assert(out@ =~= csv_header() + csv_rows(s));
        }
        i += 1;
    }
    proof {
        assert(events@.subrange(0, events@.len() as int) =~= events@);
    }
    out
}

/// Number of line feeds in `s`.
pub open spec fn count_newlines(s: Seq<char>) -> nat
    decreases s.len(),
{
    if s.len() == 0 {
        0
    } else {
        count_newlines(s.drop_last()) + if s.last() == '\n' {
            1nat
        } else {
            0nat
        }
    }
}

proof fn lemma_count_newlines_concat(a: Seq<char>, b: Seq<char>)
    ensures
        count_newlines(a + b) == count_newlines(a) + count_newlines(b),
    decreases b.len(),
{
    if b.len() == 0 {
        assert(a + b =~= a);
    } else {
        lemma_count_newlines_concat(a, b.drop_last());
        assert((a + b).drop_last() =~= a + b.drop_last());
    }
}

proof fn lemma_no_newline(s: Seq<char>)
    requires
        forall|i: int| 0 <= i < s.len() ==> #[trigger] s[i] != '\n',
    ensures
        count_newlines(s) == 0,
    decreases s.len(),
{
    if s.len() > 0 {
        lemma_no_newline(s.drop_last());
    }
}

/// Neither the unit nor the seal of `e` holds a line feed.
pub open spec fn single_line_fields(e: SignedEvent) -> bool {
    &&& forall|i: int| 0 <= i < e.unit@.len() ==> #[trigger] e.unit@[i] != '\n'
    &&& forall|i: int| 0 <= i < e.hmac@.len() ==> #[trigger] e.hmac@[i] != '\n'
}

proof fn lemma_row_one_line(e: SignedEvent)
    requires
        single_line_fields(e),
    ensures
        count_newlines(csv_row(e)) == 1,
        csv_row(e).last() == '\n',
{
    reveal_strlit(",");
    reveal_strlit("true");
    reveal_strlit("false");
    reveal_strlit("\n");
    lemma_row_prefix_ascii(e);
    let p = ascii_chars(row_prefix(e));
    assert forall|i: int| 0 <= i < p.len() implies #[trigger] p[i] != '\n' by {
        let b = row_prefix(e)[i];
        assert(b < 128 && b != 10);
        assert(p[i] == b as char);
    }
    lemma_no_newline(p);
    lemma_no_newline(e.unit@);
    lemma_no_newline(e.hmac@);
    let st: Seq<char> = if e.stable {
        "true"@
    } else {
        "false"@
    };
    lemma_no_newline(st);
    lemma_no_newline(","@);
    let r = csv_row(e);
    lemma_count_newlines_concat(p, e.unit@);
    lemma_count_newlines_concat(p + e.unit@, ","@);
    lemma_count_newlines_concat(p + e.unit@ + ","@, st);
    lemma_count_newlines_concat(p + e.unit@ + ","@ + st, ","@);
    lemma_count_newlines_concat(p + e.unit@ + ","@ + st + ","@, e.hmac@);
    lemma_count_newlines_concat(p + e.unit@ + ","@ + st + ","@ + e.hmac@, "\n"@);
    assert(count_newlines("\n"@) == 1) by {
        assert("\n"@.len() == 1);
        assert("\n"@.last() == '\n');
        assert("\n"@.drop_last() =~= Seq::<char>::empty());
        assert(count_newlines(Seq::<char>::empty()) == 0);
    }
}

#[verifier::rlimit(50)]
proof fn lemma_header_one_line()
    ensures
        count_newlines(csv_header()) == 1,
        csv_header().last() == '\n',
{
    reveal_strlit("id,fecha_hora,timestamp_ms,valor,unidad,estable,hmac\n");
    let h = csv_header();
    let body = h.drop_last();
    assert(h.len() == 53);
    assert(h[52] == '\n');
    assert forall|i: int| 0 <= i < body.len() implies #[trigger] body[i] != '\n' by {
        assert(body[i] == h[i]);
    }
    lemma_no_newline(body);
}

/// The export has one line for the header and one per reading, in order,
/// each ended by a line feed (when no unit or seal holds a line feed).
pub proof fn lemma_csv_one_line_per_event(events: Seq<SignedEvent>)
    requires
        forall|i: int| 0 <= i < events.len() ==> #[trigger] single_line_fields(events[i]),
    ensures
        count_newlines(csv_text(events)) == events.len() + 1,
        csv_text(events).last() == '\n',
    decreases events.len(),
{
    if events.len() == 0 {
        let h = csv_header();
        assert(csv_text(events) =~= h);
        lemma_header_one_line();
    } else {
        let init = events.drop_last();
        assert forall|i: int| 0 <= i < init.len() implies #[trigger] single_line_fields(init[i]) by {
            assert(init[i] == events[i]);
        }
        lemma_csv_one_line_per_event(init);
        assert(single_line_fields(events[events.len() - 1]));
        lemma_row_one_line(events.last());
        assert(csv_text(events) =~= csv_text(init) + csv_row(events.last()));
        lemma_count_newlines_concat(csv_text(init), csv_row(events.last()));
    }
}

/// The fields of a row, in order and separated by commas: the id in decimal,
/// the UTC date-time "YYYY-MM-DD HH:MM:SS", the time stamp in milliseconds,
/// the value with six decimals, the unit, "true" or "false" for stability,
/// and the whole seal text; the row ends with a line feed.
pub proof fn lemma_csv_row_fields(e: SignedEvent)
    ensures
        csv_row(e) == ascii_chars(dec_digits(e.id as nat)) + ","@ + ascii_chars(
            timestamp_text(e.timestamp_ms as nat),
        ) + ","@ + ascii_chars(dec_digits(e.timestamp_ms as nat)) + ","@ + ascii_chars(
            fixed_text(e.value@, 6),
        ) + ","@ + e.unit@ + ","@ + (if e.stable {
            "true"@
        } else {
            "false"@
        }) + ","@ + e.hmac@ + "\n"@,
{
    reveal_strlit(",");
    let a = dec_digits(e.id as nat);
    let b = timestamp_text(e.timestamp_ms as nat);
    let c = dec_digits(e.timestamp_ms as nat);
    let d = fixed_text(e.value@, 6);
    let comma = seq![44u8];
    assert(ascii_chars(comma) =~= ","@);
    let p = a + comma + b + comma + c + comma + d + comma;
    assert(row_prefix(e) == p);
    assert(ascii_chars(p) =~= ascii_chars(a) + ","@ + ascii_chars(b) + ","@ + ascii_chars(c)
        + ","@ + ascii_chars(d) + ","@);
}

/// Each row ends with a comma, the event's whole seal text and a line feed,
/// whatever the seal's length: an exported reading keeps the seal it can be
/// verified against.
pub proof fn lemma_csv_row_ends_with_seal(e: SignedEvent)
    ensures
        csv_row(e).len() >= e.hmac@.len() + 2,
        csv_row(e).subrange(csv_row(e).len() - e.hmac@.len() - 2, csv_row(e).len() as int)
            == ","@ + e.hmac@ + "\n"@,
{
    let r = csv_row(e);
    let head = ascii_chars(row_prefix(e)) + e.unit@ + ","@ + (if e.stable {
        "true"@
    } else {
        "false"@
    });
    let tail = ","@ + e.hmac@ + "\n"@;
    assert(r =~= head + tail);
    reveal_strlit(",");
    reveal_strlit("\n");
    assert(tail.len() == e.hmac@.len() + 2);
    assert(r.subrange(head.len() as int, r.len() as int) =~= tail);
}

/// The rows of `a + b` are the rows of `a` followed by the rows of `b`.
#[verifier::rlimit(100)]
pub proof fn lemma_csv_rows_concat(a: Seq<SignedEvent>, b: Seq<SignedEvent>)
    ensures
        csv_rows(a + b) == csv_rows(a) + csv_rows(b),
    decreases b.len(),
{
    if b.len() == 0 {
        assert(a + b =~= a);
        assert(csv_rows(a) + csv_rows(b) =~= csv_rows(a));
    } else {
        let b1 = b.drop_last();
        lemma_csv_rows_concat(a, b1);
        assert((a + b).drop_last() =~= a + b1);
        assert((a + b).last() == b.last());
        let ra = csv_rows(a);
        let rb1 = csv_rows(b1);
        let last = csv_row(b.last());
        assert(csv_rows(a + b) == csv_rows(a + b1) + last);
        assert(csv_rows(b) == rb1 + last);
        assert((ra + rb1) + last =~= ra + (rb1 + last));
    }
}

/// The export holds the header, then each event's row in the order of the
/// events: the `i`-th event's row stands between the rows of the events
/// before it and those after it.
pub proof fn lemma_csv_row_order(events: Seq<SignedEvent>, i: int)
    requires
        0 <= i < events.len(),
    ensures
        csv_text(events) == csv_header() + csv_rows(events.take(i)) + csv_row(events[i])
            + csv_rows(events.skip(i + 1)),
{
    let x = events.take(i);
    let y = seq![events[i]];
    let z = events.skip(i + 1);
    assert(events =~= x + y + z);
    lemma_csv_rows_concat(x + y, z);
    lemma_csv_rows_concat(x, y);
    assert(y.drop_last() =~= Seq::<SignedEvent>::empty());
    assert(csv_rows(y.drop_last()) == Seq::<char>::empty());
    assert(csv_rows(y) == Seq::<char>::empty() + csv_row(events[i]));
    assert(csv_rows(y) =~= csv_row(events[i]));
    assert(csv_text(events) =~= csv_header() + csv_rows(x) + csv_row(events[i]) + csv_rows(z));
}

/// File name of a shift export dated `stamp`: "pesajes_{stamp}.csv".
pub fn csv_file_name(stamp: &str) -> (r: String)
    ensures
        r@ == "pesajes_"@ + stamp@ + ".csv"@,
{
    let mut out = "pesajes_".to_owned();
    out.append(stamp);
    out.append(".csv");
    out
}

/// `Content-Disposition` value offering a shift export dated `stamp` for download.
pub fn csv_attachment(stamp: &str) -> (r: String)
    ensures
        r@ == "attachment; filename=\""@ + "pesajes_"@ + stamp@ + ".csv"@ + "\""@,
{
    let name = csv_file_name(stamp);
    let mut out = "attachment; filename=\"".to_owned();
    out.append(name.as_str());
    out.append("\"");
    out
}

} // verus!
