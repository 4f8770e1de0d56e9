//! Calendar dates and instants as plain values, and the calls into `chrono`
//! that parse, shift and print them.
use vstd::prelude::*;
use crate::text::{decimal, digit_char, push_char, push_decimal, push_two_digits, zero_pad};
use chrono::{Datelike, Timelike};

verus! {

/// A proleptic Gregorian calendar date.
#[derive(Debug, Clone, Copy, PartialEq, Eq)]
pub struct CalendarDate {
    pub year: i32,
    pub month: u32,
    pub day: u32,
}

/// A UTC instant: a date, the second of that day, and the nanosecond within
/// the second (at or above 10^9 during a leap second).
#[derive(Debug, Clone, Copy, PartialEq, Eq)]
pub struct UtcInstant {
    pub date: CalendarDate,
    pub seconds_of_day: u32,
    pub nanosecond: u32,
}

/// A parsed `started` timestamp: its local date and wall-clock hour and
/// minute as written, and the UTC instant it denotes (seconds since the Unix
/// epoch and nanoseconds) by which Calls are ordered.
#[derive(Debug, Clone, Copy, PartialEq, Eq)]
pub struct StartedAt {
    pub date: CalendarDate,
    pub hour: u32,
    pub minute: u32,
    pub utc_seconds: i64,
    pub utc_nanos: u32,
}

pub open spec fn is_leap_year(y: int) -> bool {
    (y % 4 == 0 && y % 100 != 0) || y % 400 == 0
}

pub open spec fn days_in_month(y: int, m: int) -> int {
    if m == 2 {
        if is_leap_year(y) { 29 } else { 28 }
    } else if m == 4 || m == 6 || m == 9 || m == 11 {
        30
    } else {
        31
    }
}

/// A date that `chrono::NaiveDate` can hold.
pub open spec fn valid_date(d: CalendarDate) -> bool {
    &&& -262143 <= d.year <= 262142
    &&& 1 <= d.month <= 12
    &&& 1 <= d.day <= days_in_month(d.year as int, d.month as int)
}

/// An instant that `chrono::DateTime<Utc>` can hold: a nanosecond at or
/// above 10^9 (a leap second) only in the last second of a minute.
pub open spec fn valid_instant(t: UtcInstant) -> bool {
    &&& valid_date(t.date)
    &&& t.seconds_of_day < 86400
    &&& t.nanosecond < 2_000_000_000
    &&& t.nanosecond >= 1_000_000_000 ==> t.seconds_of_day % 60 == 59
}

/// Strict chronological order of dates.
pub open spec fn date_before(a: CalendarDate, b: CalendarDate) -> bool {
    ||| a.year < b.year
    ||| a.year == b.year && a.month < b.month
    ||| a.year == b.year && a.month == b.month && a.day < b.day
}

/// Strict chronological order of instants.
pub open spec fn instant_before(a: UtcInstant, b: UtcInstant) -> bool {
    ||| date_before(a.date, b.date)
    ||| a.date == b.date && a.seconds_of_day < b.seconds_of_day
    ||| a.date == b.date && a.seconds_of_day == b.seconds_of_day && a.nanosecond < b.nanosecond
}

/// Midnight at the start of a date.
pub open spec fn spec_midnight(d: CalendarDate) -> UtcInstant {
    UtcInstant { date: d, seconds_of_day: 0, nanosecond: 0 }
}

/// `YYYY-MM-DD` for a year between 0 and 9999.
pub open spec fn date_text(d: CalendarDate) -> Seq<char> {
    zero_pad(decimal(d.year as nat), 4) + seq!['-'] + zero_pad(decimal(d.month as nat), 2)
        + seq!['-'] + zero_pad(decimal(d.day as nat), 2)
}

/// `HH-MM`.
pub open spec fn hour_minute_text(hour: u32, minute: u32) -> Seq<char> {
    zero_pad(decimal(hour as nat), 2) + seq!['-'] + zero_pad(decimal(minute as nat), 2)
}

pub open spec fn is_digit(c: char) -> bool {
    '0' <= c <= '9'
}

pub open spec fn digit_value(c: char) -> int {
    c as int - '0' as int
}

/// What the RFC 3339 parser guarantees of a successful parse: the text starts
/// with `YYYY-MM-DD?hh:mm:ss` in ASCII, and the local date, hour and minute
/// are the ones written there.
pub open spec fn rfc3339_fields(text: Seq<char>, t: StartedAt) -> bool {
    &&& text.len() >= 19
    &&& is_digit(text[0]) && is_digit(text[1]) && is_digit(text[2]) && is_digit(text[3])
    &&& text[4] == '-'
    &&& is_digit(text[5]) && is_digit(text[6])
    &&& text[7] == '-'
    &&& is_digit(text[8]) && is_digit(text[9])
    &&& is_digit(text[11]) && is_digit(text[12])
    &&& text[13] == ':'
    &&& is_digit(text[14]) && is_digit(text[15])
    &&& t.date.year == 1000 * digit_value(text[0]) + 100 * digit_value(text[1]) + 10
        * digit_value(text[2]) + digit_value(text[3])
    &&& t.date.month == 10 * digit_value(text[5]) + digit_value(text[6])
    &&& t.date.day == 10 * digit_value(text[8]) + digit_value(text[9])
    &&& t.hour == 10 * digit_value(text[11]) + digit_value(text[12])
    &&& t.minute == 10 * digit_value(text[14]) + digit_value(text[15])
    &&& valid_date(t.date)
    &&& t.hour < 24
    &&& t.minute < 60
}

/// Exactly `YYYY-MM-DD` in ASCII digits.
pub open spec fn ymd_form(text: Seq<char>) -> bool {
    &&& text.len() == 10
    &&& is_digit(text[0]) && is_digit(text[1]) && is_digit(text[2]) && is_digit(text[3])
    &&& text[4] == '-'
    &&& is_digit(text[5]) && is_digit(text[6])
    &&& text[7] == '-'
    &&& is_digit(text[8]) && is_digit(text[9])
}

/// The date that `YYYY-MM-DD` digits spell.
pub open spec fn ymd_value(text: Seq<char>) -> CalendarDate {
    CalendarDate {
        year: (1000 * digit_value(text[0]) + 100 * digit_value(text[1]) + 10 * digit_value(text[2])
            + digit_value(text[3])) as i32,
        month: (10 * digit_value(text[5]) + digit_value(text[6])) as u32,
        day: (10 * digit_value(text[8]) + digit_value(text[9])) as u32,
    }
}

/// The result of `chrono::DateTime::parse_from_rfc3339`.
pub uninterp spec fn spec_parse_rfc3339(text: Seq<char>) -> Option<StartedAt>;

/// The result of `chrono::NaiveDate::parse_from_str(text, "%Y-%m-%d")`.
pub uninterp spec fn spec_parse_ymd(text: Seq<char>) -> Option<CalendarDate>;

/// The number of days from 0000-03-01 to a date (negative before it) in the
/// proleptic Gregorian calendar: whole years counted from March, so that a
/// leap day ends its year, then whole months, then days.
pub open spec fn day_number(d: CalendarDate) -> int {
    let y: int = if d.month <= 2 { d.year - 1 } else { d.year as int };
    let m: int = if d.month <= 2 { d.month + 9 } else { d.month - 3 };
    365 * y + y / 4 - y / 100 + y / 400 + (153 * m + 2) / 5 + d.day - 1
}

/// The first date `chrono::NaiveDate` holds.
pub open spec fn first_date() -> CalendarDate {
    CalendarDate { year: -262143i32, month: 1, day: 1 }
}

/// The last date `chrono::NaiveDate` holds.
pub open spec fn last_date() -> CalendarDate {
    CalendarDate { year: 262142, month: 12, day: 31 }
}

/// The date `delta` days after `d` (before it when `delta` is negative),
/// when that date lies in chrono's range.
pub open spec fn shifted(d: CalendarDate, delta: int) -> Option<CalendarDate> {
    let n = day_number(d) + delta;
    if day_number(first_date()) <= n <= day_number(last_date()) {
        Some(choose|x: CalendarDate| valid_date(x) && day_number(x) == n)
    } else {
        None
    }
}

/// The result of `DateTime::<Utc>::to_rfc3339_opts(SecondsFormat::Secs, true)`.
pub uninterp spec fn spec_rfc3339_seconds(t: UtcInstant) -> Seq<char>;

/// `YYYY-MM-DDThh:mm:ssZ` for an instant whose year lies between 0 and 9999,
/// a leap second printed as second 60.
pub open spec fn rfc3339_seconds_text(t: UtcInstant) -> Seq<char> {
    let second = t.seconds_of_day % 60 + if t.nanosecond >= 1_000_000_000 { 1int } else { 0 };
    date_text(t.date) + seq!['T'] + zero_pad(decimal((t.seconds_of_day / 3600) as nat), 2)
        + seq![':'] + zero_pad(decimal((t.seconds_of_day % 3600 / 60) as nat), 2) + seq![':']
        + zero_pad(decimal(second as nat), 2) + seq!['Z']
}

/// `chrono::DateTime::parse_from_rfc3339`: parses a `started` timestamp.  Its
/// contract names the result and states what the parser's source guarantees
/// of a success: the leading date and time digits as written, a valid date,
/// an hour below 24 and a minute below 60.  Which texts parse is not stated.
#[verifier::external_body]
pub(crate) fn parse_rfc3339(text: &str) -> (r: Option<StartedAt>)
    ensures
        r == spec_parse_rfc3339(text@),
        r matches Some(t) ==> rfc3339_fields(text@, t),
{
    match chrono::DateTime::parse_from_rfc3339(text) {
        Ok(t) => Some(StartedAt {
            date: CalendarDate { year: t.year(), month: t.month(), day: t.day() },
            hour: t.hour(),
            minute: t.minute(),
            utc_seconds: t.timestamp(),
            utc_nanos: t.timestamp_subsec_nanos(),
        }),
        Err(_) => None,
    }
}

/// `chrono::NaiveDate::parse_from_str(text, "%Y-%m-%d")`.  The contract names
/// the result, states that a parsed date is valid, and that exactly
/// `YYYY-MM-DD` in ASCII digits naming a valid date parses to that date (the
/// parser reads up to four year digits, a `-`, up to two month digits, a `-`
/// and up to two day digits, refuses trailing text, and builds the date with
/// `from_ymd_opt`).  Which other texts parse is not stated.
#[verifier::external_body]
pub(crate) fn parse_ymd(text: &str) -> (r: Option<CalendarDate>)
    ensures
        r == spec_parse_ymd(text@),
        r matches Some(d) ==> valid_date(d),
        ymd_form(text@) && valid_date(ymd_value(text@)) ==> r == Some(ymd_value(text@)),
{
    match chrono::NaiveDate::parse_from_str(text, "%Y-%m-%d") {
        Ok(d) => Some(CalendarDate { year: d.year(), month: d.month(), day: d.day() }),
        Err(_) => None,
    }
}

/// `chrono::NaiveDate::checked_add_days`: the date `days` days later, `None`
/// when it lies past the last date chrono holds (counts above `i32::MAX`
/// always do).
#[verifier::external_body]
pub(crate) fn add_days(d: CalendarDate, days: u64) -> (r: Option<CalendarDate>)
    requires
        valid_date(d),
    ensures
        r == shifted(d, days as int),
        r matches Some(x) ==> valid_date(x) && day_number(x) == day_number(d) + days,
{
    let date = chrono::NaiveDate::from_ymd_opt(d.year, d.month, d.day).unwrap();
    match date.checked_add_days(chrono::Days::new(days)) {
        Some(x) => Some(CalendarDate { year: x.year(), month: x.month(), day: x.day() }),
        None => None,
    }
}

/// `chrono::NaiveDate::checked_sub_days`: the date `days` days earlier,
/// `None` when it lies before the first date chrono holds (counts above
/// `i32::MAX` always do).
#[verifier::external_body]
pub(crate) fn sub_days(d: CalendarDate, days: u64) -> (r: Option<CalendarDate>)
    requires
        valid_date(d),
    ensures
        r == shifted(d, -(days as int)),
        r matches Some(x) ==> valid_date(x) && day_number(x) == day_number(d) - days,
{
    let date = chrono::NaiveDate::from_ymd_opt(d.year, d.month, d.day).unwrap();
    match date.checked_sub_days(chrono::Days::new(days)) {
        Some(x) => Some(CalendarDate { year: x.year(), month: x.month(), day: x.day() }),
        None => None,
    }
}

/// `DateTime::<Utc>::to_rfc3339_opts(SecondsFormat::Secs, true)`: the
/// contract names the text and, as chrono's `write_rfc3339` shows, spells it
/// out for years between 0 and 9999.
#[verifier::external_body]
pub(crate) fn format_rfc3339_seconds(t: UtcInstant) -> (r: String)
    requires
        valid_instant(t),
    ensures
        r@ == spec_rfc3339_seconds(t),
        0 <= t.date.year <= 9999 ==> r@ == rfc3339_seconds_text(t),
{
    let date = chrono::NaiveDate::from_ymd_opt(t.date.year, t.date.month, t.date.day).unwrap();
    let time = chrono::NaiveTime::from_num_seconds_from_midnight_opt(
        t.seconds_of_day,
        t.nanosecond,
    ).unwrap();
    date.and_time(time).and_utc().to_rfc3339_opts(chrono::SecondsFormat::Secs, true)
}

/// Midnight at the start of a date.
pub fn midnight(d: CalendarDate) -> (r: UtcInstant)
    ensures
        r == spec_midnight(d),
{
    UtcInstant { date: d, seconds_of_day: 0, nanosecond: 0 }
}

/// Whether `a` is a strictly earlier date than `b`.
pub fn is_date_before(a: CalendarDate, b: CalendarDate) -> (r: bool)
    ensures
        r == date_before(a, b),
{
    a.year < b.year || (a.year == b.year && a.month < b.month) || (a.year == b.year && a.month
        == b.month && a.day < b.day)
}

/// Whether `a` is a strictly earlier instant than `b`.
pub fn is_instant_before(a: UtcInstant, b: UtcInstant) -> (r: bool)
    ensures
        r == instant_before(a, b),
{
    if is_date_before(a.date, b.date) {
        true
    } else if a.date.year == b.date.year && a.date.month == b.date.month && a.date.day
        == b.date.day {
        a.seconds_of_day < b.seconds_of_day || (a.seconds_of_day == b.seconds_of_day
            && a.nanosecond < b.nanosecond)
    } else {
        false
    }
}

/// Appends `YYYY-MM-DD`.
pub fn push_date(out: &mut String, d: CalendarDate)
    requires
        0 <= d.year <= 9999,
        d.month < 100,
        d.day < 100,
    ensures
        final(out)@ == old(out)@ + date_text(d),
{
    let ghost start = out@;
    let y = d.year as u64;
    if y < 1000 {
        push_char(out, '0');
    }
    if y < 100 {
        push_char(out, '0');
    }
    if y < 10 {
        push_char(out, '0');
    }
    push_decimal(out, y);
    proof {
        lemma_zero_pad_4(y as nat);
    }
    assert(out@ == start + zero_pad(decimal(d.year as nat), 4));
    push_char(out, '-');
    push_two_digits(out, d.month as u64);
    push_char(out, '-');
    push_two_digits(out, d.day as u64);
    assert(out@ =~= start + date_text(d));
}

proof fn lemma_decimal_len_bounds(n: nat)
    ensures
        n < 10 ==> decimal(n).len() == 1,
        10 <= n < 100 ==> decimal(n).len() == 2,
        100 <= n < 1000 ==> decimal(n).len() == 3,
        1000 <= n ==> decimal(n).len() >= 4,
    decreases n,
{
    if n >= 10 {
        lemma_decimal_len_bounds(n / 10);
    }
}

proof fn lemma_zero_pad_4(n: nat)
    ensures
        n < 10 ==> zero_pad(decimal(n), 4) == seq!['0', '0', '0'] + decimal(n),
        10 <= n < 100 ==> zero_pad(decimal(n), 4) == seq!['0', '0'] + decimal(n),
        100 <= n < 1000 ==> zero_pad(decimal(n), 4) == seq!['0'] + decimal(n),
        1000 <= n ==> zero_pad(decimal(n), 4) == decimal(n),
{
    lemma_decimal_len_bounds(n);
    let d = decimal(n);
    reveal_with_fuel(zero_pad, 5);
    if n < 10 {
        assert(zero_pad(d, 1) == d);
        assert(seq!['0'] + (seq!['0'] + (seq!['0'] + d)) =~= seq!['0', '0', '0'] + d);
    } else if n < 100 {
        assert(zero_pad(d, 2) == d);
        assert(seq!['0'] + (seq!['0'] + d) =~= seq!['0', '0'] + d);
    } else if n < 1000 {
        assert(zero_pad(d, 3) == d);
    }
}

proof fn lemma_digit_value(k: nat)
    requires
        k < 10,
    ensures
        is_digit(digit_char(k)),
        digit_value(digit_char(k)) == k,
{
}

proof fn lemma_two_digits(n: nat)
    requires
        n < 100,
    ensures
        zero_pad(decimal(n), 2) == seq![digit_char(n / 10), digit_char(n % 10)],
{
    reveal_with_fuel(decimal, 3);
    reveal_with_fuel(zero_pad, 3);
    if n < 10 {
        assert(zero_pad(decimal(n), 1) == decimal(n));
        assert(seq!['0'] + seq![digit_char(n)] =~= seq![digit_char(n / 10), digit_char(n % 10)]);
    } else {
        assert(decimal(n / 10) == seq![digit_char(n / 10)]);
        assert(decimal(n) =~= seq![digit_char(n / 10), digit_char(n % 10)]);
    }
}

proof fn lemma_four_digits(n: nat)
    requires
        n < 10000,
    ensures
        zero_pad(decimal(n), 4) == seq![
            digit_char(n / 1000),
            digit_char(n / 100 % 10),
            digit_char(n / 10 % 10),
            digit_char(n % 10),
        ],
{
    lemma_zero_pad_4(n);
    reveal_with_fuel(decimal, 4);
    let want = seq![
        digit_char(n / 1000),
        digit_char(n / 100 % 10),
        digit_char(n / 10 % 10),
        digit_char(n % 10),
    ];
    if n < 10 {
        assert(seq!['0', '0', '0'] + decimal(n) =~= want);
    } else if n < 100 {
        assert(decimal(n / 10) == seq![digit_char(n / 10)]);
        assert(seq!['0', '0'] + decimal(n) =~= want);
    } else if n < 1000 {
        assert(decimal(n / 100) == seq![digit_char(n / 100)]);
        assert(n / 10 / 10 == n / 100);
        assert(n / 10 % 10 == n / 10 % 10);
        assert(seq!['0'] + decimal(n) =~= want);
    } else {
        assert(decimal(n / 1000) == seq![digit_char(n / 1000)]);
        assert(n / 10 / 10 == n / 100);
        assert(n / 100 / 10 == n / 1000);
        assert(decimal(n) =~= want);
    }
}

/// `date_text` writes a date of a four-digit year as exactly `YYYY-MM-DD`,
/// and those digits spell the date back.
pub proof fn lemma_date_text_reads_back(d: CalendarDate)
    requires
        0 <= d.year <= 9999,
        d.month < 100,
        d.day < 100,
    ensures
        ymd_form(date_text(d)),
        ymd_value(date_text(d)) == d,
{
    let y = d.year as nat;
    let m = d.month as nat;
    let dd = d.day as nat;
    lemma_four_digits(y);
    lemma_two_digits(m);
    lemma_two_digits(dd);
    lemma_digit_value(y / 1000);
    lemma_digit_value(y / 100 % 10);
    lemma_digit_value(y / 10 % 10);
    lemma_digit_value(y % 10);
    lemma_digit_value(m / 10);
    lemma_digit_value(m % 10);
    lemma_digit_value(dd / 10);
    lemma_digit_value(dd % 10);
    let t = date_text(d);
    assert(t =~= seq![
        digit_char(y / 1000),
        digit_char(y / 100 % 10),
        digit_char(y / 10 % 10),
        digit_char(y % 10),
        '-',
        digit_char(m / 10),
        digit_char(m % 10),
        '-',
        digit_char(dd / 10),
        digit_char(dd % 10),
    ]);
    assert(1000 * (y / 1000) + 100 * (y / 100 % 10) + 10 * (y / 10 % 10) + y % 10 == y);
    assert(10 * (m / 10) + m % 10 == m);
    assert(10 * (dd / 10) + dd % 10 == dd);
}

/// Appends `HH-MM`.
pub fn push_hour_minute(out: &mut String, hour: u32, minute: u32)
    ensures
        final(out)@ == old(out)@ + hour_minute_text(hour, minute),
{
    let ghost start = out@;
    push_two_digits(out, hour as u64);
    push_char(out, '-');
    push_two_digits(out, minute as u64);
    assert(out@ =~= start + hour_minute_text(hour, minute));
}

} // verus!
