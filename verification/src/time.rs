//! Calendar dates and local datetimes as plain values: validity, ordering,
//! elapsed-minute arithmetic, the fixed datetime text format of journal
//! lines, and parsing of user-supplied date and time overrides.

use vstd::prelude::*;

use crate::numtext::{
    append_pad2, append_pad4, digit_char, digit_val, is_digit_char, find_char_from, first_index_of, pad2, pad4, parse_digits_range,
    read2, read4, spec_parse_digits, spec_read2, spec_read4,
};

use chrono::{Datelike, Timelike};

verus! {

/// A calendar date.
#[derive(Clone, Copy, PartialEq, Eq, Structural, Debug)]
pub struct Date {
    pub year: u16,
    pub month: u8,
    pub day: u8,
}

/// A local datetime with second precision.
#[derive(Clone, Copy, PartialEq, Eq, Structural, Debug)]
pub struct DateTime {
    pub date: Date,
    pub hour: u8,
    pub minute: u8,
    pub second: u8,
}

pub open spec fn is_leap_year(y: int) -> bool {
    (y % 4 == 0 && y % 100 != 0) || y % 400 == 0
}

/// The number of days of month `m` (1-based) in year `y`.
pub open spec fn days_in_month(y: int, m: int) -> int {
    if m == 1 {
        31
    } else if m == 2 {
        if is_leap_year(y) {
            29
        } else {
            28
        }
    } else if m == 3 {
        31
    } else if m == 4 {
        30
    } else if m == 5 {
        31
    } else if m == 6 {
        30
    } else if m == 7 {
        31
    } else if m == 8 {
        31
    } else if m == 9 {
        30
    } else if m == 10 {
        31
    } else if m == 11 {
        30
    } else {
        31
    }
}

impl Date {
    /// A valid calendar date within the four-digit-year range of the journal
    /// text format.
    pub open spec fn wf(self) -> bool {
        &&& 1 <= self.year <= 9999
        &&& 1 <= self.month <= 12
        &&& 1 <= self.day <= days_in_month(self.year as int, self.month as int)
    }
}

impl DateTime {
    pub open spec fn wf(self) -> bool {
        &&& self.date.wf()
        &&& self.hour <= 23
        &&& self.minute <= 59
        &&& self.second <= 59
    }
}

/// Strict "earlier than" on calendar dates.
pub open spec fn date_lt(a: Date, b: Date) -> bool {
    ||| a.year < b.year
    ||| (a.year == b.year && a.month < b.month)
    ||| (a.year == b.year && a.month == b.month && a.day < b.day)
}

/// The number of leap years in `1..y`.
pub open spec fn leap_years_before(y: int) -> int
    recommends
        y >= 1,
{
    (y - 1) / 4 - (y - 1) / 100 + (y - 1) / 400
}

/// The number of days in year `y` before the first day of month `m`.
pub open spec fn days_before_month(y: int, m: int) -> int {
    let leap: int = if is_leap_year(y) {
        1
    } else {
        0
    };
    if m == 1 {
        0
    } else if m == 2 {
        31
    } else if m == 3 {
        59 + leap
    } else if m == 4 {
        90 + leap
    } else if m == 5 {
        120 + leap
    } else if m == 6 {
        151 + leap
    } else if m == 7 {
        181 + leap
    } else if m == 8 {
        212 + leap
    } else if m == 9 {
        243 + leap
    } else if m == 10 {
        273 + leap
    } else if m == 11 {
        304 + leap
    } else {
        334 + leap
    }
}

/// The number of days from the first day of year 1 to the given date.
pub open spec fn days_from_civil(d: Date) -> int {
    365 * (d.year - 1) + leap_years_before(d.year as int) + days_before_month(
        d.year as int,
        d.month as int,
    ) + (d.day - 1)
}

/// The number of seconds from the first instant of year 1 to the given
/// datetime.
pub open spec fn total_seconds(dt: DateTime) -> int {
    days_from_civil(dt.date) * 86400 + dt.hour * 3600 + dt.minute * 60 + dt.second
}

/// The number of whole minutes from `a` to `b`, rounded toward zero and
/// negative when `b` is earlier than `a`.
pub open spec fn minutes_between(a: DateTime, b: DateTime) -> int {
    if total_seconds(b) >= total_seconds(a) {
        (total_seconds(b) - total_seconds(a)) / 60
    } else {
        -((total_seconds(a) - total_seconds(b)) / 60)
    }
}

/// The total-second count of a well-formed datetime is nonnegative and well
/// below `2^40`.
pub proof fn lemma_total_seconds_bounds(dt: DateTime)
    requires
        dt.wf(),
    ensures
        0 <= total_seconds(dt) < 0x50_0000_0000,
{
    let y = dt.date.year as int;
    assert(0 <= (y - 1) / 4 <= 2499);
    assert(0 <= (y - 1) / 100 <= 99);
    assert(0 <= (y - 1) / 400 <= 24);
    assert((y - 1) / 100 * 100 <= y - 1);
    assert((y - 1) / 4 * 4 + 3 >= y - 1);
    assert((y - 1) / 100 <= (y - 1) / 4);
    assert(0 <= days_before_month(y, dt.date.month as int) <= 335);
    assert(0 <= days_from_civil(dt.date) < 3_660_000);
}

pub fn is_leap_year_exec(y: u16) -> (r: bool)
    ensures
        r == is_leap_year(y as int),
{
    (y % 4 == 0 && y % 100 != 0) || y % 400 == 0
}

pub fn days_in_month_exec(y: u16, m: u8) -> (r: u8)
    requires
        1 <= m <= 12,
    ensures
        r == days_in_month(y as int, m as int),
{
    if m == 2 {
        if is_leap_year_exec(y) {
            29
        } else {
            28
        }
    } else if m == 4 || m == 6 || m == 9 || m == 11 {
        30
    } else {
        31
    }
}

impl Date {
    /// A date from its fields, or `None` when they do not name a valid
    /// calendar date.
    pub fn new(year: u16, month: u8, day: u8) -> (r: Option<Date>)
        ensures
            match r {
                Some(d) => d.wf() && d.year == year && d.month == month && d.day == day,
                None => !(Date { year, month, day }).wf(),
            },
    {
        if 1 <= year && year <= 9999 && 1 <= month && month <= 12 && 1 <= day && day
            <= days_in_month_exec(year, month) {
            Some(Date { year, month, day })
        } else {
            None
        }
    }

    /// Strict "earlier than".
    pub fn before(&self, other: &Date) -> (r: bool)
        ensures
            r == date_lt(*self, *other),
    {
        self.year < other.year || (self.year == other.year && self.month < other.month) || (
        self.year == other.year && self.month == other.month && self.day < other.day)
    }
}

impl DateTime {
    /// A datetime from a date and a time of day, or `None` when a component
    /// is out of range.
    pub fn new(date: Date, hour: u8, minute: u8, second: u8) -> (r: Option<DateTime>)
        requires
            date.wf(),
        ensures
            match r {
                Some(dt) => dt.wf() && dt.date == date && dt.hour == hour && dt.minute == minute
                    && dt.second == second,
                None => !(DateTime { date, hour, minute, second }).wf(),
            },
    {
        if hour <= 23 && minute <= 59 && second <= 59 {
            Some(DateTime { date, hour, minute, second })
        } else {
            None
        }
    }

    /// The calendar-date part.
    pub fn date(&self) -> (r: Date)
        ensures
            r == self.date,
    {
        self.date
    }
}

/// The number of days from the first day of year 1 to the given date, as a
/// machine integer.
fn days_from_civil_exec(d: &Date) -> (r: u64)
    requires
        d.wf(),
    ensures
        r == days_from_civil(*d),
{
    let y = d.year as u64;
    let a = (y - 1) / 4;
    let b = (y - 1) / 100;
    let c = (y - 1) / 400;
    assert(b <= a);
    let leap: u64 = if is_leap_year_exec(d.year) {
        1
    } else {
        0
    };
    let dbm: u64 = if d.month == 1 {
        0
    } else if d.month == 2 {
        31
    } else if d.month == 3 {
        59 + leap
    } else if d.month == 4 {
        90 + leap
    } else if d.month == 5 {
        120 + leap
    } else if d.month == 6 {
        151 + leap
    } else if d.month == 7 {
        181 + leap
    } else if d.month == 8 {
        212 + leap
    } else if d.month == 9 {
        243 + leap
    } else if d.month == 10 {
        273 + leap
    } else if d.month == 11 {
        304 + leap
    } else {
        334 + leap
    };
    365 * (y - 1) + a - b + c + dbm + (d.day as u64 - 1)
}

/// The number of seconds from the first instant of year 1 to the given
/// datetime, as a machine integer.
pub fn total_seconds_exec(dt: &DateTime) -> (r: u64)
    requires
        dt.wf(),
    ensures
        r == total_seconds(*dt),
        r < 0x50_0000_0000,
{
    proof {
        lemma_total_seconds_bounds(*dt);
    }
    let days = days_from_civil_exec(&dt.date);
    days * 86400 + (dt.hour as u64) * 3600 + (dt.minute as u64) * 60 + (dt.second as u64)
}

/// The fixed 19-character text form of a datetime in a journal line:
/// zero-padded `YYYY-MM-DD HH:MM:SS`.
pub open spec fn dt_chars(dt: DateTime) -> Seq<char> {
    pad4(dt.date.year as int) + seq!['-'] + pad2(dt.date.month as int) + seq!['-'] + pad2(
        dt.date.day as int,
    ) + seq![' '] + pad2(dt.hour as int) + seq![':'] + pad2(dt.minute as int) + seq![':'] + pad2(
        dt.second as int,
    )
}

/// Parses a 19-character region as a datetime; `None` unless it has the
/// fixed shape and names a valid datetime.
pub open spec fn spec_parse_dt(s: Seq<char>) -> Option<DateTime> {
    if s.len() == 19 && s[4] == '-' && s[7] == '-' && s[10] == ' ' && s[13] == ':' && s[16] == ':' {
        match (
            spec_read4(s, 0),
            spec_read2(s, 5),
            spec_read2(s, 8),
            spec_read2(s, 11),
            spec_read2(s, 14),
            spec_read2(s, 17),
        ) {
            (Some(y), Some(mo), Some(d), Some(h), Some(mi), Some(sec)) => {
                let dt = DateTime {
                    date: Date { year: y as u16, month: mo as u8, day: d as u8 },
                    hour: h as u8,
                    minute: mi as u8,
                    second: sec as u8,
                };
                if dt.wf() {
                    Some(dt)
                } else {
                    None
                }
            },
            _ => None,
        }
    } else {
        None
    }
}

/// Appends the fixed text form of a datetime to `out`.
pub fn append_dt(out: &mut String, dt: &DateTime)
    requires
        dt.wf(),
    ensures
        final(out)@ == old(out)@ + dt_chars(*dt),
{
    proof {
        reveal_strlit("-");
        reveal_strlit(" ");
        reveal_strlit(":");
    }
    append_pad4(out, dt.date.year);
    out.append("-");
    append_pad2(out, dt.date.month);
    out.append("-");
    append_pad2(out, dt.date.day);
    out.append(" ");
    append_pad2(out, dt.hour);
    out.append(":");
    append_pad2(out, dt.minute);
    out.append(":");
    append_pad2(out, dt.second);
    assert(final(out)@ =~= old(out)@ + dt_chars(*dt));
}

/// Parses the 19 characters at `at` as a datetime.
#[verifier::rlimit(60)]
pub fn parse_dt_at(s: &str, at: usize) -> (r: Option<DateTime>)
    requires
        at <= usize::MAX - 19,
        at + 19 <= s@.len(),
    ensures
        r == spec_parse_dt(s@.subrange(at as int, at as int + 19)),
{
    let ghost sub = s@.subrange(at as int, at as int + 19);
    if !(s.get_char(at + 4) == '-' && s.get_char(at + 7) == '-' && s.get_char(at + 10) == ' '
        && s.get_char(at + 13) == ':' && s.get_char(at + 16) == ':') {
        return None;
    }
    let y = read4(s, at);
    let mo = read2(s, at + 5);
    let d = read2(s, at + 8);
    let h = read2(s, at + 11);
    let mi = read2(s, at + 14);
    let sec = read2(s, at + 17);
    proof {
        assert forall|i: int| 0 <= i < 19 implies #[trigger] sub[i] == s@[at + i] by {}
        assert(spec_read4(sub, 0) == spec_read4(s@, at as int));
        assert(spec_read2(sub, 5) == spec_read2(s@, at as int + 5));
        assert(spec_read2(sub, 8) == spec_read2(s@, at as int + 8));
        assert(spec_read2(sub, 11) == spec_read2(s@, at as int + 11));
        assert(spec_read2(sub, 14) == spec_read2(s@, at as int + 14));
        assert(spec_read2(sub, 17) == spec_read2(s@, at as int + 17));
    }
    match (y, mo, d, h, mi, sec) {
        (Some(y), Some(mo), Some(d), Some(h), Some(mi), Some(sec)) => {
            if !(1 <= y && y <= 9999) {
                return None;
            }
            if !(1 <= mo && mo <= 12) {
                return None;
            }
            let month = (mo % 100) as u8;
            let day = (d % 100) as u8;
            if !(1 <= day && day <= days_in_month_exec(y, month)) {
                return None;
            }
            if !(h <= 23 && mi <= 59 && sec <= 59) {
                return None;
            }
            Some(
                DateTime {
                    date: Date { year: y, month, day },
                    hour: (h % 100) as u8,
                    minute: (mi % 100) as u8,
                    second: (sec % 100) as u8,
                },
            )
        },
        _ => None,
    }
}

/// Rendering a well-formed datetime and parsing the result yields the same
/// datetime.
pub proof fn lemma_dt_roundtrip(dt: DateTime)
    requires
        dt.wf(),
    ensures
        dt_chars(dt).len() == 19,
        spec_parse_dt(dt_chars(dt)) == Some(dt),
        forall|i: int| 0 <= i < 19 ==> is_digit_char(#[trigger] dt_chars(dt)[i]) || dt_chars(dt)[i]
            == '-' || dt_chars(dt)[i] == ' ' || dt_chars(dt)[i] == ':',
{
    let s = dt_chars(dt);
    let y = dt.date.year as int;
    let mo = dt.date.month as int;
    let d = dt.date.day as int;
    let h = dt.hour as int;
    let mi = dt.minute as int;
    let sec = dt.second as int;
    assert(s =~= seq![
        pad4(y)[0],
        pad4(y)[1],
        pad4(y)[2],
        pad4(y)[3],
        '-',
        pad2(mo)[0],
        pad2(mo)[1],
        '-',
        pad2(d)[0],
        pad2(d)[1],
        ' ',
        pad2(h)[0],
        pad2(h)[1],
        ':',
        pad2(mi)[0],
        pad2(mi)[1],
        ':',
        pad2(sec)[0],
        pad2(sec)[1],
    ]);
    crate::numtext::lemma_pad4_val(y);
    crate::numtext::lemma_pad2_val(mo);
    crate::numtext::lemma_pad2_val(d);
    crate::numtext::lemma_pad2_val(h);
    crate::numtext::lemma_pad2_val(mi);
    crate::numtext::lemma_pad2_val(sec);
    assert(spec_read4(s, 0) == Some(y));
    assert(spec_read2(s, 5) == Some(mo));
    assert(spec_read2(s, 8) == Some(d));
    assert(spec_read2(s, 11) == Some(h));
    assert(spec_read2(s, 14) == Some(mi));
    assert(spec_read2(s, 17) == Some(sec));
}

/// The number of whole minutes from `a` to `b`, rounded toward zero.
pub fn minutes_between_exec(a: &DateTime, b: &DateTime) -> (r: i64)
    requires
        a.wf(),
        b.wf(),
    ensures
        r == minutes_between(*a, *b),
        -0x2_0000_0000i64 <= r <= 0x2_0000_0000i64,
{
    let sa = total_seconds_exec(a);
    let sb = total_seconds_exec(b);
    if sb >= sa {
        ((sb - sa) / 60) as i64
    } else {
        -(((sa - sb) / 60) as i64)
    }
}

/// Reads the local wall clock.
///
/// Relies on `chrono::Local::now` and the `chrono` `Datelike`/`Timelike`
/// accessors, whose documentation promises: month in `1..=12`, day of month
/// in `1..=31`, hour in `0..=23`, minute and second in `0..=59`. Nothing is
/// promised of the year, and nothing of which instant is read.
#[verifier::external_body]
fn clock_now_parts() -> (r: (i64, i64, i64, i64, i64, i64))
    ensures
        1 <= r.1 <= 12,
        1 <= r.2 <= 31,
        0 <= r.3 <= 23,
        0 <= r.4 <= 59,
        0 <= r.5 <= 59,
{
    let t = chrono::Local::now();
    (
        t.year() as i64,
        t.month() as i64,
        t.day() as i64,
        t.hour() as i64,
        t.minute() as i64,
        t.second() as i64,
    )
}

/// The current local datetime, or `None` when the clock reports an instant
/// that the journal's four-digit-year text format cannot carry.
pub fn now_local() -> (r: Option<DateTime>)
    ensures
        r matches Some(dt) ==> dt.wf(),
{
    let (y, mo, d, h, mi, s) = clock_now_parts();
    if y < 1 || y > 9999 {
        return None;
    }
    match Date::new(y as u16, mo as u8, d as u8) {
        None => None,
        Some(date) => DateTime::new(date, h as u8, mi as u8, s as u8),
    }
}

/// Whether the text is exactly the word `now`.
fn is_now(s: &str) -> (r: bool)
    ensures
        r == (s@ == "now"@),
{
    proof {
        reveal_strlit("now");
    }
    let len = s.unicode_len();
    if len != 3 {
        return false;
    }
    let r = s.get_char(0) == 'n' && s.get_char(1) == 'o' && s.get_char(2) == 'w';
    proof {
        if r {
            assert(s@ =~= "now"@);
        }
    }
    r
}

/// A date part: a digit run whose value fits a 32-bit signed integer.
pub open spec fn spec_parse_date_part(s: Seq<char>) -> Option<int> {
    match spec_parse_digits(s) {
        Some(v) => if v <= 0x7fff_ffff {
            Some(v)
        } else {
            None
        },
        None => None,
    }
}

pub open spec fn date_if_valid(y: int, m: int, d: int) -> Option<Date> {
    if 1 <= y <= 9999 && 1 <= m <= 12 && 1 <= d <= days_in_month(y, m) {
        Some(Date { year: y as u16, month: m as u8, day: d as u8 })
    } else {
        None
    }
}

/// The grammar of a user-supplied date override: the word `now` for today,
/// or one to three dash-separated numbers naming, in order of growing
/// length, a day; a month and day; or a year, month and day. Omitted
/// components come from `today`, and the result must name a valid date.
pub open spec fn spec_parse_date(s: Seq<char>, today: Date) -> Option<Date> {
    if s == "now"@ {
        Some(today)
    } else {
        let p1 = first_index_of(s, '-');
        if p1 == -1 {
            match spec_parse_date_part(s) {
                Some(d) => date_if_valid(today.year as int, today.month as int, d),
                None => None,
            }
        } else {
            let part1 = s.take(p1);
            let rest = s.skip(p1 + 1);
            let p2 = first_index_of(rest, '-');
            if p2 == -1 {
                match (spec_parse_date_part(part1), spec_parse_date_part(rest)) {
                    (Some(m), Some(d)) => date_if_valid(today.year as int, m, d),
                    _ => None,
                }
            } else {
                let part2 = rest.take(p2);
                let tail = rest.skip(p2 + 1);
                if first_index_of(tail, '-') != -1 {
                    None
                } else {
                    match (
                        spec_parse_date_part(part1),
                        spec_parse_date_part(part2),
                        spec_parse_date_part(tail),
                    ) {
                        (Some(y), Some(m), Some(d)) => date_if_valid(y, m, d),
                        _ => None,
                    }
                }
            }
        }
    }
}

/// Parses a date part between two absolute positions of `s`.
fn parse_date_part_range(s: &str, from: usize, to: usize) -> (r: Option<u32>)
    requires
        from <= to <= s@.len(),
    ensures
        match spec_parse_date_part(s@.subrange(from as int, to as int)) {
            Some(v) => r matches Some(u) && u == v,
            None => r is None,
        },
{
    match parse_digits_range(s, from, to) {
        Some(v) => if v <= 0x7fff_ffff {
            Some(v as u32)
        } else {
            None
        },
        None => None,
    }
}

/// Parses a user-supplied date override against today's date.
pub fn parse_date(s: &str, today: &Date) -> (r: Option<Date>)
    requires
        today.wf(),
    ensures
        r == spec_parse_date(s@, *today),
        r matches Some(d) ==> d.wf(),
{
    if is_now(s) {
        return Some(*today);
    }
    let len = s.unicode_len();
    proof {
        assert(s@.skip(0) =~= s@);
    }
    match find_char_from(s, 0, '-') {
        None => {
            proof {
                assert(s@.subrange(0, len as int) =~= s@);
            }
            match parse_date_part_range(s, 0, len) {
                Some(d) => date_from_parts(today.year as u32, today.month as u32, d),
                None => None,
            }
        },
        Some(p1) => {
            let ghost rest = s@.skip(p1 + 1);
            proof {
                assert(s@.take(p1 as int) =~= s@.subrange(0, p1 as int));
                assert(forall|j: int|
                    0 <= j < rest.len() ==> #[trigger] rest[j] == s@[p1 + 1 + j]);
            }
            match find_char_from(s, p1 + 1, '-') {
                None => {
                    proof {
                        assert(rest =~= s@.subrange(p1 + 1, len as int));
                    }
                    let m = parse_date_part_range(s, 0, p1);
                    let d = parse_date_part_range(s, p1 + 1, len);
                    match (m, d) {
                        (Some(m), Some(d)) => date_from_parts(today.year as u32, m, d),
                        _ => None,
                    }
                },
                Some(p2) => {
                    proof {
                        assert(first_index_of(rest, '-') == p2 - (p1 + 1));
                        assert(rest.take(p2 - (p1 + 1)) =~= s@.subrange(p1 + 1, p2 as int));
                        assert(rest.skip(p2 - (p1 + 1) + 1) =~= s@.subrange(p2 + 1, len as int));
                        assert(s@.skip(p2 + 1) =~= s@.subrange(p2 + 1, len as int));
                    }
                    match find_char_from(s, p2 + 1, '-') {
                        Some(_) => None,
                        None => {
                            let y = parse_date_part_range(s, 0, p1);
                            let m = parse_date_part_range(s, p1 + 1, p2);
                            let d = parse_date_part_range(s, p2 + 1, len);
                            match (y, m, d) {
                                (Some(y), Some(m), Some(d)) => date_from_parts(y, m, d),
                                _ => None,
                            }
                        },
                    }
                },
            }
        },
    }
}

/// Builds a date from numeric parts, mirroring `date_if_valid`.
fn date_from_parts(y: u32, m: u32, d: u32) -> (r: Option<Date>)
    ensures
        r == date_if_valid(y as int, m as int, d as int),
        r matches Some(dd) ==> dd.wf(),
{
    if 1 <= y && y <= 9999 && 1 <= m && m <= 12 {
        let dim = days_in_month_exec(y as u16, m as u8);
        if 1 <= d && d <= dim as u32 {
            Some(Date { year: y as u16, month: m as u8, day: d as u8 })
        } else {
            None
        }
    } else {
        None
    }
}

/// The grammar of a user-supplied time override, applied to a base
/// datetime: the word `now` replaces the whole datetime with `now`; one
/// colon-separated number replaces the minute; two replace the hour and
/// minute; three replace the hour, minute and second.
pub open spec fn spec_parse_time(s: Seq<char>, base: DateTime, now: DateTime) -> Option<DateTime> {
    if s == "now"@ {
        Some(now)
    } else {
        let p1 = first_index_of(s, ':');
        if p1 == -1 {
            match spec_parse_date_part(s) {
                Some(v) => if v <= 59 {
                    Some(DateTime { minute: v as u8, ..base })
                } else {
                    None
                },
                None => None,
            }
        } else {
            let part1 = s.take(p1);
            let rest = s.skip(p1 + 1);
            let p2 = first_index_of(rest, ':');
            if p2 == -1 {
                match (spec_parse_date_part(part1), spec_parse_date_part(rest)) {
                    (Some(h), Some(m)) => if h <= 23 && m <= 59 {
                        Some(DateTime { hour: h as u8, minute: m as u8, ..base })
                    } else {
                        None
                    },
                    _ => None,
                }
            } else {
                let part2 = rest.take(p2);
                let tail = rest.skip(p2 + 1);
                if first_index_of(tail, ':') != -1 {
                    None
                } else {
                    match (
                        spec_parse_date_part(part1),
                        spec_parse_date_part(part2),
                        spec_parse_date_part(tail),
                    ) {
                        (Some(h), Some(m), Some(sec)) => if h <= 23 && m <= 59 && sec <= 59 {
                            Some(
                                DateTime {
                                    hour: h as u8,
                                    minute: m as u8,
                                    second: sec as u8,
                                    ..base
                                },
                            )
                        } else {
                            None
                        },
                        _ => None,
                    }
                }
            }
        }
    }
}

/// Parses a user-supplied time override against a base datetime and the
/// current datetime.
pub fn parse_time(s: &str, base: &DateTime, now: &DateTime) -> (r: Option<DateTime>)
    requires
        base.wf(),
        now.wf(),
    ensures
        r == spec_parse_time(s@, *base, *now),
        r matches Some(dt) ==> dt.wf(),
{
    if is_now(s) {
        return Some(*now);
    }
    let len = s.unicode_len();
    proof {
        assert(s@.skip(0) =~= s@);
    }
    match find_char_from(s, 0, ':') {
        None => {
            proof {
                assert(s@.subrange(0, len as int) =~= s@);
            }
            match parse_date_part_range(s, 0, len) {
                Some(v) => if v <= 59 {
                    Some(DateTime { minute: v as u8, ..*base })
                } else {
                    None
                },
                None => None,
            }
        },
        Some(p1) => {
            let ghost rest = s@.skip(p1 + 1);
            proof {
                assert(s@.take(p1 as int) =~= s@.subrange(0, p1 as int));
                assert(forall|j: int|
                    0 <= j < rest.len() ==> #[trigger] rest[j] == s@[p1 + 1 + j]);
            }
            match find_char_from(s, p1 + 1, ':') {
                None => {
                    proof {
                        assert(rest =~= s@.subrange(p1 + 1, len as int));
                    }
                    let h = parse_date_part_range(s, 0, p1);
                    let m = parse_date_part_range(s, p1 + 1, len);
                    match (h, m) {
                        (Some(h), Some(m)) => if h <= 23 && m <= 59 {
                            Some(DateTime { hour: h as u8, minute: m as u8, ..*base })
                        } else {
                            None
                        },
                        _ => None,
                    }
                },
                Some(p2) => {
                    proof {
                        assert(first_index_of(rest, ':') == p2 - (p1 + 1));
                        assert(rest.take(p2 - (p1 + 1)) =~= s@.subrange(p1 + 1, p2 as int));
                        assert(rest.skip(p2 - (p1 + 1) + 1) =~= s@.subrange(p2 + 1, len as int));
                        assert(s@.skip(p2 + 1) =~= s@.subrange(p2 + 1, len as int));
                    }
                    match find_char_from(s, p2 + 1, ':') {
                        Some(_) => None,
                        None => {
                            let h = parse_date_part_range(s, 0, p1);
                            let m = parse_date_part_range(s, p1 + 1, p2);
                            let sec = parse_date_part_range(s, p2 + 1, len);
                            match (h, m, sec) {
                                (Some(h), Some(m), Some(sec)) => if h <= 23 && m <= 59 && sec
                                    <= 59 {
                                    Some(
                                        DateTime {
                                            hour: h as u8,
                                            minute: m as u8,
                                            second: sec as u8,
                                            ..*base
                                        },
                                    )
                                } else {
                                    None
                                },
                                _ => None,
                            }
                        },
                    }
                },
            }
        },
    }
}

} // verus!
