//! Dates as text: `YYYY-MM-DDTHH:MM:SSZ`, counted in seconds from
//! 2001-01-01T00:00:00Z.

use vstd::prelude::*;
use crate::xml::lex::{lemma_starts_byte, starts_at};
use crate::xml::number::is_digit;

verus! {

/// A date and time of day in the calendar.
pub struct Civil {
    pub year: int,
    pub month: int,
    pub day: int,
    pub hour: int,
    pub minute: int,
    pub second: int,
}

/// The seconds from 1901-01-01T00:00:00Z to 2001-01-01T00:00:00Z: 36525
/// days.
pub open spec fn epoch_shift() -> int {
    3_155_760_000
}

/// Whether `y` is a leap year. Between 1901 and 2099 every fourth year is
/// one.
pub open spec fn is_leap(y: int) -> bool {
    y % 4 == 0
}

/// The days from 1901-01-01 to the first day of the year `y`.
pub open spec fn days_before_year(y: int) -> int {
    (y - 1901) * 365 + (y - 1901) / 4
}

/// The days from the first day of a year to the first day of its month
/// `m`.
pub open spec fn days_before_month(leap: bool, m: int) -> int {
    let l: int = if leap {
        1
    } else {
        0
    };
    if m <= 1 {
        0
    } else if m == 2 {
        31
    } else if m == 3 {
        59 + l
    } else if m == 4 {
        90 + l
    } else if m == 5 {
        120 + l
    } else if m == 6 {
        151 + l
    } else if m == 7 {
        181 + l
    } else if m == 8 {
        212 + l
    } else if m == 9 {
        243 + l
    } else if m == 10 {
        273 + l
    } else if m == 11 {
        304 + l
    } else {
        334 + l
    }
}

/// The month in which the day `doy` of a year falls, counted from 0.
pub open spec fn month_of(leap: bool, doy: int) -> int {
    if doy < days_before_month(leap, 2) {
        1
    } else if doy < days_before_month(leap, 3) {
        2
    } else if doy < days_before_month(leap, 4) {
        3
    } else if doy < days_before_month(leap, 5) {
        4
    } else if doy < days_before_month(leap, 6) {
        5
    } else if doy < days_before_month(leap, 7) {
        6
    } else if doy < days_before_month(leap, 8) {
        7
    } else if doy < days_before_month(leap, 9) {
        8
    } else if doy < days_before_month(leap, 10) {
        9
    } else if doy < days_before_month(leap, 11) {
        10
    } else if doy < days_before_month(leap, 12) {
        11
    } else {
        12
    }
}

/// The number of days of the month `m`.
pub open spec fn days_in_month(leap: bool, m: int) -> int {
    if m == 12 {
        31
    } else {
        days_before_month(leap, m + 1) - days_before_month(leap, m)
    }
}

/// A date between 1901 and 2099 that the calendar has.
pub open spec fn civil_valid(c: Civil) -> bool {
    &&& 1901 <= c.year <= 2099
    &&& 1 <= c.month <= 12
    &&& 1 <= c.day <= days_in_month(is_leap(c.year), c.month)
    &&& 0 <= c.hour < 24
    &&& 0 <= c.minute < 60
    &&& 0 <= c.second < 60
}

/// The seconds from 2001-01-01T00:00:00Z to `c`.
pub open spec fn civil_seconds(c: Civil) -> int {
    (days_before_year(c.year) + days_before_month(is_leap(c.year), c.month) + c.day - 1) * 86400
        + c.hour * 3600 + c.minute * 60 + c.second - epoch_shift()
}

/// The date and time of day `sec` seconds from 2001-01-01T00:00:00Z.
pub open spec fn civil_of(sec: int) -> Civil {
    let total = sec + epoch_shift();
    let n = total / 86400;
    let rem = total % 86400;
    let cycle = n / 1461;
    let r = n % 1461;
    let yic = if r >= 1095 {
        3
    } else {
        r / 365
    };
    let doy = r - 365 * yic;
    let leap = yic == 3;
    let month = month_of(leap, doy);
    Civil {
        year: 1901 + 4 * cycle + yic,
        month,
        day: doy - days_before_month(leap, month) + 1,
        hour: rem / 3600,
        minute: (rem % 3600) / 60,
        second: rem % 60,
    }
}

/// The two decimal digits of `n`.
pub open spec fn two(n: int) -> Seq<u8> {
    seq![(0x30 + n / 10) as u8, (0x30 + n % 10) as u8]
}

/// The text of the date `c`.
pub open spec fn civil_text(c: Civil) -> Seq<u8> {
    two(c.year / 100) + two(c.year % 100) + seq![0x2du8] + two(c.month) + seq![0x2du8] + two(c.day)
        + seq![0x54u8] + two(c.hour) + seq![0x3au8] + two(c.minute) + seq![0x3au8] + two(c.second)
        + seq![0x5au8]
}

/// The text of the date `sec` seconds from 2001-01-01T00:00:00Z.
pub open spec fn date_text(sec: i32) -> Seq<u8> {
    civil_text(civil_of(sec as int))
}

/// The number that the two digits at `pos` spell.
pub open spec fn two_value(s: Seq<u8>, pos: int) -> int {
    (s[pos] - 0x30) * 10 + (s[pos + 1] - 0x30)
}

/// Whether the 20 bytes at `pos` have the shape of a date: digits and
/// separators in their places.
pub open spec fn date_shape(s: Seq<u8>, pos: int) -> bool {
    &&& 0 <= pos
    &&& pos + 20 <= s.len()
    &&& is_digit(s[pos]) && is_digit(s[pos + 1]) && is_digit(s[pos + 2]) && is_digit(s[pos + 3])
    &&& s[pos + 4] == 0x2d
    &&& is_digit(s[pos + 5]) && is_digit(s[pos + 6])
    &&& s[pos + 7] == 0x2d
    &&& is_digit(s[pos + 8]) && is_digit(s[pos + 9])
    &&& s[pos + 10] == 0x54
    &&& is_digit(s[pos + 11]) && is_digit(s[pos + 12])
    &&& s[pos + 13] == 0x3a
    &&& is_digit(s[pos + 14]) && is_digit(s[pos + 15])
    &&& s[pos + 16] == 0x3a
    &&& is_digit(s[pos + 17]) && is_digit(s[pos + 18])
    &&& s[pos + 19] == 0x5a
}

/// The date that the 20 bytes at `pos` spell.
pub open spec fn civil_at(s: Seq<u8>, pos: int) -> Civil {
    Civil {
        year: two_value(s, pos) * 100 + two_value(s, pos + 2),
        month: two_value(s, pos + 5),
        day: two_value(s, pos + 8),
        hour: two_value(s, pos + 11),
        minute: two_value(s, pos + 14),
        second: two_value(s, pos + 17),
    }
}

/// The seconds from 2001-01-01T00:00:00Z to the date whose text stands at
/// `pos`, if a date of the calendar stands there and the seconds fit in
/// 32 bits.
pub open spec fn parse_date(s: Seq<u8>, pos: int) -> Option<i32> {
    if !date_shape(s, pos) {
        None
    } else {
        let c = civil_at(s, pos);
        if !civil_valid(c) {
            None
        } else if civil_seconds(c) < i32::MIN || civil_seconds(c) > i32::MAX {
            None
        } else {
            Some(civil_seconds(c) as i32)
        }
    }
}

/// The day `doy` of a year falls in the month that `month_of` gives.
proof fn lemma_month_of(leap: bool, doy: int)
    requires
        0 <= doy < 365 || (leap && doy == 365),
    ensures
        1 <= month_of(leap, doy) <= 12,
        days_before_month(leap, month_of(leap, doy)) <= doy,
        doy - days_before_month(leap, month_of(leap, doy)) < days_in_month(
            leap,
            month_of(leap, doy),
        ),
{
}

/// The date of a number of seconds is a date of the calendar, and counts
/// that number of seconds.
pub proof fn lemma_civil_round_trip(sec: int)
    requires
        i32::MIN <= sec <= i32::MAX,
    ensures
        civil_valid(civil_of(sec)),
        civil_seconds(civil_of(sec)) == sec,
{
    let c = civil_of(sec);
    let total = sec + epoch_shift();
    let n = total / 86400;
    let rem = total % 86400;
    let cycle = n / 1461;
    let r = n % 1461;
    let yic: int = if r >= 1095 {
        3
    } else {
        r / 365
    };
    let doy = r - 365 * yic;
    let leap = yic == 3;
    assert(11669 <= n <= 61380);
    assert(0 <= cycle <= 42);
    assert(0 <= yic <= 3);
    assert(c.year == 1901 + 4 * cycle + yic);
    assert(is_leap(c.year) == leap);
    lemma_month_of(leap, doy);
    assert((c.year - 1901) / 4 == cycle);
    assert(days_before_year(c.year) == 1461 * cycle + 365 * yic);
    assert(days_before_year(c.year) + days_before_month(leap, c.month) + c.day - 1 == n);
    assert(rem == (rem / 3600) * 3600 + rem % 3600);
    assert(rem % 3600 == ((rem % 3600) / 60) * 60 + (rem % 3600) % 60);
    assert((rem % 3600) % 60 == rem % 60);
    assert(total == n * 86400 + rem);
}

/// Two digits spell the number they were made from.
proof fn lemma_two(s: Seq<u8>, pos: int, n: int)
    requires
        0 <= n < 100,
        0 <= pos,
        pos + 2 <= s.len(),
        s[pos] == two(n)[0],
        s[pos + 1] == two(n)[1],
    ensures
        is_digit(s[pos]),
        is_digit(s[pos + 1]),
        two_value(s, pos) == n,
{
}

/// The text of a date is read back as the seconds it was made from.
pub proof fn lemma_parse_date_text(s: Seq<u8>, pos: int, sec: i32)
    requires
        starts_at(s, pos, date_text(sec)),
    ensures
        date_text(sec).len() == 20,
        parse_date(s, pos) == Some(sec),
{
    let c = civil_of(sec as int);
    let t = date_text(sec);
    lemma_civil_round_trip(sec as int);
    assert(t.len() == 20);
    assert forall|k: int| 0 <= k < 20 implies s[pos + k] == t[k] by {
        lemma_starts_byte(s, pos, t, k);
    }
    assert(t[0] == two(c.year / 100)[0] && t[1] == two(c.year / 100)[1]);
    assert(t[2] == two(c.year % 100)[0] && t[3] == two(c.year % 100)[1]);
    assert(t[4] == 0x2d);
    assert(t[5] == two(c.month)[0] && t[6] == two(c.month)[1]);
    assert(t[7] == 0x2d);
    assert(t[8] == two(c.day)[0] && t[9] == two(c.day)[1]);
    assert(t[10] == 0x54);
    assert(t[11] == two(c.hour)[0] && t[12] == two(c.hour)[1]);
    assert(t[13] == 0x3a);
    assert(t[14] == two(c.minute)[0] && t[15] == two(c.minute)[1]);
    assert(t[16] == 0x3a);
    assert(t[17] == two(c.second)[0] && t[18] == two(c.second)[1]);
    assert(t[19] == 0x5a);
    lemma_two(s, pos, c.year / 100);
    lemma_two(s, pos + 2, c.year % 100);
    lemma_two(s, pos + 5, c.month);
    lemma_two(s, pos + 8, c.day);
    lemma_two(s, pos + 11, c.hour);
    lemma_two(s, pos + 14, c.minute);
    lemma_two(s, pos + 17, c.second);
    assert(civil_at(s, pos) == c);
}

/// The days from the first day of a year to the first day of its month
/// `m`.
fn month_start(leap: bool, m: u64) -> (r: u64)
    requires
        1 <= m <= 12,
    ensures
        r == days_before_month(leap, m as int),
        r <= 335,
{
    let l: u64 = if leap {
        1
    } else {
        0
    };
    if m == 1 {
        0
    } else if m == 2 {
        31
    } else if m == 3 {
        59 + l
    } else if m == 4 {
        90 + l
    } else if m == 5 {
        120 + l
    } else if m == 6 {
        151 + l
    } else if m == 7 {
        181 + l
    } else if m == 8 {
        212 + l
    } else if m == 9 {
        243 + l
    } else if m == 10 {
        273 + l
    } else if m == 11 {
        304 + l
    } else {
        334 + l
    }
}

/// Appends the two decimal digits of `n`.
fn push_two(out: &mut Vec<u8>, n: u64)
    requires
        n < 100,
    ensures
        final(out)@ == old(out)@ + two(n as int),
{
    out.push(0x30 + (n / 10) as u8);
    out.push(0x30 + (n % 10) as u8);
    assert(out@ =~= old(out)@ + two(n as int));
}

/// The month in which the day `doy` of a year falls.
fn month_for(leap: bool, doy: u64) -> (m: u64)
    requires
        doy < 366,
    ensures
        m == month_of(leap, doy as int),
        1 <= m <= 12,
{
    let l: u64 = if leap {
        1
    } else {
        0
    };
    if doy < 31 {
        1
    } else if doy < 59 + l {
        2
    } else if doy < 90 + l {
        3
    } else if doy < 120 + l {
        4
    } else if doy < 151 + l {
        5
    } else if doy < 181 + l {
        6
    } else if doy < 212 + l {
        7
    } else if doy < 243 + l {
        8
    } else if doy < 273 + l {
        9
    } else if doy < 304 + l {
        10
    } else if doy < 334 + l {
        11
    } else {
        12
    }
}

/// The year, the month and the day of the day `n` days after 1901-01-01.
fn day_parts(n: u64) -> (r: (u64, u64, u64))
    requires
        n < 73049,
    ensures
        ({
            let cycle = n as int / 1461;
            let rest = n as int % 1461;
            let yic: int = if rest >= 1095 {
                3
            } else {
                rest / 365
            };
            let doy = rest - 365 * yic;
            let month = month_of(yic == 3, doy);
            &&& r.0 == 1901 + 4 * cycle + yic
            &&& r.1 == month
            &&& r.2 == doy - days_before_month(yic == 3, month) + 1
            &&& r.0 < 2101
            &&& 1 <= r.1 <= 12
            &&& 1 <= r.2 <= 31
        }),
{
    let cycle = n / 1461;
    let rest = n % 1461;
    let yic: u64 = if rest >= 1095 {
        3
    } else {
        rest / 365
    };
    let doy = rest - 365 * yic;
    let leap = yic == 3;
    let month = month_for(leap, doy);
    let day = doy - month_start(leap, month) + 1;
    (1901 + 4 * cycle + yic, month, day)
}

/// Appends the text of the date `sec` seconds from 2001-01-01T00:00:00Z.
pub fn push_date(out: &mut Vec<u8>, sec: i32)
    ensures
        final(out)@ == old(out)@ + date_text(sec),
{
    let ghost c = civil_of(sec as int);
    let total: u64 = (sec as i64 + 3_155_760_000) as u64;
    let n = total / 86400;
    let rem = total % 86400;
    let (year, month, day) = day_parts(n);
    assert(c.year == year && c.month == month && c.day == day);
    assert(c.hour == rem / 3600 && c.minute == (rem % 3600) / 60 && c.second == rem % 60);
    push_two(out, year / 100);
    push_two(out, year % 100);
    out.push(0x2d);
    push_two(out, month);
    out.push(0x2d);
    push_two(out, day);
    out.push(0x54);
    push_two(out, rem / 3600);
    out.push(0x3a);
    push_two(out, (rem % 3600) / 60);
    out.push(0x3a);
    push_two(out, rem % 60);
    out.push(0x5a);
    assert(out@ =~= old(out)@ + civil_text(c));
}

/// The number that the two digits at `pos` spell, if two digits stand
/// there.
fn read_two(bytes: &[u8], pos: usize) -> (r: Option<u64>)
    requires
        pos + 2 <= bytes@.len(),
    ensures
        match r {
            Some(v) => is_digit(bytes@[pos as int]) && is_digit(bytes@[pos + 1]) && v == two_value(
                bytes@,
                pos as int,
            ) && v < 100,
            None => !(is_digit(bytes@[pos as int]) && is_digit(bytes@[pos + 1])),
        },
{
    let a = bytes[pos];
    let b = bytes[pos + 1];
    if 0x30 <= a && a <= 0x39 && 0x30 <= b && b <= 0x39 {
        Some(((a - 0x30) as u64) * 10 + (b - 0x30) as u64)
    } else {
        None
    }
}

/// The seconds from 2001-01-01T00:00:00Z to the date whose text stands at
/// `pos`.
pub fn read_date(bytes: &[u8], pos: usize) -> (r: Option<i32>)
    requires
        pos <= bytes@.len(),
    ensures
        r == parse_date(bytes@, pos as int),
{
    let n = bytes.len();
    if n - pos < 20 {
        return None;
    }
    if !(bytes[pos + 4] == 0x2d && bytes[pos + 7] == 0x2d && bytes[pos + 10] == 0x54 && bytes[pos
        + 13] == 0x3a && bytes[pos + 16] == 0x3a && bytes[pos + 19] == 0x5a) {
        return None;
    }
    let (y1, y2, month, day, hour, minute, second) = match (
        read_two(bytes, pos),
        read_two(bytes, pos + 2),
        read_two(bytes, pos + 5),
        read_two(bytes, pos + 8),
        read_two(bytes, pos + 11),
        read_two(bytes, pos + 14),
        read_two(bytes, pos + 17),
    ) {
        (Some(a), Some(b), Some(c), Some(d), Some(e), Some(f), Some(g)) => (a, b, c, d, e, f, g),
        _ => {
            return None;
        },
    };
    let year = y1 * 100 + y2;
    if year < 1901 || year > 2099 || month < 1 || month > 12 || hour >= 24 || minute >= 60
        || second >= 60 {
        return None;
    }
    let leap = year % 4 == 0;
    let start = month_start(leap, month);
    let length: u64 = if month == 12 {
        31
    } else {
        month_start(leap, month + 1) - start
    };
    if day < 1 || day > length {
        return None;
    }
    let days: u64 = (year - 1901) * 365 + (year - 1901) / 4 + start + day - 1;
    let total: i64 = (days * 86400 + hour * 3600 + minute * 60 + second) as i64 - 3_155_760_000;
    if total < -2_147_483_648 || total > 2_147_483_647 {
        return None;
    }
    Some(total as i32)
}

} // verus!
