//! Excel 1900 date system (including the fictitious 1900-02-29).
//!
//! Serials are whole days: serial 1 is 1900-01-01 and serial 60 is the
//! fictitious 1900-02-29 that Excel keeps for Lotus compatibility.
use vstd::prelude::*;
use std::cmp::Ordering;
use crate::text::{
    chars_of, contains_char, first_index_from, parse_i32_range, parse_u32_range, slice_chars,
    spec_fields, spec_first_from, spec_parse_i32, spec_parse_u32, spec_starts_with, spec_trim,
    spec_upper_seq, split_fields, trim_chars, upper_chars,
};

verus! {

/// Excel's practical maximum date serial (9999-12-31 in the 1900 date system).
pub const MAX_EXCEL_SERIAL: i64 = 2958465;

#[derive(Clone, Copy, Debug, PartialEq, Eq, Structural)]
pub struct CivilDate {
    pub year: i32,
    pub month: u32,
    pub day: u32,
}

// ---------------------------------------------------------------------------
// Calendar model
// ---------------------------------------------------------------------------

/// Gregorian leap-year rule.
pub open spec fn spec_is_leap_year(year: int) -> bool {
    (year % 4 == 0 && year % 100 != 0) || year % 400 == 0
}

pub open spec fn spec_days_in_month(year: int, month: int) -> int {
    if month == 1 || month == 3 || month == 5 || month == 7 || month == 8 || month == 10 || month
        == 12 {
        31
    } else if month == 4 || month == 6 || month == 9 || month == 11 {
        30
    } else if month == 2 {
        if spec_is_leap_year(year) {
            29
        } else {
            28
        }
    } else {
        0
    }
}

pub open spec fn spec_days_in_year(year: int) -> int {
    if spec_is_leap_year(year) {
        366
    } else {
        365
    }
}

/// Days in the months of `year` before `month`.
pub open spec fn spec_days_before_month(year: int, month: int) -> int
    decreases month,
{
    if month <= 1 {
        0
    } else {
        spec_days_before_month(year, month - 1) + spec_days_in_month(year, month - 1)
    }
}

/// Days in the years from 1900 up to (not including) `year`.
pub open spec fn spec_days_before_year(year: int) -> int
    decreases year - 1900,
{
    if year <= 1900 {
        0
    } else {
        spec_days_before_year(year - 1) + spec_days_in_year(year - 1)
    }
}

/// A real calendar date in Excel's supported range.
pub open spec fn spec_valid_ymd(year: int, month: int, day: int) -> bool {
    1900 <= year <= 9999 && 1 <= month <= 12 && 1 <= day <= spec_days_in_month(year, month)
}

/// A date that has an Excel serial: a real date in range, or the fictitious
/// 1900-02-29.
pub open spec fn spec_is_excel_date(year: int, month: int, day: int) -> bool {
    spec_valid_ymd(year, month, day) || (year == 1900 && month == 2 && day == 29)
}

pub open spec fn spec_excel_date(d: CivilDate) -> bool {
    spec_is_excel_date(d.year as int, d.month as int, d.day as int)
}

/// Days from 1899-12-31 to a real date (no fictitious leap day).
pub open spec fn spec_day_number(year: int, month: int, day: int) -> int {
    spec_days_before_year(year) + spec_days_before_month(year, month) + day
}

/// The Excel serial of a date, or `None` when it has none.
pub open spec fn spec_ymd_to_serial(year: int, month: int, day: int) -> Option<int> {
    if year == 1900 && month == 2 && day == 29 {
        Some(60)
    } else if spec_valid_ymd(year, month, day) {
        Some(
            spec_day_number(year, month, day) + if year > 1900 || month > 2 {
                1int
            } else {
                0int
            },
        )
    } else {
        None
    }
}

pub open spec fn spec_serial_of(d: CivilDate) -> Option<int> {
    spec_ymd_to_serial(d.year as int, d.month as int, d.day as int)
}

// ---------------------------------------------------------------------------
// Arithmetic facts about the calendar
// ---------------------------------------------------------------------------

/// Leap years in `[1, year)`.
pub open spec fn spec_leaps_before(year: int) -> int {
    (year - 1) / 4 - (year - 1) / 100 + (year - 1) / 400
}

proof fn lemma_div4_step(x: int)
    requires
        x >= 1,
    ensures
        x % 4 == 0 ==> x / 4 == (x - 1) / 4 + 1,
        x % 4 != 0 ==> x / 4 == (x - 1) / 4,
{
}

proof fn lemma_div100_step(x: int)
    requires
        x >= 1,
    ensures
        x % 100 == 0 ==> x / 100 == (x - 1) / 100 + 1,
        x % 100 != 0 ==> x / 100 == (x - 1) / 100,
{
}

proof fn lemma_div400_step(x: int)
    requires
        x >= 1,
    ensures
        x % 400 == 0 ==> x / 400 == (x - 1) / 400 + 1,
        x % 400 != 0 ==> x / 400 == (x - 1) / 400,
        x % 400 == 0 ==> x % 100 == 0 && x % 4 == 0,
        x % 100 == 0 ==> x % 4 == 0,
{
}

proof fn lemma_leaps_step(year: int)
    requires
        year >= 1,
    ensures
        spec_leaps_before(year + 1) == spec_leaps_before(year) + if spec_is_leap_year(year) {
            1int
        } else {
            0int
        },
{
    lemma_div4_step(year);
    lemma_div100_step(year);
    lemma_div400_step(year);
}

/// Closed form of the days before a year.
pub proof fn lemma_days_before_year_closed(year: int)
    requires
        year >= 1900,
    ensures
        spec_days_before_year(year) == 365 * (year - 1900) + spec_leaps_before(year)
            - spec_leaps_before(1900),
    decreases year - 1900,
{
    if year > 1900 {
        lemma_days_before_year_closed(year - 1);
        lemma_leaps_step(year - 1);
    }
}

/// Days before a year never decrease, and grow by at least 365 per year.
pub proof fn lemma_days_before_year_mono(a: int, b: int)
    requires
        1900 <= a <= b,
    ensures
        spec_days_before_year(a) + 365 * (b - a) <= spec_days_before_year(b),
    decreases b - a,
{
    if a < b {
        lemma_days_before_year_mono(a, b - 1);
    }
}

/// The days before the year 10000.
pub proof fn lemma_days_before_year_10000()
    ensures
        spec_days_before_year(10000) == 2958464,
{
    lemma_days_before_year_closed(10000);
}

/// Days before a year in the supported range stay below the year-10000 count.
pub proof fn lemma_days_before_year_bound(year: int)
    requires
        1900 <= year <= 10000,
    ensures
        0 <= spec_days_before_year(year) <= 2958464,
{
    lemma_days_before_year_mono(year, 10000);
    lemma_days_before_year_mono(1900, year);
    lemma_days_before_year_10000();
}

/// The twelve month lengths add up to the year length.
pub proof fn lemma_days_before_month_table(year: int)
    ensures
        spec_days_before_month(year, 1) == 0,
        spec_days_before_month(year, 2) == 31,
        spec_days_before_month(year, 3) == 59 + if spec_is_leap_year(year) {
            1int
        } else {
            0int
        },
        spec_days_before_month(year, 13) == spec_days_in_year(year),
        forall|m: int|
            1 <= m <= 12 ==> spec_days_before_month(year, m) + spec_days_in_month(year, m)
                == #[trigger] spec_days_before_month(year, m + 1),
        forall|m: int| 3 <= m <= 13 ==> #[trigger] spec_days_before_month(year, m) >= 59,
        forall|m: int| 1 <= m <= 12 ==> 28 <= #[trigger] spec_days_in_month(year, m) <= 31,
        forall|m: int|
            1 <= m <= 13 ==> 0 <= #[trigger] spec_days_before_month(year, m) <= spec_days_in_year(
                year,
            ),
{
    reveal_with_fuel(spec_days_before_month, 14);
}

/// Every real date in range has a day number in `[1, 2958464]`.
pub proof fn lemma_day_number_range(year: int, month: int, day: int)
    requires
        spec_valid_ymd(year, month, day),
    ensures
        1 <= spec_day_number(year, month, day) <= 2958464,
        spec_day_number(year, month, day) <= spec_days_before_year(year + 1),
        spec_days_before_year(year) < spec_day_number(year, month, day),
{
    lemma_days_before_month_table(year);
    lemma_days_before_year_bound(year);
    lemma_days_before_year_bound(year + 1);
    assert(spec_days_before_month(year, month) + spec_days_in_month(year, month)
        == spec_days_before_month(year, month + 1));
}

// ---------------------------------------------------------------------------
// Executable calendar helpers
// ---------------------------------------------------------------------------

/// Whether `d` divides `x`.
fn divisible(x: i32, d: i32) -> (r: bool)
    requires
        d > 0,
    ensures
        r == (x as int % d as int == 0),
{
    match x.checked_rem_euclid(d) {
        Some(m) => m == 0,
        None => false,
    }
}

/// Gregorian leap-year rule.
pub fn is_leap_year(year: i32) -> (r: bool)
    ensures
        r == spec_is_leap_year(year as int),
{
    (divisible(year, 4) && !divisible(year, 100)) || divisible(year, 400)
}

pub fn days_in_month(year: i32, month: u32) -> (r: u32)
    ensures
        r == spec_days_in_month(year as int, month as int),
{
    match month {
        1 | 3 | 5 | 7 | 8 | 10 | 12 => 31,
        4 | 6 | 9 | 11 => 30,
        2 => {
            if is_leap_year(year) {
                29
            } else {
                28
            }
        },
        _ => 0,
    }
}

pub fn days_in_year_adjusted(year: i32) -> (r: i32)
    ensures
        r == spec_days_in_year(year as int),
{
    if is_leap_year(year) {
        366
    } else {
        365
    }
}

impl CivilDate {
    /// Lexicographic order on (year, month, day).
    pub fn cmp_date(self, other: Self) -> (r: Ordering)
        ensures
            (r == Ordering::Less) == spec_date_lt(self, other),
            (r == Ordering::Equal) == (self == other),
            (r == Ordering::Greater) == spec_date_lt(other, self),
    {
        if self.year < other.year {
            Ordering::Less
        } else if self.year > other.year {
            Ordering::Greater
        } else if self.month < other.month {
            Ordering::Less
        } else if self.month > other.month {
            Ordering::Greater
        } else if self.day < other.day {
            Ordering::Less
        } else if self.day > other.day {
            Ordering::Greater
        } else {
            Ordering::Equal
        }
    }
}

/// Strict lexicographic order on (year, month, day).
pub open spec fn spec_date_lt(a: CivilDate, b: CivilDate) -> bool {
    ||| a.year < b.year
    ||| a.year == b.year && a.month < b.month
    ||| a.year == b.year && a.month == b.month && a.day < b.day
}

fn date_lt(a: CivilDate, b: CivilDate) -> (r: bool)
    ensures
        r == spec_date_lt(a, b),
{
    a.year < b.year || (a.year == b.year && a.month < b.month) || (a.year == b.year && a.month
        == b.month && a.day < b.day)
}

// ---------------------------------------------------------------------------
// Serial conversion
// ---------------------------------------------------------------------------

/// Excel serial of a date (the fictitious 1900-02-29 is serial 60).
pub fn ymd_to_serial(year: i32, month: u32, day: u32) -> (r: Result<i64, ()>)
    ensures
        match spec_ymd_to_serial(year as int, month as int, day as int) {
            Some(s) => r == Ok::<i64, ()>(s as i64),
            None => r == Err::<i64, ()>(()),
        },
        r matches Ok(s) ==> 1 <= s <= MAX_EXCEL_SERIAL && spec_ymd_to_serial(
            year as int,
            month as int,
            day as int,
        ) == Some(s as int),
{
    if year == 1900 && month == 2 && day == 29 {
        return Ok(60);
    }
    if !(1900 <= year && year <= 9999) || !(1 <= month && month <= 12) {
        return Err(());
    }
    let dim = days_in_month(year, month);
    if day < 1 || day > dim {
        return Err(());
    }
    proof {
        lemma_days_before_month_table(year as int);
        lemma_days_before_year_bound(year as int);
        lemma_day_number_range(year as int, month as int, day as int);
    }
    let mut serial: i64 = day as i64;
    let mut m: u32 = 1;
    while m < month
        invariant
            1 <= m <= month <= 12,
            1900 <= year <= 9999,
            serial == day + spec_days_before_month(year as int, m as int),
            0 <= spec_days_before_month(year as int, m as int) <= 366,
            1 <= day <= 31,
        decreases month - m,
    {
        proof {
            lemma_days_before_month_table(year as int);
        }
        serial += days_in_month(year, m) as i64;
        m += 1;
    }
    let mut y: i32 = 1900;
    while y < year
        invariant
            1900 <= y <= year <= 9999,
            serial == day + spec_days_before_month(year as int, month as int)
                + spec_days_before_year(y as int),
            0 <= spec_days_before_month(year as int, month as int) <= 366,
            1 <= day <= 31,
        decreases year - y,
    {
        proof {
            lemma_days_before_year_bound(y as int + 1);
        }
        serial += days_in_year_adjusted(y) as i64;
        y += 1;
    }
    if year > 1900 || month > 2 {
        serial += 1;
    }
    Ok(serial)
}

/// The date whose Excel serial is `serial` (a whole day number).
pub fn serial_to_ymd(serial: i64) -> (r: Result<CivilDate, ()>)
    ensures
        r is Ok <==> 1 <= serial <= MAX_EXCEL_SERIAL,
        r matches Ok(d) ==> spec_excel_date(d) && spec_serial_of(d) == Some(serial as int),
{
    if !(1 <= serial && serial <= MAX_EXCEL_SERIAL) {
        return Err(());
    }
    let mut n: i64 = serial;
    if n == 60 {
        return Ok(CivilDate { year: 1900, month: 2, day: 29 });
    }
    if n > 60 {
        n -= 1;
    }
    let ghost dn = n;
    let mut year: i32 = 1900;
    loop
        invariant
            1900 <= year <= 9999,
            1 <= n,
            dn == spec_days_before_year(year as int) + n,
            1 <= dn <= 2958464,
        ensures
            1900 <= year <= 9999,
            1 <= n <= spec_days_in_year(year as int),
            dn == spec_days_before_year(year as int) + n,
        decreases 10000 - year,
    {
        let diy = days_in_year_adjusted(year) as i64;
        if n > diy {
            n -= diy;
            year += 1;
            if year > 9999 {
                proof {
                    lemma_days_before_year_10000();
                }
                return Err(());
            }
        } else {
            break;
        }
    }
    proof {
        lemma_days_before_month_table(year as int);
    }
    let mut month: u32 = 1;
    loop
        invariant
            1900 <= year <= 9999,
            1 <= month <= 12,
            1 <= n,
            dn == spec_days_before_year(year as int) + spec_days_before_month(
                year as int,
                month as int,
            ) + n,
            spec_days_before_month(year as int, month as int) + n <= spec_days_in_year(
                year as int,
            ),
            1 <= dn <= 2958464,
        ensures
            1 <= month <= 12,
            1 <= n <= spec_days_in_month(year as int, month as int),
            dn == spec_days_before_year(year as int) + spec_days_before_month(
                year as int,
                month as int,
            ) + n,
        decreases 13 - month,
    {
        proof {
            lemma_days_before_month_table(year as int);
        }
        let dim = days_in_month(year, month) as i64;
        if n > dim {
            n -= dim;
            month += 1;
            if month > 12 {
                return Err(());
            }
        } else {
            break;
        }
    }
    let d = CivilDate { year, month, day: n as u32 };
    proof {
        lemma_days_before_month_table(year as int);
        assert(spec_valid_ymd(year as int, month as int, n as int));
        assert(spec_day_number(year as int, month as int, n as int) == dn);
        lemma_serial_offset(year as int, month as int, n as int);
    }
    Ok(d)
}

// ---------------------------------------------------------------------------
// Laws of the serial conversion
// ---------------------------------------------------------------------------

/// Real dates are ordered like their day numbers.
pub proof fn lemma_day_number_strict_mono(y1: int, m1: int, d1: int, y2: int, m2: int, d2: int)
    requires
        spec_valid_ymd(y1, m1, d1),
        spec_valid_ymd(y2, m2, d2),
        y1 < y2 || (y1 == y2 && m1 < m2) || (y1 == y2 && m1 == m2 && d1 < d2),
    ensures
        spec_day_number(y1, m1, d1) < spec_day_number(y2, m2, d2),
{
    lemma_day_number_range(y1, m1, d1);
    lemma_day_number_range(y2, m2, d2);
    if y1 < y2 {
        lemma_days_before_year_mono(y1 + 1, y2);
    } else if m1 < m2 {
        lemma_days_before_month_table(y1);
        lemma_days_before_month_mono(y1, m1 + 1, m2);
        assert(spec_days_before_month(y1, m1) + spec_days_in_month(y1, m1)
            == spec_days_before_month(y1, m1 + 1));
    }
}

proof fn lemma_days_before_month_mono(year: int, a: int, b: int)
    requires
        1 <= a <= b <= 13,
    ensures
        spec_days_before_month(year, a) <= spec_days_before_month(year, b),
    decreases b - a,
{
    if a < b {
        lemma_days_before_month_mono(year, a, b - 1);
        lemma_days_before_month_table(year);
        assert(spec_days_before_month(year, b - 1) + spec_days_in_month(year, b - 1)
            == spec_days_before_month(year, b));
    }
}

/// Two Excel dates with the same serial are the same date.
pub proof fn lemma_serial_injective(y1: int, m1: int, d1: int, y2: int, m2: int, d2: int)
    requires
        spec_ymd_to_serial(y1, m1, d1) is Some,
        spec_ymd_to_serial(y1, m1, d1) == spec_ymd_to_serial(y2, m2, d2),
    ensures
        y1 == y2 && m1 == m2 && d1 == d2,
{
    lemma_days_before_month_table(1900);
    assert(spec_days_before_year(1900) == 0);
    if !(y1 == y2 && m1 == m2 && d1 == d2) {
        let fake1 = y1 == 1900 && m1 == 2 && d1 == 29;
        let fake2 = y2 == 1900 && m2 == 2 && d2 == 29;
        if fake1 || fake2 {
            // The fictitious day has serial 60; real dates before it have serials
            // below 60 and later ones above 60.
            let (y, m, d) = if fake1 {
                (y2, m2, d2)
            } else {
                (y1, m1, d1)
            };
            lemma_day_number_range(y, m, d);
            if y > 1900 {
                lemma_days_before_year_mono(1901, y);
            } else if m > 2 {
                lemma_days_before_month_table(1900);
            }
        } else if y1 < y2 || (y1 == y2 && m1 < m2) || (y1 == y2 && m1 == m2 && d1 < d2) {
            lemma_day_number_strict_mono(y1, m1, d1, y2, m2, d2);
            lemma_serial_offset(y1, m1, d1);
            lemma_serial_offset(y2, m2, d2);
        } else {
            lemma_day_number_strict_mono(y2, m2, d2, y1, m1, d1);
            lemma_serial_offset(y1, m1, d1);
            lemma_serial_offset(y2, m2, d2);
        }
    }
}

/// Of two Excel dates in (year, month, day) order, the earlier has the
/// smaller serial.
proof fn lemma_serial_strict_mono(a: CivilDate, b: CivilDate)
    requires
        spec_excel_date(a),
        spec_excel_date(b),
        spec_date_lt(a, b),
    ensures
        spec_ymd_to_serial(a.year as int, a.month as int, a.day as int)->Some_0 < spec_ymd_to_serial(
            b.year as int,
            b.month as int,
            b.day as int,
        )->Some_0,
{
    let (y1, m1, d1) = (a.year as int, a.month as int, a.day as int);
    let (y2, m2, d2) = (b.year as int, b.month as int, b.day as int);
    lemma_days_before_month_table(1900);
    assert(spec_days_before_year(1900) == 0);
    let fake1 = y1 == 1900 && m1 == 2 && d1 == 29;
    let fake2 = y2 == 1900 && m2 == 2 && d2 == 29;
    if fake1 {
        // b is a real date after 1900-02-29, so past February 1900.
        assert(y2 > 1900 || m2 > 2);
        lemma_serial_offset(y2, m2, d2);
    } else if fake2 {
        // a is a real date before 1900-02-29.
        assert(!(y1 > 1900 || m1 > 2));
        lemma_serial_offset(y1, m1, d1);
    } else {
        lemma_day_number_strict_mono(y1, m1, d1, y2, m2, d2);
        lemma_serial_offset(y1, m1, d1);
        lemma_serial_offset(y2, m2, d2);
    }
}

/// The (year, month, day) order of dates, [`spec_date_lt`], is the order of
/// the serials, for every date that has one (the fictitious 1900-02-29
/// included): earlier exactly when the serial is smaller, equal exactly when
/// the serials are.
pub proof fn lemma_date_order_follows_serial(a: CivilDate, b: CivilDate)
    requires
        spec_excel_date(a),
        spec_excel_date(b),
    ensures
        spec_ymd_to_serial(a.year as int, a.month as int, a.day as int) is Some,
        spec_ymd_to_serial(b.year as int, b.month as int, b.day as int) is Some,
        spec_date_lt(a, b) <==> spec_ymd_to_serial(a.year as int, a.month as int, a.day as int)->Some_0
            < spec_ymd_to_serial(b.year as int, b.month as int, b.day as int)->Some_0,
        (a == b) <==> spec_ymd_to_serial(a.year as int, a.month as int, a.day as int)
            == spec_ymd_to_serial(b.year as int, b.month as int, b.day as int),
{
    if spec_date_lt(a, b) {
        lemma_serial_strict_mono(a, b);
    } else if spec_date_lt(b, a) {
        lemma_serial_strict_mono(b, a);
    } else {
        assert(a == b);
    }
}

/// For a real date, the fictitious-day offset is 1 exactly when the day
/// number is at least 60.
proof fn lemma_serial_offset(y: int, m: int, d: int)
    requires
        spec_valid_ymd(y, m, d),
    ensures
        (y > 1900 || m > 2) == (spec_day_number(y, m, d) >= 60),
{
    lemma_day_number_range(y, m, d);
    lemma_days_before_month_table(y);
    assert(spec_days_before_year(1900) == 0);
    if y > 1900 {
        lemma_days_before_year_mono(1901, y);
        assert(spec_days_before_year(1901) == 365);
    } else if m > 2 {
        lemma_days_before_month_mono(1900, 3, m);
    }
}

/// A date converted to its serial and back is the same date: whatever date
/// `serial_to_ymd` returns for the serial of `d` is `d` itself.
pub proof fn lemma_date_round_trip(d: CivilDate, e: CivilDate)
    requires
        spec_serial_of(d) is Some,
        spec_serial_of(e) == spec_serial_of(d),
    ensures
        d == e,
{
    lemma_serial_injective(
        d.year as int,
        d.month as int,
        d.day as int,
        e.year as int,
        e.month as int,
        e.day as int,
    );
}

// ---------------------------------------------------------------------------
// DATE
// ---------------------------------------------------------------------------

/// Excel `DATE(year, month, day)`: two-digit style years `0..1900` are offset
/// by 1900, months roll over into years, and days roll over into months.
pub open spec fn spec_date_serial(year: int, month: int, day: int) -> Option<int> {
    let y0 = if 0 <= year < 1900 {
        year + 1900
    } else {
        year
    };
    let y1 = y0 + (month - 1) / 12;
    let m1 = (month - 1) % 12 + 1;
    if !(1900 <= y0 <= 9999) || !(1900 <= y1 <= 9999) {
        None
    } else {
        let serial = spec_ymd_to_serial(y1, m1, 1).unwrap() + day - 1;
        if 1 <= serial <= MAX_EXCEL_SERIAL {
            Some(serial)
        } else {
            None
        }
    }
}

/// Excel `DATE(year, month, day)` with month/day rollover.
pub fn excel_date(year: i32, month: i32, day: i32) -> (r: Result<i64, ()>)
    ensures
        match spec_date_serial(year as int, month as int, day as int) {
            Some(s) => r == Ok::<i64, ()>(s as i64),
            None => r == Err::<i64, ()>(()),
        },
{
    let mut y: i64 = year as i64;
    if 0 <= y && y < 1900 {
        y += 1900;
    }
    if !(1900 <= y && y <= 9999) {
        return Err(());
    }
    // Euclidean division of `month - 1` by 12.
    let t: i64 = month as i64 - 1;
    let (q, m): (i64, i64) = if t >= 0 {
        let u: u64 = t as u64;
        ((u / 12) as i64, (u % 12) as i64)
    } else {
        let u: u64 = (-t - 1) as u64;
        (-((u / 12) as i64) - 1, 11 - (u % 12) as i64)
    };
    proof {
        assert(t == 12 * q + m && 0 <= m < 12);
        assert(q == t / 12 && m == t % 12) by (nonlinear_arith)
            requires
                t == 12 * q + m,
                0 <= m < 12,
        ;
    }
    let y1: i64 = y + q;
    if !(1900 <= y1 && y1 <= 9999) {
        return Err(());
    }
    let m1: u32 = (m + 1) as u32;
    let y1i: i32 = y1 as i32;
    assert(y1i as int == y1);
    let base = match ymd_to_serial(y1i, m1, 1) {
        Ok(b) => b,
        Err(_) => {
            return Err(());
        },
    };
    let serial: i64 = base + (day as i64 - 1);
    if !(1 <= serial && serial <= MAX_EXCEL_SERIAL) {
        return Err(());
    }
    // Normalize through a round trip so the result is the serial of a civil date.
    let civil = match serial_to_ymd(serial) {
        Ok(c) => c,
        Err(_) => {
            return Err(());
        },
    };
    proof {
        let y0 = if 0 <= year < 1900 {
            year + 1900
        } else {
            year as int
        };
        assert(y0 == y);
        assert(y1 == y0 + (month - 1) / 12);
        assert(m1 == (month - 1) % 12 + 1);
        assert(spec_ymd_to_serial(y1 as int, m1 as int, 1) == Some(base as int));
        assert(spec_date_serial(year as int, month as int, day as int) == Some(serial as int));
    }
    ymd_to_serial(civil.year, civil.month, civil.day)
}

// ---------------------------------------------------------------------------
// DATEVALUE
// ---------------------------------------------------------------------------

/// `x as u32` for an `i32` value `x`.
pub open spec fn spec_as_u32(x: int) -> int {
    if x >= 0 {
        x
    } else {
        x + 0x1_0000_0000
    }
}

pub open spec fn spec_seq_contains(s: Seq<char>, c: char) -> bool {
    s.contains(c)
}

/// Era prefixes: 令和 (Reiwa), 平成 (Heisei), 昭和 (Showa).
pub open spec fn spec_reiwa() -> Seq<char> {
    seq!['令', '和']
}

pub open spec fn spec_heisei() -> Seq<char> {
    seq!['平', '成']
}

pub open spec fn spec_showa() -> Seq<char> {
    seq!['昭', '和']
}

/// Era offset and the text after the era name (no era: offset 0).
pub open spec fn spec_era_split(t: Seq<char>) -> (int, Seq<char>) {
    if spec_starts_with(t, spec_reiwa()) {
        (2018int, t.skip(2))
    } else if spec_starts_with(t, spec_heisei()) {
        (1988int, t.skip(2))
    } else if spec_starts_with(t, spec_showa()) {
        (1925int, t.skip(2))
    } else {
        (0int, t)
    }
}

/// The year number of a Japanese date: `元` (first year) or an `i32`.
pub open spec fn spec_japanese_year_number(ys: Seq<char>) -> Option<int> {
    if ys == seq!['元'] {
        Some(1int)
    } else {
        match spec_parse_i32(ys) {
            Some(v) => Some(v as int),
            None => None,
        }
    }
}

/// `<year>年<month>月<day>日` after the era name.
pub open spec fn spec_parse_japanese_body(offset: int, rest: Seq<char>) -> Option<(int, int, int)> {
    let ky = spec_first_from(rest, '年', 0);
    if ky >= rest.len() {
        None
    } else {
        let ys = rest.take(ky);
        let after_y = rest.skip(ky + 1);
        let km = spec_first_from(after_y, '月', 0);
        if km >= after_y.len() {
            None
        } else {
            let ms = after_y.take(km);
            let after_m = after_y.skip(km + 1);
            if !(after_m.len() > 0 && after_m.last() == '日') {
                None
            } else {
                let ds = after_m.drop_last();
                match (spec_japanese_year_number(ys), spec_parse_u32(ms), spec_parse_u32(ds)) {
                    (Some(y), Some(m), Some(d)) => Some((offset + y, m as int, d as int)),
                    _ => None,
                }
            }
        }
    }
}

/// `YYYY年M月D日` and wareki forms such as `令和6年4月1日` (year, month, day).
pub open spec fn spec_parse_japanese(text: Seq<char>) -> Option<(int, int, int)> {
    let t = spec_trim(text);
    if !(t.contains('年') && t.contains('月') && t.contains('日')) {
        None
    } else {
        let (offset, rest) = spec_era_split(t);
        spec_parse_japanese_body(offset, rest)
    }
}

/// `Y-M-D`, `D/M/Y` (when the day is over 12) or `M/D/Y`, with `-`, `/` or `.`
/// as separator (year, month, day).
pub open spec fn spec_parse_slash_or_dash(t: Seq<char>) -> Option<(int, int, int)> {
    let sep = if t.contains('-') {
        Some('-')
    } else if t.contains('/') {
        Some('/')
    } else if t.contains('.') {
        Some('.')
    } else {
        None
    };
    match sep {
        None => None,
        Some(sep) => {
            let parts = spec_fields(t, sep);
            if parts.len() != 3 {
                None
            } else {
                match (
                    spec_parse_i32(parts[0]),
                    spec_parse_u32(parts[1]),
                    spec_parse_i32(parts[2]),
                ) {
                    (Some(a), Some(b), Some(c)) => {
                        if parts[0].len() >= 4 {
                            Some((a as int, b as int, spec_as_u32(c as int)))
                        } else if parts[2].len() == 4 {
                            if a > 12 {
                                Some((c as int, b as int, spec_as_u32(a as int)))
                            } else {
                                Some((c as int, spec_as_u32(a as int), b as int))
                            }
                        } else {
                            None
                        }
                    },
                    _ => None,
                }
            }
        },
    }
}

/// Serial of a date written as text (`DATEVALUE`); invalid calendar dates
/// have none.
pub open spec fn spec_datevalue(text: Seq<char>) -> Option<int> {
    let t = spec_trim(text);
    let parts = match spec_parse_japanese(t) {
        Some(p) => Some(p),
        None => spec_parse_slash_or_dash(t),
    };
    match parts {
        None => None,
        Some((y, m, d)) => {
            if 1 <= m <= 12 {
                spec_ymd_to_serial(y, m, d)
            } else {
                None
            }
        },
    }
}

fn chars_eq(a: &Vec<char>, b: &Vec<char>) -> (r: bool)
    ensures
        r == (a@ == b@),
{
    if a.len() != b.len() {
        return false;
    }
    let mut i: usize = 0;
    while i < a.len()
        invariant
            a@.len() == b@.len(),
            i <= a@.len(),
            forall|k: int| 0 <= k < i ==> a@[k] == b@[k],
        decreases a.len() - i,
    {
        if a[i] != b[i] {
            return false;
        }
        i += 1;
    }
    proof {
        assert(a@ =~= b@);
    }
    true
}

fn starts_with_pair(t: &Vec<char>, c0: char, c1: char) -> (r: bool)
    ensures
        r == spec_starts_with(t@, seq![c0, c1]),
{
    let r = t.len() >= 2 && t[0] == c0 && t[1] == c1;
    proof {
        if t@.len() >= 2 {
            if r {
                assert(t@.take(2) =~= seq![c0, c1]);
            } else {
                assert(t@.take(2)[0] == t@[0] && t@.take(2)[1] == t@[1]);
            }
        }
    }
    r
}

fn era_split(t: &Vec<char>) -> (r: (i64, Vec<char>))
    ensures
        r.0 == spec_era_split(t@).0,
        r.1@ == spec_era_split(t@).1,
{
    let (offset, skip): (i64, usize) = if starts_with_pair(t, '令', '和') {
        (2018, 2)
    } else if starts_with_pair(t, '平', '成') {
        (1988, 2)
    } else if starts_with_pair(t, '昭', '和') {
        (1925, 2)
    } else {
        (0, 0)
    };
    let rest = slice_chars(t, skip, t.len());
    proof {
        assert(rest@ =~= t@.skip(skip as int));
        assert(spec_reiwa() == seq!['令', '和']);
    }
    (offset, rest)
}

fn japanese_year_number(ys: &Vec<char>) -> (r: Option<i64>)
    ensures
        match spec_japanese_year_number(ys@) {
            Some(v) => r == Some(v as i64),
            None => r is None,
        },
        r matches Some(v) ==> spec_japanese_year_number(ys@) == Some(v as int),
{
    let gan: Vec<char> = vec!['元'];
    proof {
        assert(gan@ =~= seq!['元']);
        assert(ys@.subrange(0, ys@.len() as int) =~= ys@);
    }
    if chars_eq(ys, &gan) {
        Some(1)
    } else {
        match parse_i32_range(ys, 0, ys.len()) {
            Some(v) => Some(v as i64),
            None => None,
        }
    }
}

fn parse_japanese_body(offset: i64, rest: &Vec<char>) -> (r: Option<(i64, u32, u32)>)
    requires
        0 <= offset <= 2018,
    ensures
        match spec_parse_japanese_body(offset as int, rest@) {
            Some((y, m, d)) => r == Some((y as i64, m as u32, d as u32)),
            None => r is None,
        },
        r matches Some((y, m, d)) ==> spec_parse_japanese_body(offset as int, rest@) == Some(
            (y as int, m as int, d as int),
        ),
{
    let ky = first_index_from(rest, '年', 0);
    if ky >= rest.len() {
        return None;
    }
    let ys = slice_chars(rest, 0, ky);
    let after_y = slice_chars(rest, ky + 1, rest.len());
    proof {
        assert(ys@ =~= rest@.take(ky as int));
        assert(after_y@ =~= rest@.skip(ky + 1));
    }
    let km = first_index_from(&after_y, '月', 0);
    if km >= after_y.len() {
        return None;
    }
    let ms = slice_chars(&after_y, 0, km);
    let after_m = slice_chars(&after_y, km + 1, after_y.len());
    proof {
        assert(ms@ =~= after_y@.take(km as int));
        assert(after_m@ =~= after_y@.skip(km + 1));
    }
    if !(after_m.len() > 0 && after_m[after_m.len() - 1] == '日') {
        return None;
    }
    let ds = slice_chars(&after_m, 0, after_m.len() - 1);
    proof {
        assert(ds@ =~= after_m@.drop_last());
        assert(ms@.subrange(0, ms@.len() as int) =~= ms@);
        assert(ds@.subrange(0, ds@.len() as int) =~= ds@);
    }
    let yn = japanese_year_number(&ys);
    let m = parse_u32_range(&ms, 0, ms.len());
    let d = parse_u32_range(&ds, 0, ds.len());
    match (yn, m, d) {
        (Some(y), Some(m), Some(d)) => Some((offset + y, m, d)),
        _ => None,
    }
}

/// Parses `YYYY年M月D日` and wareki forms such as `令和6年4月1日`.
pub fn parse_japanese_date(text: &Vec<char>) -> (r: Option<(i64, u32, u32)>)
    ensures
        match spec_parse_japanese(text@) {
            Some((y, m, d)) => r == Some((y as i64, m as u32, d as u32)),
            None => r is None,
        },
        r matches Some((y, m, d)) ==> spec_parse_japanese(text@) == Some(
            (y as int, m as int, d as int),
        ),
{
    let t = trim_chars(text);
    if !(contains_char(&t, '年') && contains_char(&t, '月') && contains_char(&t, '日')) {
        return None;
    }
    let (offset, rest) = era_split(&t);
    parse_japanese_body(offset, &rest)
}

/// Parses `Y-M-D`, `D/M/Y` (day over 12) or `M/D/Y` with `-`, `/` or `.`.
pub fn parse_slash_or_dash_date(t: &Vec<char>) -> (r: Option<(i64, i64, i64)>)
    ensures
        match spec_parse_slash_or_dash(t@) {
            Some((y, m, d)) => r == Some((y as i64, m as i64, d as i64)),
            None => r is None,
        },
        r matches Some((y, m, d)) ==> spec_parse_slash_or_dash(t@) == Some((y as int, m as int, d as int)),
{
    let sep = if contains_char(t, '-') {
        '-'
    } else if contains_char(t, '/') {
        '/'
    } else if contains_char(t, '.') {
        '.'
    } else {
        return None;
    };
    let parts = split_fields(t, sep);
    if parts.len() != 3 {
        return None;
    }
    proof {
        assert(parts@[0]@ == spec_fields(t@, sep)[0]);
        assert(parts@[1]@ == spec_fields(t@, sep)[1]);
        assert(parts@[2]@ == spec_fields(t@, sep)[2]);
        assert(parts@[0]@.subrange(0, parts@[0]@.len() as int) =~= parts@[0]@);
        assert(parts@[1]@.subrange(0, parts@[1]@.len() as int) =~= parts@[1]@);
        assert(parts@[2]@.subrange(0, parts@[2]@.len() as int) =~= parts@[2]@);
    }
    let a = parse_i32_range(&parts[0], 0, parts[0].len());
    let b = parse_u32_range(&parts[1], 0, parts[1].len());
    let c = parse_i32_range(&parts[2], 0, parts[2].len());
    match (a, b, c) {
        (Some(a), Some(b), Some(c)) => {
            let a_u: i64 = if a >= 0 {
                a as i64
            } else {
                a as i64 + 0x1_0000_0000
            };
            let c_u: i64 = if c >= 0 {
                c as i64
            } else {
                c as i64 + 0x1_0000_0000
            };
            if parts[0].len() >= 4 {
                Some((a as i64, b as i64, c_u))
            } else if parts[2].len() == 4 {
                if a > 12 {
                    Some((c as i64, b as i64, a_u))
                } else {
                    Some((c as i64, a_u, b as i64))
                }
            } else {
                None
            }
        },
        _ => None,
    }
}

/// Strict date parsing for `DATEVALUE` (invalid calendar dates are rejected).
pub fn datevalue(text: &str) -> (r: Result<i64, ()>)
    ensures
        match spec_datevalue(text@) {
            Some(s) => r == Ok::<i64, ()>(s as i64),
            None => r == Err::<i64, ()>(()),
        },
{
    let raw = chars_of(text);
    let t = trim_chars(&raw);
    let (y, m, d): (i64, i64, i64) = match parse_japanese_date(&t) {
        Some((y, m, d)) => (y, m as i64, d as i64),
        None => match parse_slash_or_dash_date(&t) {
            Some(p) => p,
            None => {
                return Err(());
            },
        },
    };
    if !(1 <= m && m <= 12) {
        return Err(());
    }
    if !(i32::MIN as i64 <= y && y <= i32::MAX as i64) || !(0 <= d && d <= u32::MAX as i64) {
        proof {
            assert(spec_ymd_to_serial(y as int, m as int, d as int) is None);
        }
        return Err(());
    }
    ymd_to_serial(y as i32, m as u32, d as u32)
}

// ---------------------------------------------------------------------------
// DATEDIF
// ---------------------------------------------------------------------------

#[derive(Debug, PartialEq, Eq, Structural)]
pub enum DatedifError {
    Num,
    Value,
}

/// `day`, limited to the length of the month.
pub open spec fn spec_clamp_day(year: int, month: int, day: int) -> int {
    let dim = spec_days_in_month(year, month);
    if day < dim {
        day
    } else {
        dim
    }
}

pub fn clamp_day(year: i32, month: u32, day: u32) -> (r: u32)
    ensures
        r == spec_clamp_day(year as int, month as int, day as int),
{
    let dim = days_in_month(year, month);
    if day < dim {
        day
    } else {
        dim
    }
}

/// PhpSpreadsheet / Excel `MD`: day difference ignoring months and years; when
/// the end day is earlier it borrows the length of the month before the end
/// month (so it can be negative in known edge cases).
pub open spec fn spec_datedif_md(start: CivilDate, end: CivilDate) -> int {
    if end.day >= start.day {
        end.day - start.day
    } else {
        let (py, pm) = if end.month == 1 {
            (end.year - 1, 12int)
        } else {
            (end.year as int, end.month - 1)
        };
        end.day + spec_days_in_month(py, pm) - start.day
    }
}

/// The year-agnostic `YD` end date: `end`'s month and day in `start`'s year,
/// or in the next year when that falls before `start` (days clamped to the
/// month length).
pub open spec fn spec_yd_end(start: CivilDate, end: CivilDate) -> (int, int, int) {
    let d0 = spec_clamp_day(start.year as int, end.month as int, end.day as int);
    let before = end.month < start.month || (end.month == start.month && d0 < start.day);
    if before {
        (
            start.year + 1,
            end.month as int,
            spec_clamp_day(start.year + 1, end.month as int, end.day as int),
        )
    } else {
        (start.year as int, end.month as int, d0)
    }
}

/// Excel `DATEDIF(start, end, unit)` on whole days.
pub open spec fn spec_datedif(start: CivilDate, end: CivilDate, unit: Seq<char>) -> Result<
    int,
    DatedifError,
> {
    let u = spec_upper_seq(spec_trim(unit));
    if spec_date_lt(end, start) {
        Err(DatedifError::Num)
    } else if u == seq!['Y'] {
        Ok(
            end.year - start.year - if end.month < start.month || (end.month == start.month
                && end.day < start.day) {
                1int
            } else {
                0int
            },
        )
    } else if u == seq!['M'] {
        Ok(
            (end.year - start.year) * 12 + (end.month - start.month) - if end.day < start.day {
                1int
            } else {
                0int
            },
        )
    } else if u == seq!['D'] {
        match (spec_serial_of(start), spec_serial_of(end)) {
            (Some(a), Some(b)) => Ok(b - a),
            _ => Err(DatedifError::Value),
        }
    } else if u == seq!['Y', 'M'] {
        let m = end.month - start.month - if end.day < start.day {
            1int
        } else {
            0int
        };
        Ok(
            if m < 0 {
                m + 12
            } else {
                m
            },
        )
    } else if u == seq!['Y', 'D'] {
        let (y, m, d) = spec_yd_end(start, end);
        match (spec_serial_of(start), spec_ymd_to_serial(y, m, d)) {
            (Some(a), Some(b)) => Ok(b - a),
            _ => Err(DatedifError::Value),
        }
    } else if u == seq!['M', 'D'] {
        Ok(spec_datedif_md(start, end))
    } else {
        Err(DatedifError::Value)
    }
}

fn datedif_md(start: CivilDate, end: CivilDate) -> (r: i64)
    ensures
        r == spec_datedif_md(start, end),
{
    if end.day >= start.day {
        (end.day - start.day) as i64
    } else {
        // the month before January is December, 31 days in any year
        let adjust_days: u32 = if end.month == 1 {
            31
        } else if end.month == 0 {
            0
        } else {
            days_in_month(end.year, end.month - 1)
        };
        end.day as i64 + adjust_days as i64 - start.day as i64
    }
}

fn unit_is(u: &Vec<char>, c0: char, c1: char, two: bool) -> (r: bool)
    ensures
        r == (if two {
            u@ == seq![c0, c1]
        } else {
            u@ == seq![c0]
        }),
{
    let r = if two {
        u.len() == 2 && u[0] == c0 && u[1] == c1
    } else {
        u.len() == 1 && u[0] == c0
    };
    proof {
        if r {
            if two {
                assert(u@ =~= seq![c0, c1]);
            } else {
                assert(u@ =~= seq![c0]);
            }
        }
    }
    r
}

/// Excel `DATEDIF` (`Y`, `M`, `D`, `YM`, `YD`, `MD`; unit case-insensitive).
pub fn datedif(start: CivilDate, end: CivilDate, unit: &str) -> (r: Result<i64, DatedifError>)
    ensures
        match spec_datedif(start, end, unit@) {
            Ok(v) => r == Ok::<i64, DatedifError>(v as i64),
            Err(e) => r == Err::<i64, DatedifError>(e),
        },
{
    if date_lt(end, start) {
        return Err(DatedifError::Num);
    }
    let raw = chars_of(unit);
    let trimmed = trim_chars(&raw);
    let u = upper_chars(&trimmed);
    if unit_is(&u, 'Y', 'Y', false) {
        let mut years: i64 = end.year as i64 - start.year as i64;
        if end.month < start.month || (end.month == start.month && end.day < start.day) {
            years -= 1;
        }
        Ok(years)
    } else if unit_is(&u, 'M', 'M', false) {
        let mut months: i64 = (end.year as i64 - start.year as i64) * 12 + (end.month as i64
            - start.month as i64);
        if end.day < start.day {
            months -= 1;
        }
        Ok(months)
    } else if unit_is(&u, 'D', 'D', false) {
        let start_serial = match ymd_to_serial(start.year, start.month, start.day) {
            Ok(s) => s,
            Err(_) => {
                return Err(DatedifError::Value);
            },
        };
        let end_serial = match ymd_to_serial(end.year, end.month, end.day) {
            Ok(s) => s,
            Err(_) => {
                return Err(DatedifError::Value);
            },
        };
        Ok(end_serial - start_serial)
    } else if unit_is(&u, 'Y', 'M', true) {
        let mut months: i64 = end.month as i64 - start.month as i64;
        if end.day < start.day {
            months -= 1;
        }
        if months < 0 {
            months += 12;
        }
        Ok(months)
    } else if unit_is(&u, 'Y', 'D', true) {
        let start_serial = match ymd_to_serial(start.year, start.month, start.day) {
            Ok(s) => s,
            Err(_) => {
                return Err(DatedifError::Value);
            },
        };
        // `start` has a serial, so its year is at most 9999
        let mut end_year: i32 = start.year;
        let end_day = clamp_day(end_year, end.month, end.day);
        let mut adjusted = CivilDate { year: end_year, month: end.month, day: end_day };
        if date_lt(adjusted, start) {
            end_year += 1;
            let end_day = clamp_day(end_year, end.month, end.day);
            adjusted = CivilDate { year: end_year, month: end.month, day: end_day };
        }
        let end_serial = match ymd_to_serial(adjusted.year, adjusted.month, adjusted.day) {
            Ok(s) => s,
            Err(_) => {
                return Err(DatedifError::Value);
            },
        };
        Ok(end_serial - start_serial)
    } else if unit_is(&u, 'M', 'D', true) {
        Ok(datedif_md(start, end))
    } else {
        Err(DatedifError::Value)
    }
}


// ---------------------------------------------------------------------------
// Laws of DATEVALUE and DATEDIF
// ---------------------------------------------------------------------------

/// Strict lexicographic order on (year, month, day) triples of integers.
pub open spec fn spec_ymd_lt(a: (int, int, int), b: (int, int, int)) -> bool {
    ||| a.0 < b.0
    ||| a.0 == b.0 && a.1 < b.1
    ||| a.0 == b.0 && a.1 == b.1 && a.2 < b.2
}

/// `DATEDIF(start, end, "Y")` counts whole years: the result `n` is the
/// number for which `start` moved on by `n` years (same month and day) is not
/// after `end`, and moved on by `n + 1` years is after it.
pub proof fn lemma_datedif_whole_years(start: CivilDate, end: CivilDate)
    requires
        !spec_date_lt(end, start),
    ensures
        spec_datedif(start, end, seq!['Y']) is Ok,
        ({
            let n = spec_datedif(start, end, seq!['Y'])->Ok_0;
            let e = (end.year as int, end.month as int, end.day as int);
            &&& n >= 0
            &&& !spec_ymd_lt(e, (start.year + n, start.month as int, start.day as int))
            &&& spec_ymd_lt(e, (start.year + n + 1, start.month as int, start.day as int))
        }),
{
    let u = seq!['Y'];
    crate::text::lemma_trim_unchanged(u);
    assert(spec_upper_seq(spec_trim(u)) =~= u);
}

/// The first `c` from `i` on is at `k` when `s[k]` is `c` and none is before.
proof fn lemma_first_from_at(s: Seq<char>, c: char, i: int, k: int)
    requires
        0 <= i <= k <= s.len(),
        k < s.len() ==> s[k] == c,
        forall|t: int| i <= t < k ==> s[t] != c,
    ensures
        spec_first_from(s, c, i) == k,
{
    crate::text::lemma_first_from(s, c, i);
}

/// The text `ys sep ms sep ds` of three digit strings: every character is a
/// digit or the separator, which stands only between the pieces.
proof fn lemma_year_first_shape(ys: Seq<char>, ms: Seq<char>, ds: Seq<char>, sep: char)
    requires
        !crate::text::spec_is_digit(sep),
        ys.len() > 0,
        ms.len() > 0,
        ds.len() > 0,
        crate::text::spec_all_digits(ys),
        crate::text::spec_all_digits(ms),
        crate::text::spec_all_digits(ds),
    ensures
        ({
            let t = ys + seq![sep] + ms + seq![sep] + ds;
            let i = ys.len() as int;
            let j = i + 1 + ms.len();
            &&& t.len() == j + 1 + ds.len()
            &&& t[i] == sep && t[j] == sep
            &&& forall|k: int| 0 <= k < t.len() ==> crate::text::spec_is_digit(#[trigger] t[k]) || t[k] == sep
            &&& forall|k: int| 0 <= k < t.len() && k != i && k != j ==> #[trigger] t[k] != sep
            &&& t.subrange(0, i) == ys
            &&& t.subrange(i + 1, j) == ms
            &&& t.subrange(j + 1, t.len() as int) == ds
            &&& t[0] == ys[0]
            &&& t[t.len() - 1] == ds[ds.len() - 1]
        }),
{
    let t = ys + seq![sep] + ms + seq![sep] + ds;
    let i = ys.len() as int;
    let j = i + 1 + ms.len();
    let n = t.len() as int;
    assert forall|k: int| 0 <= k < n implies crate::text::spec_is_digit(#[trigger] t[k]) != (t[k] == sep) by {
        if k < i {
            assert(t[k] == ys[k]);
        } else if i < k < j {
            assert(t[k] == ms[k - i - 1]);
        } else if j < k {
            assert(t[k] == ds[k - j - 1]);
        }
    }
    assert(t.subrange(0, i) =~= ys);
    assert(t.subrange(i + 1, j) =~= ms);
    assert(t.subrange(j + 1, n) =~= ds);
    assert(t[n - 1] == ds[ds.len() - 1]);
}

/// Splitting `ys sep ms sep ds` at `sep` gives the three digit strings.
proof fn lemma_year_first_fields(ys: Seq<char>, ms: Seq<char>, ds: Seq<char>, sep: char)
    requires
        !crate::text::spec_is_digit(sep),
        ys.len() > 0,
        ms.len() > 0,
        ds.len() > 0,
        crate::text::spec_all_digits(ys),
        crate::text::spec_all_digits(ms),
        crate::text::spec_all_digits(ds),
    ensures
        spec_fields(ys + seq![sep] + ms + seq![sep] + ds, sep) == seq![ys, ms, ds],
{
    let t = ys + seq![sep] + ms + seq![sep] + ds;
    let i = ys.len() as int;
    let j = i + 1 + ms.len();
    let n = t.len() as int;
    lemma_year_first_shape(ys, ms, ds, sep);
    lemma_first_from_at(t, sep, 0, i);
    lemma_first_from_at(t, sep, i + 1, j);
    lemma_first_from_at(t, sep, j + 1, n);
    assert(crate::text::spec_is_digit(ys[0]) && crate::text::spec_is_digit(ys[i - 1]));
    assert(crate::text::spec_is_digit(ms[0]) && crate::text::spec_is_digit(ms[ms.len() - 1]));
    assert(crate::text::spec_is_digit(ds[0]) && crate::text::spec_is_digit(ds[ds.len() - 1]));
    crate::text::lemma_trim_unchanged(ys);
    crate::text::lemma_trim_unchanged(ms);
    crate::text::lemma_trim_unchanged(ds);
    let tail = crate::text::spec_fields_from(t, sep, j + 1);
    assert(tail == seq![ds]);
    let mid = crate::text::spec_fields_from(t, sep, i + 1);
    assert(mid == seq![ms] + tail);
    assert(spec_fields(t, sep) == seq![ys] + mid);
    assert(seq![ys] + (seq![ms] + seq![ds]) =~= seq![ys, ms, ds]);
}

/// A date written year first, `Y-M-D` (or `Y/M/D`, `Y.M.D`) with a year of at
/// least four digits, reads as that year, month and day: its `DATEVALUE` is
/// the date's serial.
pub proof fn lemma_datevalue_year_first(ys: Seq<char>, ms: Seq<char>, ds: Seq<char>, sep: char)
    requires
        sep == '-' || sep == '/' || sep == '.',
        ys.len() >= 4,
        ms.len() > 0,
        ds.len() > 0,
        crate::text::spec_all_digits(ys),
        crate::text::spec_all_digits(ms),
        crate::text::spec_all_digits(ds),
        spec_is_excel_date(
            crate::text::spec_digits_value(ys),
            crate::text::spec_digits_value(ms),
            crate::text::spec_digits_value(ds),
        ),
    ensures
        spec_datevalue(ys + seq![sep] + ms + seq![sep] + ds) == spec_ymd_to_serial(
            crate::text::spec_digits_value(ys),
            crate::text::spec_digits_value(ms),
            crate::text::spec_digits_value(ds),
        ),
{
    let y = crate::text::spec_digits_value(ys);
    let m = crate::text::spec_digits_value(ms);
    let d = crate::text::spec_digits_value(ds);
    let t = ys + seq![sep] + ms + seq![sep] + ds;
    lemma_year_first_shape(ys, ms, ds, sep);
    lemma_year_first_fields(ys, ms, ds, sep);
    assert(crate::text::spec_is_digit(ys[0]));
    assert(crate::text::spec_is_digit(ds[ds.len() - 1]));
    crate::text::lemma_trim_unchanged(t);
    assert(!t.contains('年')) by {
        if t.contains('年') {
            let k = choose|k: int| 0 <= k < t.len() && t[k] == '年';
            assert(crate::text::spec_is_digit(t[k]) || t[k] == sep);
        }
    }
    assert(spec_parse_japanese(t) is None);
    assert(t.contains(sep)) by {
        assert(t[ys.len() as int] == sep);
    }
    if sep != '-' {
        assert(!t.contains('-')) by {
            if t.contains('-') {
                let k = choose|k: int| 0 <= k < t.len() && t[k] == '-';
                assert(crate::text::spec_is_digit(t[k]) || t[k] == sep);
            }
        }
    }
    if sep == '.' {
        assert(!t.contains('/')) by {
            if t.contains('/') {
                let k = choose|k: int| 0 <= k < t.len() && t[k] == '/';
                assert(crate::text::spec_is_digit(t[k]) || t[k] == sep);
            }
        }
    }
    crate::text::lemma_digits_value_nonneg(ys);
    crate::text::lemma_digits_value_nonneg(ms);
    crate::text::lemma_digits_value_nonneg(ds);
    assert(crate::text::spec_is_digit(ms[0]) && crate::text::spec_is_digit(ds[0]));
    assert(crate::text::spec_unsigned_body(ms) == ms);
    assert(spec_parse_i32(ys) == Some(y as i32));
    assert(spec_parse_u32(ms) == Some(m as u32));
    assert(spec_parse_i32(ds) == Some(d as i32));
    assert(spec_parse_slash_or_dash(t) == Some((y, m, d)));
}


/// A date written with a four-digit year last and a shorter first field reads
/// as day, month, year when the first number is over 12, and as month, day,
/// year otherwise: its `DATEVALUE` is the serial of that date.
pub proof fn lemma_datevalue_year_last(first: Seq<char>, second: Seq<char>, ys: Seq<char>, sep: char)
    requires
        sep == '-' || sep == '/' || sep == '.',
        0 < first.len() < 4,
        second.len() > 0,
        ys.len() == 4,
        crate::text::spec_all_digits(first),
        crate::text::spec_all_digits(second),
        crate::text::spec_all_digits(ys),
    ensures
        ({
            let a = crate::text::spec_digits_value(first);
            let b = crate::text::spec_digits_value(second);
            let y = crate::text::spec_digits_value(ys);
            let t = first + seq![sep] + second + seq![sep] + ys;
            &&& a <= 12 && spec_is_excel_date(y, a, b) ==> spec_datevalue(t) == spec_ymd_to_serial(y, a, b)
            &&& a > 12 && spec_is_excel_date(y, b, a) ==> spec_datevalue(t) == spec_ymd_to_serial(y, b, a)
        }),
{
    let a = crate::text::spec_digits_value(first);
    let b = crate::text::spec_digits_value(second);
    let y = crate::text::spec_digits_value(ys);
    let t = first + seq![sep] + second + seq![sep] + ys;
    if (a <= 12 && spec_is_excel_date(y, a, b)) || (a > 12 && spec_is_excel_date(y, b, a)) {
        lemma_year_first_shape(first, second, ys, sep);
        lemma_year_first_fields(first, second, ys, sep);
        assert(crate::text::spec_is_digit(first[0]));
        assert(crate::text::spec_is_digit(ys[ys.len() - 1]));
        crate::text::lemma_trim_unchanged(t);
        assert(!t.contains('年')) by {
            if t.contains('年') {
                let k = choose|k: int| 0 <= k < t.len() && t[k] == '年';
                assert(crate::text::spec_is_digit(t[k]) || t[k] == sep);
            }
        }
        assert(spec_parse_japanese(t) is None);
        assert(t.contains(sep)) by {
            assert(t[first.len() as int] == sep);
        }
        if sep != '-' {
            assert(!t.contains('-')) by {
                if t.contains('-') {
                    let k = choose|k: int| 0 <= k < t.len() && t[k] == '-';
                    assert(crate::text::spec_is_digit(t[k]) || t[k] == sep);
                }
            }
        }
        if sep == '.' {
            assert(!t.contains('/')) by {
                if t.contains('/') {
                    let k = choose|k: int| 0 <= k < t.len() && t[k] == '/';
                    assert(crate::text::spec_is_digit(t[k]) || t[k] == sep);
                }
            }
        }
        crate::text::lemma_digits_value_nonneg(first);
        crate::text::lemma_digits_value_nonneg(second);
        crate::text::lemma_digits_value_nonneg(ys);
        lemma_three_digits_below_1000(first);
        assert(crate::text::spec_is_digit(second[0]) && crate::text::spec_is_digit(ys[0]));
        assert(crate::text::spec_unsigned_body(second) == second);
        assert(spec_parse_i32(first) == Some(a as i32));
        assert(spec_parse_u32(second) == Some(b as u32));
        assert(spec_parse_i32(ys) == Some(y as i32));
        if a > 12 {
            assert(spec_parse_slash_or_dash(t) == Some((y, b, a)));
        } else {
            assert(spec_parse_slash_or_dash(t) == Some((y, a, b)));
        }
    }
}

/// At most three digits make a number below 1000.
proof fn lemma_three_digits_below_1000(s: Seq<char>)
    requires
        s.len() < 4,
        crate::text::spec_all_digits(s),
    ensures
        crate::text::spec_digits_value(s) < 1000,
    decreases s.len(),
{
    if s.len() > 0 {
        lemma_three_digits_below_1000(s.drop_last());
        assert(crate::text::spec_all_digits(s.drop_last()));
        assert(crate::text::spec_is_digit(s.last()));
        if s.len() == 1 {
            assert(crate::text::spec_digits_value(s.drop_last()) == 0);
        } else if s.len() == 2 {
            lemma_one_digit_below_10(s.drop_last());
        } else {
            lemma_two_digits_below_100(s.drop_last());
        }
    }
}

proof fn lemma_one_digit_below_10(s: Seq<char>)
    requires
        s.len() == 1,
        crate::text::spec_all_digits(s),
    ensures
        crate::text::spec_digits_value(s) < 10,
{
    assert(crate::text::spec_is_digit(s.last()));
    assert(s.drop_last().len() == 0);
    assert(crate::text::spec_digits_value(s.drop_last()) == 0);
    assert(crate::text::spec_digit_val(s.last()) < 10);
}

proof fn lemma_two_digits_below_100(s: Seq<char>)
    requires
        s.len() == 2,
        crate::text::spec_all_digits(s),
    ensures
        crate::text::spec_digits_value(s) < 100,
{
    assert(crate::text::spec_is_digit(s.last()));
    assert(crate::text::spec_all_digits(s.drop_last()));
    lemma_one_digit_below_10(s.drop_last());
}

/// `DATEDIF(start, end, "M")` counts whole months: the result `n` is the
/// number for which `start` moved on by `n` months (same day) is not after
/// `end`, and moved on by `n + 1` months is after it; between real dates it
/// is never negative.
pub proof fn lemma_datedif_whole_months(start: CivilDate, end: CivilDate)
    requires
        !spec_date_lt(end, start),
    ensures
        spec_datedif(start, end, seq!['M']) is Ok,
        ({
            let n = spec_datedif(start, end, seq!['M'])->Ok_0;
            let sm = start.year as int * 12 + start.month as int;
            let em = end.year as int * 12 + end.month as int;
            &&& 1 <= start.month <= 12 && 1 <= end.month <= 12 ==> n >= 0
            &&& sm + n < em || (sm + n == em && start.day <= end.day)
            &&& em < sm + n + 1 || (em == sm + n + 1 && end.day < start.day)
        }),
{
    let u = seq!['M'];
    crate::text::lemma_trim_unchanged(u);
    assert(spec_upper_seq(spec_trim(u)) =~= u);
    let sy = start.year as int;
    let ey = end.year as int;
    let n = spec_datedif(start, end, seq!['M'])->Ok_0;
    let adj: int = if end.day < start.day {
        1
    } else {
        0
    };
    assert(n == (ey - sy) * 12 + (end.month - start.month) - adj);
    assert((ey - sy) * 12 == ey * 12 - sy * 12) by (nonlinear_arith);
    assert(ey > sy ==> (ey - sy) * 12 >= 12) by (nonlinear_arith);
}

/// `DATEDIF(start, end, "YM")` is the months left over after the whole years:
/// the whole months less twelve times the whole years, below twelve between
/// real dates.
pub proof fn lemma_datedif_months_after_years(start: CivilDate, end: CivilDate)
    requires
        !spec_date_lt(end, start),
    ensures
        spec_datedif(start, end, seq!['Y', 'M']) is Ok,
        spec_datedif(start, end, seq!['Y', 'M'])->Ok_0 == spec_datedif(start, end, seq!['M'])->Ok_0
            - 12 * spec_datedif(start, end, seq!['Y'])->Ok_0,
        1 <= start.month <= 12 && 1 <= end.month <= 12 ==> 0 <= spec_datedif(
            start,
            end,
            seq!['Y', 'M'],
        )->Ok_0 < 12,
{
    lemma_datedif_whole_years(start, end);
    lemma_datedif_whole_months(start, end);
    let u = seq!['Y', 'M'];
    crate::text::lemma_trim_unchanged(u);
    assert(spec_upper_seq(spec_trim(u)) =~= u);
    assert(u != seq!['Y']);
    assert(u != seq!['M']);
    assert(u != seq!['D']);
    let sy = start.year as int;
    let ey = end.year as int;
    assert((ey - sy) * 12 == ey * 12 - sy * 12) by (nonlinear_arith);
    assert(12 * (ey - sy) == ey * 12 - sy * 12) by (nonlinear_arith);
    assert(12 * (ey - sy - 1) == ey * 12 - sy * 12 - 12) by (nonlinear_arith);
}


/// The body `ys年ms月ds日` of a Japanese date, after any era name, reads as
/// its three numbers.
proof fn lemma_japanese_body(offset: int, ys: Seq<char>, ms: Seq<char>, ds: Seq<char>)
    requires
        ys.len() > 0,
        ms.len() > 0,
        ds.len() > 0,
        crate::text::spec_all_digits(ys),
        crate::text::spec_all_digits(ms),
        crate::text::spec_all_digits(ds),
        crate::text::spec_digits_value(ys) <= 9999,
        crate::text::spec_digits_value(ms) <= 12,
        crate::text::spec_digits_value(ds) <= 31,
    ensures
        spec_parse_japanese_body(offset, ys + seq!['年'] + ms + seq!['月'] + ds + seq!['日']) == Some(
            (
                offset + crate::text::spec_digits_value(ys),
                crate::text::spec_digits_value(ms),
                crate::text::spec_digits_value(ds),
            ),
        ),
{
    let rest = ys + seq!['年'] + ms + seq!['月'] + ds + seq!['日'];
    let i = ys.len() as int;
    assert(rest[i] == '年');
    assert forall|k: int| 0 <= k < i implies rest[k] != '年' by {
        assert(rest[k] == ys[k]);
        assert(crate::text::spec_is_digit(ys[k]));
    }
    lemma_first_from_at(rest, '年', 0, i);
    assert(rest.take(i) =~= ys);
    let after_y = rest.skip(i + 1);
    assert(after_y =~= ms + seq!['月'] + ds + seq!['日']);
    let j = ms.len() as int;
    assert(after_y[j] == '月');
    assert forall|k: int| 0 <= k < j implies after_y[k] != '月' by {
        assert(after_y[k] == ms[k]);
        assert(crate::text::spec_is_digit(ms[k]));
    }
    lemma_first_from_at(after_y, '月', 0, j);
    assert(after_y.take(j) =~= ms);
    let after_m = after_y.skip(j + 1);
    assert(after_m =~= ds + seq!['日']);
    assert(after_m.drop_last() =~= ds);
    assert(ys != seq!['元']) by {
        assert(crate::text::spec_is_digit(ys[0]));
    }
    crate::text::lemma_digits_value_nonneg(ys);
    crate::text::lemma_digits_value_nonneg(ms);
    crate::text::lemma_digits_value_nonneg(ds);
    assert(crate::text::spec_is_digit(ys[0]) && crate::text::spec_is_digit(ms[0]));
    assert(crate::text::spec_is_digit(ds[0]));
    assert(crate::text::spec_unsigned_body(ms) == ms);
    assert(crate::text::spec_unsigned_body(ds) == ds);
    assert(spec_parse_i32(ys) == Some(crate::text::spec_digits_value(ys) as i32));
    assert(spec_parse_u32(ms) == Some(crate::text::spec_digits_value(ms) as u32));
    assert(spec_parse_u32(ds) == Some(crate::text::spec_digits_value(ds) as u32));
}

/// The era name at the front of a Japanese date gives its year offset.
proof fn lemma_japanese_era_split(era: Seq<char>, body: Seq<char>, offset: int)
    requires
        era.len() == 0 && offset == 0 || era == spec_reiwa() && offset == 2018 || era == spec_heisei()
            && offset == 1988 || era == spec_showa() && offset == 1925,
        body.len() > 0,
        crate::text::spec_is_digit(body[0]),
    ensures
        spec_era_split(era + body) == (offset, body),
{
    let t = era + body;
    if era.len() == 0 {
        assert(t =~= body);
        assert(!crate::text::spec_starts_with(t, spec_reiwa())) by {
            if crate::text::spec_starts_with(t, spec_reiwa()) {
                assert(t.take(2)[0] == t[0]);
            }
        }
        assert(!crate::text::spec_starts_with(t, spec_heisei())) by {
            if crate::text::spec_starts_with(t, spec_heisei()) {
                assert(t.take(2)[0] == t[0]);
            }
        }
        assert(!crate::text::spec_starts_with(t, spec_showa())) by {
            if crate::text::spec_starts_with(t, spec_showa()) {
                assert(t.take(2)[0] == t[0]);
            }
        }
    } else {
        assert(t.take(2) =~= era);
        assert(t.skip(2) =~= body);
        assert(spec_reiwa()[0] != spec_heisei()[0]);
        assert(spec_reiwa()[0] != spec_showa()[0]);
        assert(spec_heisei()[0] != spec_showa()[0]);
    }
}

/// A date written the Japanese way, `ys年ms月ds日`, reads as that year, month
/// and day; after the era name 令和 (Reiwa) the year counts from 2019 (its
/// first year), after 平成 (Heisei) from 1989 and after 昭和 (Showa) from
/// 1926. Its `DATEVALUE` is the serial of that date.
pub proof fn lemma_datevalue_japanese(era: Seq<char>, ys: Seq<char>, ms: Seq<char>, ds: Seq<char>, year: int)
    requires
        era.len() == 0 && year == crate::text::spec_digits_value(ys) || era == spec_reiwa() && year == 2018
            + crate::text::spec_digits_value(ys) || era == spec_heisei() && year == 1988
            + crate::text::spec_digits_value(ys) || era == spec_showa() && year == 1925
            + crate::text::spec_digits_value(ys),
        ys.len() > 0,
        ms.len() > 0,
        ds.len() > 0,
        crate::text::spec_all_digits(ys),
        crate::text::spec_all_digits(ms),
        crate::text::spec_all_digits(ds),
        spec_is_excel_date(year, crate::text::spec_digits_value(ms), crate::text::spec_digits_value(ds)),
    ensures
        spec_datevalue(era + ys + seq!['年'] + ms + seq!['月'] + ds + seq!['日']) == spec_ymd_to_serial(
            year,
            crate::text::spec_digits_value(ms),
            crate::text::spec_digits_value(ds),
        ),
{
    let m = crate::text::spec_digits_value(ms);
    let d = crate::text::spec_digits_value(ds);
    let body = ys + seq!['年'] + ms + seq!['月'] + ds + seq!['日'];
    crate::text::lemma_digits_value_nonneg(ys);
    let offset = year - crate::text::spec_digits_value(ys);
    lemma_japanese_body(offset, ys, ms, ds);
    assert(crate::text::spec_is_digit(ys[0]));
    assert(body[0] == ys[0]);
    assert(body[ys.len() as int] == '年');
    assert(body[(ys.len() + 1 + ms.len()) as int] == '月');
    lemma_japanese_era_split(era, body, offset);
    lemma_japanese_text(era, body);
    lemma_japanese_parts(era, ys, ms, ds);
    lemma_parse_japanese_of(era + body, offset, body, (year, m, d));
    lemma_datevalue_of_japanese(era + body, year, m, d);
}

proof fn lemma_parse_japanese_of(t: Seq<char>, offset: int, rest: Seq<char>, ymd: (int, int, int))
    requires
        spec_trim(t) == t,
        t.contains('年') && t.contains('月') && t.contains('日'),
        spec_era_split(t) == (offset, rest),
        spec_parse_japanese_body(offset, rest) == Some(ymd),
    ensures
        spec_parse_japanese(t) == Some(ymd),
{
}

proof fn lemma_datevalue_of_japanese(t: Seq<char>, y: int, m: int, d: int)
    requires
        spec_trim(t) == t,
        spec_parse_japanese(t) == Some((y, m, d)),
        1 <= m <= 12,
    ensures
        spec_datevalue(t) == spec_ymd_to_serial(y, m, d),
{
}

proof fn lemma_japanese_parts(era: Seq<char>, ys: Seq<char>, ms: Seq<char>, ds: Seq<char>)
    ensures
        era + ys + seq!['年'] + ms + seq!['月'] + ds + seq!['日'] == era + (ys + seq!['年'] + ms + seq!['月']
            + ds + seq!['日']),
{
    assert(era + ys + seq!['年'] + ms + seq!['月'] + ds + seq!['日'] =~= era + (ys + seq!['年'] + ms + seq![
        '月',
    ] + ds + seq!['日']));
}

/// Japanese date text, an optional era name and a body that starts with a
/// digit, holds `年` and `月` and ends with `日`, is trimmed and holds all three
/// markers.
proof fn lemma_japanese_text(era: Seq<char>, body: Seq<char>)
    requires
        era.len() == 0 || era == spec_reiwa() || era == spec_heisei() || era == spec_showa(),
        body.len() > 0,
        crate::text::spec_is_digit(body[0]),
        body.contains('年'),
        body.contains('月'),
        body[body.len() - 1] == '日',
    ensures
        spec_trim(era + body) == era + body,
        (era + body).contains('年'),
        (era + body).contains('月'),
        (era + body).contains('日'),
{
    let t = era + body;
    assert(!crate::text::spec_is_ws(t[0])) by {
        if era.len() == 0 {
            assert(t[0] == body[0]);
        } else {
            assert(t[0] == era[0]);
        }
    }
    assert(t[t.len() - 1] == '日');
    crate::text::lemma_trim_unchanged(t);
    let k1 = choose|k: int| 0 <= k < body.len() && body[k] == '年';
    assert(t[era.len() + k1] == '年');
    let k2 = choose|k: int| 0 <= k < body.len() && body[k] == '月';
    assert(t[era.len() + k2] == '月');
}


/// `DATE` of a real date is that date's serial.
pub proof fn lemma_date_of_real_date(year: int, month: int, day: int)
    requires
        spec_valid_ymd(year, month, day),
    ensures
        spec_date_serial(year, month, day) == spec_ymd_to_serial(year, month, day),
{
    lemma_days_before_month_table(year);
    lemma_day_number_range(year, month, day);
    assert((month - 1) / 12 == 0);
    assert((month - 1) % 12 + 1 == month);
    assert(spec_valid_ymd(year, month, 1));
}

/// `DATE` rolls twelve months over into a year: month `m + 12` of one year
/// is month `m` of the next.
pub proof fn lemma_date_month_rollover(year: int, month: int, day: int)
    requires
        1900 <= year < 9999,
    ensures
        spec_date_serial(year, month + 12, day) == spec_date_serial(year + 1, month, day),
{
    let q = (month - 1) / 12;
    let r = (month - 1) % 12;
    vstd::arithmetic::div_mod::lemma_fundamental_div_mod(month - 1, 12);
    vstd::arithmetic::div_mod::lemma_mod_bound(month - 1, 12);
    vstd::arithmetic::div_mod::lemma_fundamental_div_mod_converse(month + 11, 12, q + 1, r);
}

/// `DATE` rolls days over: the day after a date is the next serial, while it
/// stays in range.
pub proof fn lemma_date_next_day(year: int, month: int, day: int)
    requires
        spec_date_serial(year, month, day) is Some,
        spec_date_serial(year, month, day)->Some_0 < MAX_EXCEL_SERIAL,
    ensures
        spec_date_serial(year, month, day + 1) == Some(spec_date_serial(year, month, day)->Some_0 + 1),
{
}


/// Between two real dates of the same year, `DATEDIF(start, end, "YD")` is
/// the plain day difference `DATEDIF(start, end, "D")`.
pub proof fn lemma_datedif_yd_within_year(start: CivilDate, end: CivilDate)
    requires
        spec_valid_ymd(start.year as int, start.month as int, start.day as int),
        spec_valid_ymd(end.year as int, end.month as int, end.day as int),
        start.year == end.year,
        !spec_date_lt(end, start),
    ensures
        spec_datedif(start, end, seq!['Y', 'D']) == spec_datedif(start, end, seq!['D']),
        spec_datedif(start, end, seq!['D']) is Ok,
{
    let yd = seq!['Y', 'D'];
    let d = seq!['D'];
    crate::text::lemma_trim_unchanged(yd);
    crate::text::lemma_trim_unchanged(d);
    assert(spec_upper_seq(spec_trim(yd)) =~= yd);
    assert(spec_upper_seq(spec_trim(d)) =~= d);
    assert(yd != seq!['Y'] && yd != seq!['M'] && yd != seq!['D'] && yd != seq!['Y', 'M']);
    assert(d != seq!['Y'] && d != seq!['M']);
    assert(spec_clamp_day(start.year as int, end.month as int, end.day as int) == end.day);
    assert(spec_yd_end(start, end) == (end.year as int, end.month as int, end.day as int));
}

} // verus!
