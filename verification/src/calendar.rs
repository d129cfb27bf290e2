//! Proleptic Gregorian calendar core.
//!
//! An instant is a count of seconds since the Unix epoch. A wall-clock
//! reading is a `CivilDateTime`. The two are related by `epoch_of_civil`,
//! and `civil_from_epoch` is its verified inverse. The supported range of
//! years is 1 through 9999.
use vstd::prelude::*;

verus! {

/// A wall-clock date and time, with no zone attached.
#[derive(Clone, Copy, Debug, PartialEq, Eq, Structural)]
pub struct CivilDateTime {
    pub year: i32,
    pub month: u32,
    pub day: u32,
    pub hour: u32,
    pub minute: u32,
    pub second: u32,
}

/// Instant of 0001-01-01 00:00:00, in seconds since the Unix epoch.
pub const MIN_EPOCH: i64 = -62135596800;

/// Instant of 9999-12-31 23:59:59, in seconds since the Unix epoch.
pub const MAX_EPOCH: i64 = 253402300799;

/// Leap years of the Gregorian calendar.
pub open spec fn is_leap_spec(y: int) -> bool {
    y % 4 == 0 && (y % 100 != 0 || y % 400 == 0)
}

/// Length of a month, in days.
pub open spec fn days_in_month_spec(y: int, m: int) -> int {
    if m == 2 {
        if is_leap_spec(y) {
            29
        } else {
            28
        }
    } else if m == 4 || m == 6 || m == 9 || m == 11 {
        30
    } else {
        31
    }
}

/// Days in year `y` before the first day of month `m`.
pub open spec fn days_before_month_spec(y: int, m: int) -> int {
    let base: int = if m == 1 {
        0
    } else if m == 2 {
        31
    } else if m == 3 {
        59
    } else if m == 4 {
        90
    } else if m == 5 {
        120
    } else if m == 6 {
        151
    } else if m == 7 {
        181
    } else if m == 8 {
        212
    } else if m == 9 {
        243
    } else if m == 10 {
        273
    } else if m == 11 {
        304
    } else {
        334
    };
    if m >= 3 && is_leap_spec(y) {
        base + 1
    } else {
        base
    }
}

/// Days from 0001-01-01 to the first day of year `y` (for `y >= 1`).
pub open spec fn days_before_year_spec(y: int) -> int {
    (y - 1) * 365 + (y - 1) / 4 - (y - 1) / 100 + (y - 1) / 400
}

/// Days from 0001-01-01 to the day `(y, m, d)`.
pub open spec fn day_number_spec(y: int, m: int, d: int) -> int {
    days_before_year_spec(y) + days_before_month_spec(y, m) + (d - 1)
}

/// The valid wall-clock readings.
pub open spec fn civil_valid(c: CivilDateTime) -> bool {
    &&& 1 <= c.year <= 9999
    &&& 1 <= c.month <= 12
    &&& 1 <= c.day <= days_in_month_spec(c.year as int, c.month as int)
    &&& 0 <= c.hour <= 23
    &&& 0 <= c.minute <= 59
    &&& 0 <= c.second <= 59
}

/// Seconds since the Unix epoch of the wall-clock reading `c`.
pub open spec fn epoch_of_civil(c: CivilDateTime) -> int {
    MIN_EPOCH + day_number_spec(c.year as int, c.month as int, c.day as int) * 86400
        + c.hour * 3600 + c.minute * 60 + c.second
}

/// `days_before_year_spec` advances by exactly the length of each year.
pub proof fn lemma_year_length(y: int)
    requires
        1 <= y,
    ensures
        days_before_year_spec(y + 1) - days_before_year_spec(y) == if is_leap_spec(y) {
            366int
        } else {
            365int
        },
{
    assert(y / 4 - (y - 1) / 4 == if y % 4 == 0 {
        1int
    } else {
        0int
    });
    assert(y / 100 - (y - 1) / 100 == if y % 100 == 0 {
        1int
    } else {
        0int
    });
    assert(y / 400 - (y - 1) / 400 == if y % 400 == 0 {
        1int
    } else {
        0int
    });
    assert(y % 100 == 0 ==> y % 4 == 0) by {
        if y % 100 == 0 {
            let k = y / 100;
            assert(y == 100 * k);
            assert(y % 4 == (100 * k) % 4);
            assert((100 * k) % 4 == 0) by (nonlinear_arith);
        }
    }
    assert(y % 400 == 0 ==> y % 100 == 0) by {
        if y % 400 == 0 {
            let k = y / 400;
            assert(y == 400 * k);
            assert((400 * k) % 100 == 0) by (nonlinear_arith);
        }
    }
}

/// Bounds of `days_before_year_spec` on the supported years.
pub proof fn lemma_days_before_year_bounds(y: int)
    requires
        1 <= y <= 10000,
    ensures
        0 <= days_before_year_spec(y) <= 3652059,
        days_before_year_spec(10000) == 3652059,
        days_before_year_spec(1970) == 719162,
{
    assert(days_before_year_spec(10000) == 3652059);
    assert(days_before_year_spec(1970) == 719162);
    assert((y - 1) * 365 <= 9999 * 365) by (nonlinear_arith)
        requires
            y <= 10000,
    ;
    assert(0 <= (y - 1) * 365) by (nonlinear_arith)
        requires
            1 <= y,
    ;
}

/// `days_before_month_spec` advances by exactly the month's length.
proof fn lemma_month_length(y: int, m: int)
    requires
        1 <= m <= 11,
    ensures
        days_before_month_spec(y, m + 1) == days_before_month_spec(y, m) + days_in_month_spec(y, m),
{
}

/// `days_before_month_spec` is monotone in the month.
proof fn lemma_dbm_monotone(y: int, a: int, b: int)
    requires
        1 <= a <= b <= 12,
    ensures
        days_before_month_spec(y, a) <= days_before_month_spec(y, b),
    decreases b - a,
{
    if a < b {
        lemma_month_length(y, b - 1);
        lemma_dbm_monotone(y, a, b - 1);
    }
}

/// `days_before_year_spec` is monotone in the year.
proof fn lemma_dby_monotone(a: int, b: int)
    requires
        1 <= a <= b,
    ensures
        days_before_year_spec(a) <= days_before_year_spec(b),
    decreases b - a,
{
    if a < b {
        lemma_year_length(b - 1);
        lemma_dby_monotone(a, b - 1);
    }
}

/// A valid date's day number falls within its own year.
proof fn lemma_day_number_range(y: int, m: int, d: int)
    requires
        1 <= y <= 9999,
        1 <= m <= 12,
        1 <= d <= days_in_month_spec(y, m),
    ensures
        days_before_year_spec(y) <= day_number_spec(y, m, d) < days_before_year_spec(y + 1),
{
    lemma_year_length(y);
    assert(days_before_month_spec(y, m) + days_in_month_spec(y, m) <= 365 + if is_leap_spec(y) {
        1int
    } else {
        0int
    });
}

/// Two valid wall-clock readings of the same instant are the same reading.
pub proof fn lemma_epoch_of_civil_injective(a: CivilDateTime, b: CivilDateTime)
    requires
        civil_valid(a),
        civil_valid(b),
        epoch_of_civil(a) == epoch_of_civil(b),
    ensures
        a == b,
{
    let dna = day_number_spec(a.year as int, a.month as int, a.day as int);
    let dnb = day_number_spec(b.year as int, b.month as int, b.day as int);
    let ta = a.hour * 3600 + a.minute * 60 + a.second;
    let tb = b.hour * 3600 + b.minute * 60 + b.second;
    assert(dna * 86400 + ta == dnb * 86400 + tb);
    assert(dna == dnb && ta == tb) by (nonlinear_arith)
        requires
            dna * 86400 + ta == dnb * 86400 + tb,
            0 <= ta < 86400,
            0 <= tb < 86400,
    ;
    assert(a.hour == b.hour) by (nonlinear_arith)
        requires
            a.hour * 3600 + a.minute * 60 + a.second == b.hour * 3600 + b.minute * 60 + b.second,
            0 <= a.minute * 60 + a.second < 3600,
            0 <= b.minute * 60 + b.second < 3600,
    ;
    assert(a.minute == b.minute && a.second == b.second);
    lemma_day_number_range(a.year as int, a.month as int, a.day as int);
    lemma_day_number_range(b.year as int, b.month as int, b.day as int);
    assert(a.year == b.year) by {
        if a.year < b.year {
            lemma_dby_monotone(a.year as int + 1, b.year as int);
        }
        if b.year < a.year {
            lemma_dby_monotone(b.year as int + 1, a.year as int);
        }
    }
    let y = a.year as int;
    assert(a.month == b.month) by {
        if a.month < b.month {
            lemma_month_length(y, a.month as int);
            lemma_dbm_monotone(y, a.month as int + 1, b.month as int);
        }
        if b.month < a.month {
            lemma_month_length(y, b.month as int);
            lemma_dbm_monotone(y, b.month as int + 1, a.month as int);
        }
    }
    assert(a.day == b.day);
}

/// Executable leap-year test.
pub fn is_leap_year(y: i32) -> (r: bool)
    requires
        1 <= y <= 9999,
    ensures
        r == is_leap_spec(y as int),
{
    y % 4 == 0 && (y % 100 != 0 || y % 400 == 0)
}

/// Executable length of a month.
pub fn days_in_month(y: i32, m: u32) -> (r: u32)
    requires
        1 <= y <= 9999,
        1 <= m <= 12,
    ensures
        r == days_in_month_spec(y as int, m as int),
{
    if m == 2 {
        if is_leap_year(y) {
            29
        } else {
            28
        }
    } else if m == 4 || m == 6 || m == 9 || m == 11 {
        30
    } else {
        31
    }
}

/// Executable days-in-year-before-month table.
fn days_before_month(y: i32, m: u32) -> (r: u32)
    requires
        1 <= y <= 9999,
        1 <= m <= 12,
    ensures
        r == days_before_month_spec(y as int, m as int),
{
    let base: u32 = if m == 1 {
        0
    } else if m == 2 {
        31
    } else if m == 3 {
        59
    } else if m == 4 {
        90
    } else if m == 5 {
        120
    } else if m == 6 {
        151
    } else if m == 7 {
        181
    } else if m == 8 {
        212
    } else if m == 9 {
        243
    } else if m == 10 {
        273
    } else if m == 11 {
        304
    } else {
        334
    };
    if m >= 3 && is_leap_year(y) {
        base + 1
    } else {
        base
    }
}

/// Executable days from 0001-01-01 to the first day of year `y`.
fn days_before_year(y: i32) -> (r: i64)
    requires
        1 <= y <= 10000,
    ensures
        r == days_before_year_spec(y as int),
        0 <= r <= 3652059,
{
    proof {
        lemma_days_before_year_bounds(y as int);
    }
    let p = (y - 1) as i64;
    p * 365 + p / 4 - p / 100 + p / 400
}

/// Seconds since the Unix epoch of a valid wall-clock reading.
pub fn epoch_from_civil(c: &CivilDateTime) -> (r: i64)
    requires
        civil_valid(*c),
    ensures
        r == epoch_of_civil(*c),
        MIN_EPOCH <= r <= MAX_EPOCH,
{
    proof {
        lemma_days_before_year_bounds(c.year as int);
    }
    let days: i64 = days_before_year(c.year) + days_before_month(c.year, c.month) as i64 + (c.day
        - 1) as i64;
    let tod: i64 = c.hour as i64 * 3600 + c.minute as i64 * 60 + c.second as i64;
    assert(days <= 3652058) by {
        if c.year == 9999 {
            assert(days_before_year_spec(9999) == 3651694);
        } else {
            lemma_days_before_year_bounds(c.year as int + 1);
            lemma_year_length(c.year as int);
        }
    }
    MIN_EPOCH + days * 86400 + tod
}

/// The wall-clock reading of an instant in the supported range; the verified
/// inverse of `epoch_from_civil`.
pub fn civil_from_epoch(epoch: i64) -> (c: CivilDateTime)
    requires
        MIN_EPOCH <= epoch <= MAX_EPOCH,
    ensures
        civil_valid(c),
        epoch_of_civil(c) == epoch,
{
    let shifted: i64 = epoch - MIN_EPOCH;
    let days: i64 = shifted / 86400;
    let secs: i64 = shifted % 86400;
    assert(days * 86400 + secs == shifted && 0 <= secs < 86400 && 0 <= days <= 3652058) by {
        assert(shifted == 86400 * (shifted / 86400) + shifted % 86400) by (nonlinear_arith);
        assert(shifted / 86400 <= 3652058 && 0 <= shifted / 86400) by (nonlinear_arith)
            requires
                0 <= shifted <= 315537897599i64,
        ;
    }
    let hour: u32 = (secs / 3600) as u32;
    let minute: u32 = ((secs / 60) % 60) as u32;
    let second: u32 = (secs % 60) as u32;
    assert(hour * 3600 + minute * 60 + second == secs && hour <= 23 && minute <= 59 && second
        <= 59) by {
        assert(secs == 3600 * (secs / 3600) + secs % 3600) by (nonlinear_arith);
        assert(secs % 3600 == 60 * ((secs % 3600) / 60) + (secs % 3600) % 60) by (nonlinear_arith);
        assert((secs / 60) % 60 == (secs % 3600) / 60) by (nonlinear_arith)
            requires
                0 <= secs < 86400,
        ;
        assert((secs % 3600) % 60 == secs % 60) by (nonlinear_arith)
            requires
                0 <= secs,
        ;
        assert(secs / 3600 <= 23 && 0 <= secs / 3600) by (nonlinear_arith)
            requires
                0 <= secs < 86400,
        ;
        assert(0 <= secs % 3600 < 3600 && (secs % 3600) / 60 <= 59 && 0 <= (secs % 3600) / 60)
            by (nonlinear_arith)
            requires
                0 <= secs,
        ;
        assert(0 <= secs % 60 < 60) by (nonlinear_arith)
            requires
                0 <= secs,
        ;
    }
    let mut year: i32 = 1;
    while year < 9999 && days_before_year(year + 1) <= days
        invariant
            1 <= year <= 9999,
            0 <= days <= 3652058,
            days_before_year_spec(year as int) <= days,
        decreases 9999 - year,
    {
        year = year + 1;
    }
    proof {
        lemma_days_before_year_bounds(year as int);
        if year == 9999 {
            assert(days_before_year_spec(10000) == 3652059);
        }
    }
    let doy: i64 = days - days_before_year(year);
    assert(0 <= doy && days_before_year_spec(year as int) + doy == days);
    assert(doy <= 365 && (doy == 365 ==> is_leap_spec(year as int))) by {
        lemma_year_length(year as int);
        if year == 9999 {
            assert(days_before_year_spec(9999int) == 3651694);
        }
    }
    let mut month: u32 = 1;
    while month < 12 && days_before_month(year, month + 1) as i64 <= doy
        invariant
            1 <= month <= 12,
            1 <= year <= 9999,
            days_before_month_spec(year as int, month as int) <= doy,
        decreases 12 - month,
    {
        month = month + 1;
    }
    let day: u32 = (doy - days_before_month(year, month) as i64 + 1) as u32;
    assert(1 <= day && day <= days_in_month_spec(year as int, month as int) && doy
        == days_before_month_spec(year as int, month as int) + (day - 1));
    CivilDateTime { year, month, day, hour, minute, second }
}

} // verus!
