//! The proleptic Gregorian calendar.

use vstd::prelude::*;

verus! {

/// Whether `y` is a leap year.
pub open spec fn leap(y: int) -> bool {
    y % 4 == 0 && (y % 100 != 0 || y % 400 == 0)
}

/// The number of days of month `m` of year `y`.
pub open spec fn month_length(y: int, m: int) -> int {
    if m == 2 {
        if leap(y) {
            29
        } else {
            28
        }
    } else if m == 4 || m == 6 || m == 9 || m == 11 {
        30
    } else {
        31
    }
}

/// The number of days of year `y` before month `m`.
pub open spec fn days_before_month(y: int, m: int) -> int
    decreases m,
{
    if m <= 1 {
        0
    } else {
        days_before_month(y, m - 1) + month_length(y, m - 1)
    }
}

/// The number of days from the first day of year 0 to the first day of year `y`.
#[verifier::opaque]
pub open spec fn days_before_year(y: int) -> int {
    365 * y + (y + 3) / 4 - (y + 99) / 100 + (y + 399) / 400
}

/// The number of days from 1970-01-01 to the given day.
pub open spec fn day_number(y: int, m: int, d: int) -> int {
    days_before_year(y) + days_before_month(y, m) + d - 1 - 719_528
}

/// Whether the calendar has the given day.
pub open spec fn is_date(y: int, m: int, d: int) -> bool {
    1 <= m <= 12 && 1 <= d <= month_length(y, m)
}

/// A year is as long as its months, and leap years are a day longer.
pub proof fn years_are_365_or_366_days_long(y: int)
    ensures
        days_before_year(y + 1) - days_before_year(y) == if leap(y) { 366int } else { 365 },
        days_before_month(y, 13) == days_before_year(y + 1) - days_before_year(y),
{
    reveal(days_before_year);
    reveal_with_fuel(days_before_month, 14);
    lemma_quarter(y);
    lemma_century(y);
    lemma_era(y);
}

proof fn lemma_quarter(y: int)
    ensures
        (y + 4) / 4 - (y + 3) / 4 == if y % 4 == 0 { 1int } else { 0 },
{
}

proof fn lemma_century(y: int)
    ensures
        (y + 100) / 100 - (y + 99) / 100 == if y % 100 == 0 { 1int } else { 0 },
{
}

proof fn lemma_era(y: int)
    ensures
        (y + 400) / 400 - (y + 399) / 400 == if y % 400 == 0 { 1int } else { 0 },
{
}

/// The day of the era of 400 years on which year `yoe`, counted from March, starts.
#[verifier::opaque]
pub open spec fn year_start(yoe: int) -> int {
    365 * yoe + yoe / 4 - yoe / 100
}

proof fn lemma_year_of_era(doe: u32)
    requires
        doe < 146_097,
    ensures
        ({
            let yoe = (doe as int - doe as int / 1460 + doe as int / 36_524 - doe as int / 146_096) / 365;
            &&& 0 <= yoe < 400
            &&& year_start(yoe) <= doe
            &&& yoe < 399 ==> doe < year_start(yoe + 1)
        }),
{
    reveal(year_start);
    assert({
        let a = doe / 1460;
        let b = doe / 36_524;
        let c = doe / 146_096;
        let s = (doe + b - a - c) as u32;
        let yoe = s / 365;
        &&& a + c <= doe + b
        &&& yoe < 400
        &&& 365 * yoe + yoe / 4 - yoe / 100 <= doe
        &&& yoe < 399 ==> doe < 365 * (yoe + 1) + (yoe + 1) / 4 - (yoe + 1) / 100
    }) by (bit_vector)
        requires
            doe < 146_097,
    ;
}

proof fn lemma_era_years(era: int, yoe: int)
    requires
        0 <= yoe < 400,
    ensures
        days_before_year(400 * era + yoe) + 59 + (if leap(400 * era + yoe) { 1int } else { 0 }) == 146_097 * era + year_start(yoe) + 60,
{
    reveal(days_before_year);
    reveal(year_start);
    let y = 400 * era + yoe;
    assert((y + 3) / 4 == 100 * era + (yoe + 3) / 4);
    assert((y + 99) / 100 == 4 * era + (yoe + 99) / 100);
    assert((y + 399) / 400 == era + (yoe + 399) / 400);
    assert(y % 4 == yoe % 4);
    assert(y % 100 == yoe % 100);
    assert(y % 400 == yoe % 400);
    lemma_quarter(yoe);
    lemma_century(yoe);
    lemma_era(yoe);
}

proof fn lemma_month_of_year(doy: int)
    requires
        0 <= doy <= 365,
    ensures
        ({
            let mp = (5 * doy + 2) / 153;
            &&& 0 <= mp <= 11
            &&& 0 <= doy - (153 * mp + 2) / 5 <= 30
            &&& (mp == 1 || mp == 3 || mp == 6 || mp == 8) ==> doy - (153 * mp + 2) / 5 <= 29
            &&& mp == 11 ==> doy - (153 * mp + 2) / 5 == doy - 337
        }),
{
}

/// The number of days from the first of March to the first day of the month that
/// is `mp` months later.
spec fn since_march(mp: int) -> int {
    (153 * mp + 2) / 5
}

proof fn lemma_months_before_new_year(y: int, mp: int)
    requires
        0 <= mp <= 9,
    ensures
        days_before_month(y, mp + 3) == since_march(mp) + 59 + (if leap(y) { 1int } else { 0 }),
    decreases mp,
{
    reveal_with_fuel(days_before_month, 4);
    if mp > 0 {
        lemma_months_before_new_year(y, mp - 1);
    }
}

spec fn civil_month(mp: int) -> int {
    if mp < 10 {
        mp + 3
    } else {
        mp - 9
    }
}

proof fn lemma_long_year(yoe: int)
    requires
        0 <= yoe < 400,
        yoe == 399 || year_start(yoe + 1) - year_start(yoe) == 366,
    ensures
        yoe == 399 || ((yoe + 1) % 4 == 0 && (yoe + 1) % 100 != 0),
{
    reveal(year_start);
}

proof fn lemma_date(era: int, yoe: int, doy: int)
    requires
        0 <= yoe < 400,
        0 <= doy <= 365,
        doy == 365 ==> yoe == 399 || year_start(yoe + 1) - year_start(yoe) == 366,
    ensures
        ({
            let mp = (5 * doy + 2) / 153;
            let m = civil_month(mp);
            let d = doy - since_march(mp) + 1;
            let year = 400 * era + yoe + (if m <= 2 { 1int } else { 0 });
            &&& is_date(year, m, d)
            &&& day_number(year, m, d) == 146_097 * era + year_start(yoe) + doy - 719_468
        }),
{
    let mp = (5 * doy + 2) / 153;
    let m = civil_month(mp);
    let d = doy - since_march(mp) + 1;
    let y = 400 * era + yoe;
    lemma_month_of_year(doy);
    lemma_era_years(era, yoe);
    if mp < 10 {
        lemma_months_before_new_year(y, mp);
    } else {
        years_are_365_or_366_days_long(y);
        reveal_with_fuel(days_before_month, 3);
        let year = y + 1;
        assert(year % 4 == (yoe + 1) % 4);
        assert(year % 100 == (yoe + 1) % 100);
        assert(year % 400 == (yoe + 1) % 400);
        if doy == 365 {
            lemma_long_year(yoe);
            assert(yoe == 399 || ((yoe + 1) % 4 == 0 && (yoe + 1) % 100 != 0));
        }
    }
}

/// A day that is not before 1970-01-01 lies in no year before 1970.
pub(crate) proof fn lemma_not_before_epoch(y: int, m: int, d: int)
    requires
        is_date(y, m, d),
        day_number(y, m, d) >= 0,
    ensures
        y >= 1970,
{
    lemma_day_of_year(y, m, d);
    reveal(days_before_year);
    if y < 1970 {
        assert(days_before_year(y + 1) <= 719_528) by {
            lemma_years_ascend(y + 1, 1970);
        }
        years_are_365_or_366_days_long(y);
    }
}

proof fn lemma_years_ascend(a: int, b: int)
    requires
        a <= b,
    ensures
        days_before_year(a) <= days_before_year(b),
    decreases b - a,
{
    if a < b {
        lemma_years_ascend(a, b - 1);
        years_are_365_or_366_days_long(b - 1);
    }
}

proof fn lemma_months_ascend(y: int, a: int, b: int)
    requires
        1 <= a <= b <= 13,
    ensures
        days_before_month(y, a) <= days_before_month(y, b),
    decreases b - a,
{
    if a < b {
        lemma_months_ascend(y, a, b - 1);
    }
}

proof fn lemma_day_of_year(y: int, m: int, d: int)
    requires
        is_date(y, m, d),
    ensures
        0 <= days_before_month(y, m) + d - 1 < days_before_year(y + 1) - days_before_year(y),
{
    years_are_365_or_366_days_long(y);
    lemma_months_ascend(y, 1, m);
    lemma_months_ascend(y, m + 1, 13);
    assert(days_before_month(y, m + 1) == days_before_month(y, m) + month_length(y, m));
}

/// No two days have the same number.
pub proof fn day_numbers_are_unique(y1: int, m1: int, d1: int, y2: int, m2: int, d2: int)
    requires
        is_date(y1, m1, d1),
        is_date(y2, m2, d2),
        day_number(y1, m1, d1) == day_number(y2, m2, d2),
    ensures
        y1 == y2 && m1 == m2 && d1 == d2,
{
    lemma_day_of_year(y1, m1, d1);
    lemma_day_of_year(y2, m2, d2);
    if y1 < y2 {
        lemma_years_ascend(y1 + 1, y2);
    } else if y2 < y1 {
        lemma_years_ascend(y2 + 1, y1);
    } else if m1 < m2 {
        lemma_months_ascend(y1, m1 + 1, m2);
        assert(days_before_month(y1, m1 + 1) == days_before_month(y1, m1) + month_length(y1, m1));
    } else if m2 < m1 {
        lemma_months_ascend(y1, m2 + 1, m1);
        assert(days_before_month(y1, m2 + 1) == days_before_month(y1, m2) + month_length(y1, m2));
    }
}

/// The year, month and day of the given number of days after 1970-01-01.
pub fn civil_from_days(z: i64) -> (r: (i64, u32, u32))
    requires
        z <= i64::MAX - 719_468,
    ensures
        is_date(r.0 as int, r.1 as int, r.2 as int),
        day_number(r.0 as int, r.1 as int, r.2 as int) == z,
{
    let z: i64 = z + 719_468;
    let era: i64 = if z >= 0 {
        z / 146_097
    } else {
        -((-(z + 1)) / 146_097) - 1
    };
    let doe: i64 = z - era * 146_097;
    assert(0 <= doe < 146_097);
    proof {
        lemma_year_of_era(doe as u32);
    }
    let yoe: i64 = (doe - doe / 1460 + doe / 36_524 - doe / 146_096) / 365;
    let y: i64 = yoe + era * 400;
    let doy: i64 = doe - (365 * yoe + yoe / 4 - yoe / 100);
    proof {
        reveal(year_start);
    }
    assert(0 <= doy <= 365);
    let mp: i64 = (5 * doy + 2) / 153;
    proof {
        lemma_month_of_year(doy as int);
        lemma_date(era as int, yoe as int, doy as int);
    }
    let d: u32 = (doy - (153 * mp + 2) / 5 + 1) as u32;
    let m: u32 = if mp < 10 {
        (mp + 3) as u32
    } else {
        (mp - 9) as u32
    };
    let year: i64 = if m <= 2 {
        y + 1
    } else {
        y
    };
    (year, m, d)
}

} // verus!
