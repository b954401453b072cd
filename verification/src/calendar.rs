//! The proleptic Gregorian calendar: day numbers and civil dates.

use vstd::prelude::*;

verus! {

/// A leap year of the Gregorian calendar.
pub open spec fn is_leap(year: int) -> bool {
    year % 4 == 0 && (year % 100 != 0 || year % 400 == 0)
}

/// The number of days of a year.
pub open spec fn days_in_year(year: int) -> int {
    if is_leap(year) {
        366
    } else {
        365
    }
}

/// The number of days of a month (1 to 12) of a year.
pub open spec fn days_in_month(year: int, month: int) -> int {
    if month == 2 {
        if is_leap(year) {
            29
        } else {
            28
        }
    } else if month == 4 || month == 6 || month == 9 || month == 11 {
        30
    } else {
        31
    }
}

/// The days from the first day of the year zero to the first of `year`.
#[verifier::opaque]
pub open spec fn year_start(year: int) -> int {
    365 * year + (year + 3) / 4 - (year + 99) / 100 + (year + 399) / 400
}

/// A year begins as many days after the one before as that one has.
pub proof fn lemma_year_start(year: int)
    ensures
        year_start(0) == 0,
        year_start(year + 1) == year_start(year) + days_in_year(year),
{
    reveal(year_start);
    lemma_multiples(year);
}

/// One more multiple of 4, 100 or 400 has passed after a year that is one.
proof fn lemma_multiples(year: int)
    ensures
        (year + 4) / 4 == (year + 3) / 4 + if year % 4 == 0 {
            1int
        } else {
            0int
        },
        (year + 100) / 100 == (year + 99) / 100 + if year % 100 == 0 {
            1int
        } else {
            0int
        },
        (year + 400) / 400 == (year + 399) / 400 + if year % 400 == 0 {
            1int
        } else {
            0int
        },
        year % 400 == 0 ==> year % 100 == 0,
        year % 100 == 0 ==> year % 4 == 0,
{
}

/// The days of a year before the first of `month`.
pub open spec fn month_start(year: int, month: int) -> int
    decreases month,
{
    if month <= 1 {
        0
    } else {
        month_start(year, month - 1) + days_in_month(year, month - 1)
    }
}

/// The number of a date's day, counted from 1970-01-01.
pub open spec fn day_number(year: int, month: int, day: int) -> int {
    year_start(year) - year_start(1970) + month_start(year, month) + day - 1
}

/// A day of the calendar.
pub open spec fn is_date(year: int, month: int, day: int) -> bool {
    1 <= month <= 12 && 1 <= day <= days_in_month(year, month)
}

/// The first day of a year that begins in March: the days since 0000-03-01.
#[verifier::opaque]
spec fn march_start(year: int) -> int {
    365 * year + year / 4 - year / 100 + year / 400
}

/// The days of a March year before its `m`-th month.
spec fn march_month(m: int) -> int {
    (153 * m + 2) / 5
}

proof fn lemma_year_of_era(doe: int, yoe: int)
    requires
        0 <= doe < 146_097,
        yoe == (doe - doe / 1460 + doe / 36_524 - doe / 146_096) / 365,
    ensures
        0 <= yoe < 400,
        0 <= doe - (365 * yoe + yoe / 4 - yoe / 100) <= 365,
        doe - (365 * yoe + yoe / 4 - yoe / 100) == 365 ==> is_leap(yoe + 1),
{
    let c = doe / 36_524;
    let q = doe / 1460;
    let e = doe / 146_096;
    assert(0 <= c <= 4);
    assert(0 <= e <= 1);
    let h = yoe / 100;
    let f = yoe / 4;
    if c == 0 {
    } else if c == 1 {
    } else if c == 2 {
    } else if c == 3 {
    } else {
    }
}

proof fn lemma_month_starts(year: int)
    ensures
        month_start(year, 1) == 0,
        month_start(year, 2) == 31,
        month_start(year, 3) == 31 + days_in_month(year, 2),
        month_start(year, 4) == month_start(year, 3) + 31,
        month_start(year, 5) == month_start(year, 3) + 61,
        month_start(year, 6) == month_start(year, 3) + 92,
        month_start(year, 7) == month_start(year, 3) + 122,
        month_start(year, 8) == month_start(year, 3) + 153,
        month_start(year, 9) == month_start(year, 3) + 184,
        month_start(year, 10) == month_start(year, 3) + 214,
        month_start(year, 11) == month_start(year, 3) + 245,
        month_start(year, 12) == month_start(year, 3) + 275,
{
    reveal_with_fuel(month_start, 13);
}

proof fn lemma_march_month(doy: int, mp: int, d: int)
    requires
        0 <= doy <= 365,
        mp == (5 * doy + 2) / 153,
        d == doy - march_month(mp) + 1,
    ensures
        0 <= mp <= 11,
        1 <= d <= 31,
        mp == 1 || mp == 3 || mp == 6 || mp == 8 ==> d <= 30,
        mp == 11 ==> d <= 29,
        mp == 11 && d == 29 ==> doy == 365,
        march_month(0) == 0,
        march_month(1) == 31,
        march_month(2) == 61,
        march_month(3) == 92,
        march_month(4) == 122,
        march_month(5) == 153,
        march_month(6) == 184,
        march_month(7) == 214,
        march_month(8) == 245,
        march_month(9) == 275,
        march_month(10) == 306,
        march_month(11) == 337,
{
    if mp == 0 {
    } else if mp == 1 {
    } else if mp == 2 {
    } else if mp == 3 {
    } else if mp == 4 {
    } else if mp == 5 {
    } else if mp == 6 {
    } else if mp == 7 {
    } else if mp == 8 {
    } else if mp == 9 {
    } else if mp == 10 {
    } else {
    }
}

/// Dividing by what divides 400 takes out whole eras.
proof fn lemma_eras(era: int, yoe: int)
    ensures
        (yoe + era * 400) / 400 == era + yoe / 400,
        (yoe + era * 400) / 100 == 4 * era + yoe / 100,
        (yoe + era * 400) / 4 == 100 * era + yoe / 4,
        (yoe + era * 400) % 400 == yoe % 400,
        (yoe + era * 400) % 100 == yoe % 100,
        (yoe + era * 400) % 4 == yoe % 4,
{
    assert(era * 400 == (4 * era) * 100);
    assert(era * 400 == (100 * era) * 4);
}

proof fn lemma_march_start(era: int, yoe: int, doe: int, y: int, doy: int)
    requires
        0 <= yoe < 400,
        y == yoe + era * 400,
        doy == doe - (365 * yoe + yoe / 4 - yoe / 100),
    ensures
        era * 146_097 + doe == march_start(y) + doy,
        is_leap(y + 1) == is_leap(yoe + 1),
{
    reveal(march_start);
    lemma_eras(era, yoe);
    lemma_eras(era, yoe + 1);
    assert(y + 1 == (yoe + 1) + era * 400);
}

proof fn lemma_march_year(y: int)
    ensures
        year_start(1970) == 719_528,
        march_start(y) + 60 == year_start(y) + 31 + days_in_month(y, 2),
        year_start(y + 1) == march_start(y) + 366,
{
    reveal(march_start);
    reveal(year_start);
}

proof fn lemma_date(y: int, doy: int, mp: int, d: int, mo: int, year: int)
    requires
        0 <= doy <= 365,
        doy == 365 ==> is_leap(y + 1),
        mp == (5 * doy + 2) / 153,
        d == doy - march_month(mp) + 1,
        mo == if mp < 10 { mp + 3 } else { mp - 9 },
        year == if mo <= 2 { y + 1 } else { y },
    ensures
        is_date(year, mo, d),
        day_number(year, mo, d) == march_start(y) + doy - 719_468,
{
    lemma_march_month(doy, mp, d);
    lemma_month_starts(year);
    lemma_year_start(y);
    lemma_march_year(y);
    if mp == 0 {
    } else if mp == 1 {
    } else if mp == 2 {
    } else if mp == 3 {
    } else if mp == 4 {
    } else if mp == 5 {
    } else if mp == 6 {
    } else if mp == 7 {
    } else if mp == 8 {
    } else if mp == 9 {
    } else if mp == 10 {
    } else {
    }
}

proof fn lemma_month_start_order(year: int, a: int, b: int)
    requires
        1 <= a < b <= 13,
    ensures
        month_start(year, a) + days_in_month(year, a) <= month_start(year, b),
    decreases b - a,
{
    if a + 1 < b {
        lemma_month_start_order(year, a, b - 1);
        assert(month_start(year, b) == month_start(year, b - 1) + days_in_month(year, b - 1));
    } else {
        assert(month_start(year, b) == month_start(year, a) + days_in_month(year, a));
    }
}

/// A day of a year lies inside it.
proof fn lemma_day_in_year(year: int, month: int, day: int)
    requires
        is_date(year, month, day),
    ensures
        0 <= month_start(year, month) + day - 1 < days_in_year(year),
{
    lemma_month_start_order(year, month, 13);
    lemma_month_starts(year);
    assert(month_start(year, 13) == month_start(year, 12) + 31);
    if month > 1 {
        lemma_month_start_order(year, 1, month);
    }
}

/// Different dates have different day numbers.
pub proof fn lemma_day_number_injective(a: (int, int, int), b: (int, int, int))
    requires
        is_date(a.0, a.1, a.2),
        is_date(b.0, b.1, b.2),
        day_number(a.0, a.1, a.2) == day_number(b.0, b.1, b.2),
    ensures
        a == b,
{
    lemma_day_in_year(a.0, a.1, a.2);
    lemma_day_in_year(b.0, b.1, b.2);
    lemma_year_start(a.0);
    lemma_year_start(b.0);
    reveal(year_start);
    assert(a.0 < b.0 ==> year_start(a.0 + 1) <= year_start(b.0));
    assert(b.0 < a.0 ==> year_start(b.0 + 1) <= year_start(a.0));
    assert(a.0 == b.0);
    if a.1 < b.1 {
        lemma_month_start_order(a.0, a.1, b.1);
    } else if b.1 < a.1 {
        lemma_month_start_order(a.0, b.1, a.1);
    }
}

/// The date whose day number is `days`.
pub open spec fn civil_date(days: int) -> (int, int, int) {
    choose|t: (int, int, int)| is_date(t.0, t.1, t.2) && #[trigger] day_number(t.0, t.1, t.2) == days
}

/// Every day number is that of a date.
pub proof fn lemma_civil_date(days: int)
    ensures
        ({
            let t = civil_date(days);
            is_date(t.0, t.1, t.2) && day_number(t.0, t.1, t.2) == days
        }),
{
    let z = days + 719_468;
    let era = z / 146_097;
    let doe = z % 146_097;
    let yoe = (doe - doe / 1460 + doe / 36_524 - doe / 146_096) / 365;
    lemma_year_of_era(doe, yoe);
    let y = yoe + era * 400;
    let doy = doe - (365 * yoe + yoe / 4 - yoe / 100);
    let mp = (5 * doy + 2) / 153;
    let d = doy - march_month(mp) + 1;
    let mo = if mp < 10 {
        mp + 3
    } else {
        mp - 9
    };
    let year = if mo <= 2 {
        y + 1
    } else {
        y
    };
    lemma_march_start(era, yoe, doe, y, doy);
    lemma_date(y, doy, mp, d, mo, year);
    let t = (year, mo, d);
    assert(is_date(t.0, t.1, t.2) && day_number(t.0, t.1, t.2) == days);
}

/// One date lies before another.
pub open spec fn earlier(a: (int, int, int), b: (int, int, int)) -> bool {
    a.0 < b.0 || (a.0 == b.0 && (a.1 < b.1 || (a.1 == b.1 && a.2 < b.2)))
}

/// A later day has a later date.
pub proof fn lemma_later_day(a: int, b: int)
    requires
        a < b,
    ensures
        earlier(civil_date(a), civil_date(b)),
{
    lemma_civil_date(a);
    lemma_civil_date(b);
    let x = civil_date(a);
    let y = civil_date(b);
    lemma_day_in_year(x.0, x.1, x.2);
    lemma_day_in_year(y.0, y.1, y.2);
    lemma_year_start(x.0);
    lemma_year_start(y.0);
    reveal(year_start);
    assert(y.0 < x.0 ==> year_start(y.0 + 1) <= year_start(x.0));
    assert(x.0 <= y.0);
    if x.0 == y.0 && y.1 < x.1 {
        lemma_month_start_order(x.0, y.1, x.1);
    }
}

/// The days from 0000-01-01 to 9999-12-31 have a year of at most four digits.
pub proof fn lemma_four_digit_year(days: int)
    requires
        -719_528 <= days <= 2_932_896,
    ensures
        0 <= civil_date(days).0 <= 9999,
{
    lemma_civil_date(days);
    let t = civil_date(days);
    lemma_day_in_year(t.0, t.1, t.2);
    lemma_year_start(t.0);
    lemma_march_year(0);
    assert(year_start(10_000) == 3_652_425 && year_start(0) == 0) by {
        reveal(year_start);
    }
    reveal(year_start);
    assert(t.0 < 0 ==> year_start(t.0 + 1) <= year_start(0));
    assert(t.0 >= 10_000 ==> year_start(t.0) >= year_start(10_000));
}

/// The date of a day number, as year, month and day.
pub fn date_of(days: i64) -> (r: (i64, i64, i64))
    requires
        -200_000_000_000_000 <= days <= 200_000_000_000_000,
    ensures
        is_date(r.0 as int, r.1 as int, r.2 as int),
        day_number(r.0 as int, r.1 as int, r.2 as int) == days,
        (r.0 as int, r.1 as int, r.2 as int) == civil_date(days as int),
        -1_000_000_000_000 <= r.0 <= 1_000_000_000_000,
{
    let z: i64 = days + 719_468;
    let era: i64 = z.checked_div_euclid(146_097).unwrap();
    let doe: i64 = z.checked_rem_euclid(146_097).unwrap();
    let yoe: i64 = (doe - doe / 1460 + doe / 36_524 - doe / 146_096) / 365;
    proof {
        lemma_year_of_era(doe as int, yoe as int);
    }
    let y: i64 = yoe + era * 400;
    let doy: i64 = doe - (365 * yoe + yoe / 4 - yoe / 100);
    let mp: i64 = (5 * doy + 2) / 153;
    let d: i64 = doy - (153 * mp + 2) / 5 + 1;
    let mo: i64 = if mp < 10 {
        mp + 3
    } else {
        mp - 9
    };
    let year: i64 = if mo <= 2 {
        y + 1
    } else {
        y
    };
    proof {
        lemma_march_start(era as int, yoe as int, doe as int, y as int, doy as int);
        lemma_date(y as int, doy as int, mp as int, d as int, mo as int, year as int);
        let t = (year as int, mo as int, d as int);
        assert(is_date(t.0, t.1, t.2) && day_number(t.0, t.1, t.2) == days);
        lemma_day_number_injective(t, civil_date(days as int));
    }
    (year, mo, d)
}

}
