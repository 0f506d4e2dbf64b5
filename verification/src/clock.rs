//! Civil dates and RFC 3339 timestamps.
use vstd::prelude::*;
use vstd::string::StringExecFns;

use crate::text::push_padded;

verus! {

/// Whether `y` is a leap year of the Gregorian calendar.
pub open spec fn is_leap(y: int) -> bool {
    y % 4 == 0 && (y % 100 != 0 || y % 400 == 0)
}

/// The number of days of month `m` of year `y`.
pub open spec fn days_in_month(y: int, m: int) -> int {
    if m == 2 {
        if is_leap(y) {
            29
        } else {
            28
        }
    } else if m == 4 || m == 6 || m == 9 || m == 11 {
        30
    } else {
        31
    }
}

/// `y`-`m`-`d` is a date of the Gregorian calendar.
pub open spec fn is_date(y: int, m: int, d: int) -> bool {
    1 <= m <= 12 && 1 <= d <= days_in_month(y, m)
}

/// The number of days from the first day of year 0 to the first day of year `y`.
pub open spec fn days_before_year(y: int) -> int {
    365 * y + (y + 3) / 4 - (y + 99) / 100 + (y + 399) / 400
}

/// The number of days of year `y` in front of month `m`.
pub open spec fn days_before_month(y: int, m: int) -> int
    decreases m,
{
    if m <= 1 {
        0
    } else {
        days_before_month(y, m - 1) + days_in_month(y, m - 1)
    }
}

/// The number of days from 1970-01-01 to the date.
pub open spec fn day_number(y: int, m: int, d: int) -> int {
    days_before_year(y) - days_before_year(1970) + days_before_month(y, m) + d - 1
}

/// The months of a year start where they do.
proof fn months(y: int)
    ensures
        days_before_month(y, 1) == 0,
        days_before_month(y, 2) == 31,
        days_before_month(y, 3) == 59 + if is_leap(y) { 1int } else { 0 },
        days_before_month(y, 4) == 90 + if is_leap(y) { 1int } else { 0 },
        days_before_month(y, 5) == 120 + if is_leap(y) { 1int } else { 0 },
        days_before_month(y, 6) == 151 + if is_leap(y) { 1int } else { 0 },
        days_before_month(y, 7) == 181 + if is_leap(y) { 1int } else { 0 },
        days_before_month(y, 8) == 212 + if is_leap(y) { 1int } else { 0 },
        days_before_month(y, 9) == 243 + if is_leap(y) { 1int } else { 0 },
        days_before_month(y, 10) == 273 + if is_leap(y) { 1int } else { 0 },
        days_before_month(y, 11) == 304 + if is_leap(y) { 1int } else { 0 },
        days_before_month(y, 12) == 334 + if is_leap(y) { 1int } else { 0 },
        days_before_month(y, 13) == 365 + if is_leap(y) { 1int } else { 0 },
{
    reveal_with_fuel(days_before_month, 14);
}

/// A year has 365 days, a leap year 366.
pub proof fn year_length(y: int)
    ensures
        days_before_year(y + 1) - days_before_year(y) == 365 + if is_leap(y) {
            1int
        } else {
            0
        },
{
    assert((y + 4) / 4 - (y + 3) / 4 == if y % 4 == 0 {
        1int
    } else {
        0
    });
    assert((y + 100) / 100 - (y + 99) / 100 == if y % 100 == 0 {
        1int
    } else {
        0
    });
    assert((y + 400) / 400 - (y + 399) / 400 == if y % 400 == 0 {
        1int
    } else {
        0
    });
    assert(y % 400 == 0 ==> y % 100 == 0);
    assert(y % 100 == 0 ==> y % 4 == 0);
}

/// Sooner years start earlier.
proof fn years_are_ordered(y: int, w: int)
    requires
        y <= w,
    ensures
        days_before_year(y) + 365 * (w - y) <= days_before_year(w),
    decreases w - y,
{
    if y < w {
        years_are_ordered(y, w - 1);
        year_length(w - 1);
    }
}

/// A date lies in its year.
proof fn date_in_year(y: int, m: int, d: int)
    requires
        is_date(y, m, d),
    ensures
        days_before_year(y) <= day_number(y, m, d) + days_before_year(1970) < days_before_year(
            y + 1,
        ),
{
    months(y);
    year_length(y);
    assert(m == 1 || m == 2 || m == 3 || m == 4 || m == 5 || m == 6 || m == 7 || m == 8 || m == 9
        || m == 10 || m == 11 || m == 12);
}

/// No two dates have the same day number.
pub proof fn day_number_is_injective(y: int, m: int, d: int, v: int, n: int, e: int)
    requires
        is_date(y, m, d),
        is_date(v, n, e),
        day_number(y, m, d) == day_number(v, n, e),
    ensures
        y == v && m == n && d == e,
{
    date_in_year(y, m, d);
    date_in_year(v, n, e);
    if y < v {
        years_are_ordered(y + 1, v);
    }
    if v < y {
        years_are_ordered(v + 1, y);
    }
    months(y);
    assert(m == 1 || m == 2 || m == 3 || m == 4 || m == 5 || m == 6 || m == 7 || m == 8 || m == 9
        || m == 10 || m == 11 || m == 12);
    assert(n == 1 || n == 2 || n == 3 || n == 4 || n == 5 || n == 6 || n == 7 || n == 8 || n == 9
        || n == 10 || n == 11 || n == 12);
}

/// The year of an era of 400 years, counted from the first of March, that the day `doe` of the
/// era lies in.
pub open spec fn era_year(doe: int) -> int {
    (doe - doe / 1460 + doe / 36_524 - doe / 146_096) / 365
}

/// The day of that year.
pub open spec fn era_day(doe: int) -> int {
    doe - (365 * era_year(doe) + era_year(doe) / 4 - era_year(doe) / 100)
}

/// An era has 400 years, and a year as many days as it should.
#[verifier::spinoff_prover]
#[verifier::rlimit(60)]
proof fn era_year_fits(doe: int)
    requires
        0 <= doe < 146_097,
    ensures
        0 <= era_year(doe) < 400,
        0 <= era_day(doe) <= 365,
        era_day(doe) == 365 ==> is_leap(era_year(doe) + 1),
{
}

/// The month, counted from March, of the day `doy` of a year that starts in March.
pub open spec fn march_month(doy: int) -> int {
    (5 * doy + 2) / 153
}

/// The day of that month, counted from 1.
pub open spec fn march_day(doy: int) -> int {
    doy - (153 * march_month(doy) + 2) / 5 + 1
}

/// The years of an era are those of the era at year 0.
proof fn era_shift(era: int, y: int)
    ensures
        days_before_year(y + 400 * era) == days_before_year(y) + 146097 * era,
        is_leap(y + 400 * era) == is_leap(y),
{
    use_quotient(y + 3, 100 * era, 4);
    use_quotient(y + 99, 4 * era, 100);
    use_quotient(y + 399, era, 400);
    use_quotient(y, 100 * era, 4);
    use_quotient(y, 4 * era, 100);
    use_quotient(y, era, 400);
}

/// Adding a multiple of the divisor adds to the quotient and keeps the remainder.
proof fn use_quotient(x: int, k: int, n: int)
    requires
        n > 0,
    ensures
        (x + n * k) / n == x / n + k,
        (x + n * k) % n == x % n,
{
    vstd::arithmetic::div_mod::lemma_hoist_over_denominator(x, k, n as nat);
    vstd::arithmetic::div_mod::lemma_mod_multiples_vanish(k, x, n);
    assert(n * k == k * n) by (nonlinear_arith);
}

/// The first of March of year `y` of an era, counted from the first of March of year 0.
proof fn first_of_march(y: int)
    requires
        0 <= y < 400,
    ensures
        days_before_year(y) + days_before_month(y, 3) == 60 + 365 * y + y / 4 - y / 100,
{
    months(y);
    assert((y + 3) / 4 == y / 4 + if y % 4 == 0 {
        0int
    } else {
        1
    });
    assert((y + 99) / 100 == y / 100 + if y % 100 == 0 {
        0int
    } else {
        1
    });
    assert((y + 399) / 400 == if y == 0 {
        0int
    } else {
        1
    });
    assert(y % 100 == 0 ==> y % 4 == 0);
    assert(y % 400 == 0 <==> y == 0);
}

/// The date of the day `doy` days after the first of March of year `y`.
#[verifier::spinoff_prover]
proof fn march_date(y: int, doy: int, m: int, w: int)
    requires
        0 <= doy <= 365,
        doy == 365 ==> is_leap(y + 1),
        m == if march_month(doy) < 10 {
            march_month(doy) + 3
        } else {
            march_month(doy) - 9
        },
        w == if m <= 2 {
            y + 1
        } else {
            y
        },
    ensures
        is_date(w, m, march_day(doy)),
        days_before_year(w) + days_before_month(w, m) + march_day(doy) - 1 == days_before_year(y)
            + days_before_month(y, 3) + doy,
{
    months(y);
    months(y + 1);
    year_length(y);
    let mp = march_month(doy);
    assert(0 <= mp <= 11);
    assert(mp == 0 || mp == 1 || mp == 2 || mp == 3 || mp == 4 || mp == 5 || mp == 6 || mp == 7
        || mp == 8 || mp == 9 || mp == 10 || mp == 11);
}

/// The months of a year are as long as those of the year an era later.
proof fn months_shift(era: int, y: int, m: int)
    ensures
        days_before_month(y + 400 * era, m) == days_before_month(y, m),
        days_in_month(y + 400 * era, m) == days_in_month(y, m),
    decreases m,
{
    era_shift(era, y);
    if m > 1 {
        months_shift(era, y, m - 1);
    }
}

/// The year of an era and the day of that year.
fn split_era(doe: i64) -> (out: (i64, i64))
    requires
        0 <= doe < 146_097,
    ensures
        out.0 == era_year(doe as int),
        out.1 == era_day(doe as int),
        0 <= out.0 < 400,
        0 <= out.1 <= 365,
        out.1 == 365 ==> is_leap(out.0 + 1),
{
    proof {
        era_year_fits(doe as int);
    }
    let yoe = (doe - doe / 1460 + doe / 36_524 - doe / 146_096) / 365;
    (yoe, doe - (365 * yoe + yoe / 4 - yoe / 100))
}

/// The month, counted from March, and the day of a day of a year that starts in March.
fn split_year(doy: i64) -> (out: (i64, i64))
    requires
        0 <= doy <= 365,
    ensures
        out.0 == march_month(doy as int),
        out.1 == march_day(doy as int),
        0 <= out.0 <= 11,
{
    let mp = (5 * doy + 2) / 153;
    (mp, doy - (153 * mp + 2) / 5 + 1)
}

/// Which era the day `z` lies in, and which day of the era it is.
fn split_days(z: i64) -> (out: (i64, i64))
    requires
        z >= i64::MIN + 146_097,
    ensures
        z == out.0 * 146_097 + out.1,
        0 <= out.1 < 146_097,
        -0x1_0000_0000_0000 < out.0 < 0x1_0000_0000_0000,
{
    let era = if z >= 0 {
        z / 146_097
    } else {
        -((-(z + 1)) / 146_097) - 1
    };
    (era, z - era * 146_097)
}

/// The day count from the parts of a date.
proof fn date_from_parts(era: int, doe: int, m: int, w: int)
    requires
        0 <= doe < 146_097,
        m == if march_month(era_day(doe)) < 10 {
            march_month(era_day(doe)) + 3
        } else {
            march_month(era_day(doe)) - 9
        },
        w == if m <= 2 {
            era_year(doe) + 1
        } else {
            era_year(doe)
        },
    ensures
        is_date(w + 400 * era, m, march_day(era_day(doe))),
        day_number(w + 400 * era, m, march_day(era_day(doe))) == era * 146_097 + doe - 719_468,
{
    let yoe = era_year(doe);
    let doy = era_day(doe);
    let d = march_day(doy);
    era_year_fits(doe);
    march_date(yoe, doy, m, w);
    first_of_march(yoe);
    era_shift(era, w);
    months_shift(era, w, m);
    assert(days_before_year(1970) == 719_528);
    assert(days_before_year(w) + days_before_month(w, m) + d - 1 == 60 + doe);
}

/// The date that is `z` days after 1970-01-01.
pub fn civil_from_days(z: i64) -> (date: (i64, i64, i64))
    requires
        z <= i64::MAX - 719_468,
    ensures
        is_date(date.0 as int, date.1 as int, date.2 as int),
        day_number(date.0 as int, date.1 as int, date.2 as int) == z,
{
    let (era, doe) = split_days(z + 719_468);
    let (yoe, doy) = split_era(doe);
    let (mp, d) = split_year(doy);
    let m = if mp < 10 {
        mp + 3
    } else {
        mp - 9
    };
    let y = if m <= 2 {
        yoe + 1
    } else {
        yoe
    };
    proof {
        date_from_parts(era as int, doe as int, m as int, y as int);
    }
    (y + era * 400, m, d)
}

/// The date with the day number `days`.
pub open spec fn date_of(days: int) -> (int, int, int) {
    choose|date: (int, int, int)|
        is_date(date.0, date.1, date.2) && #[trigger] day_number(date.0, date.1, date.2) == days
}

/// The time `secs` seconds after the start of 1970, as `YYYY-MM-DDThh:mm:ssZ`.
pub open spec fn timestamp(secs: nat) -> Seq<char> {
    let (y, m, d) = date_of((secs / 86_400) as int);
    let rem = secs % 86_400;
    crate::text::padded(y as nat, 4) + "-"@ + crate::text::padded(m as nat, 2) + "-"@
        + crate::text::padded(d as nat, 2) + "T"@ + crate::text::padded(rem / 3600, 2) + ":"@
        + crate::text::padded(rem % 3600 / 60, 2) + ":"@ + crate::text::padded(rem % 60, 2) + "Z"@
}

/// Every day number is that of a date.
pub proof fn every_day_has_a_date(days: int)
    ensures
        ({
            let (y, m, d) = date_of(days);
            is_date(y, m, d) && day_number(y, m, d) == days
        }),
{
    let era = (days + 719_468) / 146_097;
    let doe = (days + 719_468) % 146_097;
    let doy = era_day(doe);
    let m = if march_month(doy) < 10 {
        march_month(doy) + 3
    } else {
        march_month(doy) - 9
    };
    let y = if m <= 2 {
        era_year(doe) + 1
    } else {
        era_year(doe)
    };
    date_from_parts(era, doe, m, y);
    let date = (y + 400 * era, m, march_day(doy));
    assert(day_number(date.0, date.1, date.2) == days);
}

/// A number below 100 takes two digits, one below 10000 four.
proof fn padded_digits(n: nat, width: nat)
    requires
        width == 2 && n < 100 || width == 4 && n < 10_000,
    ensures
        crate::text::padded(n, width).len() == width,
        forall|i: int|
            0 <= i < width ==> crate::text::is_digit(#[trigger] crate::text::padded(n, width)[i]),
{
    reveal_with_fuel(crate::text::padded, 5);
}

/// Up to the end of the year 9999 a timestamp is what RFC 3339 asks for: four digits, two, two,
/// two, two and two, with hyphens in the date, `T` behind it, colons in the time and `Z` behind
/// it. (From then on the year takes five digits.)
pub proof fn timestamps_have_one_shape(secs: nat)
    requires
        secs < 253_402_300_800,
    ensures
        ({
            let t = timestamp(secs);
            &&& t.len() == 20
            &&& t[4] == '-' && t[7] == '-' && t[10] == 'T'
            &&& t[13] == ':' && t[16] == ':' && t[19] == 'Z'
            &&& forall|i: int|
                0 <= i < 19 && i != 4 && i != 7 && i != 10 && i != 13 && i != 16
                    ==> crate::text::is_digit(#[trigger] t[i])
        }),
{
    reveal_strlit("-");
    reveal_strlit("T");
    reveal_strlit(":");
    reveal_strlit("Z");
    let (y, m, d) = date_of((secs / 86_400) as int);
    every_day_has_a_date((secs / 86_400) as int);
    later_years(y, m, d);
    date_in_year(y, m, d);
    if y >= 10_000 {
        years_are_ordered(10_000, y);
    }
    assert(days_before_year(10_000) - days_before_year(1970) == 2_932_897);
    let rem = secs % 86_400;
    padded_digits(y as nat, 4);
    padded_digits(m as nat, 2);
    padded_digits(d as nat, 2);
    padded_digits(rem / 3600, 2);
    padded_digits(rem % 3600 / 60, 2);
    padded_digits(rem % 60, 2);
    let t = timestamp(secs);
    let year = crate::text::padded(y as nat, 4);
    let month = crate::text::padded(m as nat, 2);
    let day = crate::text::padded(d as nat, 2);
    let hour = crate::text::padded(rem / 3600, 2);
    let minute = crate::text::padded(rem % 3600 / 60, 2);
    let second = crate::text::padded(rem % 60, 2);
    assert forall|i: int|
        0 <= i < 19 && i != 4 && i != 7 && i != 10 && i != 13 && i
            != 16 implies crate::text::is_digit(#[trigger] t[i]) by {
        if i < 4 {
            assert(t[i] == year[i]);
        } else if i < 7 {
            assert(t[i] == month[i - 5]);
        } else if i < 10 {
            assert(t[i] == day[i - 8]);
        } else if i < 13 {
            assert(t[i] == hour[i - 11]);
        } else if i < 16 {
            assert(t[i] == minute[i - 14]);
        } else {
            assert(t[i] == second[i - 17]);
        }
    }
}

/// The years from 1970 on have no negative number.
proof fn later_years(y: int, m: int, d: int)
    requires
        is_date(y, m, d),
        day_number(y, m, d) >= 0,
    ensures
        y >= 1970,
{
    date_in_year(y, m, d);
    if y < 1970 {
        years_are_ordered(y + 1, 1970);
    }
}

/// The calendar: years that four divides have a 29th of February, but of those that a hundred
/// divides only those that four hundred divides; April, June, September and November have 30
/// days, the other months 31.
pub proof fn dates_are_those_of_the_calendar(y: int, m: int, d: int)
    ensures
        is_date(y, m, d) <==> 1 <= d && {
            ||| (m == 1 || m == 3 || m == 5 || m == 7 || m == 8 || m == 10 || m == 12) && d <= 31
            ||| (m == 4 || m == 6 || m == 9 || m == 11) && d <= 30
            ||| m == 2 && d <= 28
            ||| m == 2 && d == 29 && y % 4 == 0 && (y % 100 != 0 || y % 400 == 0)
        },
{
}

/// Days are counted one by one from the first of January 1970: the date behind a date is the
/// next day of the month, or else the first of the next month, or else the first of the next
/// year, and its number is one more.
pub proof fn days_are_counted_one_by_one(y: int, m: int, d: int)
    requires
        is_date(y, m, d),
    ensures
        day_number(1970, 1, 1) == 0,
        day_number(y, m, d + 1) == day_number(y, m, d) + 1,
        !is_date(y, m, d + 1) && m < 12 ==> is_date(y, m + 1, 1) && day_number(y, m + 1, 1)
            == day_number(y, m, d) + 1,
        !is_date(y, m, d + 1) && m == 12 ==> is_date(y + 1, 1, 1) && day_number(y + 1, 1, 1)
            == day_number(y, m, d) + 1,
{
    months(y);
    months(y + 1);
    months(1970);
    year_length(y);
    assert(m == 1 || m == 2 || m == 3 || m == 4 || m == 5 || m == 6 || m == 7 || m == 8 || m == 9
        || m == 10 || m == 11 || m == 12);
}

/// A timestamp says date and time: the second `s` of the minute `mi` of the hour `h` of a date
/// is written as the year in four digits or more, the month, the day, the hour, the minute and
/// the second in two.
pub proof fn timestamps_say_date_and_time(y: int, m: int, d: int, h: int, mi: int, s: int)
    requires
        is_date(y, m, d),
        day_number(y, m, d) >= 0,
        0 <= h < 24,
        0 <= mi < 60,
        0 <= s < 60,
    ensures
        timestamp((day_number(y, m, d) * 86_400 + h * 3600 + mi * 60 + s) as nat)
            == crate::text::padded(y as nat, 4) + "-"@ + crate::text::padded(m as nat, 2) + "-"@
            + crate::text::padded(d as nat, 2) + "T"@ + crate::text::padded(h as nat, 2) + ":"@
            + crate::text::padded(mi as nat, 2) + ":"@ + crate::text::padded(s as nat, 2) + "Z"@,
{
    let days = day_number(y, m, d);
    let secs = (days * 86_400 + h * 3600 + mi * 60 + s) as nat;
    assert(secs / 86_400 == days && secs % 86_400 == h * 3600 + mi * 60 + s);
    let rem = secs % 86_400;
    assert(rem / 3600 == h && rem % 3600 == mi * 60 + s);
    assert((mi * 60 + s) / 60 == mi && rem % 60 == s);
    let (v, n, e) = date_of(days);
    every_day_has_a_date(days);
    day_number_is_injective(y, m, d, v, n, e);
}

/// Writes the time `secs` seconds after the start of 1970 as an RFC 3339 timestamp in UTC.
pub fn rfc3339(secs: u64) -> (out: String)
    ensures
        out@ == timestamp(secs as nat),
{
    let days = secs / 86_400;
    let rem = secs % 86_400;
    let (y, mo, d) = civil_from_days(days as i64);
    proof {
        let date = (y as int, mo as int, d as int);
        assert(day_number(date.0, date.1, date.2) == days);
        let (v, n, e) = date_of(days as int);
        day_number_is_injective(date.0, date.1, date.2, v, n, e);
        later_years(date.0, date.1, date.2);
    }
    let mut out = String::new();
    push_padded(&mut out, y as u64, 4);
    out.append("-");
    push_padded(&mut out, mo as u64, 2);
    out.append("-");
    push_padded(&mut out, d as u64, 2);
    out.append("T");
    push_padded(&mut out, rem / 3600, 2);
    out.append(":");
    push_padded(&mut out, rem % 3600 / 60, 2);
    out.append(":");
    push_padded(&mut out, rem % 60, 2);
    out.append("Z");
    assert(out@ =~= timestamp(secs as nat));
    out
}

/// Reads the system clock with `SystemTime::elapsed` on `UNIX_EPOCH`: the whole seconds since
/// the start of 1970, or nothing if the clock stands before it. Nothing is claimed of the time.
#[verifier::external_body]
fn seconds_since_epoch() -> (secs: Option<u64>) {
    std::time::UNIX_EPOCH.elapsed().ok().map(|d| d.as_secs())
}

/// The present time as an RFC 3339 timestamp in UTC; the start of 1970 if the clock stands
/// before it.
pub fn now_rfc3339() -> (out: String)
    ensures
        exists|secs: u64| out@ == #[trigger] timestamp(secs as nat),
{
    let secs: u64 = match seconds_since_epoch() {
        Some(secs) => secs,
        None => 0,
    };
    rfc3339(secs)
}

} // verus!
