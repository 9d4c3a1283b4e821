//! Dates of the Gregorian calendar, from days since the epoch.

use vstd::prelude::*;

use crate::text::{digits_value, law_padding_keeps_the_number, zero_padded, zero_padded_text};

verus! {

/// True for a year with 366 days.
pub open spec fn is_leap(y: int) -> bool {
    y % 4 == 0 && (y % 100 != 0 || y % 400 == 0)
}

/// How many days a month has.
pub open spec fn days_in_month(y: int, m: int) -> int {
    if m == 2 {
        if is_leap(y) {
            29
        } else {
            28
        }
    } else if m == 4 || m == 6 || m == 9 || m == 11 {
        30
    } else {
        31
    }
}

/// How many days of a year come before a month.
pub open spec fn days_before_month(y: int, m: int) -> int
    decreases m,
{
    if m <= 1 {
        0
    } else {
        days_before_month(y, m - 1) + days_in_month(y, m - 1)
    }
}

/// The number of days from the first day of the year 1 to the first day of
/// a year, negative for one that comes before.
pub open spec fn days_before_year(y: int) -> int {
    365 * (y - 1) + (y - 1) / 4 - (y - 1) / 100 + (y - 1) / 400
}

/// The number of days from the first day of 1970 to a date.
pub open spec fn day_number(y: int, m: int, d: int) -> int {
    days_before_year(y) - days_before_year(1970) + days_before_month(y, m) + d - 1
}

/// True for a date that is in the calendar.
pub open spec fn is_date(y: int, m: int, d: int) -> bool {
    1 <= m <= 12 && 1 <= d <= days_in_month(y, m)
}

/// A year is 365 days long, or 366 when it is a leap year.
pub proof fn law_year_length(y: int)
    ensures
        days_before_year(y + 1) - days_before_year(y) == (if is_leap(y) {
            366int
        } else {
            365
        }),
{
}

proof fn lemma_months(y: int)
    ensures
        days_before_month(y, 1) == 0,
        days_before_month(y, 2) == 31,
        ({
            let l: int = if is_leap(y) {
                1
            } else {
                0
            };
            &&& days_before_month(y, 3) == 59 + l
            &&& days_before_month(y, 4) == 90 + l
            &&& days_before_month(y, 5) == 120 + l
            &&& days_before_month(y, 6) == 151 + l
            &&& days_before_month(y, 7) == 181 + l
            &&& days_before_month(y, 8) == 212 + l
            &&& days_before_month(y, 9) == 243 + l
            &&& days_before_month(y, 10) == 273 + l
            &&& days_before_month(y, 11) == 304 + l
            &&& days_before_month(y, 12) == 334 + l
        }),
{
    reveal_with_fuel(days_before_month, 13);
}

/// The year of an era of 400, from the days into it, both counted from the
/// first of March.
proof fn lemma_year_of_era(doe: u32)
    requires
        doe < 146_097,
    ensures
        ({
            let yoe = (doe - doe / 1460 + doe / 36_524 - doe / 146_096) / 365;
            let start = 365 * yoe + yoe / 4 - yoe / 100;
            &&& 0 <= yoe <= 399
            &&& start <= doe <= start + 365
            &&& doe == start + 365 ==> (yoe + 1) % 4 == 0 && ((yoe + 1) % 100 != 0 || (yoe + 1)
                % 400 == 0)
        }),
{
    assert(doe < 146_097 ==> ({
        let yoe = (doe - doe / 1460 + doe / 36_524 - doe / 146_096) / 365;
        let start = 365 * yoe + yoe / 4 - yoe / 100;
        &&& 0 <= yoe <= 399
        &&& start <= doe <= start + 365
        &&& doe == start + 365 ==> (yoe + 1) % 4 == 0 && ((yoe + 1) % 100 != 0 || (yoe + 1) % 400
            == 0)
    })) by (bit_vector);
}

/// The month and day of a year that begins with March, from the days into
/// it.
proof fn lemma_month_of_year(doy: int)
    requires
        0 <= doy <= 365,
    ensures
        ({
            let mp = (5 * doy + 2) / 153;
            let first = (153 * mp + 2) / 5;
            &&& 0 <= mp <= 11
            &&& first <= doy
            &&& mp == 0 ==> first == 0 && doy <= 30
            &&& mp == 1 ==> first == 31 && doy <= 60
            &&& mp == 2 ==> first == 61 && doy <= 91
            &&& mp == 3 ==> first == 92 && doy <= 121
            &&& mp == 4 ==> first == 122 && doy <= 152
            &&& mp == 5 ==> first == 153 && doy <= 183
            &&& mp == 6 ==> first == 184 && doy <= 213
            &&& mp == 7 ==> first == 214 && doy <= 244
            &&& mp == 8 ==> first == 245 && doy <= 274
            &&& mp == 9 ==> first == 275 && doy <= 305
            &&& mp == 10 ==> first == 306 && doy <= 336
            &&& mp == 11 ==> first == 337
        }),
{
}

/// Years of an era make up the days before the year that follows.
proof fn lemma_era_days(e: int, yoe: int)
    requires
        0 <= yoe <= 399,
    ensures
        days_before_year(yoe + 400 * e + 1) == 146_097 * e + 365 * yoe + yoe / 4 - yoe / 100,
        is_leap(yoe + 400 * e + 1) == ((yoe + 1) % 4 == 0 && ((yoe + 1) % 100 != 0 || (yoe + 1)
            % 400 == 0)),
{
    let y = yoe + 400 * e;
    assert(y / 4 == yoe / 4 + 100 * e);
    assert(y / 100 == yoe / 100 + 4 * e);
    assert(y / 400 == e);
    assert((y + 1) % 4 == (yoe + 1) % 4);
    assert((y + 1) % 100 == (yoe + 1) % 100);
    assert((y + 1) % 400 == (yoe + 1) % 400);
}

/// A day of a year that begins with March is the date found for it.
proof fn lemma_date_of_day(y: int, doy: int, mp: int, first: int)
    requires
        0 <= doy <= 365,
        doy == 365 ==> is_leap(y + 1),
        mp == (5 * doy + 2) / 153,
        first == (153 * mp + 2) / 5,
    ensures
        0 <= mp <= 11,
        first <= doy,
        ({
            let m = if mp < 10 {
                mp + 3
            } else {
                mp - 9
            };
            let year = if m <= 2 {
                y + 1
            } else {
                y
            };
            let d = doy - first + 1;
            &&& is_date(year, m, d)
            &&& day_number(year, m, d) == days_before_year(y + 1) + doy - 719_468
        }),
{
    lemma_month_of_year(doy);
    lemma_months(y);
    lemma_months(y + 1);
    law_year_length(y);
    assert(days_before_year(1970) == 719_162);
}

/// The era of a day is the one that the day falls in.
proof fn lemma_floor(z: int, era: int)
    requires
        z >= 0 ==> era == z / 146_097,
        z < 0 ==> era == -((146_096 - z) / 146_097),
    ensures
        0 <= z - era * 146_097 < 146_097,
        z >= 0 ==> 0 <= era <= z,
        z < 0 ==> z <= era < 0,
{
}

/// The date that is so many days after the first day of 1970, as year,
/// month and day.
pub fn civil_from_days(z: i64) -> (r: (i64, u32, u32))
    requires
        z <= i64::MAX - 719_468,
    ensures
        is_date(r.0 as int, r.1 as int, r.2 as int),
        day_number(r.0 as int, r.1 as int, r.2 as int) == z,
{
    // Counted from the first of March of the year 0, so that a leap day is
    // the last day of its year.
    let z: i64 = z + 719_468;
    let era: i64 = if z >= 0 {
        z / 146_097
    } else {
        -((146_096 - z) / 146_097)
    };
    proof {
        lemma_floor(z as int, era as int);
    }
    let doe: u32 = (z - era * 146_097) as u32;
    proof {
        lemma_year_of_era(doe);
    }
    let yoe: u32 = (doe - doe / 1460 + doe / 36_524 - doe / 146_096) / 365;
    let y: i64 = yoe as i64 + era * 400;
    let doy: u32 = doe - (365 * yoe + yoe / 4 - yoe / 100);
    let mp: u32 = (5 * doy + 2) / 153;
    proof {
        lemma_era_days(era as int, yoe as int);
        lemma_date_of_day(y as int, doy as int, mp as int, (153 * mp + 2) / 5);
    }
    let d: u32 = doy - (153 * mp + 2) / 5 + 1;
    let m: u32 = if mp < 10 {
        mp + 3
    } else {
        mp - 9
    };
    let year: i64 = if m <= 2 {
        y + 1
    } else {
        y
    };
    (year, m, d)
}

/// Two dates with the same day number are the same date.
pub proof fn law_day_number_is_unique(y1: int, m1: int, d1: int, y2: int, m2: int, d2: int)
    requires
        is_date(y1, m1, d1),
        is_date(y2, m2, d2),
        day_number(y1, m1, d1) == day_number(y2, m2, d2),
    ensures
        y1 == y2,
        m1 == m2,
        d1 == d2,
{
    lemma_within_year(y1, m1, d1);
    lemma_within_year(y2, m2, d2);
    if y1 < y2 {
        lemma_years_grow(y1 + 1, y2);
    } else if y2 < y1 {
        lemma_years_grow(y2 + 1, y1);
    }
    lemma_months(y1);
}

proof fn lemma_within_year(y: int, m: int, d: int)
    requires
        is_date(y, m, d),
    ensures
        days_before_year(y) <= day_number(y, m, d) + days_before_year(1970) < days_before_year(
            y + 1,
        ),
{
    lemma_months(y);
    law_year_length(y);
}

proof fn lemma_years_grow(a: int, b: int)
    requires
        a <= b,
    ensures
        days_before_year(a) <= days_before_year(b),
    decreases b - a,
{
    if a < b {
        lemma_years_grow(a, b - 1);
        law_year_length(b - 1);
    }
}

/// A moment, in the form `2024-05-01T12:34:56Z`.
pub open spec fn timestamp(y: int, m: int, d: int, second_of_day: int) -> Seq<char> {
    zero_padded(y as nat, 4) + "-"@ + zero_padded(m as nat, 2) + "-"@ + zero_padded(d as nat, 2)
        + "T"@ + zero_padded((second_of_day / 3600) as nat, 2) + ":"@ + zero_padded(
        (second_of_day % 3600 / 60) as nat,
        2,
    ) + ":"@ + zero_padded((second_of_day % 60) as nat, 2) + "Z"@
}

/// True for the date that is so many days after the first day of 1970.
pub open spec fn falls_on(days: int, y: int, m: int, d: int) -> bool {
    is_date(y, m, d) && day_number(y, m, d) == days
}

/// A moment, given in seconds since the epoch, in the form
/// `2024-05-01T12:34:56Z`.
pub fn rfc3339(seconds: u64) -> (r: String)
    ensures
        exists|y: int, m: int, d: int| #[trigger]
            falls_on(seconds as int / 86_400, y, m, d) && r@ == timestamp(
                y,
                m,
                d,
                seconds as int % 86_400,
            ),
{
    let days: i64 = (seconds / 86_400) as i64;
    let rest: u64 = seconds % 86_400;
    let (y, m, d) = civil_from_days(days);
    proof {
        let ghost yi = y as int;
        lemma_within_year(yi, m as int, d as int);
        if yi < 1970 {
            lemma_years_grow(yi + 1, 1970);
        }
    }
    let mut s: String = zero_padded_text(y as u128, 4);
    s.append("-");
    s.append(zero_padded_text(m as u128, 2).as_str());
    s.append("-");
    s.append(zero_padded_text(d as u128, 2).as_str());
    s.append("T");
    s.append(zero_padded_text((rest / 3600) as u128, 2).as_str());
    s.append(":");
    s.append(zero_padded_text((rest % 3600 / 60) as u128, 2).as_str());
    s.append(":");
    s.append(zero_padded_text((rest % 60) as u128, 2).as_str());
    s.append("Z");
    assert(falls_on(seconds as int / 86_400, y as int, m as int, d as int));
    s
}

/// The first of January 1970 is day 0, and each date has the number after
/// that of the day before: the day after the last of a month is the first of
/// the next one, and the day after the last of December is New Year.
pub proof fn law_days_follow_each_other(y: int, m: int, d: int)
    requires
        is_date(y, m, d),
    ensures
        day_number(1970, 1, 1) == 0,
        is_date(y, m, d + 1) ==> day_number(y, m, d + 1) == day_number(y, m, d) + 1,
        !is_date(y, m, d + 1) && m < 12 ==> is_date(y, m + 1, 1) && day_number(y, m + 1, 1)
            == day_number(y, m, d) + 1,
        !is_date(y, m, d + 1) && m == 12 ==> is_date(y + 1, 1, 1) && day_number(y + 1, 1, 1)
            == day_number(y, m, d) + 1,
{
    lemma_months(y);
    lemma_months(y + 1);
    law_year_length(y);
}

/// Every fourth year has a leap day, but of the years that end a century
/// only every fourth.
pub proof fn law_leap_years(y: int)
    ensures
        y % 4 != 0 ==> !is_date(y, 2, 29),
        y % 4 == 0 && y % 100 != 0 ==> is_date(y, 2, 29),
        y % 100 == 0 && y % 400 != 0 ==> !is_date(y, 2, 29),
        y % 400 == 0 ==> is_date(y, 2, 29),
        is_date(y, 2, 28) && !is_date(y, 2, 30),
        is_date(y, 1, 31) && is_date(y, 3, 31) && is_date(y, 5, 31) && is_date(y, 7, 31),
        is_date(y, 8, 31) && is_date(y, 10, 31) && is_date(y, 12, 31),
        !is_date(y, 4, 31) && !is_date(y, 6, 31) && !is_date(y, 9, 31) && !is_date(y, 11, 31),
        is_date(y, 4, 30) && is_date(y, 6, 30) && is_date(y, 9, 30) && is_date(y, 11, 30),
{
}

/// A moment is written in twenty characters, from which the date and the
/// time of day are read back.
pub proof fn law_timestamp_is_read_back(y: int, m: int, d: int, second_of_day: int)
    requires
        0 <= y <= 9999,
        is_date(y, m, d),
        0 <= second_of_day < 86_400,
    ensures
        ({
            let s = timestamp(y, m, d, second_of_day);
            &&& s.len() == 20
            &&& s[4] == '-' && s[7] == '-' && s[10] == 'T' && s[13] == ':' && s[16] == ':'
                && s[19] == 'Z'
            &&& digits_value(s.subrange(0, 4)) == y
            &&& digits_value(s.subrange(5, 7)) == m
            &&& digits_value(s.subrange(8, 10)) == d
            &&& digits_value(s.subrange(11, 13)) < 24
            &&& digits_value(s.subrange(14, 16)) < 60
            &&& digits_value(s.subrange(17, 19)) < 60
            &&& 3600 * digits_value(s.subrange(11, 13)) + 60 * digits_value(s.subrange(14, 16))
                + digits_value(s.subrange(17, 19)) == second_of_day
        }),
{
    let s = timestamp(y, m, d, second_of_day);
    let hour = (second_of_day / 3600) as nat;
    let minute = (second_of_day % 3600 / 60) as nat;
    let second = (second_of_day % 60) as nat;
    reveal_strlit("-");
    reveal_strlit("T");
    reveal_strlit(":");
    reveal_strlit("Z");
    law_padding_keeps_the_number(y as nat, 4);
    law_padding_keeps_the_number(m as nat, 2);
    law_padding_keeps_the_number(d as nat, 2);
    law_padding_keeps_the_number(hour, 2);
    law_padding_keeps_the_number(minute, 2);
    law_padding_keeps_the_number(second, 2);
    assert(s.subrange(0, 4) =~= zero_padded(y as nat, 4));
    assert(s.subrange(5, 7) =~= zero_padded(m as nat, 2));
    assert(s.subrange(8, 10) =~= zero_padded(d as nat, 2));
    assert(s.subrange(11, 13) =~= zero_padded(hour, 2));
    assert(s.subrange(14, 16) =~= zero_padded(minute, 2));
    assert(s.subrange(17, 19) =~= zero_padded(second, 2));
}

} // verus!
