//! Dates: from a number of days to a day of the Gregorian calendar.

use vstd::prelude::*;

use crate::text;

verus! {

// ── The calendar ────────────────────────────────────────────────────────────

/// Whether a year has a twenty-ninth of February.
pub open spec fn is_leap(year: int) -> bool {
    year % 4 == 0 && (year % 100 != 0 || year % 400 == 0)
}

/// How many days a month has.
pub open spec fn days_in_month(year: int, month: int) -> int {
    if month == 2 {
        if is_leap(year) {
            29
        } else {
            28
        }
    } else if month == 4 || month == 6 || month == 9 || month == 11 {
        30
    } else {
        31
    }
}

/// How many days of a year lie before a month.
pub open spec fn days_before_month(year: int, month: int) -> int
    decreases month,
{
    if month <= 1 {
        0
    } else {
        days_before_month(year, month - 1) + days_in_month(year, month - 1)
    }
}

/// How many days lie between the first of January of year one and that of `year`.
pub open spec fn days_before_year(year: int) -> int {
    365 * (year - 1) + (year - 1) / 4 - (year - 1) / 100 + (year - 1) / 400
}

/// A day of the calendar.
pub open spec fn is_date(year: int, month: int, day: int) -> bool {
    1 <= month <= 12 && 1 <= day <= days_in_month(year, month)
}

/// How many days lie between the first of January 1970 and the given day.
pub open spec fn day_number(year: int, month: int, day: int) -> int {
    days_before_year(year) + days_before_month(year, month) + (day - 1) - days_before_year(1970)
}

// ── Proofs ──────────────────────────────────────────────────────────────────

/// Days from the first of March of year zero to that of `year`.
spec fn march_days(year: int) -> int {
    365 * year + year / 4 - year / 100 + year / 400
}

/// The year of a four-hundred-year era in which the day `doe` of the era lies; years
/// begin in March.
spec fn year_of_era(doe: int) -> int {
    (doe - doe / 1460 + doe / 36524 - doe / 146096) / 365
}

proof fn lemma_year_of_era(doe: int)
    requires
        0 <= doe < 146097,
    ensures
        0 <= year_of_era(doe) < 400,
        march_days(year_of_era(doe)) <= doe < march_days(year_of_era(doe) + 1),
{
    let y = year_of_era(doe);
    assert(0 <= y < 400);
    assert(march_days(y) <= doe);
    assert(doe < march_days(y + 1));
}

/// Days of a year that begins in March before its month number `mp`, from zero.
spec fn march_month_days(mp: int) -> int {
    (153 * mp + 2) / 5
}

proof fn lemma_before_months(year: int)
    ensures
        days_before_month(year, 1) == 0,
        days_before_month(year, 2) == 31,
        ({
            let l: int = if is_leap(year) { 1 } else { 0 };
            &&& days_before_month(year, 3) == 59 + l
            &&& days_before_month(year, 4) == 90 + l
            &&& days_before_month(year, 5) == 120 + l
            &&& days_before_month(year, 6) == 151 + l
            &&& days_before_month(year, 7) == 181 + l
            &&& days_before_month(year, 8) == 212 + l
            &&& days_before_month(year, 9) == 243 + l
            &&& days_before_month(year, 10) == 273 + l
            &&& days_before_month(year, 11) == 304 + l
            &&& days_before_month(year, 12) == 334 + l
        }),
{
    reveal_with_fuel(days_before_month, 13);
}

/// The length of the month number `mp`, from zero, of a year that begins in March;
/// the last one with its leap day.
spec fn march_month_len(mp: int) -> int {
    if mp == 1 || mp == 3 || mp == 6 || mp == 8 {
        30
    } else if mp == 11 {
        29
    } else {
        31
    }
}

proof fn lemma_march_month(doy: int)
    requires
        0 <= doy <= 365,
    ensures
        ({
            let mp = (5 * doy + 2) / 153;
            &&& 0 <= mp <= 11
            &&& 0 <= doy - march_month_days(mp) < march_month_len(mp)
        }),
{
}

/// The first of March of a year, counted in years that begin in January.
proof fn lemma_march_first(year: int)
    requires
        year >= 0,
    ensures
        days_before_year(year) + 59 + (if is_leap(year) {
            1int
        } else {
            0int
        }) == march_days(year) - 306,
        days_before_year(year + 1) == march_days(year),
        march_days(year + 1) == march_days(year) + 365 + (if is_leap(year + 1) {
            1int
        } else {
            0int
        }),
{
    lemma_leap_step(year);
    lemma_leap_step(year + 1);
}

proof fn lemma_leap_step(year: int)
    ensures
        year / 4 - (year - 1) / 4 - (year / 100 - (year - 1) / 100) + (year / 400 - (year - 1) / 400)
            == if is_leap(year) {
            1int
        } else {
            0int
        },
{
    assert(year / 4 - (year - 1) / 4 == if year % 4 == 0 { 1int } else { 0int });
    assert(year / 100 - (year - 1) / 100 == if year % 100 == 0 { 1int } else { 0int });
    assert(year / 400 - (year - 1) / 400 == if year % 400 == 0 { 1int } else { 0int });
    assert(year % 400 == 0 ==> year % 100 == 0 && year % 4 == 0);
    assert(year % 100 == 0 ==> year % 4 == 0);
}

/// The day number `doy`, from zero, of the year that begins with the first of March of
/// `year`.
proof fn lemma_march_date(year: int, doy: int)
    requires
        year >= 0,
        0 <= doy < march_days(year + 1) - march_days(year),
    ensures
        ({
            let mp = (5 * doy + 2) / 153;
            let day = doy - march_month_days(mp) + 1;
            let month = if mp < 10 { mp + 3 } else { mp - 9 };
            let y = if month <= 2 { year + 1 } else { year };
            &&& is_date(y, month, day)
            &&& days_before_year(y) + days_before_month(y, month) + (day - 1) == march_days(year) + doy
                - 306
        }),
{
    lemma_march_first(year);
    lemma_march_month(doy);
    lemma_before_months(year);
    lemma_before_months(year + 1);
    let mp = (5 * doy + 2) / 153;
    if mp == 0 {
    } else if mp == 1 {
    } else if mp == 2 {
    } else if mp == 3 {
    } else if mp == 4 {
    } else if mp == 5 {
    } else if mp == 6 {
    } else if mp == 7 {
    } else if mp == 8 {
    } else if mp == 9 {
    } else if mp == 10 {
    } else {
    }
}

/// An era after `era` others.
proof fn lemma_era(era: int, yoe: int)
    ensures
        march_days(yoe + era * 400) == march_days(yoe) + era * 146_097,
{
    assert((yoe + era * 400) / 4 == yoe / 4 + era * 100);
    assert((yoe + era * 400) / 100 == yoe / 100 + era * 4);
    assert((yoe + era * 400) / 400 == yoe / 400 + era);
}

/// The year of an era, and the day of that year, in which the day `doe` of the era lies.
fn split_era(doe: u64) -> (out: (u64, u64))
    requires
        doe < 146_097,
    ensures
        out.0 < 400,
        march_days(out.0 as int) + out.1 == doe,
        doe < march_days(out.0 + 1),
{
    let yoe: u64 = (doe - doe / 1460 + doe / 36_524 - doe / 146_096) / 365;
    proof {
        lemma_year_of_era(doe as int);
        assert(yoe == year_of_era(doe as int));
        assert(march_days(yoe as int) == 365 * yoe + yoe as int / 4 - yoe as int / 100);
    }
    (yoe, doe - (365 * yoe + yoe / 4 - yoe / 100))
}

/// The day of the Gregorian calendar that lies `days` days after the first of January
/// 1970: its year, month and day.
pub fn civil_from_days(days: u64) -> (out: (u64, u64, u64))
    requires
        days <= u64::MAX - 719_468,
    ensures
        is_date(out.0 as int, out.1 as int, out.2 as int),
        day_number(out.0 as int, out.1 as int, out.2 as int) == days,
{
    let z: u64 = days + 719_468;
    let era: u64 = z / 146_097;
    let (yoe, doy) = split_era(z % 146_097);
    let ghost year = yoe as int + era as int * 400;
    proof {
        lemma_era(era as int, yoe as int);
        lemma_era(era as int, yoe + 1);
        assert(march_days(year) + doy == z);
        assert(doy < march_days(year + 1) - march_days(year));
        lemma_march_first(year);
        lemma_march_month(doy as int);
        lemma_march_date(year, doy as int);
        assert(days_before_year(1970) == 719_162);
    }
    let mp: u64 = (5 * doy + 2) / 153;
    let d: u64 = doy - (153 * mp + 2) / 5 + 1;
    let m: u64 = if mp < 10 { mp + 3 } else { mp - 9 };
    let y: u64 = yoe + era * 400 + if m <= 2 { 1 } else { 0 };
    (y, m, d)
}

/// Later days have larger numbers, so no two days of the calendar have the same one.
pub proof fn day_numbers_tell_dates_apart(y: int, m: int, d: int, y2: int, m2: int, d2: int)
    requires
        is_date(y, m, d),
        is_date(y2, m2, d2),
        y >= 1,
        y2 >= 1,
        y < y2 || (y == y2 && (m < m2 || (m == m2 && d < d2))),
    ensures
        day_number(y, m, d) < day_number(y2, m2, d2),
{
    lemma_before_months(y);
    lemma_before_months(y2);
    if y < y2 {
        lemma_leap_step(y);
        lemma_years_grow(y + 1, y2);
        assert(days_before_month(y, m) + d <= 365 + if is_leap(y) { 1int } else { 0int });
    } else if m < m2 {
        lemma_months_grow(y, m + 1, m2);
    }
}

proof fn lemma_years_grow(a: int, b: int)
    requires
        a <= b,
    ensures
        days_before_year(a) <= days_before_year(b),
    decreases b - a,
{
    if a < b {
        lemma_leap_step(b - 1);
        lemma_years_grow(a, b - 1);
    }
}

proof fn lemma_months_grow(year: int, a: int, b: int)
    requires
        1 <= a <= b,
    ensures
        days_before_month(year, a) <= days_before_month(year, b),
    decreases b - a,
{
    if a < b {
        lemma_months_grow(year, a, b - 1);
    }
}

// ── Writing dates ───────────────────────────────────────────────────────────

/// The English name of a month.
pub open spec fn month_name(month: int) -> Seq<char> {
    if month == 1 {
        "January"@
    } else if month == 2 {
        "February"@
    } else if month == 3 {
        "March"@
    } else if month == 4 {
        "April"@
    } else if month == 5 {
        "May"@
    } else if month == 6 {
        "June"@
    } else if month == 7 {
        "July"@
    } else if month == 8 {
        "August"@
    } else if month == 9 {
        "September"@
    } else if month == 10 {
        "October"@
    } else if month == 11 {
        "November"@
    } else {
        "December"@
    }
}

fn month_text(month: u64) -> (name: String)
    ensures
        name@ == month_name(month as int),
{
    let name = if month == 1 {
        "January"
    } else if month == 2 {
        "February"
    } else if month == 3 {
        "March"
    } else if month == 4 {
        "April"
    } else if month == 5 {
        "May"
    } else if month == 6 {
        "June"
    } else if month == 7 {
        "July"
    } else if month == 8 {
        "August"
    } else if month == 9 {
        "September"
    } else if month == 10 {
        "October"
    } else if month == 11 {
        "November"
    } else {
        "December"
    };
    name.to_owned()
}

/// `s` writes the day `days` days after the first of January 1970: the day, the name
/// of the month and the year.
pub open spec fn writes_day(s: Seq<char>, days: int) -> bool {
    exists|y: int, m: int, d: int|
        y >= 1970 && #[trigger] is_date(y, m, d) && day_number(y, m, d) == days && s == text::decimal(
            d as nat,
        ) + " "@ + month_name(m) + " "@ + text::decimal(y as nat)
}

/// Writes the day `days` days after the first of January 1970.
pub fn date_text(days: u64) -> (out: String)
    requires
        days <= u64::MAX - 719_468,
    ensures
        writes_day(out@, days as int),
{
    let (y, m, d) = civil_from_days(days);
    proof {
        if y < 1970 {
            lemma_years_grow(y + 1, 1970);
            lemma_before_months(y as int);
            lemma_leap_step(y as int);
            assert(days_before_month(y as int, m as int) + d <= 365 + if is_leap(y as int) {
                1int
            } else {
                0int
            });
        }
    }
    let mut out = text::decimal_text(d);
    out.append(" ");
    out.append(month_text(m).as_str());
    out.append(" ");
    out.append(text::decimal_text(y).as_str());
    assert(is_date(y as int, m as int, d as int));
    out
}

/// `std::time::SystemTime::now`, as whole seconds since the first of January 1970;
/// zero for a clock that is set before that day. What the clock shows is left open.
#[verifier::external_body]
fn unix_seconds() -> (secs: u64) {
    std::time::SystemTime::now().duration_since(std::time::UNIX_EPOCH).unwrap_or_default().as_secs()
}

/// The day that a clock shows which counts seconds since the first of January 1970.
pub fn date_at(secs: u64) -> (out: String)
    ensures
        writes_day(out@, secs as int / 86_400),
{
    date_text(secs / 86_400)
}

/// Today's date.
pub fn today() -> (out: String)
    ensures
        exists|secs: u64| writes_day(out@, #[trigger] (secs as int / 86_400)),
{
    let secs = unix_seconds();
    let out = date_at(secs);
    assert(writes_day(out@, secs as int / 86_400));
    out
}

/// Days are counted one by one from the first of January 1970: the day after is the next
/// of the month, or the first of the next month, or the first of the next year. A month has
/// its days, February one more in every fourth year, but not in a hundredth that is no four
/// hundredth.
pub proof fn days_follow_each_other(year: int, month: int, day: int)
    requires
        year >= 1,
        is_date(year, month, day),
    ensures
        day_number(1970, 1, 1) == 0,
        is_date(year, month, day + 1) ==> day_number(year, month, day + 1) == day_number(
            year,
            month,
            day,
        ) + 1,
        !is_date(year, month, day + 1) && month < 12 ==> is_date(year, month + 1, 1) && day_number(
            year,
            month + 1,
            1,
        ) == day_number(year, month, day) + 1,
        !is_date(year, month, day + 1) && month == 12 ==> day_number(year + 1, 1, 1) == day_number(
            year,
            month,
            day,
        ) + 1,
        is_date(year, month, 28),
        is_date(year, month, 30) <==> month != 2,
        is_date(year, month, 31) <==> month == 1 || month == 3 || month == 5 || month == 7 || month == 8
            || month == 10 || month == 12,
        is_date(year, 2, 29) <==> year % 4 == 0 && (year % 100 != 0 || year % 400 == 0),
        !is_date(year, month, 32),
        !is_date(year, 13, day),
        !is_date(year, 0, day),
        !is_date(year, month, 0),
{
    lemma_before_months(year);
    lemma_before_months(1970);
    lemma_before_months(year + 1);
    lemma_leap_step(year);
}

/// A day that is written out is written as its day, its month and its year, and as nothing
/// else.
pub proof fn a_day_is_written_in_one_way(s: Seq<char>, year: int, month: int, day: int)
    requires
        year >= 1970,
        is_date(year, month, day),
        writes_day(s, day_number(year, month, day)),
    ensures
        s == text::decimal(day as nat) + " "@ + month_name(month) + " "@ + text::decimal(year as nat),
{
    let (y, m, d) = choose|y: int, m: int, d: int|
        y >= 1970 && #[trigger] is_date(y, m, d) && day_number(y, m, d) == day_number(year, month, day)
            && s == text::decimal(d as nat) + " "@ + month_name(m) + " "@ + text::decimal(y as nat);
    if y < year || (y == year && (m < month || (m == month && d < day))) {
        day_numbers_tell_dates_apart(y, m, d, year, month, day);
    } else if !(y == year && m == month && d == day) {
        day_numbers_tell_dates_apart(year, month, day, y, m, d);
    }
}

} // verus!
