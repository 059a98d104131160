//! Dates and times for people.

use crate::text::{pad_left, to_decimal};
#[allow(unused_imports)]
use crate::{
    text::{
        begins_with, decimal, digit, finishes_with, lemma_decimal, lemma_one_line, one_line,
        padded_left,
    },
};
use vstd::prelude::*;

verus! {

/// Whether a year has a 29th of February.
pub open spec fn is_leap(year: int) -> bool {
    year % 4 == 0 && (year % 100 != 0 || year % 400 == 0)
}

/// The days of a year.
pub open spec fn year_days(year: int) -> int {
    if is_leap(year) {
        366
    } else {
        365
    }
}

/// The days of a month, counted from zero for January.
pub open spec fn month_days(year: int, month: int) -> int {
    if month == 1 {
        if is_leap(year) {
            29
        } else {
            28
        }
    } else if month == 3 || month == 5 || month == 8 || month == 10 {
        30
    } else {
        31
    }
}

/// The days from the first of January 1970 to the first of January of a year.
pub open spec fn days_to_year(year: int) -> int {
    365 * (year - 1970) + ((year - 1) / 4 - 492) - ((year - 1) / 100 - 19) + ((year - 1) / 400 - 4)
}

/// The days from the first of January to the first of a month.
pub open spec fn days_to_month(year: int, month: int) -> int
    decreases month,
{
    if month <= 0 {
        0
    } else {
        days_to_month(year, month - 1) + month_days(year, month - 1)
    }
}

/// The year that a day counted from the first of January of `year` falls in, and its day there.
pub open spec fn year_from(day: int, year: int) -> (int, int)
    decreases day,
{
    if day < year_days(year) {
        (year, day)
    } else {
        year_from(day - year_days(year), year + 1)
    }
}

/// The month that a day of a year falls in, counted from `month` on, and its day there.
pub open spec fn month_from(day: int, year: int, month: int) -> (int, int)
    decreases 12 - month,
{
    if month >= 11 || day < month_days(year, month) {
        (month, day)
    } else {
        month_from(day - month_days(year, month), year, month + 1)
    }
}

/// Year, month and day of the month, both counted from one, of a day counted from the first of
/// January 1970.
pub open spec fn date_of_day(day: int) -> (int, int, int) {
    let y = year_from(day % 146097, 1970 + 400 * (day / 146097));
    let m = month_from(y.1, y.0, 0);
    (y.0, m.0 + 1, m.1 + 1)
}

/// A moment in universal time.
#[derive(Clone, Copy, Debug, PartialEq, Eq, Structural)]
pub struct UtcParts {
    pub year: i64,
    pub month: u32,
    pub day: u32,
    pub hour: u32,
    pub minute: u32,
    pub second: u32,
    pub epoch_day: i64,
}

/// The moment of an epoch; that of the first second of 1970 for years beyond what the calendar of
/// the system can count.
pub open spec fn utc_of(epoch: u64) -> UtcParts {
    let day = epoch as int / 86400;
    let second = epoch as int % 86400;
    let date = date_of_day(day);
    if date.0 - 1900 > i32::MAX {
        UtcParts { year: 1970, month: 1, day: 1, hour: 0, minute: 0, second: 0, epoch_day: 0 }
    } else {
        UtcParts {
            year: date.0 as i64,
            month: date.1 as u32,
            day: date.2 as u32,
            hour: (second / 3600) as u32,
            minute: (second / 60 % 60) as u32,
            second: (second % 60) as u32,
            epoch_day: day as i64,
        }
    }
}

proof fn lemma_year_from(day: int, year: int)
    requires
        0 <= day,
        year >= 1970,
    ensures
        ({
            let r = year_from(day, year);
            &&& year <= r.0 <= year + day / 365
            &&& 0 <= r.1 < year_days(r.0)
            &&& days_to_year(r.0) + r.1 == days_to_year(year) + day
        }),
    decreases day,
{
    if day >= year_days(year) {
        lemma_year_from(day - year_days(year), year + 1);
        assert(days_to_year(year + 1) == days_to_year(year) + year_days(year));
    }
}

proof fn lemma_month_from(day: int, year: int, month: int)
    requires
        0 <= month < 12,
        0 <= day < 366,
        days_to_month(year, month) + day < year_days(year),
    ensures
        ({
            let r = month_from(day, year, month);
            &&& month <= r.0 < 12
            &&& 0 <= r.1 < month_days(year, r.0)
            &&& days_to_month(year, r.0) + r.1 == days_to_month(year, month) + day
        }),
    decreases 12 - month,
{
    if month >= 11 {
        assert(days_to_month(year, 11) == year_days(year) - 31) by {
            reveal_with_fuel(days_to_month, 12);
        }
    } else if day >= month_days(year, month) {
        lemma_month_from(day - month_days(year, month), year, month + 1);
    }
}

/// The date of a day is a date of the calendar, and the days up to it are as many as were counted.
pub proof fn law_date_counts_days(day: int)
    requires
        day >= 0,
    ensures
        ({
            let d = date_of_day(day);
            &&& d.0 >= 1970
            &&& 1 <= d.1 <= 12
            &&& 1 <= d.2 <= month_days(d.0, d.1 - 1)
            &&& days_to_year(d.0) + days_to_month(d.0, d.1 - 1) + d.2 - 1 == day
        }),
{
    let cycle = day / 146097;
    let rest = day % 146097;
    let start = 1970 + 400 * cycle;
    lemma_year_from(rest, start);
    let y = year_from(rest, start);
    lemma_month_from(y.1, y.0, 0);
    assert(days_to_year(start) == 146097 * cycle);
}

/// Whether a year has a 29th of February.
fn leap(year: i64) -> (r: bool)
    requires
        year >= 0,
    ensures
        r == is_leap(year as int),
{
    year % 4 == 0 && (year % 100 != 0 || year % 400 == 0)
}

fn days_of_year(year: i64) -> (r: i64)
    requires
        year >= 0,
    ensures
        r == year_days(year as int),
{
    if leap(year) {
        366
    } else {
        365
    }
}

fn days_of_month(year: i64, month: u32) -> (r: i64)
    requires
        year >= 0,
    ensures
        r == month_days(year as int, month as int),
        28 <= r <= 31,
{
    if month == 1 {
        if leap(year) {
            29
        } else {
            28
        }
    } else if month == 3 || month == 5 || month == 8 || month == 10 {
        30
    } else {
        31
    }
}

fn find_date(days: u64) -> (r: (i64, u32, u32))
    requires
        days <= u64::MAX / 86400,
    ensures
        date_of_day(days as int) == (r.0 as int, r.1 as int, r.2 as int),
{
    let cycle: i64 = (days / 146097) as i64;
    let mut rest: i64 = (days % 146097) as i64;
    let mut year: i64 = 1970 + 400 * cycle;
    let ghost start = year as int;
    let ghost whole = rest as int;
    while rest >= days_of_year(year)
        invariant
            0 <= rest <= 146097,
            0 <= cycle <= 0x7fff_ffff_ffff,
            1970 <= year,
            year + rest <= 1970 + 400 * cycle + 146097,
            year_from(whole, start) == year_from(rest as int, year as int),
        decreases rest,
    {
        rest = rest - days_of_year(year);
        year = year + 1;
    }
    let mut month: u32 = 0;
    let ghost in_year = rest as int;
    while month < 11 && rest >= days_of_month(year, month)
        invariant
            0 <= rest < 366,
            year >= 0,
            month <= 11,
            month_from(in_year, year as int, 0) == month_from(
                rest as int,
                year as int,
                month as int,
            ),
        decreases 12 - month,
    {
        rest = rest - days_of_month(year, month);
        month = month + 1;
    }
    (year, month + 1, (rest + 1) as u32)
}

/// The moment of an epoch in universal time.
pub fn utc_parts(epoch: u64) -> (r: UtcParts)
    ensures
        r == utc_of(epoch),
{
    let days: u64 = epoch / 86400;
    let second: u64 = epoch % 86400;
    let (year, month, day): (i64, u32, u32) = find_date(days);
    proof {
        law_date_counts_days(days as int);
    }
    if year - 1900 > i32::MAX as i64 {
        return UtcParts { year: 1970, month: 1, day: 1, hour: 0, minute: 0, second: 0, epoch_day: 0 };
    }
    UtcParts {
        year,
        month,
        day,
        hour: (second / 3600) as u32,
        minute: (second / 60 % 60) as u32,
        second: (second % 60) as u32,
        epoch_day: days as i64,
    }
}

/// A number with two digits at least.
pub open spec fn two(n: int) -> Seq<char> {
    padded_left(decimal(n as nat), '0', 2)
}

/// The short name of a month counted from one.
pub open spec fn month_name(month: int) -> Seq<char> {
    if month <= 1 {
        "Jan"@
    } else if month == 2 {
        "Feb"@
    } else if month == 3 {
        "Mar"@
    } else if month == 4 {
        "Apr"@
    } else if month == 5 {
        "May"@
    } else if month == 6 {
        "Jun"@
    } else if month == 7 {
        "Jul"@
    } else if month == 8 {
        "Aug"@
    } else if month == 9 {
        "Sep"@
    } else if month == 10 {
        "Oct"@
    } else if month == 11 {
        "Nov"@
    } else {
        "Dec"@
    }
}

/// An epoch as it is shown at another: the time of the same day, yesterday with the time, the day
/// of the same year, or the full date.
pub open spec fn shown_time(epoch: u64, now: u64) -> Seq<char> {
    let e = utc_of(epoch);
    let n = utc_of(now);
    if epoch == 0 {
        "unknown"@
    } else if e.epoch_day == n.epoch_day {
        two(e.hour as int) + ":"@ + two(e.minute as int) + ":"@ + two(e.second as int)
    } else if e.epoch_day + 1 == n.epoch_day {
        "Yesterday "@ + two(e.hour as int) + ":"@ + two(e.minute as int)
    } else if e.year == n.year {
        month_name(e.month as int) + " "@ + two(e.day as int) + " "@ + two(e.hour as int) + ":"@
            + two(e.minute as int)
    } else {
        padded_left(decimal(e.year as nat), '0', 4) + "-"@ + two(e.month as int) + "-"@ + two(
            e.day as int,
        ) + " "@ + two(e.hour as int) + ":"@ + two(e.minute as int)
    }
}

proof fn lemma_number_is_one_line(n: nat, c: char, width: int)
    requires
        c != '\n',
    ensures
        one_line(decimal(n)),
        one_line(padded_left(decimal(n), c, width)),
{
    lemma_decimal(n);
}

/// A time is shown on one line.
pub proof fn lemma_shown_time_is_one_line(epoch: u64, now: u64)
    ensures
        one_line(shown_time(epoch, now)),
{
    broadcast use lemma_one_line;

    reveal_strlit("unknown");
    reveal_strlit(":");
    reveal_strlit("Yesterday ");
    reveal_strlit(" ");
    reveal_strlit("-");
    reveal_strlit("Jan");
    reveal_strlit("Feb");
    reveal_strlit("Mar");
    reveal_strlit("Apr");
    reveal_strlit("May");
    reveal_strlit("Jun");
    reveal_strlit("Jul");
    reveal_strlit("Aug");
    reveal_strlit("Sep");
    reveal_strlit("Oct");
    reveal_strlit("Nov");
    reveal_strlit("Dec");
    let e = utc_of(epoch);
    lemma_number_is_one_line(e.year as nat, '0', 4);
    lemma_number_is_one_line(e.month as nat, '0', 2);
    lemma_number_is_one_line(e.day as nat, '0', 2);
    lemma_number_is_one_line(e.hour as nat, '0', 2);
    lemma_number_is_one_line(e.minute as nat, '0', 2);
    lemma_number_is_one_line(e.second as nat, '0', 2);
    assert(one_line(month_name(e.month as int)));
    assert(one_line(":"@) && one_line(" "@) && one_line("-"@) && one_line("Yesterday "@)
        && one_line("unknown"@));
}

fn two_digits(n: u32) -> (r: String)
    ensures
        r@ == two(n as int),
{
    pad_left(to_decimal(n as u64).as_str(), '0', 2)
}

fn name_of_month(month: u32) -> (r: String)
    ensures
        r@ == month_name(month as int),
{
    let name: &str = if month <= 1 {
        "Jan"
    } else if month == 2 {
        "Feb"
    } else if month == 3 {
        "Mar"
    } else if month == 4 {
        "Apr"
    } else if month == 5 {
        "May"
    } else if month == 6 {
        "Jun"
    } else if month == 7 {
        "Jul"
    } else if month == 8 {
        "Aug"
    } else if month == 9 {
        "Sep"
    } else if month == 10 {
        "Oct"
    } else if month == 11 {
        "Nov"
    } else {
        "Dec"
    };
    name.to_owned()
}

/// An epoch as it is shown at another.
pub fn format_timestamp(epoch: u64, now: u64) -> (r: String)
    ensures
        r@ == shown_time(epoch, now),
{
    if epoch == 0 {
        return "unknown".to_owned();
    }
    let e: UtcParts = utc_parts(epoch);
    let n: UtcParts = utc_parts(now);
    proof {
        law_date_counts_days(epoch as int / 86400);
    }
    if e.epoch_day == n.epoch_day {
        let mut out: String = two_digits(e.hour);
        out.append(":");
        out.append(two_digits(e.minute).as_str());
        out.append(":");
        out.append(two_digits(e.second).as_str());
        out
    } else if e.epoch_day < n.epoch_day && n.epoch_day - e.epoch_day == 1 {
        let mut out: String = "Yesterday ".to_owned();
        out.append(two_digits(e.hour).as_str());
        out.append(":");
        out.append(two_digits(e.minute).as_str());
        out
    } else if e.year == n.year {
        let mut out: String = name_of_month(e.month);
        out.append(" ");
        out.append(two_digits(e.day).as_str());
        out.append(" ");
        out.append(two_digits(e.hour).as_str());
        out.append(":");
        out.append(two_digits(e.minute).as_str());
        out
    } else {
        let mut out: String = pad_left(to_decimal(e.year as u64).as_str(), '0', 4);
        out.append("-");
        out.append(two_digits(e.month).as_str());
        out.append("-");
        out.append(two_digits(e.day).as_str());
        out.append(" ");
        out.append(two_digits(e.hour).as_str());
        out.append(":");
        out.append(two_digits(e.minute).as_str());
        out
    }
}

/// The calendar: a year is leap every four years, but not at a century unless the number of the
/// century divides by four; a leap year has one day more.
pub proof fn law_leap_years(year: int)
    ensures
        year % 4 != 0 ==> !is_leap(year),
        year % 4 == 0 && year % 100 != 0 ==> is_leap(year),
        is_leap(100 * year) <==> year % 4 == 0,
        year_days(year) == if is_leap(year) {
            366int
        } else {
            365int
        },
{
    assert((100 * year) % 400 == 0 <==> year % 4 == 0) by (nonlinear_arith);
    assert((100 * year) % 4 == 0) by (nonlinear_arith);
    assert((100 * year) % 100 == 0) by (nonlinear_arith);
}

/// The days before a year grow by the days of each year, from none before the first.
pub proof fn law_years_follow_each_other(year: int)
    requires
        year >= 1970,
    ensures
        days_to_year(1970) == 0,
        days_to_year(year + 1) == days_to_year(year) + year_days(year),
{
}

/// The days before a month grow by the days of each month; four months have thirty days, February
/// what is left of the year, and the others thirty-one.
pub proof fn law_months_follow_each_other(year: int, month: int)
    requires
        0 <= month < 12,
    ensures
        days_to_month(year, 0) == 0,
        days_to_month(year, month + 1) == days_to_month(year, month) + month_days(year, month),
        month == 1 ==> month_days(year, month) == year_days(year) - 337,
        month == 3 || month == 5 || month == 8 || month == 10 ==> month_days(year, month) == 30,
        month != 1 && month != 3 && month != 5 && month != 8 && month != 10 ==> month_days(
            year,
            month,
        ) == 31,
{
}

/// A number below a hundred is shown with two digits.
pub proof fn law_two_digits(n: int)
    requires
        0 <= n < 100,
    ensures
        two(n).len() == 2,
        two(n)[0] as int == 48 + n / 10,
        two(n)[1] as int == 48 + n % 10,
{
    reveal_with_fuel(decimal, 3);
    if n < 10 {
        assert(decimal(n as nat) == seq![digit(n as nat)]);
        assert(two(n) =~= seq!['0', digit(n as nat)]);
    } else {
        assert(decimal(n as nat) =~= seq![digit((n / 10) as nat), digit((n % 10) as nat)]);
    }
}

/// The time of day and the date of a moment: the parts count up to the moment again.
pub proof fn law_parts_count_up_to_the_moment(epoch: u64)
    requires
        date_of_day(epoch as int / 86400).0 - 1900 <= i32::MAX,
    ensures
        ({
            let t = utc_of(epoch);
            &&& t.hour < 24 && t.minute < 60 && t.second < 60
            &&& t.epoch_day * 86400 + t.hour * 3600 + t.minute * 60 + t.second == epoch
            &&& 1 <= t.month <= 12 && 1 <= t.day <= month_days(t.year as int, t.month - 1)
            &&& days_to_year(t.year as int) + days_to_month(t.year as int, t.month - 1) + t.day - 1
                == t.epoch_day
        }),
{
    law_date_counts_days(epoch as int / 86400);
}

/// How a moment is shown: the time of day alone where it is of today, behind a word where it is of
/// yesterday, with the month and the day where it is of this year, and else with the whole date.
pub proof fn law_nearer_moments_are_shown_shorter(epoch: u64, now: u64)
    requires
        date_of_day(epoch as int / 86400).0 - 1900 <= i32::MAX,
        date_of_day(now as int / 86400).0 - 1900 <= i32::MAX,
    ensures
        ({
            let text = shown_time(epoch, now);
            let second = epoch as int % 86400;
            let date = date_of_day(epoch as int / 86400);
            let (day, today) = (epoch as int / 86400, now as int / 86400);
            let clock = two(second / 3600) + ":"@ + two(second / 60 % 60);
            &&& epoch == 0 ==> text == "unknown"@
            &&& epoch != 0 && day == today ==> text == clock + ":"@ + two(second % 60)
            &&& epoch != 0 && day + 1 == today ==> text == "Yesterday "@ + clock
            &&& epoch != 0 && day != today && day + 1 != today ==> finishes_with(text, " "@ + clock)
            &&& epoch != 0 && day != today && day + 1 != today && date.0 == date_of_day(today).0
                ==> begins_with(text, month_name(date.1) + " "@ + two(date.2))
            &&& epoch != 0 && day != today && day + 1 != today && date.0 != date_of_day(today).0
                ==> begins_with(
                text,
                padded_left(decimal(date.0 as nat), '0', 4) + "-"@ + two(date.1) + "-"@ + two(
                    date.2,
                ),
            )
        }),
{
    lemma_parts_of_a_moment(epoch);
    lemma_parts_of_a_moment(now);
    let second = epoch as int % 86400;
    let date = date_of_day(epoch as int / 86400);
    let h = two(second / 3600);
    let m = two(second / 60 % 60);
    lemma_clock_behind("Yesterday "@, h, m);
    lemma_clock_behind(month_name(date.1) + " "@ + two(date.2), h, m);
    lemma_clock_behind(
        padded_left(decimal(date.0 as nat), '0', 4) + "-"@ + two(date.1) + "-"@ + two(date.2),
        h,
        m,
    );
}

proof fn lemma_parts_of_a_moment(epoch: u64)
    requires
        date_of_day(epoch as int / 86400).0 - 1900 <= i32::MAX,
    ensures
        ({
            let t = utc_of(epoch);
            let second = epoch as int % 86400;
            let date = date_of_day(epoch as int / 86400);
            &&& t.hour == second / 3600 && t.minute == second / 60 % 60 && t.second == second % 60
            &&& t.year == date.0 && t.month == date.1 && t.day == date.2
            &&& t.epoch_day == epoch as int / 86400
        }),
{
    law_date_counts_days(epoch as int / 86400);
    law_parts_count_up_to_the_moment(epoch);
}

proof fn lemma_clock_behind(a: Seq<char>, h: Seq<char>, m: Seq<char>)
    ensures
        a + h + ":"@ + m == a + (h + ":"@ + m),
        a + " "@ + h + ":"@ + m == a + (" "@ + (h + ":"@ + m)),
        begins_with(a + (" "@ + (h + ":"@ + m)), a),
        finishes_with(a + (" "@ + (h + ":"@ + m)), " "@ + (h + ":"@ + m)),
{
    let end = " "@ + (h + ":"@ + m);
    assert(a + h + ":"@ + m =~= a + (h + ":"@ + m));
    assert(a + " "@ + h + ":"@ + m =~= a + end);
    assert((a + end).subrange(0, a.len() as int) =~= a);
    assert((a + end).subrange(a.len() as int, (a + end).len() as int) =~= end);
}

/// The months have their names: no two have the same, and each begins with its great letter.
pub proof fn law_months_are_told_apart(a: int, b: int)
    requires
        1 <= a < b <= 12,
    ensures
        month_name(a) != month_name(b),
        month_name(a).len() == 3,
{
    reveal_strlit("Jan");
    reveal_strlit("Feb");
    reveal_strlit("Mar");
    reveal_strlit("Apr");
    reveal_strlit("May");
    reveal_strlit("Jun");
    reveal_strlit("Jul");
    reveal_strlit("Aug");
    reveal_strlit("Sep");
    reveal_strlit("Oct");
    reveal_strlit("Nov");
    reveal_strlit("Dec");
    assert("Jan"@[0] == 'J' && "Jan"@[1] == 'a');
    assert("Feb"@[0] == 'F');
    assert("Mar"@[0] == 'M' && "Mar"@[2] == 'r');
    assert("Apr"@[0] == 'A' && "Apr"@[1] == 'p');
    assert("May"@[2] == 'y');
    assert("Jun"@[1] == 'u' && "Jun"@[2] == 'n');
    assert("Jul"@[2] == 'l');
    assert("Aug"@[0] == 'A' && "Aug"@[1] == 'u');
    assert("Sep"@[0] == 'S');
    assert("Oct"@[0] == 'O');
    assert("Nov"@[0] == 'N');
    assert("Dec"@[0] == 'D');
}

/// The names of the months are the first three letters of each, in their order.
pub proof fn law_months_have_their_names(month: int)
    requires
        1 <= month <= 12,
    ensures
        month_name(month) == "JanFebMarAprMayJunJulAugSepOctNovDec"@.subrange(
            3 * (month - 1),
            3 * month,
        ),
{
    reveal_strlit("JanFebMarAprMayJunJulAugSepOctNovDec");
    reveal_strlit("Jan");
    reveal_strlit("Feb");
    reveal_strlit("Mar");
    reveal_strlit("Apr");
    reveal_strlit("May");
    reveal_strlit("Jun");
    reveal_strlit("Jul");
    reveal_strlit("Aug");
    reveal_strlit("Sep");
    reveal_strlit("Oct");
    reveal_strlit("Nov");
    reveal_strlit("Dec");
    let all = "JanFebMarAprMayJunJulAugSepOctNovDec"@;
    assert(all.len() == 36);
    assert(month_name(month) =~= all.subrange(3 * (month - 1), 3 * month));
}

} // verus!
