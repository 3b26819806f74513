//! Points in time and their text.
use crate::text::{concat, decimal, decimal_text};
use vstd::prelude::*;

verus! {

/// A point in time: seconds since the beginning of 1970 in UTC, and microseconds.
#[derive(Debug, Clone, Copy, PartialEq, Eq, Structural)]
pub struct Timestamp {
    pub secs: u64,
    pub micros: u32,
}

/// A day of the calendar.
#[derive(Debug, Clone, Copy, PartialEq, Eq, Structural)]
pub struct Date {
    pub year: u64,
    pub month: u64,
    pub day: u64,
}

/// Whether a year is a leap year.
pub open spec fn is_leap(year: int) -> bool {
    year % 4 == 0 && (year % 100 != 0 || year % 400 == 0)
}

/// The number of leap years from year 1 to a year.
pub open spec fn leaps_to(year: int) -> int {
    year / 4 - year / 100 + year / 400
}

/// The number of days from the beginning of 1970 to the beginning of a year.
pub open spec fn days_to_year(year: int) -> int {
    365 * (year - 1970) + leaps_to(year - 1) - leaps_to(1969)
}

/// The number of days of a month.
pub open spec fn month_days(year: int, month: int) -> int {
    if month == 2 {
        if is_leap(year) {
            29
        } else {
            28
        }
    } else if month == 4 || month == 6 || month == 9 || month == 11 {
        30
    } else {
        31
    }
}

/// The number of days of a year before a month.
pub open spec fn days_to_month(year: int, month: int) -> int
    decreases month,
{
    if month <= 1 {
        0
    } else {
        days_to_month(year, month - 1) + month_days(year, month - 1)
    }
}

/// Whether a date is one of the calendar.
pub open spec fn is_date(d: Date) -> bool {
    1 <= d.month <= 12 && 1 <= d.day <= month_days(d.year as int, d.month as int)
}

/// The number of days from the beginning of 1970 to a date.
pub open spec fn day_number(d: Date) -> int {
    days_to_year(d.year as int) + days_to_month(d.year as int, d.month as int) + d.day - 1
}

/// The date that comes a number of days after the beginning of 1970.
pub open spec fn date_after(days: int) -> Date {
    choose|d: Date| is_date(d) && #[trigger] day_number(d) == days
}

/// A number passes a multiple of four, of a hundred or of four hundred exactly if it is one.
proof fn lemma_div_step(y: int)
    ensures
        y / 4 - (y - 1) / 4 == (if y % 4 == 0 {
            1int
        } else {
            0int
        }),
        y / 100 - (y - 1) / 100 == (if y % 100 == 0 {
            1int
        } else {
            0int
        }),
        y / 400 - (y - 1) / 400 == (if y % 400 == 0 {
            1int
        } else {
            0int
        }),
{
}

proof fn lemma_multiples(y: int)
    ensures
        y % 400 == 0 ==> y % 100 == 0,
        y % 100 == 0 ==> y % 4 == 0,
{
}

/// A year has 366 days if it is a leap year, and 365 otherwise.
pub proof fn year_length(year: int)
    ensures
        days_to_year(year + 1) - days_to_year(year) == (if is_leap(year) {
            366int
        } else {
            365int
        }),
{
    lemma_div_step(year);
    lemma_multiples(year);
}

/// The months of a year add up to it.
pub proof fn months_add_up(year: int)
    ensures
        days_to_month(year, 13) == days_to_year(year + 1) - days_to_year(year),
        forall|m: int, n: int|
            1 <= m <= n <= 13 ==> #[trigger] days_to_month(year, m) <= #[trigger] days_to_month(
                year,
                n,
            ),
{
    year_length(year);
    reveal_with_fuel(days_to_month, 14);
}

/// Two dates with the same number of days are the same date.
pub proof fn date_unique(a: Date, b: Date)
    requires
        is_date(a),
        is_date(b),
        day_number(a) == day_number(b),
    ensures
        a == b,
{
    if a.year < b.year {
        lemma_year_before(a, b);
    } else if b.year < a.year {
        lemma_year_before(b, a);
    } else if a.month < b.month {
        lemma_month_before(a, b);
    } else if b.month < a.month {
        lemma_month_before(b, a);
    }
}

proof fn lemma_years_grow(a: int, b: int)
    requires
        a <= b,
    ensures
        days_to_year(a) <= days_to_year(b),
    decreases b - a,
{
    if a < b {
        year_length(b - 1);
        lemma_years_grow(a, b - 1);
    }
}

proof fn lemma_year_before(a: Date, b: Date)
    requires
        is_date(a),
        is_date(b),
        a.year < b.year,
    ensures
        day_number(a) < day_number(b),
{
    lemma_years_grow(a.year + 1, b.year as int);
    months_add_up(a.year as int);
    months_add_up(b.year as int);
    let y = a.year as int;
    let m = a.month as int;
    assert(days_to_month(y, m + 1) == days_to_month(y, m) + month_days(y, m));
    assert(days_to_month(y, m + 1) <= days_to_month(y, 13));
    assert(days_to_month(b.year as int, 1) <= days_to_month(b.year as int, b.month as int));
}

proof fn lemma_month_before(a: Date, b: Date)
    requires
        is_date(a),
        is_date(b),
        a.year == b.year,
        a.month < b.month,
    ensures
        day_number(a) < day_number(b),
{
    let y = a.year as int;
    let m = a.month as int;
    months_add_up(y);
    assert(days_to_month(y, m + 1) == days_to_month(y, m) + month_days(y, m));
    assert(days_to_month(y, m + 1) <= days_to_month(y, b.month as int));
}

fn leap(year: u64) -> (r: bool)
    ensures
        r == is_leap(year as int),
{
    year % 4 == 0 && (year % 100 != 0 || year % 400 == 0)
}

fn days_of_month(year: u64, month: u64) -> (r: u64)
    ensures
        r == month_days(year as int, month as int),
{
    if month == 2 {
        if leap(year) {
            29
        } else {
            28
        }
    } else if month == 4 || month == 6 || month == 9 || month == 11 {
        30
    } else {
        31
    }
}

proof fn lemma_div_cycle(y: int)
    ensures
        (y + 400) / 4 == y / 4 + 100,
        (y + 400) / 100 == y / 100 + 4,
        (y + 400) / 400 == y / 400 + 1,
{
}

/// Four hundred years always have the same number of days.
proof fn lemma_cycles(year: int, cycles: nat)
    ensures
        days_to_year(year + 400 * cycles) == days_to_year(year) + 146097 * cycles,
    decreases cycles,
{
    if cycles > 0 {
        lemma_cycles(year, (cycles - 1) as nat);
        let y = year + 400 * (cycles - 1);
        lemma_div_cycle(y - 1);
        assert(days_to_year(y + 400) == days_to_year(y) + 146097);
    }
}

/// Finds the date that comes a number of days after the beginning of 1970.
pub fn date_of(days: u64) -> (d: Date)
    ensures
        is_date(d),
        day_number(d) == days,
        d == date_after(days as int),
{
    let cycles: u64 = days / 146097;
    let mut rest: u64 = days % 146097;
    let mut year: u64 = 1970 + 400 * cycles;
    proof {
        lemma_cycles(1970, cycles as nat);
    }
    let ghost end = 1970 + 400 * cycles + 400;
    proof {
        lemma_cycles(1970, (cycles + 1) as nat);
    }
    loop
        invariant
            cycles == days / 146097,
            end == 1970 + 400 * cycles + 400,
            1970 <= year <= end,
            days_to_year(year as int) + rest == days,
            days < days_to_year(end as int),
        ensures
            rest < days_to_year(year + 1) - days_to_year(year as int),
            days_to_year(year as int) + rest == days,
            1970 <= year <= end,
        decreases rest,
    {
        proof {
            year_length(year as int);
        }
        let length: u64 = if leap(year) {
            366
        } else {
            365
        };
        if rest < length {
            break;
        }
        rest = rest - length;
        proof {
            if year + 1 > end {
                assert(days_to_year(year as int) >= days_to_year(end as int));
            }
        }
        year = year + 1;
    }
    let mut month: u64 = 1;
    proof {
        months_add_up(year as int);
    }
    let ghost in_year = rest;
    loop
        invariant
            1 <= month <= 12,
            days_to_month(year as int, month as int) + rest == in_year,
            in_year < days_to_month(year as int, 13),
        ensures
            1 <= month <= 12,
            days_to_month(year as int, month as int) + rest == in_year,
            rest < month_days(year as int, month as int),
        decreases rest,
    {
        let length = days_of_month(year, month);
        if rest < length {
            break;
        }
        rest = rest - length;
        assert(days_to_month(year as int, month + 1) == days_to_month(year as int, month as int)
            + length);
        month = month + 1;
    }
    let d = Date { year, month, day: rest + 1 };
    proof {
        assert(is_date(d) && day_number(d) == days);
        date_unique(d, date_after(days as int));
    }
    d
}

/// A number in decimal with zeros in front, up to a width.
pub open spec fn padded(n: nat, width: nat) -> Seq<char> {
    let digits = decimal(n);
    if digits.len() >= width {
        digits
    } else {
        Seq::new((width - digits.len()) as nat, |i: int| '0') + digits
    }
}

fn pad(n: u64, width: usize) -> (r: String)
    ensures
        r@ == padded(n as nat, width as nat),
{
    let digits = decimal_text(n);
    let mut out = String::new();
    let mut have: usize = digits.as_str().unicode_len();
    let ghost zeros: nat = 0;
    assert(out@ =~= Seq::new(0, |i: int| '0'));
    while have < width
        invariant
            digits@ == decimal(n as nat),
            have == digits@.len() + zeros,
            have <= width || zeros == 0,
            out@ == Seq::new(zeros, |i: int| '0'),
        decreases width - have,
    {
        out.push('0');
        assert(Seq::new(zeros + 1, |i: int| '0') =~= Seq::new(zeros, |i: int| '0').push('0'));
        proof {
            zeros = zeros + 1;
        }
        have = have + 1;
    }
    assert(digits@.len() >= width ==> Seq::new(0, |i: int| '0') + digits@ =~= digits@);
    concat(out.as_str(), digits.as_str())
}

/// The text of a point in time in the form of RFC 3339, in UTC, with microseconds.
pub open spec fn time_text(t: Timestamp) -> Seq<char> {
    let d = date_after((t.secs / 86400) as int);
    let s = t.secs % 86400;
    padded(d.year as nat, 4) + "-"@ + padded(d.month as nat, 2) + "-"@ + padded(d.day as nat, 2)
        + "T"@ + padded((s / 3600) as nat, 2) + ":"@ + padded((s / 60 % 60) as nat, 2) + ":"@
        + padded((s % 60) as nat, 2) + "."@ + padded(t.micros as nat, 6) + "Z"@
}

/// Writes a point in time in the form of RFC 3339.
pub fn rfc3339(t: Timestamp) -> (r: String)
    ensures
        r@ == time_text(t),
{
    let d = date_of(t.secs / 86400);
    let s: u64 = t.secs % 86400;
    let mut out = pad(d.year, 4);
    out.append("-");
    out.append(pad(d.month, 2).as_str());
    out.append("-");
    out.append(pad(d.day, 2).as_str());
    out.append("T");
    out.append(pad(s / 3600, 2).as_str());
    out.append(":");
    out.append(pad(s / 60 % 60, 2).as_str());
    out.append(":");
    out.append(pad(s % 60, 2).as_str());
    out.append(".");
    out.append(pad(t.micros as u64, 6).as_str());
    out.append("Z");
    out
}

} // verus!
