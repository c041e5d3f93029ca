//! Calendar days, as ledger entries and directives are dated.

use vstd::prelude::*;
use chrono::Datelike;
use crate::text::digits::{decimal_chars, push_decimal};

verus! {

/// A day of the proleptic Gregorian calendar.
#[derive(Clone, Copy, Debug, PartialEq, Eq, Structural)]
pub struct Date {
    pub year: i32,
    /// 1 to 12
    pub month: u32,
    /// 1 to 31
    pub day: u32,
}

/// The day that chrono's `NaiveDate` reads from a text, if it reads one.
pub uninterp spec fn read_date(text: Seq<char>) -> Option<Date>;

/// `<chrono::NaiveDate as FromStr>::from_str`: reads a date written
/// `YYYY-MM-DD` (the month and day may have one digit) and checks that the
/// day exists. The result depends on the text alone and is named
/// `read_date`; a day read is one that exists, within chrono's range of
/// years, since a `NaiveDate` is only ever a valid day.
#[verifier::external_body]
fn naive_date(text: &str) -> (r: Option<Date>)
    ensures
        r == read_date(text@),
        r matches Some(d) ==> 1 <= d.month <= 12 && 1 <= d.day <= 31 && valid_date(d),
{
    match text.parse::<chrono::NaiveDate>() {
        Ok(d) => Some(Date { year: d.year(), month: d.month(), day: d.day() }),
        Err(_) => None,
    }
}


/// The latest year a date can have.
pub const MAX_YEAR: i32 = 262142;

/// The earliest year a date can have.
pub const MIN_YEAR: i32 = -262143;

/// Whether a year has a February 29th.
pub open spec fn leap(year: int) -> bool {
    year % 4 == 0 && (year % 100 != 0 || year % 400 == 0)
}

/// How many days a month has.
pub open spec fn month_days(year: int, month: int) -> int {
    if month == 2 {
        if leap(year) { 29 } else { 28 }
    } else if month == 4 || month == 6 || month == 9 || month == 11 {
        30
    } else {
        31
    }
}

/// Whether a year, month and day name a day of the calendar, within the
/// years a date can have.
pub open spec fn valid_ymd(year: int, month: int, day: int) -> bool {
    &&& MIN_YEAR <= year <= MAX_YEAR
    &&& 1 <= month <= 12
    &&& 1 <= day <= month_days(year, month)
}

/// Whether a date names a day of the calendar.
pub open spec fn valid_date(d: Date) -> bool {
    valid_ymd(d.year as int, d.month as int, d.day as int)
}

/// The day after.
pub open spec fn next_day(d: Date) -> Date {
    if (d.day as int) < month_days(d.year as int, d.month as int) {
        Date { day: (d.day + 1) as u32, ..d }
    } else if d.month < 12 {
        Date { month: (d.month + 1) as u32, day: 1, ..d }
    } else {
        Date { year: (d.year + 1) as i32, month: 1, day: 1 }
    }
}

/// The day before.
pub open spec fn previous_day(d: Date) -> Date {
    if d.day > 1 {
        Date { day: (d.day - 1) as u32, ..d }
    } else if d.month > 1 {
        Date { month: (d.month - 1) as u32, day: month_days(d.year as int, d.month - 1) as u32, ..d }
    } else {
        Date { year: (d.year - 1) as i32, month: 12, day: 31 }
    }
}

/// The day `n` days after `d` (before it, for a negative `n`), counted one
/// day at a time, unless that leaves the years a date can have.
pub open spec fn shifted(d: Date, n: int) -> Option<Date>
    decreases (if n >= 0 { n } else { -n }),
{
    if n == 0 {
        Some(d)
    } else if n > 0 {
        if next_day(d).year > MAX_YEAR { None } else { shifted(next_day(d), n - 1) }
    } else {
        if previous_day(d).year < MIN_YEAR { None } else { shifted(previous_day(d), n + 1) }
    }
}

fn days_in(year: i32, month: u32) -> (r: u32)
    requires
        1 <= month <= 12,
    ensures
        r == month_days(year as int, month as int),
{
    if month == 2 {
        // Shifting by a multiple of 400 years keeps the leap years, and
        // makes the year positive.
        let y: i64 = year as i64 + 4_000_000_000;
        assert(leap(year as int) == leap(y as int)) by {
            assert(y as int == year as int + 400 * 10_000_000);
        }
        if y % 4 == 0 && (y % 100 != 0 || y % 400 == 0) { 29 } else { 28 }
    } else if month == 4 || month == 6 || month == 9 || month == 11 {
        30
    } else {
        31
    }
}


/// How many days come before January 1st of a year, counted from January
/// 1st of year 1 (negative before it).
pub open spec fn days_before_year(year: int) -> int {
    let past = year - 1;
    365 * past + past / 4 - past / 100 + past / 400
}

/// How many days of a year come before the first of a month.
pub open spec fn days_before_month(year: int, month: int) -> int
    decreases month,
{
    if month <= 1 {
        0
    } else {
        days_before_month(year, month - 1) + month_days(year, month - 1)
    }
}

/// A day's place in the calendar: January 1st of year 1 is day 1.
pub open spec fn day_number(d: Date) -> int {
    days_before_year(d.year as int) + days_before_month(d.year as int, d.month as int) + d.day
}

/// How many days a day comes after the Monday before it (0 for a Monday,
/// 6 for a Sunday). January 1st of year 1 of the proleptic Gregorian
/// calendar was a Monday.
pub open spec fn weekday_of(d: Date) -> int {
    (day_number(d) - 1) % 7
}

/// `Weekday::num_days_from_monday` of chrono, for the `NaiveDate` with this
/// day's year, month and day: its day of the week in the proleptic
/// Gregorian calendar, counted from Monday, which is `weekday_of`.
#[verifier::external_body]
pub(crate) fn weekday_from_monday(d: Date) -> (r: u32)
    requires
        valid_date(d),
    ensures
        r == weekday_of(d),
{
    match chrono::NaiveDate::from_ymd_opt(d.year, d.month, d.day) {
        Some(x) => x.weekday().num_days_from_monday(),
        None => 0,
    }
}

/// `n` in decimal, with zeros in front to make at least `width` digits.
pub open spec fn zero_padded(n: nat, width: nat) -> Seq<char> {
    let digits = decimal_chars(n);
    if digits.len() < width {
        Seq::new((width - digits.len()) as nat, |_i: int| '0') + digits
    } else {
        digits
    }
}

/// How a day is written: `YYYY-MM-DD`, and years outside 0 to 9999 with
/// their sign, as ISO 8601 asks.
pub open spec fn date_text(d: Date) -> Seq<char> {
    let year = if 0 <= d.year <= 9999 {
        zero_padded(d.year as nat, 4)
    } else if d.year < 0 {
        seq!['-'] + zero_padded((-d.year) as nat, 4)
    } else {
        seq!['+'] + zero_padded(d.year as nat, 4)
    };
    year + seq!['-'] + zero_padded(d.month as nat, 2) + seq!['-'] + zero_padded(d.day as nat, 2)
}

/// Appends `n` with zeros in front to make at least `width` digits.
fn push_padded(out: &mut Vec<char>, n: u32, width: usize)
    ensures
        final(out)@ == old(out)@ + zero_padded(n as nat, width as nat),
{
    let mut digits: Vec<char> = Vec::new();
    push_decimal(&mut digits, n as u128);
    assert(digits@ =~= decimal_chars(n as nat));
    let ghost start = out@;
    if digits.len() < width {
        let pad = width - digits.len();
        let mut i: usize = 0;
        while i < pad
            invariant
                i <= pad,
                out@ == start + Seq::new(i as nat, |_i: int| '0'),
            decreases pad - i,
        {
            out.push('0');
            assert(Seq::new((i + 1) as nat, |_i: int| '0') =~= Seq::new(i as nat, |_i: int| '0').push('0'));
            i = i + 1;
        }
    }
    let ghost mid = out@;
    let mut j: usize = 0;
    while j < digits.len()
        invariant
            j <= digits@.len(),
            out@ == mid + digits@.take(j as int),
        decreases digits@.len() - j,
    {
        out.push(digits[j]);
        assert(digits@.take(j + 1) =~= digits@.take(j as int).push(digits@[j as int]));
        j = j + 1;
    }
    assert(digits@.take(digits@.len() as int) =~= digits@);
    assert(out@ =~= start + zero_padded(n as nat, width as nat));
}

/// Whether day `a` is no later than day `b`.
pub open spec fn date_le(a: Date, b: Date) -> bool {
    ||| a.year < b.year
    ||| a.year == b.year && a.month < b.month
    ||| a.year == b.year && a.month == b.month && a.day <= b.day
}

/// The earliest day there is.
pub open spec fn first_day() -> Date {
    Date { year: MIN_YEAR, month: 1, day: 1 }
}

impl Date {
    /// The earliest day there is.
    pub fn min() -> (r: Date)
        ensures
            r == first_day(),
    {
        Date { year: MIN_YEAR, month: 1, day: 1 }
    }

    /// Whether this day is no later than `other`.
    pub fn is_on_or_before(&self, other: &Date) -> (r: bool)
        ensures
            r == date_le(*self, *other),
    {
        self.year < other.year
            || (self.year == other.year && self.month < other.month)
            || (self.year == other.year && self.month == other.month && self.day <= other.day)
    }

    /// Reads a date written `YYYY-MM-DD`, if it names a day that exists.
    pub fn from_str(text: &str) -> (r: Option<Date>)
        ensures
            r == read_date(text@),
            r matches Some(d) ==> 1 <= d.month <= 12 && 1 <= d.day <= 31 && valid_date(d),
    {
        naive_date(text)
    }

    /// The day with this year, month and day, if there is one.
    pub fn new(year: u32, month: u8, day: u8) -> (r: Option<Date>)
        ensures
            r == (if valid_ymd(year as int, month as int, day as int) {
                Some(Date { year: year as i32, month: month as u32, day: day as u32 })
            } else {
                None
            }),
    {
        if year > 262142 || month < 1 || month > 12 || day < 1 {
            return None;
        }
        let y = year as i32;
        if day as u32 > days_in(y, month as u32) {
            return None;
        }
        Some(Date { year: y, month: month as u32, day: day as u32 })
    }

    pub fn year(&self) -> (r: i32)
        ensures
            r == self.year,
    {
        self.year
    }

    pub fn month(&self) -> (r: u32)
        ensures
            r == self.month,
    {
        self.month
    }

    /// The last day of this day's month.
    pub fn end_of_month(&self) -> (r: Date)
        requires
            valid_date(*self),
        ensures
            r == (Date { day: month_days(self.year as int, self.month as int) as u32, ..*self }),
            valid_date(r),
    {
        Date { day: days_in(self.year, self.month), ..*self }
    }

    /// The day `n` days later (earlier, for a negative `n`), if it is within
    /// the years a date can have.
    pub fn add_days(&self, n: i64) -> (r: Option<Date>)
        requires
            valid_date(*self),
        ensures
            r == shifted(*self, n as int),
    {
        let mut d = *self;
        let mut left: i64 = n;
        while left != 0
            invariant
                valid_date(d),
                shifted(*self, n as int) == shifted(d, left as int),
            decreases (if left >= 0 { left as int } else { -(left as int) }),
        {
            if left > 0 {
                let dim = days_in(d.year, d.month);
                let next = if d.day < dim {
                    Date { day: d.day + 1, ..d }
                } else if d.month < 12 {
                    Date { month: d.month + 1, day: 1, ..d }
                } else {
                    if d.year >= 262142 {
                        return None;
                    }
                    Date { year: d.year + 1, month: 1, day: 1 }
                };
                d = next;
                left = left - 1;
            } else {
                let prev = if d.day > 1 {
                    Date { day: d.day - 1, ..d }
                } else if d.month > 1 {
                    Date { month: d.month - 1, day: days_in(d.year, d.month - 1), ..d }
                } else {
                    if d.year <= -262143 {
                        return None;
                    }
                    Date { year: d.year - 1, month: 12, day: 31 }
                };
                d = prev;
                left = left + 1;
            }
        }
        Some(d)
    }

    /// The day as it is written, like `2024-11-24`.
    pub fn text(&self) -> (r: String)
        ensures
            r@ == date_text(*self),
    {
        let mut out: Vec<char> = Vec::new();
        if 0 <= self.year && self.year <= 9999 {
            push_padded(&mut out, self.year as u32, 4);
        } else if self.year < 0 {
            out.push('-');
            let magnitude: u32 = if self.year == i32::MIN { 2147483648u32 } else { (-self.year) as u32 };
            push_padded(&mut out, magnitude, 4);
        } else {
            out.push('+');
            push_padded(&mut out, self.year as u32, 4);
        }
        out.push('-');
        push_padded(&mut out, self.month, 2);
        out.push('-');
        push_padded(&mut out, self.day, 2);
        let r = crate::text::chars::string_of(&out);
        assert(r@ =~= date_text(*self));
        r
    }
}

} // verus!
