//! Friendly ways of writing dates and periods on the command line.

use vstd::prelude::*;
use crate::text::chars::{chars_of, string_of, split_on, split_chars, lemma_split_on_nonempty, trimmed, trim_chars,
    lowercase, to_lower, str_eq, extend_chars};
use crate::text::digits::{is_digit, all_digits, digits_value, is_digit_char, parse_digits};
use crate::util::date::{Date, valid_ymd, valid_date, month_days, shifted};

verus! {

/// Which end of a range a date bounds. `2024` means January 1 as a start,
/// and December 31 as an end.
#[derive(Clone, Copy, Debug, PartialEq, Eq, Structural)]
pub enum Edge {
    Start,
    End,
}

/// What is said of a day that the calendar does not have.
pub open spec fn no_such_day() -> Seq<char> {
    "no such day"@
}

/// A day, as a period of its own.
pub open spec fn day_span(d: Option<Date>) -> Result<(Date, Date), Seq<char>> {
    match d {
        Some(x) => Ok((x, x)),
        None => Err(no_such_day()),
    }
}

/// A span, or the error for a day the calendar does not have.
pub open spec fn span_or(s: Option<(Date, Date)>) -> Result<(Date, Date), Seq<char>> {
    match s {
        Some(x) => Ok(x),
        None => Err(no_such_day()),
    }
}

/// A year's first and last days.
pub open spec fn year_span(y: int) -> Option<(Date, Date)> {
    if valid_ymd(y, 1, 1) {
        Some((Date { year: y as i32, month: 1, day: 1 }, Date { year: y as i32, month: 12, day: 31 }))
    } else {
        None
    }
}

/// A month's first and last days.
pub open spec fn month_span(y: int, m: int) -> Option<(Date, Date)> {
    if valid_ymd(y, m, 1) {
        Some((Date { year: y as i32, month: m as u32, day: 1 },
            Date { year: y as i32, month: m as u32, day: month_days(y, m) as u32 }))
    } else {
        None
    }
}

/// A quarter's first and last days.
pub open spec fn quarter_span(y: int, q: int) -> Result<(Date, Date), Seq<char>> {
    if !(1 <= q <= 4) {
        Err("quarters are Q1 to Q4"@)
    } else {
        match (month_span(y, q * 3 - 2), month_span(y, q * 3)) {
            (Some((start, _)), Some((_, end))) => Ok((start, end)),
            _ => Err(no_such_day()),
        }
    }
}

/// The quarter a month is in, from 1 to 4.
pub open spec fn quarter_of(month: int) -> int {
    (month - 1) / 3 + 1
}

/// The period a name stands for, relative to `today`, if the text is one
/// of the names.
pub open spec fn named_period(t: Seq<char>, today: Date) -> Option<Result<(Date, Date), Seq<char>>> {
    let y = today.year as int;
    let m = today.month as int;
    let q = quarter_of(m);
    if t == "today"@ {
        Some(Ok((today, today)))
    } else if t == "yesterday"@ {
        Some(day_span(shifted(today, -1)))
    } else if t == "tomorrow"@ {
        Some(day_span(shifted(today, 1)))
    } else if t == "this-month"@ || t == "thismonth"@ || t == "mtd"@ {
        Some(match month_span(y, m) {
            Some((s, e)) => Ok((s, if t == "mtd"@ { today } else { e })),
            None => Err(no_such_day()),
        })
    } else if t == "last-month"@ || t == "lastmonth"@ {
        Some(if m == 1 {
            if y == 0 { Err(no_such_day()) } else { span_or(month_span(y - 1, 12)) }
        } else {
            span_or(month_span(y, m - 1))
        })
    } else if t == "this-quarter"@ || t == "thisquarter"@ {
        Some(quarter_span(y, q))
    } else if t == "last-quarter"@ || t == "lastquarter"@ {
        Some(if q == 1 {
            if y == 0 { Err(no_such_day()) } else { quarter_span(y - 1, 4) }
        } else {
            quarter_span(y, q - 1)
        })
    } else if t == "this-year"@ || t == "thisyear"@ {
        Some(span_or(year_span(y)))
    } else if t == "last-year"@ || t == "lastyear"@ {
        Some(if y == 0 { Err(no_such_day()) } else { span_or(year_span(y - 1)) })
    } else if t == "ytd"@ {
        Some(match year_span(y) {
            Some((s, _)) => Ok((s, today)),
            None => Err(no_such_day()),
        })
    } else {
        None
    }
}

/// The number `s` reads as, as `i64`'s `FromStr` reads it: an optional
/// sign, then digits, within the range of an `i64`.
pub open spec fn i64_reading(s: Seq<char>) -> Option<int> {
    let negative = s.len() > 0 && s[0] == '-';
    let digits = if s.len() > 0 && (s[0] == '-' || s[0] == '+') { s.skip(1) } else { s };
    if digits.len() == 0 || !all_digits(digits) {
        None
    } else {
        let v: int = if negative { -(digits_value(digits) as int) } else { digits_value(digits) as int };
        if i64::MIN <= v <= i64::MAX { Some(v) } else { None }
    }
}

/// The number a run of digits reads as, as a `u32`.
pub open spec fn number_of(s: Seq<char>) -> Result<int, Seq<char>> {
    if s.len() == 0 || !all_digits(s) {
        Err("not a number"@)
    } else if digits_value(s) > u32::MAX {
        Err("number too large to fit in target type"@)
    } else {
        Ok(digits_value(s) as int)
    }
}

/// What is said of a number too large for a month or a day.
pub open spec fn out_of_range() -> Seq<char> {
    "out of range integral type conversion attempted"@
}

/// A period written with numbers: a year, a year and quarter, a month or a
/// day, each part separated by hyphens.
pub open spec fn numbered_period(t: Seq<char>) -> Result<(Date, Date), Seq<char>> {
    let parts = split_on(t, '-');
    if parts.len() == 1 {
        match number_of(parts[0]) {
            Err(e) => Err(e),
            Ok(y) => span_or(year_span(y)),
        }
    } else if parts.len() == 2 && parts[1].len() > 0 && parts[1][0] == 'q' {
        match number_of(parts[0]) {
            Err(e) => Err(e),
            Ok(y) => match number_of(parts[1].skip(1)) {
                Err(e) => Err(e),
                Ok(q) => quarter_span(y, q),
            },
        }
    } else if parts.len() == 2 {
        match number_of(parts[0]) {
            Err(e) => Err(e),
            Ok(y) => match number_of(parts[1]) {
                Err(e) => Err(e),
                Ok(m) => if m > 255 { Err(out_of_range()) } else { span_or(month_span(y, m)) },
            },
        }
    } else if parts.len() == 3 {
        match number_of(parts[0]) {
            Err(e) => Err(e),
            Ok(y) => match number_of(parts[1]) {
                Err(e) => Err(e),
                Ok(m) => if m > 255 {
                    Err(out_of_range())
                } else {
                    match number_of(parts[2]) {
                        Err(e) => Err(e),
                        Ok(d) => if d > 255 {
                            Err(out_of_range())
                        } else if valid_ymd(y, m, d) {
                            Ok((Date { year: y as i32, month: m as u32, day: d as u32 },
                                Date { year: y as i32, month: m as u32, day: d as u32 }))
                        } else {
                            Err(no_such_day())
                        },
                    }
                },
            },
        }
    } else {
        Err("unrecognized period `"@ + t + "`"@)
    }
}

/// The first and last days of the period a text names, relative to
/// `today`: a day, month, quarter or year written with numbers, a name
/// like `last-month`, or a number of days ago like `-30`.
pub open spec fn period_of(text: Seq<char>, today: Date) -> Result<(Date, Date), Seq<char>> {
    period_in(lowercase(trimmed(text)), today)
}

/// The period that trimmed, lower-case text names.
pub open spec fn period_in(t: Seq<char>, today: Date) -> Result<(Date, Date), Seq<char>> {
    match named_period(t, today) {
        Some(r) => r,
        None => if t.len() > 0 && t[0] == '-' && i64_reading(t.skip(1)) is Some {
            let days = i64_reading(t.skip(1))->0;
            if -days > i64::MAX { Err(no_such_day()) } else { day_span(shifted(today, -days)) }
        } else {
            numbered_period(t)
        },
    }
}

/// Reads a run of digits as a `u32`.
fn number(s: &Vec<char>, start: usize, end: usize) -> (r: Result<u32, String>)
    requires
        start <= end <= s@.len(),
    ensures
        match number_of(s@.subrange(start as int, end as int)) {
            Ok(v) => r == Ok::<u32, String>(v as u32),
            Err(e) => r matches Err(m) && m@ == e,
        },
{
    let ghost run = s@.subrange(start as int, end as int);
    if start == end {
        return Err(string_of(&chars_of("not a number")));
    }
    let mut i: usize = start;
    while i < end
        invariant
            start <= i <= end <= s@.len(),
            run == s@.subrange(start as int, end as int),
            forall|k: int| 0 <= k < i - start ==> is_digit(#[trigger] run[k]),
        decreases end - i,
    {
        if !is_digit_char(s[i]) {
            assert(!is_digit(run[i - start]));
            return Err(string_of(&chars_of("not a number")));
        }
        i = i + 1;
    }
    match parse_digits(s, start, end) {
        Some(v) => if v > 4294967295u128 {
            Err(string_of(&chars_of("number too large to fit in target type")))
        } else {
            Ok(v as u32)
        },
        None => Err(string_of(&chars_of("number too large to fit in target type"))),
    }
}

/// Reads an optional sign and digits as an `i64`.
pub(crate) fn read_i64(s: &Vec<char>, start: usize) -> (r: Option<i64>)
    requires
        start <= s@.len(),
    ensures
        match i64_reading(s@.skip(start as int)) {
            Some(v) => r == Some(v as i64),
            None => r is None,
        },
{
    let ghost t = s@.skip(start as int);
    let n = s.len();
    assert(t.len() > 0 ==> t[0] == s@[start as int]);
    let negative = start < n && s[start] == '-';
    let from = if start < n && (s[start] == '-' || s[start] == '+') { start + 1 } else { start };
    let ghost digits = if t.len() > 0 && (t[0] == '-' || t[0] == '+') { t.skip(1) } else { t };
    assert(digits =~= s@.subrange(from as int, n as int));
    if from == n {
        return None;
    }
    let mut i: usize = from;
    while i < n
        invariant
            from <= i <= n,
            n == s@.len(),
            digits == s@.subrange(from as int, n as int),
            t == s@.skip(start as int),
            digits == (if t.len() > 0 && (t[0] == '-' || t[0] == '+') { t.skip(1) } else { t }),
            forall|k: int| 0 <= k < i - from ==> is_digit(#[trigger] digits[k]),
        decreases n - i,
    {
        if !is_digit_char(s[i]) {
            assert(!is_digit(digits[i - from]));
            assert(!all_digits(digits));
            return None;
        }
        i = i + 1;
    }
    match parse_digits(s, from, n) {
        Some(v) => {
            if negative {
                if v > 9223372036854775808u128 {
                    None
                } else if v == 9223372036854775808u128 {
                    Some(i64::MIN)
                } else {
                    Some(-(v as i64))
                }
            } else if v > 9223372036854775807u128 {
                None
            } else {
                Some(v as i64)
            }
        },
        None => None,
    }
}

/// A year's first and last days, if the year is within the calendar.
fn year_of(y: u32) -> (r: Option<(Date, Date)>)
    ensures
        r == year_span(y as int),
{
    match (Date::new(y, 1, 1), Date::new(y, 12, 31)) {
        (Some(s), Some(e)) => Some((s, e)),
        _ => None,
    }
}

/// A month's first and last days, if the month is within the calendar.
fn month_of(y: u32, m: u8) -> (r: Option<(Date, Date)>)
    ensures
        r == month_span(y as int, m as int),
{
    match Date::new(y, m, 1) {
        Some(s) => Some((s, s.end_of_month())),
        None => None,
    }
}

/// A quarter's first and last days.
fn quarter_of_year(y: u32, q: u8) -> (r: Result<(Date, Date), String>)
    ensures
        match quarter_span(y as int, q as int) {
            Ok(p) => r == Ok::<(Date, Date), String>(p),
            Err(e) => r matches Err(m) && m@ == e,
        },
{
    if !(1 <= q && q <= 4) {
        return Err(string_of(&chars_of("quarters are Q1 to Q4")));
    }
    match (month_of(y, q * 3 - 2), month_of(y, q * 3)) {
        (Some((start, _)), Some((_, end))) => Ok((start, end)),
        _ => Err(string_of(&chars_of("no such day"))),
    }
}

fn no_day() -> (r: String)
    ensures
        r@ == no_such_day(),
{
    string_of(&chars_of("no such day"))
}

/// A span, or the error for a day the calendar does not have.
fn span_of_days(s: Option<(Date, Date)>) -> (r: Result<(Date, Date), String>)
    ensures
        match span_or(s) {
            Ok(p) => r == Ok::<(Date, Date), String>(p),
            Err(e) => r matches Err(m) && m@ == e,
        },
{
    match s {
        Some(x) => Ok(x),
        None => Err(no_day()),
    }
}

/// A day as a period of its own.
fn one_day(d: Option<Date>) -> (r: Result<(Date, Date), String>)
    ensures
        match day_span(d) {
            Ok(p) => r == Ok::<(Date, Date), String>(p),
            Err(e) => r matches Err(m) && m@ == e,
        },
{
    match d {
        Some(x) => Ok((x, x)),
        None => Err(no_day()),
    }
}

/// The period a name stands for, if the text is one of the names.
fn named(t: &str, today: Date) -> (r: Option<Result<(Date, Date), String>>)
    requires
        valid_date(today),
        today.year >= 0,
    ensures
        match named_period(t@, today) {
            None => r is None,
            Some(Ok(p)) => r == Some(Ok::<(Date, Date), String>(p)),
            Some(Err(e)) => r matches Some(Err(m)) && m@ == e,
        },
{
    let y = today.year() as u32;
    let m = today.month() as u8;
    let q: u8 = (m - 1) / 3 + 1;
    if str_eq(t, "today") {
        Some(Ok((today, today)))
    } else if str_eq(t, "yesterday") {
        Some(one_day(today.add_days(-1)))
    } else if str_eq(t, "tomorrow") {
        Some(one_day(today.add_days(1)))
    } else if str_eq(t, "this-month") || str_eq(t, "thismonth") || str_eq(t, "mtd") {
        Some(match month_of(y, m) {
            Some((s, e)) => Ok((s, if str_eq(t, "mtd") { today } else { e })),
            None => Err(no_day()),
        })
    } else if str_eq(t, "last-month") || str_eq(t, "lastmonth") {
        Some(if m == 1 {
            if y == 0 { Err(no_day()) } else { span_of_days(month_of(y - 1, 12)) }
        } else {
            span_of_days(month_of(y, m - 1))
        })
    } else if str_eq(t, "this-quarter") || str_eq(t, "thisquarter") {
        Some(quarter_of_year(y, q))
    } else if str_eq(t, "last-quarter") || str_eq(t, "lastquarter") {
        Some(if q == 1 {
            if y == 0 { Err(no_day()) } else { quarter_of_year(y - 1, 4) }
        } else {
            quarter_of_year(y, q - 1)
        })
    } else if str_eq(t, "this-year") || str_eq(t, "thisyear") {
        Some(span_of_days(year_of(y)))
    } else if str_eq(t, "last-year") || str_eq(t, "lastyear") {
        Some(if y == 0 { Err(no_day()) } else { span_of_days(year_of(y - 1)) })
    } else if str_eq(t, "ytd") {
        Some(match year_of(y) {
            Some((s, _)) => Ok((s, today)),
            None => Err(no_day()),
        })
    } else {
        None
    }
}

/// A period written with numbers.
fn numbered(t: &Vec<char>) -> (r: Result<(Date, Date), String>)
    ensures
        match numbered_period(t@) {
            Ok(p) => r == Ok::<(Date, Date), String>(p),
            Err(e) => r matches Err(m) && m@ == e,
        },
{
    let parts = split_chars(t, '-');
    proof { lemma_split_on_nonempty(t@, '-'); }
    let ghost pv = split_on(t@, '-');
    let n = parts.len();
    if n == 1 {
        assert(pv[0] == parts@[0]@);
        let p0 = &parts[0];
        assert(p0@.subrange(0, p0@.len() as int) =~= p0@);
        return match number(p0, 0, p0.len()) {
            Err(e) => Err(e),
            Ok(y) => span_of_days(year_of(y)),
        };
    }
    if n == 2 || n == 3 {
        assert(pv[0] == parts@[0]@);
        assert(pv[1] == parts@[1]@);
        let p0 = &parts[0];
        let p1 = &parts[1];
        assert(p0@.subrange(0, p0@.len() as int) =~= p0@);
        assert(p1@.subrange(0, p1@.len() as int) =~= p1@);
        if n == 2 && p1.len() > 0 && p1[0] == 'q' {
            let y = match number(p0, 0, p0.len()) {
                Err(e) => return Err(e),
                Ok(y) => y,
            };
            assert(p1@.subrange(1, p1@.len() as int) =~= p1@.skip(1));
            let q = match number(p1, 1, p1.len()) {
                Err(e) => return Err(e),
                Ok(q) => q,
            };
            if q < 1 || q > 4 {
                return Err(string_of(&chars_of("quarters are Q1 to Q4")));
            }
            return quarter_of_year(y, q as u8);
        }
        let y = match number(p0, 0, p0.len()) {
            Err(e) => return Err(e),
            Ok(y) => y,
        };
        let m = match number(p1, 0, p1.len()) {
            Err(e) => return Err(e),
            Ok(m) => m,
        };
        if m > 255 {
            return Err(string_of(&chars_of("out of range integral type conversion attempted")));
        }
        if n == 2 {
            return span_of_days(month_of(y, m as u8));
        }
        assert(pv[2] == parts@[2]@);
        let p2 = &parts[2];
        assert(p2@.subrange(0, p2@.len() as int) =~= p2@);
        let d = match number(p2, 0, p2.len()) {
            Err(e) => return Err(e),
            Ok(d) => d,
        };
        if d > 255 {
            return Err(string_of(&chars_of("out of range integral type conversion attempted")));
        }
        return one_day(Date::new(y, m as u8, d as u8));
    }
    let mut msg: Vec<char> = Vec::new();
    extend_chars(&mut msg, "unrecognized period `");
    let ghost before = msg@;
    let mut i: usize = 0;
    while i < t.len()
        invariant
            i <= t@.len(),
            msg@ == before + t@.take(i as int),
        decreases t@.len() - i,
    {
        msg.push(t[i]);
        assert(t@.take(i + 1) =~= t@.take(i as int).push(t@[i as int]));
        i = i + 1;
    }
    assert(t@.take(t@.len() as int) =~= t@);
    extend_chars(&mut msg, "`");
    Err(string_of(&msg))
}

/// Parses a period of time into its first and last days: any date that
/// [`parse_bound`] accepts (a single day, month or year), a quarter like
/// `2024-Q1`, or a relative period: `this-month`, `last-month`,
/// `this-quarter`, `last-quarter`, `this-year`, `last-year`, `ytd`, `mtd`.
pub fn parse_period(text: &str, today: Date) -> (r: Result<(Date, Date), String>)
    requires
        valid_date(today),
        today.year >= 0,
    ensures
        match period_of(text@, today) {
            Ok(p) => r == Ok::<(Date, Date), String>(p),
            Err(e) => r matches Err(m) && m@ == e,
        },
{
    let chars = chars_of(text);
    let trimmed_text = string_of(&trim_chars(&chars));
    let lower = to_lower(trimmed_text.as_str());
    period_from_lowered(lower.as_str(), today)
}

/// The period that already trimmed, lower-case text names, as
/// [`parse_period`] reads it.
pub fn period_from_lowered(lower: &str, today: Date) -> (r: Result<(Date, Date), String>)
    requires
        valid_date(today),
        today.year >= 0,
    ensures
        match period_in(lower@, today) {
            Ok(p) => r == Ok::<(Date, Date), String>(p),
            Err(e) => r matches Err(m) && m@ == e,
        },
{
    if let Some(r) = named(lower, today) {
        return r;
    }
    let t = chars_of(lower);
    if t.len() > 0 && t[0] == '-' {
        if let Some(days) = read_i64(&t, 1) {
            if days == i64::MIN {
                return Err(no_day());
            }
            return one_day(today.add_days(-days));
        }
    }
    numbered(&t)
}

/// The message for a date that cannot be read.
pub open spec fn bound_message(text: Seq<char>) -> Seq<char> {
    "`"@ + text + "` is not a date I understand; try 2024-03-15, 2024-03, 2024, today or yesterday"@
}

/// Parses a date that bounds a range: `2024-03-15`, `2024-03`, `2024`,
/// `today`, `yesterday`, `tomorrow`, or a number of days ago like `-30`.
pub fn parse_bound(text: &str, edge: Edge, today: Date) -> (r: Result<Date, String>)
    requires
        valid_date(today),
        today.year >= 0,
    ensures
        match period_of(text@, today) {
            Ok((s, e)) => r == Ok::<Date, String>(if edge is Start { s } else { e }),
            Err(_) => r matches Err(m) && m@ == bound_message(text@),
        },
{
    match parse_period(text, today) {
        Ok((s, e)) => Ok(match edge {
            Edge::Start => s,
            Edge::End => e,
        }),
        Err(_) => {
            let mut msg: Vec<char> = Vec::new();
            extend_chars(&mut msg, "`");
            extend_chars(&mut msg, text);
            extend_chars(&mut msg, "` is not a date I understand; try 2024-03-15, 2024-03, 2024, today or yesterday");
            Err(string_of(&msg))
        },
    }
}

} // verus!
