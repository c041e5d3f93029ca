//! What the named periods come to, and how they relate to today and to each other.

use vstd::prelude::*;
use crate::util::date::{Date, valid_date, shifted, next_day};
use crate::util::period::{period_in, named_period, i64_reading, numbered_period, quarter_span, month_span};
use crate::util::date::month_days;

verus! {

proof fn lemma_names_differ()
    ensures
        "yesterday"@ != "today"@,
        "tomorrow"@ != "today"@,
        "tomorrow"@ != "yesterday"@,
{
    reveal_strlit("today");
    reveal_strlit("yesterday");
    reveal_strlit("tomorrow");
    assert("yesterday"@.len() != "today"@.len());
    assert("tomorrow"@.len() != "today"@.len());
    assert("tomorrow"@.len() != "yesterday"@.len());
}

/// `today` is the one day `today`.
pub proof fn lemma_today_is_one_day(today: Date)
    ensures
        period_in("today"@, today) == Ok::<(Date, Date), Seq<char>>((today, today)),
{
}

/// `yesterday` is the period `today` names one day earlier, a single day
/// starting and ending on the day before; there is none before the first
/// day a date can have.
pub proof fn lemma_yesterday_is_the_day_before(today: Date)
    ensures
        shifted(today, -1) matches Some(d) ==> period_in("yesterday"@, today) == period_in("today"@, d),
        shifted(today, -1) matches Some(d) ==> period_in("yesterday"@, today) == Ok::<(Date, Date), Seq<char>>((d, d)),
        shifted(today, -1) is None ==> period_in("yesterday"@, today) is Err,
{
    lemma_names_differ();
}

/// `tomorrow` is the period `today` names one day later, a single day
/// starting and ending on the day after.
pub proof fn lemma_tomorrow_is_the_day_after(today: Date)
    ensures
        shifted(today, 1) matches Some(d) ==> period_in("tomorrow"@, today) == period_in("today"@, d),
        shifted(today, 1) matches Some(d) ==> period_in("tomorrow"@, today) == Ok::<(Date, Date), Seq<char>>((d, d)),
        shifted(today, 1) is None ==> period_in("tomorrow"@, today) is Err,
{
    lemma_names_differ();
}

/// A count of days back, `-N`, that names no period of its own, is the
/// single day `N` days before today: a period that starts and ends on that
/// day, the one `today` names on it.
pub proof fn lemma_days_back_is_one_day(t: Seq<char>, today: Date)
    requires
        named_period(t, today) is None,
        t.len() > 0,
        t[0] == '-',
        i64_reading(t.skip(1)) is Some,
    ensures
        period_in(t, today) matches Ok((s, e)) ==> (s == e && shifted(today, -i64_reading(t.skip(1))->0) == Some(s)
            && period_in(t, today) == period_in("today"@, s)),
{
}

/// `a` is no later than `b`.
pub open spec fn not_after(a: Date, b: Date) -> bool {
    a.year < b.year || (a.year == b.year && (a.month < b.month || (a.month == b.month && a.day <= b.day)))
}

proof fn lemma_quarter_in_order(y: int, q: int)
    ensures
        quarter_span(y, q) matches Ok((s, e)) ==> not_after(s, e),
{
}

proof fn lemma_month_in_order(y: int, m: int)
    ensures
        month_span(y, m) matches Some((s, e)) ==> not_after(s, e),
{
    if month_span(y, m) is Some {
        assert(month_days(y, m) >= 1);
    }
}

/// Every period a text names, relative to a day of the calendar, starts no
/// later than it ends.
pub proof fn lemma_period_in_order(t: Seq<char>, today: Date)
    requires
        valid_date(today),
    ensures
        period_in(t, today) matches Ok((s, e)) ==> not_after(s, e),
{
    let y = today.year as int;
    let m = today.month as int;
    lemma_month_in_order(y, m);
    lemma_month_in_order(y, m - 1);
    lemma_month_in_order(y - 1, 12);
    lemma_quarter_in_order(y, (m - 1) / 3 + 1);
    lemma_quarter_in_order(y, (m - 1) / 3);
    lemma_quarter_in_order(y - 1, 4);
    if named_period(t, today) is None && !(t.len() > 0 && t[0] == '-' && i64_reading(t.skip(1)) is Some) {
        lemma_numbered_in_order(t);
    }
}

proof fn lemma_numbered_in_order(t: Seq<char>)
    ensures
        numbered_period(t) matches Ok((s, e)) ==> not_after(s, e),
{
    let parts = crate::text::chars::split_on(t, '-');
    if parts.len() == 2 && parts[1].len() > 0 && parts[1][0] == 'q' {
        match crate::util::period::number_of(parts[0]) {
            Ok(y) => match crate::util::period::number_of(parts[1].skip(1)) {
                Ok(q) => lemma_quarter_in_order(y, q),
                _ => {},
            },
            _ => {},
        }
    } else if parts.len() == 2 {
        match crate::util::period::number_of(parts[0]) {
            Ok(y) => match crate::util::period::number_of(parts[1]) {
                Ok(m) => lemma_month_in_order(y, m),
                _ => {},
            },
            _ => {},
        }
    }
}

proof fn lemma_reveal_names()
    ensures
        "today"@ == seq!['t', 'o', 'd', 'a', 'y'],
        "yesterday"@ == seq!['y', 'e', 's', 't', 'e', 'r', 'd', 'a', 'y'],
        "tomorrow"@ == seq!['t', 'o', 'm', 'o', 'r', 'r', 'o', 'w'],
        "this-month"@ == seq!['t', 'h', 'i', 's', '-', 'm', 'o', 'n', 't', 'h'],
        "thismonth"@ == seq!['t', 'h', 'i', 's', 'm', 'o', 'n', 't', 'h'],
        "mtd"@ == seq!['m', 't', 'd'],
        "last-month"@ == seq!['l', 'a', 's', 't', '-', 'm', 'o', 'n', 't', 'h'],
        "lastmonth"@ == seq!['l', 'a', 's', 't', 'm', 'o', 'n', 't', 'h'],
        "this-quarter"@ == seq!['t', 'h', 'i', 's', '-', 'q', 'u', 'a', 'r', 't', 'e', 'r'],
        "thisquarter"@ == seq!['t', 'h', 'i', 's', 'q', 'u', 'a', 'r', 't', 'e', 'r'],
        "last-quarter"@ == seq!['l', 'a', 's', 't', '-', 'q', 'u', 'a', 'r', 't', 'e', 'r'],
        "lastquarter"@ == seq!['l', 'a', 's', 't', 'q', 'u', 'a', 'r', 't', 'e', 'r'],
        "this-year"@ == seq!['t', 'h', 'i', 's', '-', 'y', 'e', 'a', 'r'],
        "thisyear"@ == seq!['t', 'h', 'i', 's', 'y', 'e', 'a', 'r'],
        "last-year"@ == seq!['l', 'a', 's', 't', '-', 'y', 'e', 'a', 'r'],
        "lastyear"@ == seq!['l', 'a', 's', 't', 'y', 'e', 'a', 'r'],
        "ytd"@ == seq!['y', 't', 'd'],
{
    reveal_strlit("today");
    reveal_strlit("yesterday");
    reveal_strlit("tomorrow");
    reveal_strlit("this-month");
    reveal_strlit("thismonth");
    reveal_strlit("mtd");
    reveal_strlit("last-month");
    reveal_strlit("lastmonth");
    reveal_strlit("this-quarter");
    reveal_strlit("thisquarter");
    reveal_strlit("last-quarter");
    reveal_strlit("lastquarter");
    reveal_strlit("this-year");
    reveal_strlit("thisyear");
    reveal_strlit("last-year");
    reveal_strlit("lastyear");
    reveal_strlit("ytd");
}

/// The current month, quarter and year each hold today; `mtd` and `ytd`
/// run from the start of the month and of the year up to today.
pub proof fn lemma_current_periods_hold_today(today: Date)
    requires
        valid_date(today),
    ensures
        period_in("this-month"@, today) matches Ok((s, e)) && not_after(s, today) && not_after(today, e)
            && s.day == 1 && s.month == today.month && s.year == today.year,
        period_in("this-quarter"@, today) matches Ok((s, e)) && not_after(s, today) && not_after(today, e),
        period_in("this-year"@, today) matches Ok((s, e)) && not_after(s, today) && not_after(today, e)
            && s.day == 1 && s.month == 1 && s.year == today.year,
        period_in("mtd"@, today) matches Ok((s, e)) && e == today
            && (period_in("this-month"@, today) matches Ok((s2, _)) && s == s2),
        period_in("ytd"@, today) matches Ok((s, e)) && e == today
            && (period_in("this-year"@, today) matches Ok((s2, _)) && s == s2),
{
    lemma_reveal_names();
    let t = "this-month"@;
    assert(t != "today"@ && t != "yesterday"@ && t != "tomorrow"@) by {
        assert(t.len() != "today"@.len() && t.len() != "yesterday"@.len() && t.len() != "tomorrow"@.len());
    }
    let t = "mtd"@;
    assert(t != "today"@ && t != "yesterday"@ && t != "tomorrow"@ && t != "this-month"@ && t != "thismonth"@) by {
        assert(t.len() != "today"@.len() && t.len() != "yesterday"@.len() && t.len() != "tomorrow"@.len());
        assert(t.len() != "this-month"@.len() && t.len() != "thismonth"@.len());
    }
    let t = "this-quarter"@;
    assert(t != "today"@ && t != "yesterday"@ && t != "tomorrow"@ && t != "this-month"@ && t != "thismonth"@
        && t != "mtd"@ && t != "last-month"@ && t != "lastmonth"@) by {
        assert(t.len() == 12);
    }
    let t = "this-year"@;
    assert(t != "today"@ && t != "tomorrow"@ && t != "this-month"@ && t != "mtd"@ && t != "last-month"@
        && t != "this-quarter"@ && t != "thisquarter"@ && t != "last-quarter"@ && t != "lastquarter"@) by {
        assert(t.len() == 9);
    }
    assert("this-year"@ != "yesterday"@) by { assert("this-year"@[0] != "yesterday"@[0]); }
    assert("this-year"@ != "thismonth"@) by { assert("this-year"@[4] != "thismonth"@[4]); }
    assert("this-year"@ != "lastmonth"@) by { assert("this-year"@[0] != "lastmonth"@[0]); }
    let t = "ytd"@;
    assert(t != "today"@ && t != "yesterday"@ && t != "tomorrow"@ && t != "this-month"@ && t != "thismonth"@
        && t != "last-month"@ && t != "lastmonth"@ && t != "this-quarter"@ && t != "thisquarter"@
        && t != "last-quarter"@ && t != "lastquarter"@ && t != "this-year"@ && t != "thisyear"@
        && t != "last-year"@ && t != "lastyear"@) by {
        assert(t.len() == 3);
    }
    assert("ytd"@ != "mtd"@) by { assert("ytd"@[0] != "mtd"@[0]); }
    let y = today.year as int;
    let m = today.month as int;
    let q = (m - 1) / 3 + 1;
    assert(1 <= q <= 4);
    assert(q * 3 - 2 <= m <= q * 3);
}

proof fn lemma_last_names_differ()
    ensures
        "last-month"@ != "today"@, "last-month"@ != "yesterday"@, "last-month"@ != "tomorrow"@,
        "last-month"@ != "mtd"@, "last-month"@ != "thismonth"@, "last-month"@ != "this-month"@,
        "last-quarter"@ != "today"@, "last-quarter"@ != "yesterday"@, "last-quarter"@ != "tomorrow"@,
        "last-quarter"@ != "this-month"@, "last-quarter"@ != "thismonth"@, "last-quarter"@ != "mtd"@,
        "last-quarter"@ != "last-month"@, "last-quarter"@ != "lastmonth"@, "last-quarter"@ != "thisquarter"@,
        "last-quarter"@ != "this-quarter"@,
        "last-year"@ != "today"@, "last-year"@ != "tomorrow"@, "last-year"@ != "this-month"@,
        "last-year"@ != "mtd"@, "last-year"@ != "last-month"@, "last-year"@ != "this-quarter"@,
        "last-year"@ != "thisquarter"@, "last-year"@ != "last-quarter"@, "last-year"@ != "lastquarter"@,
        "last-year"@ != "thisyear"@, "last-year"@ != "yesterday"@, "last-year"@ != "thismonth"@,
        "last-year"@ != "lastmonth"@, "last-year"@ != "this-year"@,
{
    lemma_reveal_names();
    let t = "last-month"@;
    assert(t.len() == 10);
    assert(t != "this-month"@) by { assert(t[0] != "this-month"@[0]); }
    let t = "last-quarter"@;
    assert(t.len() == 12);
    assert(t != "this-quarter"@) by { assert(t[0] != "this-quarter"@[0]); }
    let t = "last-year"@;
    assert(t.len() == 9);
    assert(t != "yesterday"@) by { assert(t[0] != "yesterday"@[0]); }
    assert(t != "thismonth"@) by { assert(t[0] != "thismonth"@[0]); }
    assert(t != "lastmonth"@) by { assert(t[4] != "lastmonth"@[4]); }
    assert(t != "this-year"@) by { assert(t[0] != "this-year"@[0]); }
}

/// The last month ends the day before the current month begins.
pub proof fn lemma_last_month_meets_this_month(today: Date)
    requires
        valid_date(today),
    ensures
        period_in("last-month"@, today) matches Ok((_, e)) ==> (period_in("this-month"@, today) matches Ok((s, _))
            && next_day(e) == s),
{
    lemma_current_periods_hold_today(today);
    lemma_last_names_differ();
}

/// The last quarter ends the day before the current quarter begins.
pub proof fn lemma_last_quarter_meets_this_quarter(today: Date)
    requires
        valid_date(today),
    ensures
        period_in("last-quarter"@, today) matches Ok((_, e)) ==> (period_in("this-quarter"@, today) matches Ok((s, _))
            && next_day(e) == s),
{
    lemma_current_periods_hold_today(today);
    lemma_last_names_differ();
    let y = today.year as int;
    let m = today.month as int;
    let q = (m - 1) / 3 + 1;
    assert(1 <= q <= 4);
    assert(crate::util::period::quarter_of(m) == q);
    lemma_reveal_names();
    let t = "this-quarter"@;
    assert(t != "today"@ && t != "yesterday"@ && t != "tomorrow"@ && t != "this-month"@ && t != "thismonth"@
        && t != "mtd"@ && t != "last-month"@ && t != "lastmonth"@) by {
        assert(t.len() == 12);
    }
    assert(named_period("this-quarter"@, today) == Some(quarter_span(y, q)));
    assert(named_period("last-quarter"@, today) == Some(if q == 1 {
            if y == 0 { Err(crate::util::period::no_such_day()) } else { quarter_span(y - 1, 4) }
        } else {
            quarter_span(y, q - 1)
        }));
    if q == 1 {
        assert(quarter_span(y, 1) matches Ok((s, _)) && s == Date { year: y as i32, month: 1, day: 1 });
        assert(quarter_span(y - 1, 4) matches Ok((_, e)) ==> e == Date { year: (y - 1) as i32, month: 12, day: 31 });
    } else {
        assert(month_span(y, (q - 1) * 3) matches Some((_, e)) && e.month == (q - 1) * 3
            && e.day == month_days(y, (q - 1) * 3) && e.year == today.year);
        assert(quarter_span(y, q - 1) matches Ok((_, e)) && e.month == (q - 1) * 3
            && e.day == month_days(y, (q - 1) * 3) && e.year == today.year);
        assert(quarter_span(y, q) matches Ok((s, _)) && s == Date { year: y as i32, month: (q * 3 - 2) as u32, day: 1 });
    }
}

/// The last year ends the day before the current year begins.
pub proof fn lemma_last_year_meets_this_year(today: Date)
    requires
        valid_date(today),
    ensures
        period_in("last-year"@, today) matches Ok((_, e)) ==> (period_in("this-year"@, today) matches Ok((s, _))
            && next_day(e) == s),
{
    lemma_current_periods_hold_today(today);
    lemma_last_names_differ();
}

} // verus!
