//! Quick entries: a day written as people say it.

use vstd::prelude::*;
use crate::text::chars::{chars_of, string_of, split_on, split_chars, lemma_split_on_nonempty, trimmed, trim_chars,
    lowercase, to_lower, str_eq};
use crate::text::digits::{is_digit, all_digits, digits_value, is_digit_char, parse_digits};
use crate::text::utf8::bytes_of;
use crate::util::date::{Date, valid_ymd, valid_date, shifted, weekday_of, weekday_from_monday};
use crate::util::period::{i64_reading, read_i64};

verus! {

/// The days of the week, from Monday.
pub open spec fn weekday_names() -> Seq<Seq<char>> {
    seq!["monday"@, "tuesday"@, "wednesday"@, "thursday"@, "friday"@, "saturday"@, "sunday"@]
}

/// The first day of the week whose name starts with `t`, from `k` on, or
/// 7 where there is none.
pub open spec fn weekday_from(t: Seq<char>, k: int) -> int
    decreases 7 - k,
{
    if k < 0 || k >= 7 {
        7
    } else if t.len() <= weekday_names()[k].len() && weekday_names()[k].take(t.len() as int) == t {
        k
    } else {
        weekday_from(t, k + 1)
    }
}

/// The number `s` reads as, as `u32`'s `FromStr` reads it: an optional
/// `+`, then digits, within the range of a `u32`.
pub open spec fn u32_reading(s: Seq<char>) -> Option<int> {
    let digits = if s.len() > 0 && s[0] == '+' { s.skip(1) } else { s };
    if digits.len() == 0 || !all_digits(digits) || digits_value(digits) > u32::MAX {
        None
    } else {
        Some(digits_value(digits) as int)
    }
}

/// The day with these numbers, if it is a day of the calendar.
pub open spec fn day_from(y: int, m: int, d: int) -> Option<Date> {
    if valid_ymd(y, m, d) {
        Some(Date { year: y as i32, month: m as u32, day: d as u32 })
    } else {
        None
    }
}

/// The day with these numbers, if it is one; a month or day too large for
/// a byte names none.
fn date_of(y: u32, m: u32, d: u32) -> (r: Option<Date>)
    ensures
        r == day_from(y as int, m as int, d as int),
{
    if m > 255 || d > 255 {
        None
    } else {
        Date::new(y, m as u8, d as u8)
    }
}

/// The day a text names, as people say it, relative to `today`.
pub open spec fn day_of(text: Seq<char>, today: Date, offsets: bool) -> Option<Date> {
    day_in(lowercase(trimmed(text)), today, offsets)
}

/// The day that trimmed, lower-case text names, relative to `today`.
pub open spec fn day_in(t: Seq<char>, today: Date, offsets: bool) -> Option<Date> {
    let parts = split_on(t, '-');
    if t == "today"@ || t == "t"@ {
        Some(today)
    } else if t == "yesterday"@ || t == "y"@ {
        shifted(today, -1)
    } else if t == "tomorrow"@ {
        shifted(today, 1)
    } else if bytes_of(t) >= 3 && weekday_from(t, 0) < 7 {
        let back = (weekday_of(today) - weekday_from(t, 0)) % 7;
        shifted(today, -back)
    } else if offsets && t.len() > 0 && t[0] == '-' && i64_reading(t.skip(1)) is Some {
        let days = i64_reading(t.skip(1))->0;
        if -days > i64::MAX { None } else { shifted(today, -days) }
    } else if parts.len() == 3 && bytes_of(parts[0]) == 4 {
        match (u32_reading(parts[0]), u32_reading(parts[1]), u32_reading(parts[2])) {
            (Some(y), Some(m), Some(d)) => day_from(y, m, d),
            _ => None,
        }
    } else if parts.len() == 2 && bytes_of(parts[0]) <= 2 {
        match (u32_reading(parts[0]), u32_reading(parts[1])) {
            (Some(m), Some(d)) => day_from(today.year as int, m, d),
            _ => None,
        }
    } else {
        None
    }
}

/// Reads a `u32` as its `FromStr` does.
fn read_u32(s: &Vec<char>) -> (r: Option<u32>)
    ensures
        match u32_reading(s@) {
            Some(v) => r == Some(v as u32),
            None => r is None,
        },
{
    let n = s.len();
    let from: usize = if n > 0 && s[0] == '+' { 1 } else { 0 };
    let ghost digits = if s@.len() > 0 && s@[0] == '+' { s@.skip(1) } else { s@ };
    assert(digits =~= s@.subrange(from as int, n as int));
    if from == n {
        return None;
    }
    let mut i: usize = from;
    while i < n
        invariant
            from <= i <= n,
            n == s@.len(),
            digits == s@.subrange(from as int, n as int),
            digits == (if s@.len() > 0 && s@[0] == '+' { s@.skip(1) } else { s@ }),
            forall|k: int| 0 <= k < i - from ==> is_digit(#[trigger] digits[k]),
        decreases n - i,
    {
        if !is_digit_char(s[i]) {
            assert(!is_digit(digits[i - from]));
            assert(!all_digits(digits));
            return None;
        }
        i = i + 1;
    }
    match parse_digits(s, from, n) {
        Some(v) => if v > 4294967295u128 { None } else { Some(v as u32) },
        None => None,
    }
}

/// The length of a text in bytes, where it is below `limit`, else `limit`.
fn bytes_up_to(v: &Vec<char>, limit: usize) -> (r: usize)
    requires
        limit > 0,
    ensures
        r == (if bytes_of(v@) < limit { bytes_of(v@) } else { limit as int }),
{
    let mut b: usize = 0;
    let mut i: usize = 0;
    assert(v@.take(0) =~= Seq::<char>::empty());
    while i < v.len()
        invariant
            i <= v@.len(),
            b == bytes_of(v@.take(i as int)),
            b < limit,
        decreases v@.len() - i,
    {
        assert(v@.take(i + 1).drop_last() =~= v@.take(i as int));
        let n = crate::text::utf8::char_len_utf8(v[i]);
        assert(bytes_of(v@.take(i + 1)) == b + n);
        if n >= limit - b {
            proof {
                crate::text::utf8::lemma_bytes_of_prefix(v@, i + 1, v@.len() as int);
                assert(v@.take(v@.len() as int) =~= v@);
            }
            return limit;
        }
        b = b + n;
        i = i + 1;
    }
    assert(v@.take(v@.len() as int) =~= v@);
    b
}

/// The first day of the week whose name starts with `t`, or 7.
fn weekday_index(t: &str) -> (r: usize)
    ensures
        r == weekday_from(t@, 0),
{
    let mut names: Vec<&str> = Vec::new();
    names.push("monday");
    names.push("tuesday");
    names.push("wednesday");
    names.push("thursday");
    names.push("friday");
    names.push("saturday");
    names.push("sunday");
    assert(names@.map_values(|c: &str| c@) =~= weekday_names());
    let tv = chars_of(t);
    let mut k: usize = 0;
    while k < 7
        invariant
            k <= 7,
            tv@ == t@,
            names@.len() == 7,
            names@.map_values(|c: &str| c@) == weekday_names(),
            weekday_from(t@, 0) == weekday_from(t@, k as int),
        decreases 7 - k,
    {
        let name = chars_of(names[k]);
        assert(names@.map_values(|c: &str| c@)[k as int] == names@[k as int]@);
        assert(name@ == weekday_names()[k as int]);
        if tv.len() <= name.len() {
            let mut j: usize = 0;
            let mut same = true;
            assert(name@.take(0) =~= tv@.take(0));
            while j < tv.len()
                invariant
                    j <= tv@.len() <= name@.len(),
                    same == (name@.take(j as int) == tv@.take(j as int)),
                decreases tv@.len() - j,
            {
                if name[j] != tv[j] {
                    same = false;
                }
                proof {
                    if same {
                        assert(name@.take(j + 1) =~= tv@.take(j + 1));
                    } else {
                        assert(name@.take(j + 1)[j as int] != tv@.take(j + 1)[j as int] || name@.take(j as int) != tv@.take(j as int));
                        if name@.take(j + 1) == tv@.take(j + 1) {
                            assert(name@.take(j as int) =~= name@.take(j + 1).take(j as int));
                            assert(tv@.take(j as int) =~= tv@.take(j + 1).take(j as int));
                        }
                    }
                }
                j = j + 1;
            }
            assert(tv@.take(tv@.len() as int) =~= tv@);
            if same {
                return k;
            }
        }
        k = k + 1;
    }
    7
}

/// A day as people say it: `today`, `yesterday`, a weekday (the most recent
/// one, counting today), `03-15`, `2024-03-15`, or, if `offsets` is set,
/// `-3` for three days ago.
pub fn parse_day(text: &str, today: Date, offsets: bool) -> (r: Option<Date>)
    requires
        valid_date(today),
        today.year >= 0,
    ensures
        r == day_of(text@, today, offsets),
{
    let chars = chars_of(text);
    let trimmed_text = string_of(&trim_chars(&chars));
    let lower = to_lower(trimmed_text.as_str());
    day_from_lowered(lower.as_str(), today, offsets)
}

/// The day that already trimmed, lower-case text names, as [`parse_day`]
/// reads it.
pub fn day_from_lowered(t: &str, today: Date, offsets: bool) -> (r: Option<Date>)
    requires
        valid_date(today),
        today.year >= 0,
    ensures
        r == day_in(t@, today, offsets),
{
    let tv = chars_of(t);
    if str_eq(t, "today") || str_eq(t, "t") {
        return Some(today);
    }
    if str_eq(t, "yesterday") || str_eq(t, "y") {
        return today.add_days(-1);
    }
    if str_eq(t, "tomorrow") {
        return today.add_days(1);
    }
    let long_enough = bytes_up_to(&tv, 3) >= 3;
    let index = weekday_index(t);
    if long_enough && index < 7 {
        let current = weekday_from_monday(today) as i64;
        let diff = current - index as i64;
        let back = if diff < 0 { diff + 7 } else { diff };
        assert(back == (weekday_of(today) - weekday_from(t@, 0)) % 7);
        return today.add_days(-back);
    }
    if offsets && tv.len() > 0 && tv[0] == '-' {
        if let Some(days) = read_i64(&tv, 1) {
            if days == i64::MIN {
                return None;
            }
            return today.add_days(-days);
        }
    }
    let parts = split_chars(&tv, '-');
    proof { lemma_split_on_nonempty(t@, '-'); }
    let ghost pv = split_on(t@, '-');
    if parts.len() == 3 {
        assert(pv[0] == parts@[0]@ && pv[1] == parts@[1]@ && pv[2] == parts@[2]@);
        if bytes_up_to(&parts[0], 5) == 4 {
            return match (read_u32(&parts[0]), read_u32(&parts[1]), read_u32(&parts[2])) {
                (Some(y), Some(m), Some(d)) => date_of(y, m, d),
                _ => None,
            };
        }
        return None;
    }
    if parts.len() == 2 {
        assert(pv[0] == parts@[0]@ && pv[1] == parts@[1]@);
        if bytes_up_to(&parts[0], 3) <= 2 {
            return match (read_u32(&parts[0]), read_u32(&parts[1])) {
                (Some(m), Some(d)) => date_of(today.year() as u32, m, d),
                _ => None,
            };
        }
    }
    None
}

} // verus!
