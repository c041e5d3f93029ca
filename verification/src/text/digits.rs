//! Decimal digits: reading them as numbers and writing numbers as them.

use vstd::prelude::*;

verus! {

pub open spec fn is_digit(c: char) -> bool {
    '0' <= c && c <= '9'
}

pub open spec fn all_digits(s: Seq<char>) -> bool {
    forall|i: int| 0 <= i < s.len() ==> is_digit(#[trigger] s[i])
}

pub open spec fn digit_value(c: char) -> nat {
    ((c as int) - ('0' as int)) as nat
}

/// The number a run of decimal digits spells, most significant first.
pub open spec fn digits_value(s: Seq<char>) -> nat
    decreases s.len(),
{
    if s.len() == 0 {
        0
    } else {
        digits_value(s.drop_last()) * 10 + digit_value(s.last())
    }
}

/// A longer run of digits never spells a smaller number than its prefix.
pub proof fn lemma_digits_value_prefix(s: Seq<char>, i: int)
    requires
        0 <= i <= s.len(),
    ensures
        digits_value(s.take(i)) <= digits_value(s),
    decreases s.len(),
{
    if i < s.len() {
        assert(s.drop_last().take(i) =~= s.take(i));
        lemma_digits_value_prefix(s.drop_last(), i);
    } else {
        assert(s.take(i) =~= s);
    }
}

pub fn is_digit_char(c: char) -> (r: bool)
    ensures
        r == is_digit(c),
{
    '0' <= c && c <= '9'
}

/// The value of the digits `s[start..end]`, or None if it exceeds a u128.
pub fn parse_digits(s: &Vec<char>, start: usize, end: usize) -> (r: Option<u128>)
    requires
        start <= end <= s@.len(),
        all_digits(s@.subrange(start as int, end as int)),
    ensures
        r is Some <==> digits_value(s@.subrange(start as int, end as int)) <= u128::MAX,
        r matches Some(v) ==> v == digits_value(s@.subrange(start as int, end as int)),
{
    let ghost run = s@.subrange(start as int, end as int);
    let mut acc: u128 = 0;
    let mut i: usize = start;
    while i < end
        invariant
            start <= i <= end <= s@.len(),
            run == s@.subrange(start as int, end as int),
            all_digits(run),
            acc == digits_value(run.take(i - start)),
        decreases end - i,
    {
        let c = s[i];
        assert(run[i - start] == c);
        assert(is_digit(c));
        let d: u128 = (c as u32 - '0' as u32) as u128;
        assert(run.take(i - start + 1).drop_last() =~= run.take(i - start));
        let next: Option<u128> = match acc.checked_mul(10) {
            Some(m) => m.checked_add(d),
            None => None,
        };
        match next {
            Some(v) => {
                acc = v;
                i = i + 1;
            },
            None => {
                proof {
                    lemma_digits_value_prefix(run, i - start + 1);
                }
                return None;
            },
        }
    }
    assert(run.take(end - start) =~= run);
    Some(acc)
}

/// The character for a digit below ten.
pub open spec fn digit_char(v: nat) -> char {
    ((v + 48) as int) as char
}

/// The decimal digits of `v`, without leading zeros (`0` for zero).
pub open spec fn decimal_chars(v: nat) -> Seq<char>
    decreases v,
{
    if v < 10 {
        seq![digit_char(v)]
    } else {
        decimal_chars(v / 10).push(digit_char(v % 10))
    }
}

pub fn digit_to_char(v: u8) -> (c: char)
    requires
        v < 10,
    ensures
        c == digit_char(v as nat),
{
    match v {
        0 => '0',
        1 => '1',
        2 => '2',
        3 => '3',
        4 => '4',
        5 => '5',
        6 => '6',
        7 => '7',
        8 => '8',
        _ => '9',
    }
}

/// Appends the decimal digits of `v` to `out`.
pub fn push_decimal(out: &mut Vec<char>, v: u128)
    ensures
        final(out)@ == old(out)@ + decimal_chars(v as nat),
    decreases v,
{
    if v < 10 {
        out.push(digit_to_char(v as u8));
    } else {
        push_decimal(out, v / 10);
        out.push(digit_to_char((v % 10) as u8));
    }
}

/// A comma before each of the first `i` digits that has a multiple of three
/// digits after it in `s`, other than the first: `1234567` reads
/// `1,234,567`.
pub open spec fn grouped_prefix(s: Seq<char>, i: nat) -> Seq<char>
    decreases i,
{
    if i == 0 {
        Seq::empty()
    } else {
        let before = grouped_prefix(s, (i - 1) as nat);
        let with_comma = if i - 1 > 0 && (s.len() - (i - 1)) % 3 == 0 {
            before.push(',')
        } else {
            before
        };
        with_comma.push(s[i - 1])
    }
}

/// `s` with thousands separators.
pub open spec fn with_commas(s: Seq<char>) -> Seq<char> {
    grouped_prefix(s, s.len())
}

/// Appends `s` with thousands separators to `out`.
pub fn push_with_commas(out: &mut Vec<char>, s: &Vec<char>)
    ensures
        final(out)@ == old(out)@ + with_commas(s@),
{
    let mut i: usize = 0;
    while i < s.len()
        invariant
            i <= s@.len(),
            out@ == old(out)@ + grouped_prefix(s@, i as nat),
        decreases s@.len() - i,
    {
        if i > 0 && (s.len() - i) % 3 == 0 {
            out.push(',');
        }
        out.push(s[i]);
        i = i + 1;
    }
}

} // verus!
