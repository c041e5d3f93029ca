//! The decisions behind asking for an entry one answer at a time: what is
//! wrong with an answer, what to offer, and when the entry is complete.
//! The prompts themselves belong to the program that asks.

use vstd::prelude::*;
use crate::text::chars::{chars_of, string_of, trimmed, trim_chars, is_space, is_space_char, index_of, find_char,
    lemma_index_of_bounds};
use crate::diagnostics::opt_view;
use crate::input::compose::{Draft, drafts_view, imbalance_of, totals_fit};
use crate::input::expr::{parse, parse_result, overflows};

verus! {

/// Whether `c` occurs in `s`.
pub open spec fn has_char(s: Seq<char>, c: char) -> bool {
    exists|i: int| 0 <= i < s.len() && s[i] == c
}

/// Whether some character of `s` is white space.
pub open spec fn has_space(s: Seq<char>) -> bool {
    exists|i: int| 0 <= i < s.len() && is_space(s[i])
}

fn contains_char(s: &Vec<char>, c: char) -> (r: bool)
    ensures
        r == has_char(s@, c),
{
    let i = find_char(s, 0, c);
    proof {
        assert(s@.subrange(0, s@.len() as int) =~= s@);
        lemma_index_of_bounds(s@, c);
    }
    i < s.len()
}

fn contains_space(s: &Vec<char>) -> (r: bool)
    ensures
        r == has_space(s@),
{
    let mut i: usize = 0;
    while i < s.len()
        invariant
            i <= s@.len(),
            forall|j: int| 0 <= j < i ==> !is_space(#[trigger] s@[j]),
        decreases s@.len() - i,
    {
        if is_space_char(s[i]) {
            return true;
        }
        i = i + 1;
    }
    false
}

/// What is wrong with a typed description, if anything: it must say
/// something, and cannot hold a `#`, which would start a comment.
pub open spec fn description_problem_of(s: Seq<char>) -> Option<Seq<char>> {
    if trimmed(s).len() == 0 {
        Some("Describe the entry, e.g. who was paid"@)
    } else if has_char(s, '#') {
        Some("`#` starts a comment, so it can't be in a description"@)
    } else {
        None
    }
}

/// What is wrong with a typed description, if anything.
pub fn description_problem(s: &str) -> (r: Option<String>)
    ensures
        opt_view(r) == description_problem_of(s@),
{
    let chars = chars_of(s);
    if trim_chars(&chars).len() == 0 {
        Some("Describe the entry, e.g. who was paid".to_owned())
    } else if contains_char(&chars, '#') {
        Some("`#` starts a comment, so it can't be in a description".to_owned())
    } else {
        None
    }
}

/// What is wrong with a typed account line, if anything: an empty line
/// finishes the entry, which it may only do once the entry balances; a
/// name cannot hold white space or a `#`. (Which top-level names a ledger
/// allows is its own rule, checked with the ledger.)
pub open spec fn account_problem_of(s: Seq<char>, can_finish: bool) -> Option<Seq<char>> {
    let t = trimmed(s);
    if t.len() == 0 {
        if can_finish { None } else { Some("The entry doesn't balance yet"@) }
    } else if has_space(t) || has_char(t, '#') {
        Some("Account names can't contain spaces or `#`"@)
    } else {
        None
    }
}

/// What is wrong with a typed account line, if anything.
pub fn account_problem(s: &str, can_finish: bool) -> (r: Option<String>)
    ensures
        opt_view(r) == account_problem_of(s@, can_finish),
{
    let chars = chars_of(s);
    let t = trim_chars(&chars);
    if t.len() == 0 {
        if can_finish { None } else { Some("The entry doesn't balance yet".to_owned()) }
    } else if contains_space(&t) || contains_char(&t, '#') {
        Some("Account names can't contain spaces or `#`".to_owned())
    } else {
        None
    }
}

/// What is wrong with a typed amount, if anything: a blank one balances
/// the entry, which only one line may do; anything else must read as an
/// amount.
pub open spec fn amount_problem_of(s: Seq<char>, blank_allowed: bool) -> Option<Seq<char>> {
    if trimmed(s).len() == 0 {
        if blank_allowed { None } else { Some("Only one line can be left blank"@) }
    } else {
        match parse_result(s) {
            Ok(_) => None,
            Err(e) => Some(e),
        }
    }
}

/// What is wrong with a typed amount, if anything.
pub fn amount_problem(s: &str, blank_allowed: bool) -> (r: Option<String>)
    requires
        !overflows(s@),
    ensures
        opt_view(r) == amount_problem_of(s@, blank_allowed),
{
    let chars = chars_of(s);
    if trim_chars(&chars).len() == 0 {
        if blank_allowed { None } else { Some("Only one line can be left blank".to_owned()) }
    } else {
        match parse(s) {
            Ok(_) => None,
            Err(e) => Some(e),
        }
    }
}

/// The account offered for line `n` (counted from 1): the one the last
/// entry with this description had there, else the one hinted there, and
/// none once the entry can be finished.
pub open spec fn offered_account(template: Seq<Seq<char>>, hints: Seq<Seq<char>>, n: int, can_finish: bool) -> Option<Seq<char>> {
    if can_finish {
        None
    } else if n - 1 < template.len() {
        Some(template[n - 1])
    } else if n - 1 < hints.len() {
        Some(hints[n - 1])
    } else {
        None
    }
}

/// The strings' views.
pub open spec fn strings_of(v: Seq<String>) -> Seq<Seq<char>> {
    v.map_values(|s: String| s@)
}

fn copy_of(s: &String) -> (r: String)
    ensures
        r@ == s@,
{
    string_of(&chars_of(s.as_str()))
}

/// The account offered for line `n`.
pub fn offered(template: &Vec<String>, hints: &Vec<String>, n: usize, can_finish: bool) -> (r: Option<String>)
    requires
        n >= 1,
    ensures
        opt_view(r) == offered_account(strings_of(template@), strings_of(hints@), n as int, can_finish),
{
    if can_finish {
        None
    } else if n - 1 < template.len() {
        Some(copy_of(&template[n - 1]))
    } else if n - 1 < hints.len() {
        Some(copy_of(&hints[n - 1]))
    } else {
        None
    }
}

/// The currency of a typed amount: the one typed with it, else the one the
/// account usually holds, else the one left to balance, else USD.
pub open spec fn amount_currency_of(typed: Option<Seq<char>>, usual: Option<Seq<char>>, left: Option<Seq<char>>) -> Seq<char> {
    match typed {
        Some(c) => c,
        None => match usual {
            Some(c) => c,
            None => match left {
                Some(c) => c,
                None => "USD"@,
            },
        },
    }
}

fn view_of(s: Option<&str>) -> (r: Option<String>)
    ensures
        opt_view(r) == (match s {
            Some(x) => Some(x@),
            None => None::<Seq<char>>,
        }),
{
    match s {
        Some(x) => Some(string_of(&chars_of(x))),
        None => None,
    }
}

/// The currency of a typed amount.
pub fn amount_currency(typed: Option<&str>, usual: Option<&str>, left: Option<&str>) -> (r: String)
    ensures
        r@ == amount_currency_of(
            match typed { Some(x) => Some(x@), None => None },
            match usual { Some(x) => Some(x@), None => None },
            match left { Some(x) => Some(x@), None => None },
        ),
{
    match view_of(typed) {
        Some(c) => c,
        None => match view_of(usual) {
            Some(c) => c,
            None => match view_of(left) {
                Some(c) => c,
                None => "USD".to_owned(),
            },
        },
    }
}

/// The entry is complete once a line was left blank to balance it, or once
/// it has two lines and nothing is left to balance.
pub fn entry_complete(draft: &Draft, blank: bool) -> (r: bool)
    requires
        !blank && draft.postings@.len() >= 2
            ==> totals_fit(drafts_view(draft.postings@), draft.postings@.len() as int),
    ensures
        r == (blank || (draft.postings@.len() >= 2 && imbalance_of(drafts_view(draft.postings@)).len() == 0)),
{
    if blank {
        return true;
    }
    if draft.postings.len() < 2 {
        return false;
    }
    let left = draft.imbalance();
    left.len() == 0
}

} // verus!
