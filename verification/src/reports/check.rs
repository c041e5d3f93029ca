//! What `check` concludes from the problems found in a ledger.

use vstd::prelude::*;
use crate::diagnostics::{Diagnostic, Severity};
use crate::render::{plural, pluralized};
use crate::text::chars::{string_of, extend_chars};
use crate::ui::palette;
use crate::ui::style::{Style, plain_style};
use crate::ui::text::{Line, Piece, pushed};
use crate::diagnostics::{closest, best_candidate};
use crate::util::date::{Date, date_text};
use crate::text::chars::chars_of;

verus! {

/// How many of the problems are errors.
pub open spec fn error_count(problems: Seq<Diagnostic>) -> nat
    decreases problems.len(),
{
    if problems.len() == 0 {
        0
    } else {
        error_count(problems.drop_last()) + if problems.last().severity == Severity::Error { 1nat } else { 0nat }
    }
}

proof fn lemma_error_count_bound(problems: Seq<Diagnostic>)
    ensures
        error_count(problems) <= problems.len(),
    decreases problems.len(),
{
    if problems.len() > 0 {
        lemma_error_count_bound(problems.drop_last());
    }
}

/// The count of errors and of warnings among the problems.
pub fn count_problems(problems: &[Diagnostic]) -> (r: (usize, usize))
    ensures
        r.0 == error_count(problems@),
        r.0 + r.1 == problems@.len(),
{
    let mut errors: usize = 0;
    let mut i: usize = 0;
    while i < problems.len()
        invariant
            i <= problems@.len(),
            errors == error_count(problems@.take(i as int)),
            errors <= i,
        decreases problems@.len() - i,
    {
        assert(problems@.take(i + 1).drop_last() =~= problems@.take(i as int));
        if problems[i].severity == Severity::Error {
            errors = errors + 1;
        }
        i = i + 1;
    }
    assert(problems@.take(problems@.len() as int) =~= problems@);
    (errors, problems.len() - errors)
}

/// The last line of a check: no problems, or how many of each kind.
pub open spec fn check_summary(errors: nat, warnings: nat) -> Seq<char> {
    if errors == 0 && warnings == 0 {
        "No problems found"@
    } else if errors == 0 {
        pluralized(warnings, "warning"@)
    } else if warnings == 0 {
        pluralized(errors, "error"@)
    } else {
        pluralized(errors, "error"@) + ", "@ + pluralized(warnings, "warning"@)
    }
}

/// Whether a check fails, and the line that sums it up: it fails on any
/// error, and on any warning when it is strict.
pub fn check_report(errors: usize, warnings: usize, strict: bool) -> (r: (bool, String))
    ensures
        r.0 == (errors > 0 || (strict && warnings > 0)),
        r.1@ == check_summary(errors as nat, warnings as nat),
{
    let failed = errors > 0 || (strict && warnings > 0);
    let summary = if errors == 0 && warnings == 0 {
        "No problems found".to_owned()
    } else if errors == 0 {
        plural(warnings, "warning")
    } else if warnings == 0 {
        plural(errors, "error")
    } else {
        let mut out: Vec<char> = Vec::new();
        extend_chars(&mut out, plural(errors, "error").as_str());
        extend_chars(&mut out, ", ");
        extend_chars(&mut out, plural(warnings, "warning").as_str());
        string_of(&out)
    };
    (failed, summary)
}

/// The mark and color a check ends with: a green tick with no problems, an
/// amber warning sign with warnings only, a red cross with any error.
pub open spec fn verdict_mark(errors: nat, warnings: nat) -> (Seq<char>, Style) {
    if errors == 0 && warnings == 0 {
        ("✓ "@, Style { fg: Some(palette::green()), bold: true, ..plain_style() })
    } else if errors == 0 {
        ("⚠ "@, Style { fg: Some(palette::amber()), bold: true, ..plain_style() })
    } else {
        ("✗ "@, Style { fg: Some(palette::red()), bold: true, ..plain_style() })
    }
}

/// The line a check ends with when shown fancy: its mark, then the summary
/// in bold.
pub fn verdict_line(errors: usize, warnings: usize) -> (r: Line)
    ensures
        r.pieces() == pushed(pushed(Seq::<Piece>::empty(), verdict_mark(errors as nat, warnings as nat).0,
            verdict_mark(errors as nat, warnings as nat).1), check_summary(errors as nat, warnings as nat),
            Style { bold: true, ..plain_style() }),
{
    let (_, summary) = check_report(errors, warnings, false);
    let start = if errors == 0 && warnings == 0 {
        Line::styled("✓ ", Style::color(palette::green()).bold())
    } else if errors == 0 {
        Line::styled("⚠ ", Style::color(palette::amber()).bold())
    } else {
        Line::styled("✗ ", Style::color(palette::red()).bold())
    };
    start.with(summary.as_str(), Style::new().bold())
}

/// The problems a check reports: those found while loading the ledger,
/// then the ledger's own warnings.
pub fn check_problems(loading: Vec<Diagnostic>, warnings: Vec<Diagnostic>) -> (r: Vec<Diagnostic>)
    ensures
        r@ == loading@ + warnings@,
{
    let mut out = loading;
    let mut rest = warnings;
    out.append(&mut rest);
    out
}

/// The names' views.
pub open spec fn names_view(names: Seq<&str>) -> Seq<Seq<char>> {
    names.map_values(|c: &str| c@)
}

/// The declarations, ready to paste, that would declare the undeclared
/// `names` (each with the day it was first used) of a `kind`: one for each
/// name that is not a likely typo of one already `declared`.
pub open spec fn declarations_for(names: Seq<(Seq<char>, Date)>, declared: Seq<Seq<char>>, kind: Seq<char>) -> Seq<Seq<char>>
    decreases names.len(),
{
    if names.len() == 0 {
        Seq::empty()
    } else {
        let prev = declarations_for(names.drop_last(), declared, kind);
        let (name, date) = names.last();
        if best_candidate(name, declared, declared.len() as int) is None {
            prev.push("! "@ + date_text(date) + " "@ + kind + " "@ + name)
        } else {
            prev
        }
    }
}

/// The undeclared names with their days, as plain values.
pub open spec fn dated_view(names: Seq<(String, Date)>) -> Seq<(Seq<char>, Date)> {
    names.map_values(|p: (String, Date)| (p.0@, p.1))
}

/// The strings' views.
pub open spec fn texts_view(v: Seq<String>) -> Seq<Seq<char>> {
    v.map_values(|s: String| s@)
}

fn declarations_of(out: &mut Vec<String>, names: &[(String, Date)], declared: &[&str], kind: &str)
    ensures
        texts_view(final(out)@) == texts_view(old(out)@) + declarations_for(dated_view(names@), names_view(declared@), kind@),
{
    let ghost start = texts_view(out@);
    let mut i: usize = 0;
    while i < names.len()
        invariant
            i <= names@.len(),
            texts_view(out@) == start + declarations_for(dated_view(names@).take(i as int), names_view(declared@), kind@),
        decreases names@.len() - i,
    {
        let ghost before = out@;
        let ghost taken = dated_view(names@).take(i + 1);
        assert(taken.drop_last() =~= dated_view(names@).take(i as int));
        assert(taken.last() == (names@[i as int].0@, names@[i as int].1));
        let (name, date) = &names[i];
        if closest(name.as_str(), declared).is_none() {
            let mut line: Vec<char> = Vec::new();
            extend_chars(&mut line, "! ");
            extend_chars(&mut line, date.text().as_str());
            extend_chars(&mut line, " ");
            extend_chars(&mut line, kind);
            extend_chars(&mut line, " ");
            extend_chars(&mut line, name.as_str());
            let text = string_of(&line);
            out.push(text);
            assert(texts_view(out@) =~= texts_view(before).push(text@));
        }
        i = i + 1;
    }
    assert(dated_view(names@).take(names@.len() as int) =~= dated_view(names@));
}

/// The declarations, ready to paste, that would fix undeclared names: a
/// currency or an account close to one already declared is a typo, not a
/// missing declaration, and gets none. Currencies come first.
pub fn missing_declarations(
    currencies: &[(String, Date)],
    accounts: &[(String, Date)],
    declared_currencies: &[&str],
    declared_accounts: &[&str],
) -> (r: Vec<String>)
    ensures
        texts_view(r@) == declarations_for(dated_view(currencies@), names_view(declared_currencies@), "currency"@)
            + declarations_for(dated_view(accounts@), names_view(declared_accounts@), "account"@),
{
    let mut out: Vec<String> = Vec::new();
    assert(texts_view(out@) =~= Seq::<Seq<char>>::empty());
    declarations_of(&mut out, currencies, declared_currencies, "currency");
    declarations_of(&mut out, accounts, declared_accounts, "account");
    out
}

} // verus!
