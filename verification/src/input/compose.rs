//! Entries being written: what they add up to, and where they go.

use vstd::prelude::*;
use crate::input::history::History;
use crate::text::chars::{chars_of, string_of, str_eq, is_space, is_space_char};
use crate::tidy::{FileStyle, has_crlf, fit_widths, posting_text, detect_state, detected_indent, line_kinds, lemma_lines_bytes};
use crate::config::{text_lines, text_lines_of};
use crate::syntax::lexer::{Line, LineKind, KindView, lex_line, lexed, reports, Fault};
use crate::syntax::source::FileId;
use crate::parsing::loader::{lex_result, lex_one};
use crate::diagnostics::{Diagnostic, Severity, opt_view};
use crate::text::utf8::bytes_of;
use crate::syntax::lexer::{Posting, PostingAmount, PostingView, AmountView, Cols};
use crate::text::chars::extend_chars;
use crate::util::date::date_text;
use crate::util::date::Date;
use crate::util::quant::{Quant, add_fits, is_sum, reduced};
use crate::util::decimal::{exact_at, finest_fitting, fits_at, min_places, rendered, rounded_quant, strip_twos, strip_fives};
use crate::util::numbers::{pow10, round_half_even};

verus! {

/// A line of an entry being written
#[derive(Clone, Debug)]
pub struct DraftPosting {
    pub account: String,
    /// None for the one line that balances the others
    pub amount: Option<(Quant, String)>,
}

/// A posting line as plain values.
pub struct DraftPostingView {
    pub account: Seq<char>,
    pub amount: Option<(Quant, Seq<char>)>,
}

impl View for DraftPosting {
    type V = DraftPostingView;

    open spec fn view(&self) -> DraftPostingView {
        DraftPostingView {
            account: self.account@,
            amount: match self.amount {
                Some((v, c)) => Some((v, c@)),
                None => None,
            },
        }
    }
}

impl DraftPosting {
    pub fn new(account: &str, amount: Option<(Quant, &str)>) -> (r: Self)
        ensures
            r@ == (DraftPostingView {
                account: account@,
                amount: match amount {
                    Some((v, c)) => Some((v, c@)),
                    None => None,
                },
            }),
    {
        let amount = match amount {
            Some((v, c)) => Some((v, c.to_owned())),
            None => None,
        };
        DraftPosting { account: account.to_owned(), amount }
    }
}

/// An entry being written
#[derive(Clone, Debug)]
pub struct Draft {
    pub date: Date,
    pub description: String,
    pub postings: Vec<DraftPosting>,
    /// How the draft was put together, to show alongside it
    pub notes: Vec<String>,
}

/// The postings as plain values.
pub open spec fn drafts_view(ps: Seq<DraftPosting>) -> Seq<DraftPostingView> {
    ps.map_values(|p: DraftPosting| p@)
}

/// Where currency `c` first stands among the totals, or how many there are.
pub open spec fn total_at(totals: Seq<(Seq<char>, Quant)>, c: Seq<char>) -> int
    decreases totals.len(),
{
    if totals.len() == 0 {
        0
    } else if totals[0].0 == c {
        0
    } else {
        1 + total_at(totals.drop_first(), c)
    }
}

/// The sum of two values, as `+` gives it.
pub open spec fn sum_of(a: Quant, b: Quant) -> Quant {
    choose|r: Quant| is_sum(a, b, r)
}

/// The totals with `v` added under currency `c`: to its total if it has
/// one, else as a new total at the end.
pub open spec fn added_to(totals: Seq<(Seq<char>, Quant)>, c: Seq<char>, v: Quant) -> Seq<(Seq<char>, Quant)> {
    let i = total_at(totals, c);
    if i < totals.len() {
        totals.update(i, (c, sum_of(totals[i].1, v)))
    } else {
        totals.push((c, v))
    }
}

/// The amounts of the first `k` postings summed by currency, each currency
/// where it first appears.
pub open spec fn totals_of(ps: Seq<DraftPostingView>, k: int) -> Seq<(Seq<char>, Quant)>
    decreases k,
{
    if k <= 0 {
        Seq::empty()
    } else {
        let t = totals_of(ps, k - 1);
        match ps[k - 1].amount {
            Some((v, c)) => added_to(t, c, v),
            None => t,
        }
    }
}

/// Every sum in totalling the first `k` postings can be computed without
/// overflowing, and every amount is a well-formed value.
pub open spec fn totals_fit(ps: Seq<DraftPostingView>, k: int) -> bool
    decreases k,
{
    if k <= 0 {
        true
    } else {
        &&& totals_fit(ps, k - 1)
        &&& match ps[k - 1].amount {
            Some((v, c)) => {
                let t = totals_of(ps, k - 1);
                let i = total_at(t, c);
                &&& v.wf()
                &&& i < t.len() ==> add_fits(t[i].1, v)
            },
            None => true,
        }
    }
}

/// The totals that are not zero, in order.
pub open spec fn nonzero(t: Seq<(Seq<char>, Quant)>) -> Seq<(Seq<char>, Quant)>
    decreases t.len(),
{
    if t.len() == 0 {
        Seq::empty()
    } else if t.last().1.numerator == 0 {
        nonzero(t.drop_last())
    } else {
        nonzero(t.drop_last()).push(t.last())
    }
}

/// What the written amounts come to, by currency, leaving out zeros.
pub open spec fn imbalance_of(ps: Seq<DraftPostingView>) -> Seq<(Seq<char>, Quant)> {
    nonzero(totals_of(ps, ps.len() as int))
}

/// Some posting has no amount.
pub open spec fn has_blank_line(ps: Seq<DraftPostingView>) -> bool {
    exists|i: int| 0 <= i < ps.len() && (#[trigger] ps[i]).amount is None
}

/// A finished entry: at least two lines, and a line to balance the others,
/// or amounts that balance, or amounts in exactly two currencies that
/// convert into each other.
pub open spec fn balanced(ps: Seq<DraftPostingView>) -> bool {
    &&& ps.len() >= 2
    &&& has_blank_line(ps) || imbalance_of(ps).len() == 0 || imbalance_of(ps).len() == 2
}

/// The totals as plain values.
pub open spec fn totals_view(t: Seq<(String, Quant)>) -> Seq<(Seq<char>, Quant)> {
    t.map_values(|p: (String, Quant)| (p.0@, p.1))
}

/// Every total is a well-formed value.
pub open spec fn totals_wf(t: Seq<(Seq<char>, Quant)>) -> bool {
    forall|i: int| 0 <= i < t.len() ==> (#[trigger] t[i]).1.wf()
}

proof fn lemma_total_at_bounds(t: Seq<(Seq<char>, Quant)>, c: Seq<char>)
    ensures
        0 <= total_at(t, c) <= t.len(),
        total_at(t, c) < t.len() ==> t[total_at(t, c)].0 == c,
        forall|j: int| 0 <= j < total_at(t, c) ==> (#[trigger] t[j]).0 != c,
    decreases t.len(),
{
    if t.len() > 0 && t[0].0 != c {
        lemma_total_at_bounds(t.drop_first(), c);
        assert forall|j: int| 0 <= j < total_at(t, c) implies (#[trigger] t[j]).0 != c by {
            if j > 0 {
                assert(t[j] == t.drop_first()[j - 1]);
            }
        }
    }
}

/// Where currency `c` first stands among the totals, or how many there are.
fn find_total(totals: &Vec<(String, Quant)>, c: &str) -> (r: usize)
    ensures
        r == total_at(totals_view(totals@), c@),
{
    let ghost t = totals_view(totals@);
    proof { lemma_total_at_bounds(t, c@); }
    let mut i: usize = 0;
    while i < totals.len()
        invariant
            i <= totals@.len(),
            t == totals_view(totals@),
            forall|j: int| 0 <= j < i ==> (#[trigger] t[j]).0 != c@,
            0 <= total_at(t, c@) <= t.len(),
            total_at(t, c@) < t.len() ==> t[total_at(t, c@)].0 == c@,
            forall|j: int| 0 <= j < total_at(t, c@) ==> (#[trigger] t[j]).0 != c@,
        decreases totals@.len() - i,
    {
        assert(t[i as int].0 == totals@[i as int].0@);
        if str_eq(totals[i].0.as_str(), c) {
            return i;
        }
        i = i + 1;
    }
    i
}

/// A sum is well-formed where its operands are.
proof fn lemma_sum_wf(a: Quant, b: Quant, r: Quant)
    requires
        a.wf(),
        b.wf(),
        is_sum(a, b, r),
    ensures
        r.wf(),
{
}

impl Draft {
    /// The sum of the amounts written, by currency, leaving out zeros, each
    /// currency where it first appears.
    pub fn imbalance(&self) -> (r: Vec<(String, Quant)>)
        requires
            totals_fit(drafts_view(self.postings@), self.postings@.len() as int),
        ensures
            totals_view(r@) == imbalance_of(drafts_view(self.postings@)),
    {
        let sums = self.totals();
        let ghost all = totals_view(sums@);
        let mut out: Vec<(String, Quant)> = Vec::new();
        let mut j: usize = 0;
        while j < sums.len()
            invariant
                j <= sums@.len(),
                all == totals_view(sums@),
                totals_view(out@) == nonzero(all.take(j as int)),
            decreases sums@.len() - j,
        {
            assert(all.take(j + 1).drop_last() =~= all.take(j as int));
            if !sums[j].1.is_zero() {
                let ghost before = out@;
                out.push((sums[j].0.clone(), sums[j].1));
                assert(totals_view(out@) =~= totals_view(before).push(all[j as int]));
            }
            j = j + 1;
        }
        assert(all.take(all.len() as int) =~= all);
        out
    }

    /// The sum of the amounts written, by currency, each currency where it
    /// first appears.
    pub fn totals(&self) -> (r: Vec<(String, Quant)>)
        requires
            totals_fit(drafts_view(self.postings@), self.postings@.len() as int),
        ensures
            totals_view(r@) == totals_of(drafts_view(self.postings@), self.postings@.len() as int),
    {
        let ghost ps = drafts_view(self.postings@);
        let mut sums: Vec<(String, Quant)> = Vec::new();
        let mut i: usize = 0;
        while i < self.postings.len()
            invariant
                i <= self.postings@.len(),
                ps == drafts_view(self.postings@),
                totals_fit(ps, self.postings@.len() as int),
                totals_view(sums@) == totals_of(ps, i as int),
                totals_wf(totals_view(sums@)),
            decreases self.postings@.len() - i,
        {
            proof { lemma_totals_fit_prefix(ps, i + 1, self.postings@.len() as int); }
            assert(ps[i as int] == self.postings@[i as int]@);
            match &self.postings[i].amount {
                Some((v, c)) => {
                    let ghost t = totals_view(sums@);
                    let k = find_total(&sums, c.as_str());
                    proof { lemma_total_at_bounds(t, c@); }
                    if k < sums.len() {
                        let old = sums[k].1;
                        let total = match old.checked_add(*v) {
                            Some(s) => s,
                            None => {
                                assert(false);
                                old
                            },
                        };
                        proof {
                            let s = choose|r: Quant| is_sum(old, *v, r);
                            crate::util::quant::lemma_sum_unique(old, *v, total, s);
                            lemma_sum_wf(old, *v, total);
                        }
                        let key = sums[k].0.clone();
                        sums.set(k, (key, total));
                        assert(totals_view(sums@) =~= t.update(k as int, (c@, total)));
                    } else {
                        sums.push((c.clone(), *v));
                        assert(totals_view(sums@) =~= t.push((c@, *v)));
                    }
                },
                None => {},
            }
            i = i + 1;
        }
        sums
    }

    /// Whether some line has no amount, to balance the others
    pub fn has_blank(&self) -> (r: bool)
        ensures
            r == has_blank_line(drafts_view(self.postings@)),
    {
        let ghost ps = drafts_view(self.postings@);
        let mut i: usize = 0;
        while i < self.postings.len()
            invariant
                i <= self.postings@.len(),
                ps == drafts_view(self.postings@),
                forall|k: int| 0 <= k < i ==> (#[trigger] ps[k]).amount is Some,
            decreases self.postings@.len() - i,
        {
            assert(ps[i as int] == self.postings@[i as int]@);
            if self.postings[i].amount.is_none() {
                return true;
            }
            i = i + 1;
        }
        false
    }

    /// Whether the entry is finished: it balances, or has a line to balance
    /// it, or converts between exactly two currencies
    pub fn is_balanced(&self) -> (r: bool)
        requires
            self.postings@.len() >= 2 && !has_blank_line(drafts_view(self.postings@))
                ==> totals_fit(drafts_view(self.postings@), self.postings@.len() as int),
        ensures
            r == balanced(drafts_view(self.postings@)),
    {
        if self.postings.len() < 2 {
            return false;
        }
        if self.has_blank() {
            return true;
        }
        let sums = self.imbalance();
        sums.len() == 0 || sums.len() == 2
    }

    /// Accounts and currencies this would use for the first time, each once,
    /// in the order they appear
    pub fn new_names(&self, history: &History) -> (r: (Vec<String>, Vec<String>))
        requires
            history.wf(),
        ensures
            strings(r.0@) == new_accounts(drafts_view(self.postings@), history@.accounts.dom(),
                history.declared_accounts_view(), self.postings@.len() as int),
            strings(r.1@) == new_currencies(drafts_view(self.postings@), history@.currencies.dom(),
                history.declared_currencies_view(), self.postings@.len() as int),
    {
        let ghost ps = drafts_view(self.postings@);
        let mut accounts: Vec<String> = Vec::new();
        let mut currencies: Vec<String> = Vec::new();
        let mut i: usize = 0;
        while i < self.postings.len()
            invariant
                i <= self.postings@.len(),
                ps == drafts_view(self.postings@),
                history.wf(),
                strings(accounts@) == new_accounts(ps, history@.accounts.dom(), history.declared_accounts_view(), i as int),
                strings(currencies@) == new_currencies(ps, history@.currencies.dom(), history.declared_currencies_view(), i as int),
            decreases self.postings@.len() - i,
        {
            let p = &self.postings[i];
            assert(ps[i as int] == p@);
            if !history.is_known_account(p.account.as_str()) && !holds_name(&accounts, p.account.as_str()) {
                let ghost before = accounts@;
                accounts.push(p.account.clone());
                assert(strings(accounts@) =~= strings(before).push(p.account@));
            }
            match &p.amount {
                Some((_, c)) => {
                    if !history.is_known_currency(c.as_str()) && !holds_name(&currencies, c.as_str()) {
                        let ghost before = currencies@;
                        currencies.push(c.clone());
                        assert(strings(currencies@) =~= strings(before).push(c@));
                    }
                },
                None => {},
            }
            i = i + 1;
        }
        (accounts, currencies)
    }
}

/// The strings' characters.
pub open spec fn strings(v: Seq<String>) -> Seq<Seq<char>> {
    v.map_values(|s: String| s@)
}

/// Accounts of the first `k` postings that are neither used nor declared,
/// each once, in order.
pub open spec fn new_accounts(ps: Seq<DraftPostingView>, used: Set<Seq<char>>, declared: Set<Seq<char>>, k: int)
    -> Seq<Seq<char>>
    decreases k,
{
    if k <= 0 {
        Seq::empty()
    } else {
        let before = new_accounts(ps, used, declared, k - 1);
        let a = ps[k - 1].account;
        if used.contains(a) || declared.contains(a) || before.contains(a) { before } else { before.push(a) }
    }
}

/// Currencies of the first `k` postings' amounts that are neither used nor
/// declared, each once, in order.
pub open spec fn new_currencies(ps: Seq<DraftPostingView>, used: Set<Seq<char>>, declared: Set<Seq<char>>, k: int)
    -> Seq<Seq<char>>
    decreases k,
{
    if k <= 0 {
        Seq::empty()
    } else {
        let before = new_currencies(ps, used, declared, k - 1);
        match ps[k - 1].amount {
            Some((_, c)) => if used.contains(c) || declared.contains(c) || before.contains(c) {
                before
            } else {
                before.push(c)
            },
            None => before,
        }
    }
}

/// Whether `name` is among `names`.
fn holds_name(names: &Vec<String>, name: &str) -> (r: bool)
    ensures
        r == strings(names@).contains(name@),
{
    let mut i: usize = 0;
    while i < names.len()
        invariant
            i <= names@.len(),
            forall|k: int| 0 <= k < i ==> (#[trigger] strings(names@)[k]) != name@,
        decreases names@.len() - i,
    {
        if str_eq(names[i].as_str(), name) {
            assert(strings(names@)[i as int] == name@);
            return true;
        }
        i = i + 1;
    }
    false
}

proof fn lemma_totals_fit_prefix(ps: Seq<DraftPostingView>, k: int, n: int)
    requires
        0 <= k <= n,
        totals_fit(ps, n),
    ensures
        totals_fit(ps, k),
    decreases n - k,
{
    if k < n {
        lemma_totals_fit_prefix(ps, k, n - 1);
    }
}


/// The text with each `\r\n` made `\n`.
pub open spec fn unix_lines(s: Seq<char>) -> Seq<char>
    decreases s.len(),
{
    if s.len() == 0 {
        Seq::empty()
    } else if s.len() >= 2 && s[0] == '\r' && s[1] == '\n' {
        seq!['\n'] + unix_lines(s.skip(2))
    } else {
        seq![s[0]] + unix_lines(s.skip(1))
    }
}

/// The text with each `\n` made `\r\n`.
pub open spec fn crlf_lines(s: Seq<char>) -> Seq<char>
    decreases s.len(),
{
    if s.len() == 0 {
        Seq::empty()
    } else if s.last() == '\n' {
        crlf_lines(s.drop_last()) + seq!['\r', '\n']
    } else {
        crlf_lines(s.drop_last()).push(s.last())
    }
}

/// Nothing but white space.
pub open spec fn blank_text(s: Seq<char>) -> bool {
    forall|i: int| 0 <= i < s.len() ==> is_space(#[trigger] s[i])
}

/// What goes before a block appended to text `o` (with `\n` endings) so
/// that the block starts after a blank line: nothing after blank text.
pub open spec fn separator(o: Seq<char>) -> Seq<char> {
    if blank_text(o) {
        Seq::empty()
    } else {
        let first = if o.len() > 0 && o.last() == '\n' { Seq::empty() } else { seq!['\n'] };
        let second = if o.len() >= 2 && o[o.len() - 2] == '\n' && o.last() == '\n' {
            Seq::empty()
        } else {
            seq!['\n']
        };
        first + second
    }
}

/// What to append to a file holding `original` for `block`: the separator,
/// then the block, with the file's line endings.
pub open spec fn appendix_of(original: Seq<char>, block: Seq<char>) -> Seq<char> {
    let text = separator(unix_lines(original)) + block;
    if has_crlf(original) { crlf_lines(text) } else { text }
}

/// How many newlines the text has.
pub open spec fn newlines(s: Seq<char>) -> nat
    decreases s.len(),
{
    if s.len() == 0 {
        0
    } else {
        newlines(s.drop_last()) + if s.last() == '\n' { 1nat } else { 0nat }
    }
}

proof fn lemma_newlines_bound(s: Seq<char>)
    ensures
        newlines(s) <= s.len(),
        s.len() > 0 && s.last() != '\n' ==> newlines(s) < s.len(),
    decreases s.len(),
{
    if s.len() > 0 {
        lemma_newlines_bound(s.drop_last());
    }
}

/// How many lines the text has: a last line needs no newline.
pub open spec fn line_total(s: Seq<char>) -> nat {
    newlines(s) + if s.len() > 0 && s.last() != '\n' { 1nat } else { 0nat }
}

/// How many newlines the text starts with.
pub open spec fn leading_newlines(s: Seq<char>) -> nat
    decreases s.len(),
{
    if s.len() > 0 && s[0] == '\n' { 1 + leading_newlines(s.skip(1)) } else { 0 }
}

/// The number the first line of `appendix` gets once appended to `original`.
pub open spec fn first_line_of(original: Seq<char>, appendix: Seq<char>) -> nat {
    let o = unix_lines(original);
    let a = unix_lines(appendix);
    let leading = leading_newlines(a);
    let gap = if (o.len() > 0 && o.last() == '\n') || o.len() == 0 {
        leading
    } else if leading > 0 {
        (leading - 1) as nat
    } else {
        0
    };
    line_total(o) + gap + 1
}

/// `v` with each `\r\n` made `\n`.
fn to_unix(v: &Vec<char>) -> (r: Vec<char>)
    ensures
        r@ == unix_lines(v@),
        r@.len() <= v@.len(),
{
    let mut out: Vec<char> = Vec::new();
    let mut i: usize = 0;
    assert(v@.skip(0) =~= v@);
    while i < v.len()
        invariant
            i <= v@.len(),
            out@ + unix_lines(v@.skip(i as int)) == unix_lines(v@),
            out@.len() <= i,
        decreases v@.len() - i,
    {
        let ghost rest = v@.skip(i as int);
        if i + 1 < v.len() && v[i] == '\r' && v[i + 1] == '\n' {
            assert(rest.skip(2) =~= v@.skip(i + 2));
            assert(out@.push('\n') + unix_lines(v@.skip(i + 2)) =~= out@ + unix_lines(rest));
            out.push('\n');
            i = i + 2;
        } else {
            assert(rest.skip(1) =~= v@.skip(i + 1));
            assert(out@.push(v@[i as int]) + unix_lines(v@.skip(i + 1)) =~= out@ + unix_lines(rest));
            out.push(v[i]);
            i = i + 1;
        }
    }
    assert(unix_lines(v@.skip(i as int)) =~= Seq::<char>::empty());
    assert(out@ + Seq::<char>::empty() =~= out@);
    out
}

/// `v` with each `\n` made `\r\n`.
fn to_crlf(v: &Vec<char>) -> (r: Vec<char>)
    ensures
        r@ == crlf_lines(v@),
{
    let mut out: Vec<char> = Vec::new();
    let mut i: usize = 0;
    while i < v.len()
        invariant
            i <= v@.len(),
            out@ == crlf_lines(v@.take(i as int)),
        decreases v@.len() - i,
    {
        assert(v@.take(i + 1).drop_last() =~= v@.take(i as int));
        if v[i] == '\n' {
            out.push('\r');
            out.push('\n');
            assert(out@ =~= crlf_lines(v@.take(i as int)) + seq!['\r', '\n']);
        } else {
            out.push(v[i]);
        }
        i = i + 1;
    }
    assert(v@.take(v@.len() as int) =~= v@);
    out
}

/// The file a new entry goes into, and how that file is laid out
#[derive(Clone, Debug)]
pub struct Target {
    pub path: String,
    /// Its text when it was read, to detect changes before writing
    pub original: String,
    pub style: FileStyle,
}

impl Target {
    /// What to append to the file for a block of text: enough newlines that
    /// the block starts after a blank line, with the file's line endings
    pub fn appendix(&self, block: &str) -> (r: String)
        ensures
            r@ == appendix_of(self.original@, block@),
    {
        let raw = chars_of(self.original.as_str());
        let o = to_unix(&raw);
        let mut blank = true;
        let mut i: usize = 0;
        while i < o.len()
            invariant
                i <= o@.len(),
                blank == (forall|k: int| 0 <= k < i ==> is_space(#[trigger] o@[k])),
            decreases o@.len() - i,
        {
            if !is_space_char(o[i]) {
                blank = false;
            }
            i = i + 1;
        }
        let mut text: Vec<char> = Vec::new();
        if !blank {
            let n = o.len();
            if !(n > 0 && o[n - 1] == '\n') {
                text.push('\n');
            }
            if !(n >= 2 && o[n - 2] == '\n' && o[n - 1] == '\n') {
                text.push('\n');
            }
        }
        let b = chars_of(block);
        let mut j: usize = 0;
        let ghost sep = text@;
        assert(sep =~= separator(o@));
        while j < b.len()
            invariant
                j <= b@.len(),
                text@ == sep + b@.take(j as int),
            decreases b@.len() - j,
        {
            text.push(b[j]);
            assert(b@.take(j + 1) =~= b@.take(j as int).push(b@[j as int]));
            j = j + 1;
        }
        assert(b@.take(b@.len() as int) =~= b@);
        if crate::tidy::crlf_in(&raw) {
            string_of(&to_crlf(&text))
        } else {
            string_of(&text)
        }
    }

    /// The line number the block's first line will have once appended
    pub fn first_new_line(&self, appendix: &str) -> (r: usize)
        requires
            self.original@.len() + appendix@.len() + 1 <= usize::MAX,
        ensures
            r == first_line_of(self.original@, appendix@),
    {
        let o = to_unix(&chars_of(self.original.as_str()));
        let a = to_unix(&chars_of(appendix));
        let mut lines: usize = 0;
        let mut i: usize = 0;
        while i < o.len()
            invariant
                i <= o@.len(),
                lines == newlines(o@.take(i as int)),
                lines <= i,
            decreases o@.len() - i,
        {
            assert(o@.take(i + 1).drop_last() =~= o@.take(i as int));
            if o[i] == '\n' {
                lines = lines + 1;
            }
            i = i + 1;
        }
        assert(o@.take(o@.len() as int) =~= o@);
        let n = o.len();
        proof { lemma_newlines_bound(o@); }
        if n > 0 && o[n - 1] != '\n' {
            lines = lines + 1;
        }
        assert(lines <= n);
        let mut leading: usize = 0;
        assert(a@.skip(0) =~= a@);
        while leading < a.len() && a[leading] == '\n'
            invariant
                leading <= a@.len(),
                leading_newlines(a@) == leading + leading_newlines(a@.skip(leading as int)),
            decreases a@.len() - leading,
        {
            assert(a@.skip(leading as int).skip(1) =~= a@.skip(leading + 1));
            leading = leading + 1;
        }
        assert(leading <= a@.len());
        let gap = if (n > 0 && o[n - 1] == '\n') || n == 0 {
            leading
        } else if leading > 0 {
            leading - 1
        } else {
            0
        };
        lines + gap + 1
    }
}


/// Rounding at some precision that fits can always be found: at no
/// decimal places at worst.
pub(crate) proof fn lemma_round_possible(n: nat, d: nat, p: nat)
    requires
        n <= u128::MAX,
        d >= 1,
    ensures
        exact_at(d, p) || finest_fitting(n, d, p) is Some,
    decreases p,
{
    if d == 1 {
        assert(strip_twos(1) == (1nat, 0nat));
        assert(strip_fives(1) == (1nat, 0nat));
    } else {
        assert(pow10(0) == 1) by { reveal_with_fuel(pow10, 1); }
        let q = n / d;
        assert(q * d <= n) by (nonlinear_arith) requires d >= 2, q == n / d;
        assert(q * 2 <= n) by (nonlinear_arith) requires d >= 2, q * d <= n;
        assert(round_half_even(n, d, 0) <= q + 1);
        assert(fits_at(n, d, 0));
        lemma_finest_found(n, d, p);
    }
}

proof fn lemma_finest_found(n: nat, d: nat, p: nat)
    requires
        fits_at(n, d, 0),
    ensures
        finest_fitting(n, d, p) is Some,
    decreases p,
{
    if p > 0 && !fits_at(n, d, p) {
        lemma_finest_found(n, d, (p - 1) as nat);
    }
}

/// The text an amount is written with at `places` decimal places.
pub open spec fn amount_shown(value: Quant, places: u32) -> Seq<char> {
    let r = rounded_quant(value, places);
    rendered(r, min_places(r.render_precision) as nat, false)
}

/// An amount written out at the precision its currency is usually written
/// with, or more if it was typed more precisely
pub fn amount_text<F: Fn(&str) -> u32>(value: Quant, currency: &str, precision: &F) -> (r: String)
    requires
        value.wf(),
        forall|c: &str| #[trigger] precision.requires((c,)),
    ensures
        exists|p: u32| #[trigger] precision.ensures((currency,), p)
            && r@ == amount_shown(value, if p < value.render_precision { value.render_precision } else { p }),
{
    let p = precision(currency);
    let places = if p < value.render_precision() { value.render_precision() } else { p };
    let mut v = value;
    proof {
        lemma_round_possible(value.numerator as nat, value.denominator as nat, min_places(places) as nat);
    }
    v.round(places);
    assert(v == rounded_quant(value, places));
    v.to_string()
}


/// The precision gives `p` decimal places for the currency `c`.
pub open spec fn gives<F: Fn(&str) -> u32>(precision: &F, c: Seq<char>, p: u32) -> bool {
    exists|s: &str| s@ == c && #[trigger] precision.ensures((s,), p)
}

/// `t` is how an amount `v` in currency `c` is written, at the places the
/// precision gives for `c`, or more if `v` was typed more precisely.
pub open spec fn written_as<F: Fn(&str) -> u32>(precision: &F, v: Quant, c: Seq<char>, t: Seq<char>) -> bool {
    exists|p: u32| #[trigger] gives(precision, c, p)
        && t == amount_shown(v, if p < v.render_precision { v.render_precision } else { p })
}

/// The line's amount, if it has one, is a well-formed value.
pub open spec fn amount_wf(p: DraftPostingView) -> bool {
    p.amount matches Some((v, _)) ==> v.wf()
}

/// The line's amount, if it has one, is written `t`.
pub open spec fn line_written<F: Fn(&str) -> u32>(precision: &F, p: DraftPostingView, t: Seq<char>) -> bool {
    p.amount matches Some((v, c)) ==> written_as(precision, v, c, t)
}

/// `texts` are how the lines' amounts are written, one for each line.
pub open spec fn written_lines<F: Fn(&str) -> u32>(precision: &F, ps: Seq<DraftPostingView>, texts: Seq<Seq<char>>) -> bool {
    &&& texts.len() == ps.len()
    &&& forall|i: int| 0 <= i < ps.len() ==> line_written(precision, #[trigger] ps[i], texts[i])
}

/// No columns.
pub open spec fn no_cols() -> Cols {
    Cols { start: 0, end: 0 }
}

/// The posting a draft line is written as, its amount written `text`.
pub open spec fn line_posting(p: DraftPostingView, text: Seq<char>) -> PostingView {
    PostingView {
        account: p.account,
        account_cols: no_cols(),
        amount: match p.amount {
            Some((v, c)) => Some(AmountView {
                value: v,
                value_text: text,
                currency: c,
                cols: no_cols(),
                price: None,
                lot: None,
            }),
            None => None,
        },
    }
}

/// The widths after fitting the first `k` postings.
pub open spec fn widths_after(w: (int, int), ps: Seq<PostingView>, k: int) -> (int, int)
    decreases k,
{
    if k <= 0 { w } else { fit_widths(widths_after(w, ps, k - 1), ps[k - 1]) }
}

/// The first `k` postings, each on a line of its own after `indent`.
pub open spec fn posting_lines(indent: Seq<char>, w: (int, int), ps: Seq<PostingView>, k: int) -> Seq<char>
    decreases k,
{
    if k <= 0 {
        Seq::empty()
    } else {
        posting_lines(indent, w, ps, k - 1) + indent + posting_text(w.0, w.1, ps[k - 1]) + seq!['\n']
    }
}

/// A declaration line for each of the first `k` names.
pub open spec fn declarations(date: Date, keyword: Seq<char>, names: Seq<Seq<char>>, k: int) -> Seq<char>
    decreases k,
{
    if k <= 0 {
        Seq::empty()
    } else {
        declarations(date, keyword, names, k - 1) + "! "@ + date_text(date) + seq![' '] + keyword + seq![' ']
            + names[k - 1] + seq!['\n']
    }
}

/// An entry as ledger text: declarations of new names first where the
/// ledger declares its names, the header, then each posting laid out in the
/// file's style widened to fit them. A layout too wide to measure in a
/// `usize` is dropped for no padding at all.
pub open spec fn draft_text(date: Date, description: Seq<char>, postings: Seq<PostingView>, indent: Seq<char>,
    widths: (int, int), declare: bool, accounts: Seq<Seq<char>>, currencies: Seq<Seq<char>>) -> Seq<char> {
    let decl = if declare {
        declarations(date, "currency"@, currencies, currencies.len() as int)
            + declarations(date, "account"@, accounts, accounts.len() as int)
    } else {
        Seq::empty()
    };
    let w = widths_after(widths, postings, postings.len() as int);
    let w2 = if w.0 + w.1 + 2 <= usize::MAX { w } else { (0, 0) };
    decl + date_text(date) + seq![' '] + description + seq!['\n'] + posting_lines(indent, w2, postings, postings.len() as int)
}

/// Appends a declaration line.
fn push_declaration(out: &mut Vec<char>, date: &Vec<char>, keyword: &str, name: &str)
    ensures
        final(out)@ == old(out)@ + "! "@ + date@ + seq![' '] + keyword@ + seq![' '] + name@ + seq!['\n'],
{
    let ghost start = out@;
    extend_chars(out, "! ");
    let mut i: usize = 0;
    while i < date.len()
        invariant
            i <= date@.len(),
            out@ == start + "! "@ + date@.take(i as int),
        decreases date@.len() - i,
    {
        out.push(date[i]);
        assert(date@.take(i + 1) =~= date@.take(i as int).push(date@[i as int]));
        i = i + 1;
    }
    assert(date@.take(date@.len() as int) =~= date@);
    out.push(' ');
    extend_chars(out, keyword);
    out.push(' ');
    extend_chars(out, name);
    out.push('\n');
    assert(out@ =~= start + "! "@ + date@ + seq![' '] + keyword@ + seq![' '] + name@ + seq!['\n']);
}

impl Draft {
    /// The entry as ledger text in a file's style, preceded by declarations
    /// for any new names if the ledger declares its names
    pub fn to_text<F: Fn(&str) -> u32>(&self, style: &FileStyle, history: &History, precision: &F) -> (r: String)
        requires
            history.wf(),
            forall|i: int| 0 <= i < self.postings@.len() ==> amount_wf(#[trigger] self.postings@[i]@),
            forall|c: &str| #[trigger] precision.requires((c,)),
        ensures
            exists|texts: Seq<Seq<char>>| {
                &&& #[trigger] written_lines(precision, drafts_view(self.postings@), texts)
                &&& r@ == draft_text(
                    self.date,
                    self.description@,
                    Seq::new(drafts_view(self.postings@).len(), |i: int| line_posting(drafts_view(self.postings@)[i], texts[i])),
                    style.indent@,
                    (style.account_width as int, style.whole_width as int),
                    exists|a: Seq<char>| #[trigger] history.declared_accounts_view().contains(a),
                    new_accounts(drafts_view(self.postings@), history@.accounts.dom(), history.declared_accounts_view(), drafts_view(self.postings@).len() as int),
                    new_currencies(drafts_view(self.postings@), history@.currencies.dom(), history.declared_currencies_view(), drafts_view(self.postings@).len() as int),
                )
            },
    {
        let ghost ps = drafts_view(self.postings@);
        let mut out: Vec<char> = Vec::new();
        let date = chars_of(self.date.text().as_str());
        let declare = history.uses_declarations();
        if declare {
            let (accounts, currencies) = self.new_names(history);
            let mut k: usize = 0;
            while k < currencies.len()
                invariant
                    k <= currencies@.len(),
                    date@ == date_text(self.date),
                    out@ == declarations(self.date, "currency"@, strings(currencies@), k as int),
                decreases currencies@.len() - k,
            {
                assert(strings(currencies@)[k as int] == currencies@[k as int]@);
                push_declaration(&mut out, &date, "currency", currencies[k].as_str());
                k = k + 1;
            }
            let ghost decl_c = out@;
            let mut k: usize = 0;
            while k < accounts.len()
                invariant
                    k <= accounts@.len(),
                    date@ == date_text(self.date),
                    out@ == decl_c + declarations(self.date, "account"@, strings(accounts@), k as int),
                decreases accounts@.len() - k,
            {
                assert(strings(accounts@)[k as int] == accounts@[k as int]@);
                let ghost before = out@;
                push_declaration(&mut out, &date, "account", accounts[k].as_str());
                assert(out@ =~= decl_c + declarations(self.date, "account"@, strings(accounts@), k + 1));
                k = k + 1;
            }
        }
        let ghost decl = out@;
        extend_chars(&mut out, self.date.text().as_str());
        out.push(' ');
        extend_chars(&mut out, self.description.as_str());
        out.push('\n');
        let ghost head = out@;
        let mut postings: Vec<Posting> = Vec::new();
        let ghost mut texts: Seq<Seq<char>> = Seq::empty();
        let mut i: usize = 0;
        while i < self.postings.len()
            invariant
                i <= self.postings@.len(),
                ps == drafts_view(self.postings@),
                forall|j: int| 0 <= j < self.postings@.len() ==> amount_wf(#[trigger] self.postings@[j]@),
                forall|c: &str| #[trigger] precision.requires((c,)),
                texts.len() == i,
                postings@.len() == i,
                forall|j: int| 0 <= j < i ==> (#[trigger] postings@[j])@ == line_posting(ps[j], texts[j]),
                forall|j: int| 0 <= j < i ==> line_written(precision, #[trigger] ps[j], texts[j]),
            decreases self.postings@.len() - i,
        {
            let p = &self.postings[i];
            assert(ps[i as int] == p@);
            let zero = Cols { start: 0, end: 0 };
            let amount = match &p.amount {
                Some((v, c)) => {
                    let cs = c.as_str();
                    let text = amount_text(*v, cs, precision);
                    proof {
                        let q = choose|q: u32| #[trigger] precision.ensures((cs,), q)
                            && text@ == amount_shown(*v, if q < v.render_precision { v.render_precision } else { q });
                        assert(gives(precision, c@, q));
                        assert(written_as(precision, *v, c@, text@));
                        texts = texts.push(text@);
                    }
                    Some(PostingAmount { value: *v, value_text: text, currency: c.clone(), cols: zero, price: None, lot: None })
                },
                None => {
                    proof { texts = texts.push(Seq::empty()); }
                    None
                },
            };
            let posting = Posting { account: p.account.clone(), account_cols: zero, amount };
            let ghost prev = postings@;
            postings.push(posting);
            proof {
                assert(postings@[i as int]@ == line_posting(ps[i as int], texts[i as int]));
                assert forall|j: int| 0 <= j < i + 1 implies (#[trigger] postings@[j])@ == line_posting(ps[j], texts[j]) by {
                    if j < i {
                        assert(postings@[j] == prev[j]);
                    }
                }
            }
            i = i + 1;
        }
        let ghost pv = Seq::new(ps.len(), |j: int| line_posting(ps[j], texts[j]));
        let mut st = FileStyle { indent: style.indent.clone(), account_width: style.account_width, whole_width: style.whole_width };
        let mut k: usize = 0;
        while k < postings.len()
            invariant
                k <= postings@.len(),
                postings@.len() == pv.len(),
                forall|j: int| 0 <= j < postings@.len() ==> (#[trigger] postings@[j])@ == pv[j],
                st.indent@ == style.indent@,
                (st.account_width as int, st.whole_width as int)
                    == widths_after((style.account_width as int, style.whole_width as int), pv, k as int),
            decreases postings@.len() - k,
        {
            st.fit(&postings[k]);
            k = k + 1;
        }
        if st.account_width > usize::MAX - 2 || st.whole_width > usize::MAX - 2 - st.account_width {
            st.account_width = 0;
            st.whole_width = 0;
        }
        let mut k: usize = 0;
        while k < postings.len()
            invariant
                k <= postings@.len(),
                postings@.len() == pv.len(),
                forall|j: int| 0 <= j < postings@.len() ==> (#[trigger] postings@[j])@ == pv[j],
                st.indent@ == style.indent@,
                st.account_width + st.whole_width + 2 <= usize::MAX,
                out@ == head + posting_lines(style.indent@, (st.account_width as int, st.whole_width as int), pv, k as int),
            decreases postings@.len() - k,
        {
            extend_chars(&mut out, st.indent.as_str());
            let line = st.posting(&postings[k]);
            extend_chars(&mut out, line.as_str());
            out.push('\n');
            assert(out@ =~= head + posting_lines(style.indent@, (st.account_width as int, st.whole_width as int), pv, k + 1));
            k = k + 1;
        }
        proof {
            assert(head =~= decl + date_text(self.date) + seq![' '] + self.description@ + seq!['\n']);
        }
        let r = string_of(&out);
        assert(written_lines(precision, ps, texts));
        assert(r@ == draft_text(self.date, self.description@, pv, style.indent@,
            (style.account_width as int, style.whole_width as int), declare,
            new_accounts(ps, history@.accounts.dom(), history.declared_accounts_view(), ps.len() as int),
            new_currencies(ps, history@.currencies.dom(), history.declared_currencies_view(), ps.len() as int)));
        r
    }
}


/// The lines that lex, with what kind of line each is, of the first `k`.
pub open spec fn lexed_lines(lines: Seq<Seq<char>>, k: int) -> Seq<(Seq<char>, KindView)>
    decreases k,
{
    if k <= 0 {
        Seq::empty()
    } else {
        let before = lexed_lines(lines, k - 1);
        match lexed(lines[k - 1]) {
            Ok(v) => before.push((lines[k - 1], v.kind)),
            Err(_) => before,
        }
    }
}

/// A file's layout, learned from whichever of its lines make sense
pub fn detect_style(text: &str) -> (r: FileStyle)
    requires
        bytes_of(text@) < usize::MAX,
    ensures
        ({
            let lines = text_lines(text@);
            let known = lexed_lines(lines, lines.len() as int);
            let (tabs, counts, widths) = detect_state(known, known.len() as int);
            &&& r.indent@ == detected_indent(tabs, counts)
            &&& (r.account_width as int, r.whole_width as int) == widths
        }),
{
    let lines = text_lines_of(text);
    let ghost lv = text_lines(text@);
    proof { lemma_lines_bytes(text@); }
    let mut kept: Vec<(String, Line)> = Vec::new();
    let mut i: usize = 0;
    while i < lines.len()
        invariant
            i <= lines@.len(),
            lines.deep_view() == lv,
            forall|j: int| 0 <= j < lv.len() ==> bytes_of(#[trigger] lv[j]) <= bytes_of(text@),
            bytes_of(text@) < usize::MAX,
            kept@.map_values(|x: (String, Line)| (x.0@, x.1.kind@)) == lexed_lines(lv, i as int),
        decreases lines@.len() - i,
    {
        let raw = string_of(&lines[i]);
        assert(raw@ == lv[i as int]);
        match lex_line(raw.as_str(), FileId(0), i + 1) {
            Ok(line) => {
                let ghost before = kept@;
                let ghost entry = (raw@, line.kind@);
                kept.push((raw, line));
                assert(kept@.map_values(|x: (String, Line)| (x.0@, x.1.kind@))
                    =~= before.map_values(|x: (String, Line)| (x.0@, x.1.kind@)).push(entry));
            },
            Err(_) => {},
        }
        i = i + 1;
    }
    let mut pairs: Vec<(&str, &Line)> = Vec::new();
    let mut k: usize = 0;
    while k < kept.len()
        invariant
            k <= kept@.len(),
            line_kinds(pairs@) == kept@.map_values(|x: (String, Line)| (x.0@, x.1.kind@)).take(k as int),
        decreases kept@.len() - k,
    {
        let ghost before = pairs@;
        pairs.push((kept[k].0.as_str(), &kept[k].1));
        assert(line_kinds(pairs@) =~= line_kinds(before).push((kept@[k as int].0@, kept@[k as int].1.kind@)));
        assert(kept@.map_values(|x: (String, Line)| (x.0@, x.1.kind@)).take(k + 1)
            =~= kept@.map_values(|x: (String, Line)| (x.0@, x.1.kind@)).take(k as int).push((kept@[k as int].0@, kept@[k as int].1.kind@)));
        k = k + 1;
    }
    assert(kept@.map_values(|x: (String, Line)| (x.0@, x.1.kind@)).take(kept@.len() as int)
        =~= kept@.map_values(|x: (String, Line)| (x.0@, x.1.kind@)));
    FileStyle::detect(pairs.as_slice())
}

/// Why written text would not read back as the entry it was written for.
pub enum ReadBack {
    /// Line `index` (from 0) did not lex
    Lex { index: int, fault: Fault },
    /// A line has a comment: a `#` typed in the entry
    Hash,
}

/// Reading the first `k` lines back: the description and accounts read so
/// far, or the first reason they would not read back.
pub open spec fn read_back(lines: Seq<Seq<char>>, k: int) -> Result<(Option<Seq<char>>, Seq<Seq<char>>), ReadBack>
    decreases k,
{
    if k <= 0 {
        Ok((None, Seq::empty()))
    } else {
        match read_back(lines, k - 1) {
            Err(e) => Err(e),
            Ok((d, accounts)) => match lex_result(lines[k - 1]) {
                Err(fault) => Err(ReadBack::Lex { index: k - 1, fault }),
                Ok(v) => {
                    let (d2, a2) = match v.kind {
                        KindView::Header { description, .. } => (Some(description), accounts),
                        KindView::Posting(p) => (d, accounts.push(p.account)),
                        _ => (d, accounts),
                    };
                    if v.comment is Some { Err(ReadBack::Hash) } else { Ok((d2, a2)) }
                },
            },
        }
    }
}

/// Once reading back fails, reading further lines changes nothing.
proof fn lemma_read_back_stays(lines: Seq<Seq<char>>, k: int, n: int)
    requires
        0 <= k <= n,
        read_back(lines, k) is Err,
    ensures
        read_back(lines, n) == read_back(lines, k),
    decreases n - k,
{
    if k < n {
        lemma_read_back_stays(lines, k, n - 1);
    }
}

/// The message for a `#` in an entry.
pub open spec fn hash_message() -> Seq<char> {
    "`#` would start a comment, so it can't be part of an entry"@
}

/// The message for an entry that reads back as something else.
pub open spec fn mismatch_message() -> Seq<char> {
    "The entry wouldn't read back the way it was written"@
}

impl Draft {
    /// Checks that text written for this draft reads back as exactly this
    /// entry, so that nothing typed, like a `#`, can quietly change it
    pub fn reads_back(&self, block: &str) -> (r: Result<(), Diagnostic>)
        requires
            bytes_of(block@) < usize::MAX,
        ensures
            ({
                let lines = text_lines(block@);
                match read_back(lines, lines.len() as int) {
                    Err(ReadBack::Lex { index, fault }) => r matches Err(d)
                        && reports(d, fault, FileId(0), (index + 1) as usize),
                    Err(ReadBack::Hash) => r matches Err(d) && d.severity == Severity::Error
                        && d.message@ == hash_message()
                        && opt_view(d.help) == Some("leave it out, or write something like “No. 1234”"@),
                    Ok((description, accounts)) => if description == Some(self.description@)
                        && accounts == drafts_view(self.postings@).map_values(|p: DraftPostingView| p.account) {
                        r is Ok
                    } else {
                        r matches Err(d) && d.severity == Severity::Error && d.message@ == mismatch_message()
                            && opt_view(d.help) == Some("check the description and account names for unusual characters"@)
                    },
                }
            }),
    {
        let lines = text_lines_of(block);
        let ghost lv = text_lines(block@);
        proof { lemma_lines_bytes(block@); }
        let mut description: Option<String> = None;
        let mut accounts: Vec<String> = Vec::new();
        assert(strings(accounts@) =~= Seq::<Seq<char>>::empty());
        let mut i: usize = 0;
        while i < lines.len()
            invariant
                i <= lines@.len(),
                lines.deep_view() == lv,
                lv == text_lines(block@),
                forall|j: int| 0 <= j < lv.len() ==> bytes_of(#[trigger] lv[j]) <= bytes_of(block@),
                bytes_of(block@) < usize::MAX,
                read_back(lv, i as int) == Ok::<(Option<Seq<char>>, Seq<Seq<char>>), ReadBack>((opt_view(description), strings(accounts@))),
            decreases lines@.len() - i,
        {
            let raw = string_of(&lines[i]);
            assert(raw@ == lv[i as int]);
            let line = match lex_one(raw.as_str(), FileId(0), i + 1) {
                Ok(l) => l,
                Err(d) => {
                    proof {
                        let f = lex_result(lv[i as int])->Err_0;
                        assert(read_back(lv, i + 1) == Err::<(Option<Seq<char>>, Seq<Seq<char>>), ReadBack>(
                            ReadBack::Lex { index: i as int, fault: f }));
                        lemma_read_back_stays(lv, i + 1, lv.len() as int);
                    }
                    return Err(d);
                },
            };
            match &line.kind {
                LineKind::Header(h) => {
                    description = Some(h.description.clone());
                },
                LineKind::Posting(p) => {
                    let ghost before = accounts@;
                    accounts.push(p.account.clone());
                    assert(strings(accounts@) =~= strings(before).push(p.account@));
                },
                _ => {},
            }
            if line.comment.is_some() {
                proof {
                    assert(read_back(lv, i + 1) == Err::<(Option<Seq<char>>, Seq<Seq<char>>), ReadBack>(ReadBack::Hash));
                    lemma_read_back_stays(lv, i + 1, lv.len() as int);
                }
                let e = Diagnostic::error("`#` would start a comment, so it can't be part of an entry");
                return Err(e.help("leave it out, or write something like “No. 1234”"));
            }
            i = i + 1;
        }
        let mut same = match &description {
            Some(d) => str_eq(d.as_str(), self.description.as_str()),
            None => false,
        };
        if same {
            if accounts.len() != self.postings.len() {
                same = false;
            } else {
                let mut k: usize = 0;
                while k < accounts.len()
                    invariant
                        k <= accounts@.len(),
                        accounts@.len() == self.postings@.len(),
                        same == (forall|j: int| 0 <= j < k ==> (#[trigger] accounts@[j])@ == self.postings@[j].account@),
                    decreases accounts@.len() - k,
                {
                    if !str_eq(accounts[k].as_str(), self.postings[k].account.as_str()) {
                        same = false;
                    }
                    k = k + 1;
                }
            }
        }
        proof {
            let expected = drafts_view(self.postings@).map_values(|p: DraftPostingView| p.account);
            if same {
                assert(strings(accounts@) =~= expected);
            } else if description is Some && opt_view(description) == Some(self.description@) {
                if strings(accounts@) == expected {
                    assert(strings(accounts@).len() == accounts@.len());
                    assert(expected.len() == self.postings@.len());
                    assert(accounts@.len() == self.postings@.len());
                    assert forall|j: int| 0 <= j < accounts@.len() implies (#[trigger] accounts@[j])@ == self.postings@[j].account@ by {
                        assert(strings(accounts@)[j] == expected[j]);
                    }
                }
            }
        }
        if same {
            Ok(())
        } else {
            let e = Diagnostic::error("The entry wouldn't read back the way it was written");
            Err(e.help("check the description and account names for unusual characters"))
        }
    }
}

} // verus!
