//! What the ledger already says, as a source of suggestions for new entries.
//!
//! Built from the lines as written, not the balanced ledger, so that a new
//! entry can be modelled on exactly what was typed last time.

use vstd::prelude::*;
use crate::input::fuzzy::{lex_less, lex_less_exec, lemma_lex_total, lemma_lex_trans};
use crate::parsing::loader::{Item, ItemView, items_view, strings_view};
use crate::syntax::lexer::{Directive, DirectiveView, KindView, LineKind, Posting, PostingView};
use crate::syntax::source::FileId;
use crate::text::chars::{chars_of, str_eq};
use crate::util::date::{Date, date_le, first_day};

verus! {

/// How often and how recently something was used
#[derive(Clone, Copy, Debug)]
pub struct Usage {
    pub count: usize,
    pub last: Date,
}

/// Not yet used.
pub open spec fn fresh_usage() -> Usage {
    Usage { count: 0, last: first_day() }
}

impl Default for Usage {
    fn default() -> (r: Usage)
        ensures
            r == fresh_usage(),
    {
        Usage { count: 0, last: Date::min() }
    }
}

/// One more, stopping at the largest count there is.
pub open spec fn one_more(n: usize) -> usize {
    if n < usize::MAX { (n + 1) as usize } else { n }
}

/// The later of two days.
pub open spec fn later(a: Date, b: Date) -> Date {
    if date_le(b, a) { a } else { b }
}

/// `u`, used once more on `date`.
pub open spec fn bumped(u: Usage, date: Date) -> Usage {
    Usage { count: one_more(u.count), last: later(u.last, date) }
}

impl Usage {
    fn note(&mut self, date: Date)
        ensures
            *final(self) == bumped(*old(self), date),
    {
        if self.count < usize::MAX {
            self.count = self.count + 1;
        }
        if self.last.is_on_or_before(&date) {
            self.last = date;
        }
    }
}

/// The posting has no price or lot.
pub open spec fn plain_amount(p: PostingView) -> bool {
    p.amount matches Some(a) ==> a.price is None && a.lot is None
}

/// Whether postings can be reused by changing just an amount: no prices or
/// lots, and one currency throughout.
pub open spec fn simple_template(t: Seq<PostingView>) -> bool {
    &&& forall|i: int| 0 <= i < t.len() ==> plain_amount(#[trigger] t[i])
    &&& forall|i: int, j: int| 0 <= i < t.len() && 0 <= j < t.len() && (#[trigger] t[i]).amount is Some
        && (#[trigger] t[j]).amount is Some ==> t[i].amount->0.currency == t[j].amount->0.currency
}

/// The postings as plain values.
pub open spec fn postings_view(ps: Seq<Posting>) -> Seq<PostingView> {
    ps.map_values(|p: Posting| p@)
}

/// A description used before, and the entry it was last used on
#[derive(Debug)]
pub struct Payee {
    pub name: String,
    pub usage: Usage,
    /// The postings of the most recent entry with this description
    pub template: Vec<Posting>,
    /// When that entry was dated
    pub template_date: Date,
}

/// A payee as plain values.
pub struct PayeeView {
    pub name: Seq<char>,
    pub usage: Usage,
    pub template: Seq<PostingView>,
    pub template_date: Date,
}

impl View for Payee {
    type V = PayeeView;

    open spec fn view(&self) -> PayeeView {
        PayeeView {
            name: self.name@,
            usage: self.usage,
            template: postings_view(self.template@),
            template_date: self.template_date,
        }
    }
}

impl Payee {
    /// Whether the template can be reused by changing just an amount:
    /// simple postings, without prices or lots.
    pub fn is_simple(&self) -> (r: bool)
        ensures
            r == simple_template(self@.template),
    {
        let t = &self.template;
        let ghost tv = postings_view(t@);
        let mut first: Option<&String> = None;
        let mut i: usize = 0;
        while i < t.len()
            invariant
                i <= t@.len(),
                tv == postings_view(t@),
                tv == postings_view(self.template@),
                forall|k: int| 0 <= k < i ==> plain_amount(#[trigger] tv[k]),
                forall|k: int, l: int| 0 <= k < i && 0 <= l < i && (#[trigger] tv[k]).amount is Some
                    && (#[trigger] tv[l]).amount is Some ==> tv[k].amount->0.currency == tv[l].amount->0.currency,
                first matches Some(c) ==> exists|k: int| 0 <= k < i && (#[trigger] tv[k]).amount is Some
                    && tv[k].amount->0.currency == c@,
                first is None ==> forall|k: int| 0 <= k < i ==> (#[trigger] tv[k]).amount is None,
            decreases t@.len() - i,
        {
            assert(tv[i as int] == t@[i as int]@);
            match &t[i].amount {
                Some(a) => {
                    if a.price.is_some() || a.lot.is_some() {
                        assert(!plain_amount(tv[i as int]));
                        assert(!simple_template(tv));
                        return false;
                    }
                    match first {
                        Some(c) => {
                            if !str_eq(c.as_str(), a.currency.as_str()) {
                                proof {
                                    let k = choose|k: int| 0 <= k < i && (#[trigger] tv[k]).amount is Some
                                        && tv[k].amount->0.currency == c@;
                                    assert(tv[k].amount->0.currency != tv[i as int].amount->0.currency);
                                    assert(!simple_template(tv));
                                }
                                return false;
                            }
                        },
                        None => {
                            first = Some(&a.currency);
                        },
                    }
                },
                None => {},
            }
            i = i + 1;
        }
        true
    }
}

/// A dated entry as written: its header's date and description, the
/// postings under it, and the file it is in.
pub struct EntryView {
    pub date: Date,
    pub description: Seq<char>,
    pub postings: Seq<PostingView>,
    pub file: FileId,
}

/// The entries so far, with the one in progress closed: it counts only if
/// it has postings.
pub open spec fn closed(done: Seq<EntryView>, pending: Option<EntryView>) -> Seq<EntryView> {
    match pending {
        Some(e) => if e.postings.len() > 0 { done.push(e) } else { done },
        None => done,
    }
}

/// Reading the first `n` items: the entries finished, and the one in
/// progress. A header starts an entry; a blank line, another header or the
/// end of a file ends it; a posting belongs to the entry in progress.
pub open spec fn gathered(items: Seq<ItemView>, n: int) -> (Seq<EntryView>, Option<EntryView>)
    decreases n,
{
    if n <= 0 {
        (Seq::empty(), None)
    } else {
        let g = gathered(items, n - 1);
        match items[n - 1] {
            ItemView::EndOfFile(_) => (closed(g.0, g.1), None),
            ItemView::Line { file, line, .. } => match line.kind {
                KindView::Blank => (closed(g.0, g.1), None),
                KindView::Header { date, description } => (
                    closed(g.0, g.1),
                    Some(EntryView { date, description, postings: Seq::empty(), file }),
                ),
                KindView::Posting(p) => (g.0, match g.1 {
                    Some(e) => Some(EntryView {
                        date: e.date,
                        description: e.description,
                        postings: e.postings.push(p),
                        file: e.file,
                    }),
                    None => None,
                }),
                _ => g,
            },
        }
    }
}

/// Every entry with postings, in order.
pub open spec fn entries_of(items: Seq<ItemView>) -> Seq<EntryView> {
    let g = gathered(items, items.len() as int);
    closed(g.0, g.1)
}

/// Whether the item declares account `a`.
pub open spec fn declares_account(item: ItemView, a: Seq<char>) -> bool {
    &&& item matches ItemView::Line { line, .. }
    &&& line.kind matches KindView::Directive { directive, .. }
    &&& (directive == DirectiveView::Account(a) || directive == DirectiveView::Open(a))
}

/// Whether the item declares currency `c`.
pub open spec fn declares_currency(item: ItemView, c: Seq<char>) -> bool {
    &&& item matches ItemView::Line { line, .. }
    &&& line.kind matches KindView::Directive { directive, .. }
    &&& directive == DirectiveView::Currency(c)
}

/// The accounts declared by the first `n` items.
pub open spec fn declared_accounts_in(items: Seq<ItemView>, n: int) -> Set<Seq<char>> {
    Set::new(|a: Seq<char>| exists|i: int| 0 <= i < n && declares_account(items[i], a))
}

/// The currencies declared by the first `n` items.
pub open spec fn declared_currencies_in(items: Seq<ItemView>, n: int) -> Set<Seq<char>> {
    Set::new(|c: Seq<char>| exists|i: int| 0 <= i < n && declares_currency(items[i], c))
}

/// The usage of `k` in `m`, unused where it is absent.
pub open spec fn usage_in(m: Map<Seq<char>, Usage>, k: Seq<char>) -> Usage {
    if m.dom().contains(k) { m[k] } else { fresh_usage() }
}

/// `m` with `k` used once more on `date`.
pub open spec fn noted_in(m: Map<Seq<char>, Usage>, k: Seq<char>, date: Date) -> Map<Seq<char>, Usage> {
    m.insert(k, bumped(usage_in(m, k), date))
}

/// The count of `k` in `m`, zero where it is absent.
pub open spec fn count_in(m: Map<(Seq<char>, Seq<char>), usize>, k: (Seq<char>, Seq<char>)) -> usize {
    if m.dom().contains(k) { m[k] } else { 0 }
}

/// `m` with `k` counted once more.
pub open spec fn bumped_in(m: Map<(Seq<char>, Seq<char>), usize>, k: (Seq<char>, Seq<char>))
    -> Map<(Seq<char>, Seq<char>), usize> {
    m.insert(k, one_more(count_in(m, k)))
}

/// The accounts of the first `k` postings, each used on `date`.
pub open spec fn accounts_noted(m: Map<Seq<char>, Usage>, ps: Seq<PostingView>, date: Date, k: int)
    -> Map<Seq<char>, Usage>
    decreases k,
{
    if k <= 0 { m } else { noted_in(accounts_noted(m, ps, date, k - 1), ps[k - 1].account, date) }
}

/// The currencies of the first `k` postings' amounts, each used on `date`.
pub open spec fn currencies_noted(m: Map<Seq<char>, Usage>, ps: Seq<PostingView>, date: Date, k: int)
    -> Map<Seq<char>, Usage>
    decreases k,
{
    if k <= 0 {
        m
    } else {
        let m1 = currencies_noted(m, ps, date, k - 1);
        match ps[k - 1].amount {
            Some(a) => noted_in(m1, a.currency, date),
            None => m1,
        }
    }
}

/// Each of the first `k` postings with an amount counted under its account
/// and currency.
pub open spec fn currencies_counted(m: Map<(Seq<char>, Seq<char>), usize>, ps: Seq<PostingView>, k: int)
    -> Map<(Seq<char>, Seq<char>), usize>
    decreases k,
{
    if k <= 0 {
        m
    } else {
        let m1 = currencies_counted(m, ps, k - 1);
        match ps[k - 1].amount {
            Some(a) => bumped_in(m1, (ps[k - 1].account, a.currency)),
            None => m1,
        }
    }
}

/// Each of the first `j` postings with another account than `p` counted as
/// a partner of `p`'s account.
pub open spec fn partners_of(m: Map<(Seq<char>, Seq<char>), usize>, p: PostingView, ps: Seq<PostingView>, j: int)
    -> Map<(Seq<char>, Seq<char>), usize>
    decreases j,
{
    if j <= 0 {
        m
    } else {
        let m1 = partners_of(m, p, ps, j - 1);
        if ps[j - 1].account != p.account { bumped_in(m1, (p.account, ps[j - 1].account)) } else { m1 }
    }
}

/// The partners of each of the first `k` postings counted.
pub open spec fn partners_counted(m: Map<(Seq<char>, Seq<char>), usize>, ps: Seq<PostingView>, k: int)
    -> Map<(Seq<char>, Seq<char>), usize>
    decreases k,
{
    if k <= 0 { m } else { partners_of(partners_counted(m, ps, k - 1), ps[k - 1], ps, ps.len() as int) }
}

/// The payee of entry `e` once it is noted: used once more, and modelled on
/// `e` unless it was last modelled on a later entry.
pub open spec fn payee_after(payees: Map<Seq<char>, PayeeView>, e: EntryView) -> PayeeView {
    let before = if payees.dom().contains(e.description) {
        payees[e.description]
    } else {
        PayeeView { name: e.description, usage: fresh_usage(), template: Seq::empty(), template_date: first_day() }
    };
    let usage = bumped(before.usage, e.date);
    if date_le(before.template_date, e.date) {
        PayeeView { name: before.name, usage, template: e.postings, template_date: e.date }
    } else {
        PayeeView { name: before.name, usage, template: before.template, template_date: before.template_date }
    }
}

/// What a history knows, as plain values.
pub struct HistoryView {
    pub accounts: Map<Seq<char>, Usage>,
    pub currencies: Map<Seq<char>, Usage>,
    pub payees: Map<Seq<char>, PayeeView>,
    /// How often each account was used with each currency
    pub account_currencies: Map<(Seq<char>, Seq<char>), usize>,
    /// How often each account had each other account beside it
    pub partners: Map<(Seq<char>, Seq<char>), usize>,
    pub latest: Option<(FileId, Date)>,
    pub entries: usize,
}

/// Knows nothing yet.
pub open spec fn empty_history() -> HistoryView {
    HistoryView {
        accounts: Map::empty(),
        currencies: Map::empty(),
        payees: Map::empty(),
        account_currencies: Map::empty(),
        partners: Map::empty(),
        latest: None,
        entries: 0,
    }
}

/// `h`, having noted entry `e`.
pub open spec fn recorded(h: HistoryView, e: EntryView) -> HistoryView {
    let n = e.postings.len() as int;
    HistoryView {
        accounts: accounts_noted(h.accounts, e.postings, e.date, n),
        currencies: currencies_noted(h.currencies, e.postings, e.date, n),
        payees: h.payees.insert(e.description, payee_after(h.payees, e)),
        account_currencies: currencies_counted(h.account_currencies, e.postings, n),
        partners: partners_counted(h.partners, e.postings, n),
        latest: match h.latest {
            Some(l) => if date_le(l.1, e.date) { Some((e.file, e.date)) } else { h.latest },
            None => Some((e.file, e.date)),
        },
        entries: one_more(h.entries),
    }
}

/// What noting the entries in order tells.
pub open spec fn summary(entries: Seq<EntryView>) -> HistoryView
    decreases entries.len(),
{
    if entries.len() == 0 {
        empty_history()
    } else {
        recorded(summary(entries.drop_last()), entries.last())
    }
}

/// A sequence of pairs as a map from each first to its second; later pairs
/// win, though where the firsts are distinct there is nothing to win.
pub open spec fn table<K, V>(s: Seq<(K, V)>) -> Map<K, V>
    decreases s.len(),
{
    if s.len() == 0 {
        Map::empty()
    } else {
        table(s.drop_last()).insert(s.last().0, s.last().1)
    }
}

/// No two pairs share a first.
pub open spec fn distinct_keys<K, V>(s: Seq<(K, V)>) -> bool {
    forall|i: int, j: int| 0 <= i < j < s.len() ==> (#[trigger] s[i]).0 != (#[trigger] s[j]).0
}

proof fn lemma_table_get<K, V>(s: Seq<(K, V)>, i: int)
    requires
        distinct_keys(s),
        0 <= i < s.len(),
    ensures
        table(s).dom().contains(s[i].0),
        table(s)[s[i].0] == s[i].1,
    decreases s.len(),
{
    if i < s.len() - 1 {
        assert(s.drop_last()[i] == s[i]);
        lemma_table_get(s.drop_last(), i);
        assert(s.last().0 != s[i].0);
    }
}

proof fn lemma_table_dom<K, V>(s: Seq<(K, V)>, k: K)
    ensures
        table(s).dom().contains(k) <==> exists|i: int| 0 <= i < s.len() && (#[trigger] s[i]).0 == k,
    decreases s.len(),
{
    if s.len() > 0 {
        lemma_table_dom(s.drop_last(), k);
        if table(s.drop_last()).dom().contains(k) {
            let i = choose|i: int| 0 <= i < s.drop_last().len() && (#[trigger] s.drop_last()[i]).0 == k;
            assert(s[i] == s.drop_last()[i]);
        }
        if exists|i: int| 0 <= i < s.len() && (#[trigger] s[i]).0 == k {
            let i = choose|i: int| 0 <= i < s.len() && (#[trigger] s[i]).0 == k;
            if i < s.len() - 1 {
                assert(s.drop_last()[i] == s[i]);
            }
        }
    }
}

proof fn lemma_table_update<K, V>(s: Seq<(K, V)>, i: int, v: V)
    requires
        distinct_keys(s),
        0 <= i < s.len(),
    ensures
        table(s.update(i, (s[i].0, v))) == table(s).insert(s[i].0, v),
        distinct_keys(s.update(i, (s[i].0, v))),
    decreases s.len(),
{
    let t = s.update(i, (s[i].0, v));
    if i == s.len() - 1 {
        assert(t.drop_last() =~= s.drop_last());
        assert(table(t) =~= table(s).insert(s[i].0, v));
    } else {
        assert(t.drop_last() =~= s.drop_last().update(i, (s[i].0, v)));
        assert(s.drop_last()[i] == s[i]);
        lemma_table_update(s.drop_last(), i, v);
        assert(s.last().0 != s[i].0);
        assert(table(t) =~= table(s).insert(s[i].0, v));
    }
}

proof fn lemma_table_push<K, V>(s: Seq<(K, V)>, k: K, v: V)
    requires
        distinct_keys(s),
        forall|i: int| 0 <= i < s.len() ==> (#[trigger] s[i]).0 != k,
    ensures
        table(s.push((k, v))) == table(s).insert(k, v),
        distinct_keys(s.push((k, v))),
{
    assert(s.push((k, v)).drop_last() =~= s);
}


/// A table of usages as plain values.
pub open spec fn usage_table(v: Seq<(String, Usage)>) -> Seq<(Seq<char>, Usage)> {
    v.map_values(|p: (String, Usage)| (p.0@, p.1))
}

/// A table of pair counts as plain values.
pub open spec fn pair_table(v: Seq<((String, String), usize)>) -> Seq<((Seq<char>, Seq<char>), usize)> {
    v.map_values(|p: ((String, String), usize)| ((p.0.0@, p.0.1@), p.1))
}

/// Payees as plain values, each under its name.
pub open spec fn payee_table(v: Seq<Payee>) -> Seq<(Seq<char>, PayeeView)> {
    v.map_values(|p: Payee| (p.name@, p@))
}

fn one_more_exec(n: usize) -> (r: usize)
    ensures
        r == one_more(n),
{
    if n < usize::MAX { n + 1 } else { n }
}

/// Uses `key` once more on `date`.
fn note_usage(v: &mut Vec<(String, Usage)>, key: &str, date: Date)
    requires
        distinct_keys(usage_table(old(v)@)),
    ensures
        distinct_keys(usage_table(final(v)@)),
        table(usage_table(final(v)@)) == noted_in(table(usage_table(old(v)@)), key@, date),
{
    let ghost t0 = usage_table(v@);
    let mut i: usize = 0;
    while i < v.len()
        invariant
            i <= v@.len(),
            v@ == old(v)@,
            t0 == usage_table(v@),
            distinct_keys(t0),
            forall|k: int| 0 <= k < i ==> (#[trigger] t0[k]).0 != key@,
        decreases v@.len() - i,
    {
        if str_eq(v[i].0.as_str(), key) {
            let mut u = v[i].1;
            u.note(date);
            let k = v[i].0.clone();
            v.set(i, (k, u));
            proof {
                lemma_table_get(t0, i as int);
                lemma_table_update(t0, i as int, u);
                assert(usage_table(v@) =~= t0.update(i as int, (t0[i as int].0, u)));
            }
            return;
        }
        i = i + 1;
    }
    let mut u = Usage::default();
    u.note(date);
    v.push((key.to_owned(), u));
    proof {
        lemma_table_dom(t0, key@);
        lemma_table_push(t0, key@, u);
        assert(usage_table(v@) =~= t0.push((key@, u)));
    }
}

/// Counts the pair `(a, b)` once more.
fn bump_pair(v: &mut Vec<((String, String), usize)>, a: &str, b: &str)
    requires
        distinct_keys(pair_table(old(v)@)),
    ensures
        distinct_keys(pair_table(final(v)@)),
        table(pair_table(final(v)@)) == bumped_in(table(pair_table(old(v)@)), (a@, b@)),
{
    let ghost t0 = pair_table(v@);
    let mut i: usize = 0;
    while i < v.len()
        invariant
            i <= v@.len(),
            v@ == old(v)@,
            t0 == pair_table(v@),
            distinct_keys(t0),
            forall|k: int| 0 <= k < i ==> (#[trigger] t0[k]).0 != (a@, b@),
        decreases v@.len() - i,
    {
        if str_eq(v[i].0.0.as_str(), a) && str_eq(v[i].0.1.as_str(), b) {
            let n = one_more_exec(v[i].1);
            let key = (v[i].0.0.clone(), v[i].0.1.clone());
            v.set(i, (key, n));
            proof {
                lemma_table_get(t0, i as int);
                lemma_table_update(t0, i as int, n);
                assert(pair_table(v@) =~= t0.update(i as int, (t0[i as int].0, n)));
            }
            return;
        }
        i = i + 1;
    }
    v.push(((a.to_owned(), b.to_owned()), 1));
    proof {
        lemma_table_dom(t0, (a@, b@));
        lemma_table_push(t0, (a@, b@), 1);
        assert(pair_table(v@) =~= t0.push(((a@, b@), 1usize)));
    }
}

/// Counts each of `ps` with another account than `p` as a partner of
/// `p`'s account.
fn count_partners(partners: &mut Vec<((String, String), usize)>, p: &Posting, ps: &Vec<Posting>)
    requires
        distinct_keys(pair_table(old(partners)@)),
    ensures
        distinct_keys(pair_table(final(partners)@)),
        table(pair_table(final(partners)@))
            == partners_of(table(pair_table(old(partners)@)), p@, postings_view(ps@), ps@.len() as int),
{
    let ghost base = table(pair_table(partners@));
    let ghost pv = postings_view(ps@);
    let mut j: usize = 0;
    while j < ps.len()
        invariant
            j <= ps@.len(),
            pv == postings_view(ps@),
            base == table(pair_table(old(partners)@)),
            distinct_keys(pair_table(partners@)),
            table(pair_table(partners@)) == partners_of(base, p@, pv, j as int),
        decreases ps@.len() - j,
    {
        let o = &ps[j];
        assert(pv[j as int] == o@);
        if !str_eq(o.account.as_str(), p.account.as_str()) {
            bump_pair(partners, p.account.as_str(), o.account.as_str());
        }
        j = j + 1;
    }
}

/// An entry being read.
struct Pending {
    date: Date,
    description: String,
    postings: Vec<Posting>,
    file: FileId,
}

spec fn pending_view(p: Option<Pending>) -> Option<EntryView> {
    match p {
        Some(e) => Some(EntryView {
            date: e.date,
            description: e.description@,
            postings: postings_view(e.postings@),
            file: e.file,
        }),
        None => None,
    }
}

/// Notes that entry `e` used its description once more, and models the
/// payee on it unless it was last modelled on a later entry.
fn note_payee(payees: &mut Vec<Payee>, e: Pending)
    requires
        distinct_keys(payee_table(old(payees)@)),
    ensures
        distinct_keys(payee_table(final(payees)@)),
        table(payee_table(final(payees)@)) == ({
            let m = table(payee_table(old(payees)@));
            let ev = pending_view(Some(e))->0;
            m.insert(ev.description, payee_after(m, ev))
        }),
{
    let ghost t0 = payee_table(payees@);
    let ghost ev = pending_view(Some(e))->0;
    let mut i: usize = 0;
    while i < payees.len()
        invariant
            i <= payees@.len(),
            payees@ == old(payees)@,
            t0 == payee_table(payees@),
            distinct_keys(t0),
            ev == pending_view(Some(e))->0,
            forall|k: int| 0 <= k < i ==> (#[trigger] t0[k]).0 != e.description@,
        decreases payees@.len() - i,
    {
        if str_eq(payees[i].name.as_str(), e.description.as_str()) {
            let mut p = Payee { name: String::new(), usage: Usage::default(), template: Vec::new(), template_date: Date::min() };
            payees.set_and_swap(i, &mut p);
            assert(p@ == t0[i as int].1);
            proof { lemma_table_get(t0, i as int); }
            p.usage.note(e.date);
            if p.template_date.is_on_or_before(&e.date) {
                p.template = e.postings;
                p.template_date = e.date;
            }
            let ghost pv = p@;
            payees.set(i, p);
            proof {
                assert(pv == payee_after(table(t0), ev));
                lemma_table_update(t0, i as int, pv);
                assert(payee_table(payees@) =~= t0.update(i as int, (t0[i as int].0, pv)));
            }
            return;
        }
        i = i + 1;
    }
    let mut p = Payee { name: e.description.clone(), usage: Usage::default(), template: Vec::new(), template_date: Date::min() };
    p.usage.note(e.date);
    if p.template_date.is_on_or_before(&e.date) {
        p.template = e.postings;
        p.template_date = e.date;
    }
    proof {
        lemma_table_dom(t0, ev.description);
        assert(p@.template =~= payee_after(table(t0), ev).template);
        assert(p@ == payee_after(table(t0), ev));
    }
    let ghost pv = p@;
    payees.push(p);
    proof {
        lemma_table_push(t0, ev.description, pv);
        assert(payee_table(payees@) =~= t0.push((ev.description, pv)));
    }
}


/// What the ledger says: the accounts, currencies and descriptions used,
/// how often and how recently, and what it declares.
#[derive(Debug)]
pub struct History {
    accounts: Vec<(String, Usage)>,
    currencies: Vec<(String, Usage)>,
    payees: Vec<Payee>,
    declared_accounts: Vec<String>,
    declared_currencies: Vec<String>,
    /// For each account and currency, how often they were used together
    account_currencies: Vec<((String, String), usize)>,
    /// For each account and other account, how often the other appeared
    /// beside it
    partners: Vec<((String, String), usize)>,
    /// The file holding the latest-dated entry, and that date
    pub latest: Option<(FileId, Date)>,
    pub entries: usize,
}

impl View for History {
    type V = HistoryView;

    closed spec fn view(&self) -> HistoryView {
        HistoryView {
            accounts: table(usage_table(self.accounts@)),
            currencies: table(usage_table(self.currencies@)),
            payees: table(payee_table(self.payees@)),
            account_currencies: table(pair_table(self.account_currencies@)),
            partners: table(pair_table(self.partners@)),
            latest: self.latest,
            entries: self.entries,
        }
    }
}

/// Closing the entry in progress notes it, if it has postings.
proof fn lemma_summary_closed(done: Seq<EntryView>, pending: Option<EntryView>)
    ensures
        summary(closed(done, pending)) == match pending {
            Some(e) => if e.postings.len() > 0 { recorded(summary(done), e) } else { summary(done) },
            None => summary(done),
        },
{
    if let Some(e) = pending {
        if e.postings.len() > 0 {
            assert(done.push(e).drop_last() =~= done);
        }
    }
}

impl History {
    pub closed spec fn wf(&self) -> bool {
        &&& distinct_keys(usage_table(self.accounts@))
        &&& distinct_keys(usage_table(self.currencies@))
        &&& distinct_keys(payee_table(self.payees@))
        &&& distinct_keys(pair_table(self.account_currencies@))
        &&& distinct_keys(pair_table(self.partners@))
    }

    /// The accounts declared.
    pub closed spec fn declared_accounts_view(&self) -> Set<Seq<char>> {
        Set::new(|a: Seq<char>| strings_view(self.declared_accounts@).contains(a))
    }

    /// The currencies declared.
    pub closed spec fn declared_currencies_view(&self) -> Set<Seq<char>> {
        Set::new(|c: Seq<char>| strings_view(self.declared_currencies@).contains(c))
    }

    /// Notes a finished entry, if it has postings.
    fn finish(&mut self, entry: Option<Pending>)
        requires
            old(self).wf(),
        ensures
            final(self).wf(),
            final(self).declared_accounts == old(self).declared_accounts,
            final(self).declared_currencies == old(self).declared_currencies,
            final(self)@ == match pending_view(entry) {
                Some(e) => if e.postings.len() > 0 { recorded(old(self)@, e) } else { old(self)@ },
                None => old(self)@,
            },
    {
        let e = match entry {
            Some(e) => e,
            None => return,
        };
        let ghost ev = pending_view(Some(e))->0;
        if e.postings.len() == 0 {
            return;
        }
        self.entries = one_more_exec(self.entries);
        let replace = match self.latest {
            Some((_, d)) => d.is_on_or_before(&e.date),
            None => true,
        };
        if replace {
            self.latest = Some((e.file, e.date));
        }
        let ghost ps = ev.postings;
        let ghost latest1 = self.latest;
        let ghost entries1 = self.entries;
        let ghost acc0 = table(usage_table(self.accounts@));
        let ghost cur0 = table(usage_table(self.currencies@));
        let ghost ac0 = table(pair_table(self.account_currencies@));
        let ghost par0 = table(pair_table(self.partners@));
        let n = e.postings.len();
        let mut i: usize = 0;
        while i < n
            invariant
                i <= n,
                n == e.postings@.len(),
                ps == postings_view(e.postings@),
                ev.date == e.date,
                self.wf(),
                table(usage_table(self.accounts@)) == accounts_noted(acc0, ps, e.date, i as int),
                table(usage_table(self.currencies@)) == currencies_noted(cur0, ps, e.date, i as int),
                table(pair_table(self.account_currencies@)) == currencies_counted(ac0, ps, i as int),
                table(pair_table(self.partners@)) == partners_counted(par0, ps, i as int),
                self.payees == old(self).payees,
                self.latest == latest1,
                self.entries == entries1,
                self.declared_accounts == old(self).declared_accounts,
                self.declared_currencies == old(self).declared_currencies,
            decreases n - i,
        {
            let p = &e.postings[i];
            assert(ps[i as int] == p@);
            note_usage(&mut self.accounts, p.account.as_str(), e.date);
            match &p.amount {
                Some(a) => {
                    note_usage(&mut self.currencies, a.currency.as_str(), e.date);
                    bump_pair(&mut self.account_currencies, p.account.as_str(), a.currency.as_str());
                },
                None => {},
            }
            count_partners(&mut self.partners, p, &e.postings);
            i = i + 1;
        }
        let ghost before = self@;
        note_payee(&mut self.payees, e);
        proof {
            assert(self@.payees == before.payees.insert(ev.description, payee_after(before.payees, ev)));
            assert(self@ == recorded(old(self)@, ev));
        }
    }

    /// Adds a name to a list of names, unless it is there already.
    fn add_name(names: &mut Vec<String>, name: &String)
        ensures
            forall|x: Seq<char>| strings_view(final(names)@).contains(x)
                <==> (strings_view(old(names)@).contains(x) || x == name@),
    {
        let ghost v0 = strings_view(names@);
        let mut i: usize = 0;
        while i < names.len()
            invariant
                i <= names@.len(),
                names@ == old(names)@,
                v0 == strings_view(names@),
                forall|k: int| 0 <= k < i ==> v0[k] != name@,
            decreases names@.len() - i,
        {
            if str_eq(names[i].as_str(), name.as_str()) {
                assert(v0[i as int] == name@);
                return;
            }
            i = i + 1;
        }
        names.push(name.clone());
        proof {
            assert(strings_view(names@) =~= v0.push(name@));
            assert forall|x: Seq<char>| strings_view(names@).contains(x)
                <==> (v0.contains(x) || x == name@) by {
                if v0.contains(x) {
                    let k = choose|k: int| 0 <= k < v0.len() && v0[k] == x;
                    assert(strings_view(names@)[k] == x);
                }
                if x == name@ {
                    assert(strings_view(names@)[v0.len() as int] == x);
                }
                if strings_view(names@).contains(x) {
                    let k = choose|k: int| 0 <= k < strings_view(names@).len() && strings_view(names@)[k] == x;
                    if k < v0.len() {
                        assert(v0[k] == x);
                    }
                }
            }
        }
    }
}


impl History {
    /// Learns what the items say: every entry with postings, and every
    /// account and currency declared.
    pub fn build(items: &[Item]) -> (r: History)
        ensures
            r.wf(),
            r@ == summary(entries_of(items_view(items@))),
            r.declared_accounts_view() == declared_accounts_in(items_view(items@), items@.len() as int),
            r.declared_currencies_view() == declared_currencies_in(items_view(items@), items@.len() as int),
    {
        let ghost iv = items_view(items@);
        let mut history = History {
            accounts: Vec::new(),
            currencies: Vec::new(),
            payees: Vec::new(),
            declared_accounts: Vec::new(),
            declared_currencies: Vec::new(),
            account_currencies: Vec::new(),
            partners: Vec::new(),
            latest: None,
            entries: 0,
        };
        proof {
            assert(history@ == empty_history());
            assert(history.declared_accounts_view() =~= declared_accounts_in(iv, 0));
            assert(history.declared_currencies_view() =~= declared_currencies_in(iv, 0));
        }
        let mut pending: Option<Pending> = None;
        let mut i: usize = 0;
        while i < items.len()
            invariant
                i <= items@.len(),
                iv == items_view(items@),
                history.wf(),
                history@ == summary(gathered(iv, i as int).0),
                pending_view(pending) == gathered(iv, i as int).1,
                history.declared_accounts_view() == declared_accounts_in(iv, i as int),
                history.declared_currencies_view() == declared_currencies_in(iv, i as int),
            decreases items@.len() - i,
        {
            let ghost g = gathered(iv, i as int);
            let ghost accounts_before = history.declared_accounts_view();
            let ghost currencies_before = history.declared_currencies_view();
            assert(iv[i as int] == items@[i as int]@);
            let mut ends = false;
            match &items[i] {
                Item::EndOfFile(_) => {
                    ends = true;
                },
                Item::Line { file, line, .. } => {
                    match &line.kind {
                        LineKind::Blank => {
                            ends = true;
                        },
                        LineKind::Header(header) => {
                            let mut p: Option<Pending> = None;
                            std::mem::swap(&mut p, &mut pending);
                            proof { lemma_summary_closed(g.0, g.1); }
                            history.finish(p);
                            let none: Vec<Posting> = Vec::new();
                            assert(postings_view(none@) =~= Seq::<PostingView>::empty());
                            pending = Some(Pending {
                                date: header.date,
                                description: header.description.clone(),
                                postings: none,
                                file: *file,
                            });
                        },
                        LineKind::Posting(posting) => {
                            let mut p: Option<Pending> = None;
                            std::mem::swap(&mut p, &mut pending);
                            match p {
                                Some(mut e) => {
                                    let ghost before = e.postings@;
                                    e.postings.push(posting.duplicate());
                                    assert(postings_view(e.postings@) =~= postings_view(before).push((**posting)@));
                                    pending = Some(e);
                                },
                                None => {},
                            }
                        },
                        LineKind::Directive(d) => {
                            match &d.directive {
                                Directive::Account(a) => {
                                    History::add_name(&mut history.declared_accounts, a);
                                },
                                Directive::Open(a) => {
                                    History::add_name(&mut history.declared_accounts, a);
                                },
                                Directive::Currency(c) => {
                                    History::add_name(&mut history.declared_currencies, c);
                                },
                                _ => {},
                            }
                        },
                        _ => {},
                    }
                },
            }
            if ends {
                let mut p: Option<Pending> = None;
                std::mem::swap(&mut p, &mut pending);
                proof { lemma_summary_closed(g.0, g.1); }
                history.finish(p);
            }
            proof {
                assert forall|a: Seq<char>| history.declared_accounts_view().contains(a)
                    == declared_accounts_in(iv, i + 1).contains(a) by {
                    if declares_account(iv[i as int], a) {
                        assert(declared_accounts_in(iv, i + 1).contains(a));
                    }
                    if accounts_before.contains(a) {
                        let k = choose|k: int| 0 <= k < i && declares_account(iv[k], a);
                        assert(declared_accounts_in(iv, i + 1).contains(a));
                    }
                }
                assert(history.declared_accounts_view() =~= declared_accounts_in(iv, i + 1));
                assert forall|c: Seq<char>| history.declared_currencies_view().contains(c)
                    == declared_currencies_in(iv, i + 1).contains(c) by {
                    if declares_currency(iv[i as int], c) {
                        assert(declared_currencies_in(iv, i + 1).contains(c));
                    }
                    if currencies_before.contains(c) {
                        let k = choose|k: int| 0 <= k < i && declares_currency(iv[k], c);
                        assert(declared_currencies_in(iv, i + 1).contains(c));
                    }
                }
                assert(history.declared_currencies_view() =~= declared_currencies_in(iv, i + 1));
            }
            i = i + 1;
        }
        let mut p: Option<Pending> = None;
        std::mem::swap(&mut p, &mut pending);
        proof { lemma_summary_closed(gathered(iv, i as int).0, gathered(iv, i as int).1); }
        history.finish(p);
        history
    }
}


/// A name with count `cn` ranks no higher than one with count `cb`: its
/// count is smaller, or equal with the name the same or earlier in
/// dictionary order.
pub open spec fn ranks_below(nb: Seq<char>, cb: int, n: Seq<char>, cn: int) -> bool {
    cn < cb || (cn == cb && (n == nb || lex_less(n, nb)))
}

/// `k` is the most used in `m`: the largest count, and among equal counts
/// the last in dictionary order.
pub open spec fn most_used(m: Map<Seq<char>, Usage>, k: Seq<char>) -> bool {
    &&& m.dom().contains(k)
    &&& forall|k2: Seq<char>| #[trigger] m.dom().contains(k2)
        ==> ranks_below(k, m[k].count as int, k2, m[k2].count as int)
}

/// Of the pairs `(a, y)` counted in `m`, `(a, x)` has the largest count, and
/// among equal counts `x` is the last in dictionary order.
pub open spec fn most_counted(m: Map<(Seq<char>, Seq<char>), usize>, a: Seq<char>, x: Seq<char>) -> bool {
    &&& m.dom().contains((a, x))
    &&& forall|y: Seq<char>| #[trigger] m.dom().contains((a, y))
        ==> ranks_below(x, m[(a, x)] as int, y, m[(a, y)] as int)
}

/// The test turned the name `y` down when it was asked.
pub open spec fn turned_down<F: Fn(&str) -> bool>(test: F, y: Seq<char>) -> bool {
    exists|s: &str| s@ == y && #[trigger] test.ensures((s,), false)
}

/// Some pair `(a, y)` is counted in `m`.
pub open spec fn counted_with(m: Map<(Seq<char>, Seq<char>), usize>, a: Seq<char>) -> bool {
    exists|y: Seq<char>| #[trigger] m.dom().contains((a, y))
}

/// The position of the name with the largest count; among equal counts, the
/// last in dictionary order.
fn best_of(names: &Vec<Vec<char>>, counts: &Vec<usize>) -> (r: Option<usize>)
    requires
        names@.len() == counts@.len(),
    ensures
        r is None <==> names@.len() == 0,
        r matches Some(b) ==> b < names@.len() && forall|k: int| 0 <= k < names@.len()
            ==> ranks_below(names@[b as int]@, counts@[b as int] as int, (#[trigger] names@[k])@, counts@[k] as int),
{
    let mut best: Option<usize> = None;
    let mut i: usize = 0;
    while i < names.len()
        invariant
            i <= names@.len(),
            names@.len() == counts@.len(),
            best is None <==> i == 0,
            best matches Some(b) ==> b < i && forall|k: int| 0 <= k < i
                ==> ranks_below(names@[b as int]@, counts@[b as int] as int, (#[trigger] names@[k])@, counts@[k] as int),
        decreases names@.len() - i,
    {
        match best {
            None => {
                best = Some(i);
            },
            Some(b) => {
                let cb = counts[b];
                let ci = counts[i];
                let replace = ci > cb || (ci == cb && lex_less_exec(&names[b], &names[i]));
                let ghost nb = names@[b as int]@;
                let ghost ni = names@[i as int]@;
                proof { lemma_lex_total(nb, ni); }
                if replace {
                    proof {
                        assert forall|k: int| 0 <= k < i + 1 implies ranks_below(ni, ci as int,
                            (#[trigger] names@[k])@, counts@[k] as int) by {
                            if k < i {
                                let nk = names@[k]@;
                                assert(ranks_below(nb, cb as int, nk, counts@[k] as int));
                                if counts@[k] == cb && ci == cb && lex_less(nk, nb) {
                                    lemma_lex_trans(nk, nb, ni);
                                }
                            }
                        }
                    }
                    best = Some(i);
                } else {
                    assert(ranks_below(nb, cb as int, ni, ci as int));
                }
            },
        }
        i = i + 1;
    }
    best
}

impl History {
    /// The currency most used overall
    pub fn main_currency(&self) -> (r: Option<&str>)
        requires
            self.wf(),
        ensures
            r matches Some(c) ==> most_used(self@.currencies, c@),
            r is None ==> forall|k: Seq<char>| !(#[trigger] self@.currencies.dom().contains(k)),
    {
        let ghost t = usage_table(self.currencies@);
        let mut names: Vec<Vec<char>> = Vec::new();
        let mut counts: Vec<usize> = Vec::new();
        let mut i: usize = 0;
        while i < self.currencies.len()
            invariant
                i <= self.currencies@.len(),
                t == usage_table(self.currencies@),
                names@.len() == i,
                counts@.len() == i,
                forall|k: int| 0 <= k < i ==> (#[trigger] names@[k])@ == t[k].0 && counts@[k] == t[k].1.count,
            decreases self.currencies@.len() - i,
        {
            assert(t[i as int] == (self.currencies@[i as int].0@, self.currencies@[i as int].1));
            names.push(chars_of(self.currencies[i].0.as_str()));
            counts.push(self.currencies[i].1.count);
            i = i + 1;
        }
        match best_of(&names, &counts) {
            Some(b) => {
                proof {
                    lemma_table_get(t, b as int);
                    assert forall|k2: Seq<char>| #[trigger] table(t).dom().contains(k2) implies
                        ranks_below(t[b as int].0, table(t)[t[b as int].0].count as int, k2, table(t)[k2].count as int) by {
                        lemma_table_dom(t, k2);
                        let k = choose|k: int| 0 <= k < t.len() && (#[trigger] t[k]).0 == k2;
                        lemma_table_get(t, k);
                        assert(names@[k]@ == k2);
                    }
                }
                Some(self.currencies[b].0.as_str())
            },
            None => {
                proof {
                    assert forall|k: Seq<char>| !(#[trigger] table(t).dom().contains(k)) by {
                        lemma_table_dom(t, k);
                    }
                }
                None
            },
        }
    }

    /// The second halves of the counted pairs that start with `a`: their
    /// names, counts and positions.
    fn pairs_with(v: &Vec<((String, String), usize)>, a: &str) -> (r: (Vec<Vec<char>>, Vec<usize>, Vec<usize>))
        ensures
            r.0@.len() == r.1@.len(),
            r.0@.len() == r.2@.len(),
            forall|c: int| 0 <= c < r.0@.len() ==> (#[trigger] r.2@[c]) < v@.len()
                && pair_table(v@)[r.2@[c] as int].0 == (a@, r.0@[c]@)
                && r.1@[c] == pair_table(v@)[r.2@[c] as int].1,
            forall|k: int| 0 <= k < v@.len() && (#[trigger] pair_table(v@)[k]).0.0 == a@
                ==> exists|c: int| 0 <= c < r.2@.len() && r.2@[c] == k,
    {
        let ghost t = pair_table(v@);
        let mut names: Vec<Vec<char>> = Vec::new();
        let mut counts: Vec<usize> = Vec::new();
        let mut at: Vec<usize> = Vec::new();
        let mut i: usize = 0;
        while i < v.len()
            invariant
                i <= v@.len(),
                t == pair_table(v@),
                names@.len() == counts@.len(),
                names@.len() == at@.len(),
                forall|c: int| 0 <= c < names@.len() ==> (#[trigger] at@[c]) < i
                    && t[at@[c] as int].0 == (a@, names@[c]@) && counts@[c] == t[at@[c] as int].1,
                forall|k: int| 0 <= k < i && (#[trigger] t[k]).0.0 == a@
                    ==> exists|c: int| 0 <= c < at@.len() && at@[c] == k,
            decreases v@.len() - i,
        {
            let ghost at_before = at@;
            assert(t[i as int] == ((v@[i as int].0.0@, v@[i as int].0.1@), v@[i as int].1));
            if str_eq(v[i].0.0.as_str(), a) {
                names.push(chars_of(v[i].0.1.as_str()));
                counts.push(v[i].1);
                at.push(i);
                assert(at@[at@.len() - 1] == i);
            }
            proof {
                assert forall|k: int| 0 <= k < i + 1 && (#[trigger] t[k]).0.0 == a@
                    implies exists|c: int| 0 <= c < at@.len() && at@[c] == k by {
                    if k == i {
                        assert(at@[at@.len() - 1] == i);
                    } else {
                        let c = choose|c: int| 0 <= c < at_before.len() && at_before[c] == k;
                        assert(at@[c] == k);
                    }
                }
            }
            i = i + 1;
        }
        (names, counts, at)
    }

    /// The most counted partner `x` of `a` in the pairs `v`, if any.
    fn most_with<'v>(v: &'v Vec<((String, String), usize)>, a: &str) -> (r: Option<&'v str>)
        requires
            distinct_keys(pair_table(v@)),
        ensures
            r matches Some(x) ==> most_counted(table(pair_table(v@)), a@, x@),
            r is None ==> !counted_with(table(pair_table(v@)), a@),
    {
        let ghost t = pair_table(v@);
        let (names, counts, at) = History::pairs_with(v, a);
        match best_of(&names, &counts) {
            Some(b) => {
                let k = at[b];
                proof {
                    lemma_table_get(t, k as int);
                    assert forall|y: Seq<char>| #[trigger] table(t).dom().contains((a@, y)) implies
                        ranks_below(names@[b as int]@, table(t)[(a@, names@[b as int]@)] as int, y,
                            table(t)[(a@, y)] as int) by {
                        lemma_table_dom(t, (a@, y));
                        let j = choose|j: int| 0 <= j < t.len() && (#[trigger] t[j]).0 == (a@, y);
                        lemma_table_get(t, j);
                        let c = choose|c: int| 0 <= c < at@.len() && at@[c] == j;
                        assert(names@[c]@ == y);
                    }
                }
                Some(v[k].0.1.as_str())
            },
            None => {
                proof {
                    assert forall|y: Seq<char>| !(#[trigger] table(t).dom().contains((a@, y))) by {
                        lemma_table_dom(t, (a@, y));
                        if table(t).dom().contains((a@, y)) {
                            let j = choose|j: int| 0 <= j < t.len() && (#[trigger] t[j]).0 == (a@, y);
                            let c = choose|c: int| 0 <= c < at@.len() && at@[c] == j;
                        }
                    }
                }
                None
            },
        }
    }

    /// The currency most used with an account, else the main currency
    pub fn currency_for(&self, account: &str) -> (r: Option<&str>)
        requires
            self.wf(),
        ensures
            counted_with(self@.account_currencies, account@)
                ==> (r matches Some(c) && most_counted(self@.account_currencies, account@, c@)),
            !counted_with(self@.account_currencies, account@) ==> {
                &&& r matches Some(c) ==> most_used(self@.currencies, c@)
                &&& r is None ==> forall|k: Seq<char>| !(#[trigger] self@.currencies.dom().contains(k))
            },
    {
        match History::most_with(&self.account_currencies, account) {
            Some(c) => Some(c),
            None => self.main_currency(),
        }
    }

    /// The account most often used alongside another
    pub fn usual_partner(&self, account: &str) -> (r: Option<&str>)
        requires
            self.wf(),
        ensures
            r matches Some(x) ==> most_counted(self@.partners, account@, x@),
            r is None ==> !counted_with(self@.partners, account@),
    {
        History::most_with(&self.partners, account)
    }
}


/// Where `key` stands in a table of usages, if it does.
fn find_usage(v: &Vec<(String, Usage)>, key: &str) -> (r: Option<usize>)
    requires
        distinct_keys(usage_table(v@)),
    ensures
        match r {
            Some(i) => i < v@.len() && v@[i as int].0@ == key@
                && table(usage_table(v@)).dom().contains(key@)
                && table(usage_table(v@))[key@] == v@[i as int].1,
            None => !table(usage_table(v@)).dom().contains(key@),
        },
{
    let ghost t = usage_table(v@);
    let mut i: usize = 0;
    while i < v.len()
        invariant
            i <= v@.len(),
            t == usage_table(v@),
            distinct_keys(t),
            forall|k: int| 0 <= k < i ==> (#[trigger] t[k]).0 != key@,
        decreases v@.len() - i,
    {
        assert(t[i as int] == (v@[i as int].0@, v@[i as int].1));
        if str_eq(v[i].0.as_str(), key) {
            proof { lemma_table_get(t, i as int); }
            return Some(i);
        }
        i = i + 1;
    }
    proof { lemma_table_dom(t, key@); }
    None
}

/// Whether `name` is among `names`.
fn has_name(names: &Vec<String>, name: &str) -> (r: bool)
    ensures
        r == strings_view(names@).contains(name@),
{
    let mut i: usize = 0;
    while i < names.len()
        invariant
            i <= names@.len(),
            forall|k: int| 0 <= k < i ==> (#[trigger] strings_view(names@)[k]) != name@,
        decreases names@.len() - i,
    {
        if str_eq(names[i].as_str(), name) {
            assert(strings_view(names@)[i as int] == name@);
            return true;
        }
        i = i + 1;
    }
    false
}

/// The words as characters.
pub open spec fn words_view(v: Seq<&str>) -> Seq<Seq<char>> {
    v.map_values(|s: &str| s@)
}

/// Each word comes before the next in dictionary order.
pub open spec fn ascending(ws: Seq<Seq<char>>) -> bool {
    forall|i: int, j: int| 0 <= i < j < ws.len() ==> lex_less(#[trigger] ws[i], #[trigger] ws[j])
}

/// Puts `w` in its place among words in dictionary order, unless it is
/// there already.
fn insert_word<'a>(out: &mut Vec<&'a str>, w: &'a str)
    requires
        ascending(words_view(old(out)@)),
    ensures
        ascending(words_view(final(out)@)),
        forall|x: Seq<char>| words_view(final(out)@).contains(x)
            <==> (words_view(old(out)@).contains(x) || x == w@),
{
    let ghost ws = words_view(out@);
    let wc = chars_of(w);
    let mut p: usize = 0;
    while p < out.len()
        invariant
            p <= out@.len(),
            out@ == old(out)@,
            ws == words_view(out@),
            wc@ == w@,
            forall|k: int| 0 <= k < p ==> lex_less(#[trigger] ws[k], w@),
        ensures
            p <= out@.len(),
            out@ == old(out)@,
            ws == words_view(out@),
            forall|k: int| 0 <= k < p ==> lex_less(#[trigger] ws[k], w@),
            p < out@.len() ==> !lex_less(ws[p as int], w@),
        decreases out@.len() - p,
    {
        let cp = chars_of(out[p]);
        assert(cp@ == ws[p as int]);
        if !lex_less_exec(&cp, &wc) {
            break;
        }
        p = p + 1;
    }
    if p < out.len() && str_eq(out[p], w) {
        assert(ws[p as int] == w@);
        return;
    }
    proof {
        if p < out@.len() {
            lemma_lex_total(ws[p as int], w@);
        }
    }
    out.insert(p, w);
    proof {
        let nw = words_view(out@);
        assert(nw =~= ws.insert(p as int, w@));
        assert forall|i: int, j: int| 0 <= i < j < nw.len() implies lex_less(#[trigger] nw[i], #[trigger] nw[j]) by {
            if j < p {
            } else if j == p {
            } else if i < p {
                assert(lex_less(ws[i], w@));
                if j - 1 > p {
                    assert(lex_less(ws[p as int], ws[j - 1]));
                    lemma_lex_trans(w@, ws[p as int], ws[j - 1]);
                }
                lemma_lex_trans(ws[i], w@, ws[j - 1]);
            } else if i == p {
                if j - 1 > p {
                    assert(lex_less(ws[p as int], ws[j - 1]));
                    lemma_lex_trans(w@, ws[p as int], ws[j - 1]);
                }
            } else {
                assert(lex_less(ws[i - 1], ws[j - 1]));
            }
        }
        assert forall|x: Seq<char>| nw.contains(x) <==> (ws.contains(x) || x == w@) by {
            if nw.contains(x) {
                let k = choose|k: int| 0 <= k < nw.len() && nw[k] == x;
                if k < p {
                    assert(ws[k] == x);
                } else if k > p {
                    assert(ws[k - 1] == x);
                }
            }
            if ws.contains(x) {
                let k = choose|k: int| 0 <= k < ws.len() && ws[k] == x;
                if k < p {
                    assert(nw[k] == x);
                } else {
                    assert(nw[k + 1] == x);
                }
            }
            if x == w@ {
                assert(nw[p as int] == x);
            }
        }
    }
}

impl History {
    /// Every account known, declared or used, once each in dictionary order
    pub fn all_accounts(&self) -> (r: Vec<&str>)
        requires
            self.wf(),
        ensures
            ascending(words_view(r@)),
            forall|a: Seq<char>| words_view(r@).contains(a)
                <==> (self@.accounts.dom().contains(a) || self.declared_accounts_view().contains(a)),
    {
        let ghost t = usage_table(self.accounts@);
        let mut out: Vec<&str> = Vec::new();
        let mut i: usize = 0;
        while i < self.accounts.len()
            invariant
                i <= self.accounts@.len(),
                t == usage_table(self.accounts@),
                ascending(words_view(out@)),
                forall|a: Seq<char>| words_view(out@).contains(a)
                    <==> exists|k: int| 0 <= k < i && (#[trigger] t[k]).0 == a,
            decreases self.accounts@.len() - i,
        {
            assert(t[i as int].0 == self.accounts@[i as int].0@);
            insert_word(&mut out, self.accounts[i].0.as_str());
            proof {
                assert forall|a: Seq<char>| words_view(out@).contains(a)
                    <==> exists|k: int| 0 <= k < i + 1 && (#[trigger] t[k]).0 == a by {
                    if a == t[i as int].0 {
                        assert(t[i as int].0 == a);
                    }
                }
            }
            i = i + 1;
        }
        let ghost dv = strings_view(self.declared_accounts@);
        let mut j: usize = 0;
        while j < self.declared_accounts.len()
            invariant
                j <= self.declared_accounts@.len(),
                t == usage_table(self.accounts@),
                dv == strings_view(self.declared_accounts@),
                ascending(words_view(out@)),
                forall|a: Seq<char>| words_view(out@).contains(a)
                    <==> ((exists|k: int| 0 <= k < t.len() && (#[trigger] t[k]).0 == a)
                        || exists|k: int| 0 <= k < j && (#[trigger] dv[k]) == a),
            decreases self.declared_accounts@.len() - j,
        {
            assert(dv[j as int] == self.declared_accounts@[j as int]@);
            insert_word(&mut out, self.declared_accounts[j].as_str());
            proof {
                assert forall|a: Seq<char>| words_view(out@).contains(a)
                    <==> ((exists|k: int| 0 <= k < t.len() && (#[trigger] t[k]).0 == a)
                        || exists|k: int| 0 <= k < j + 1 && (#[trigger] dv[k]) == a) by {
                    if a == dv[j as int] {
                        assert(dv[j as int] == a);
                    }
                }
            }
            j = j + 1;
        }
        proof {
            assert forall|a: Seq<char>| #[trigger] words_view(out@).contains(a) implies
                (self@.accounts.dom().contains(a) || self.declared_accounts_view().contains(a)) by {
                lemma_table_dom(t, a);
                if exists|k: int| 0 <= k < j && (#[trigger] dv[k]) == a {
                    let k = choose|k: int| 0 <= k < j && (#[trigger] dv[k]) == a;
                    assert(dv.contains(a));
                }
            }
            assert forall|a: Seq<char>| #[trigger] self.declared_accounts_view().contains(a) implies
                words_view(out@).contains(a) by {
                assert(dv.contains(a));
                let k = choose|k: int| 0 <= k < dv.len() && dv[k] == a;
                assert(0 <= k < j && dv[k] == a);
            }
            assert forall|a: Seq<char>| #[trigger] self@.accounts.dom().contains(a) implies
                words_view(out@).contains(a) by {
                lemma_table_dom(t, a);
                let k = choose|k: int| 0 <= k < t.len() && (#[trigger] t[k]).0 == a;
            }
        }
        out
    }

    /// Whether the ledger declares its accounts, so new ones need declaring
    pub fn uses_declarations(&self) -> (r: bool)
        ensures
            r == exists|a: Seq<char>| #[trigger] self.declared_accounts_view().contains(a),
    {
        let r = self.declared_accounts.len() > 0;
        proof {
            if r {
                assert(self.declared_accounts_view().contains(strings_view(self.declared_accounts@)[0]));
            }
        }
        r
    }

    pub fn is_known_account(&self, account: &str) -> (r: bool)
        requires
            self.wf(),
        ensures
            r == (self@.accounts.dom().contains(account@) || self.declared_accounts_view().contains(account@)),
    {
        find_usage(&self.accounts, account).is_some() || has_name(&self.declared_accounts, account)
    }

    pub fn is_known_currency(&self, currency: &str) -> (r: bool)
        requires
            self.wf(),
        ensures
            r == (self@.currencies.dom().contains(currency@) || self.declared_currencies_view().contains(currency@)),
    {
        find_usage(&self.currencies, currency).is_some() || has_name(&self.declared_currencies, currency)
    }

    /// How often and how recently an account was used, if it was
    pub fn account_usage(&self, account: &str) -> (r: Option<Usage>)
        requires
            self.wf(),
        ensures
            r == (if self@.accounts.dom().contains(account@) { Some(self@.accounts[account@]) } else { None }),
    {
        match find_usage(&self.accounts, account) {
            Some(i) => Some(self.accounts[i].1),
            None => None,
        }
    }

    /// The payee with this description, if it was used
    pub fn payee(&self, name: &str) -> (r: Option<&Payee>)
        requires
            self.wf(),
        ensures
            match r {
                Some(p) => self@.payees.dom().contains(name@) && self@.payees[name@] == p@,
                None => !self@.payees.dom().contains(name@),
            },
    {
        let ghost t = payee_table(self.payees@);
        let mut i: usize = 0;
        while i < self.payees.len()
            invariant
                i <= self.payees@.len(),
                t == payee_table(self.payees@),
                distinct_keys(t),
                forall|k: int| 0 <= k < i ==> (#[trigger] t[k]).0 != name@,
            decreases self.payees@.len() - i,
        {
            if str_eq(self.payees[i].name.as_str(), name) {
                proof { lemma_table_get(t, i as int); }
                return Some(&self.payees[i]);
            }
            i = i + 1;
        }
        proof { lemma_table_dom(t, name@); }
        None
    }

    /// Every payee, each under its own description
    pub fn payees(&self) -> (r: &Vec<Payee>)
        requires
            self.wf(),
        ensures
            distinct_keys(payee_table(r@)),
            table(payee_table(r@)) == self@.payees,
    {
        &self.payees
    }

    /// The account most often used alongside another, of those that pass
    /// a test
    pub fn usual_partner_where(&self, account: &str, test: impl Fn(&str) -> bool) -> (r: Option<&str>)
        requires
            self.wf(),
            forall|s: &str| #[trigger] test.requires((s,)),
        ensures
            r matches Some(x) ==> {
                &&& self@.partners.dom().contains((account@, x@))
                &&& test.ensures((x,), true)
                &&& forall|y: Seq<char>| #[trigger] self@.partners.dom().contains((account@, y))
                    ==> turned_down(test, y) || ranks_below(x@, self@.partners[(account@, x@)] as int, y,
                        self@.partners[(account@, y)] as int)
            },
            r is None ==> forall|y: Seq<char>| #[trigger] self@.partners.dom().contains((account@, y))
                ==> turned_down(test, y),
            !counted_with(self@.partners, account@) ==> r is None,
    {
        let ghost t = pair_table(self.partners@);
        let mut names: Vec<Vec<char>> = Vec::new();
        let mut counts: Vec<usize> = Vec::new();
        let mut passed: Vec<&str> = Vec::new();
        let mut i: usize = 0;
        while i < self.partners.len()
            invariant
                i <= self.partners@.len(),
                t == pair_table(self.partners@),
                distinct_keys(t),
                forall|s: &str| #[trigger] test.requires((s,)),
                names@.len() == counts@.len(),
                names@.len() == passed@.len(),
                forall|c: int| 0 <= c < names@.len() ==> (#[trigger] passed@[c])@ == names@[c]@,
                forall|c: int| 0 <= c < names@.len() ==> table(t).dom().contains((account@, (#[trigger] names@[c])@)),
                forall|c: int| 0 <= c < names@.len() ==> counts@[c] == table(t)[(account@, (#[trigger] names@[c])@)],
                forall|c: int| 0 <= c < names@.len() ==> test.ensures((#[trigger] passed@[c],), true),
                forall|k: int| 0 <= k < i && (#[trigger] t[k]).0.0 == account@ ==> (turned_down(test, t[k].0.1)
                    || exists|c: int| 0 <= c < names@.len() && (#[trigger] names@[c])@ == t[k].0.1),
                names@.len() > 0 ==> counted_with(table(t), account@),
            decreases self.partners@.len() - i,
        {
            assert(t[i as int] == ((self.partners@[i as int].0.0@, self.partners@[i as int].0.1@), self.partners@[i as int].1));
            let ghost names0 = names@;
            if str_eq(self.partners[i].0.0.as_str(), account) {
                let name = self.partners[i].0.1.as_str();
                proof { lemma_table_get(t, i as int); }
                let ok = test(name);
                if ok {
                    let ghost passed0 = passed@;
                    let ghost counts0 = counts@;
                    names.push(chars_of(name));
                    counts.push(self.partners[i].1);
                    passed.push(name);
                    proof {
                        assert forall|c: int| 0 <= c < names@.len() implies (#[trigger] passed@[c])@ == names@[c]@ by {
                            if c < names0.len() {
                                assert(passed@[c] == passed0[c]);
                                assert(names@[c] == names0[c]);
                            }
                        }
                        assert forall|c: int| 0 <= c < names@.len() implies
                            table(t).dom().contains((account@, (#[trigger] names@[c])@)) by {
                            if c < names0.len() {
                                assert(names@[c] == names0[c]);
                            }
                        }
                        assert forall|c: int| 0 <= c < names@.len() implies
                            counts@[c] == table(t)[(account@, (#[trigger] names@[c])@)] by {
                            if c < names0.len() {
                                assert(names@[c] == names0[c]);
                                assert(counts@[c] == counts0[c]);
                            }
                        }
                        assert forall|c: int| 0 <= c < names@.len() implies test.ensures((#[trigger] passed@[c],), true) by {
                            if c < names0.len() {
                                assert(passed@[c] == passed0[c]);
                            }
                        }
                        assert(names@[names0.len() as int]@ == t[i as int].0.1);
                        assert forall|k: int| 0 <= k < i + 1 && (#[trigger] t[k]).0.0 == account@ implies (turned_down(test, t[k].0.1)
                            || exists|c: int| 0 <= c < names@.len() && (#[trigger] names@[c])@ == t[k].0.1) by {
                            if k < i && !turned_down(test, t[k].0.1) {
                                let c = choose|c: int| 0 <= c < names0.len() && (#[trigger] names0[c])@ == t[k].0.1;
                                assert(names@[c] == names0[c]);
                            }
                            if k == i {
                                assert(names@[names0.len() as int]@ == t[k].0.1);
                            }
                        }
                    }
                } else {
                    proof {
                        assert(name@ == t[i as int].0.1 && test.ensures((name,), false));
                        assert(turned_down(test, t[i as int].0.1));
                    }
                }
            }
            i = i + 1;
        }
        match best_of(&names, &counts) {
            Some(b) => {
                proof {
                    assert forall|y: Seq<char>| #[trigger] table(t).dom().contains((account@, y)) implies
                        turned_down(test, y) || ranks_below(names@[b as int]@, table(t)[(account@, names@[b as int]@)] as int,
                            y, table(t)[(account@, y)] as int) by {
                        lemma_table_dom(t, (account@, y));
                        let k = choose|k: int| 0 <= k < t.len() && (#[trigger] t[k]).0 == (account@, y);
                        if !turned_down(test, y) {
                            let c = choose|c: int| 0 <= c < names@.len() && (#[trigger] names@[c])@ == t[k].0.1;
                            assert(ranks_below(names@[b as int]@, counts@[b as int] as int, names@[c]@, counts@[c] as int));
                        }
                    }
                }
                Some(passed[b])
            },
            None => {
                proof {
                    assert forall|y: Seq<char>| #[trigger] table(t).dom().contains((account@, y)) implies
                        turned_down(test, y) by {
                        lemma_table_dom(t, (account@, y));
                        let k = choose|k: int| 0 <= k < t.len() && (#[trigger] t[k]).0 == (account@, y);
                    }
                }
                None
            },
        }
    }
}

} // verus!
