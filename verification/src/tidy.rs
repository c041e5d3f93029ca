//! Formatting ledger files: postings aligned on their decimal points,
//! directives and headers written one way, and everything else kept.

use vstd::prelude::*;
use crate::config::{text_lines, text_lines_of};
use crate::diagnostics::Diagnostic;
use crate::syntax::lexer::{Line, LineKind, Posting, PostingView, KindView, LineView, DirectiveView, lex_line, lexed,
    reports, Fault, keyword_of, args_of, Cols, Directive};
use crate::syntax::source::FileId;
use crate::text::chars::{chars_of, string_of, index_of, lemma_index_of_bounds, find_char, extend_chars, split_on,
    is_space, is_space_char, trimmed, trim_chars, str_eq};
use crate::text::utf8::{bytes_of, lemma_bytes_of_concat, lemma_bytes_of_prefix, lemma_bytes_of_nonneg};
use crate::util::date::date_text;
use crate::util::quant::Quant;
use crate::text::digits::{push_decimal, decimal_chars};
use crate::ui::palette;
use crate::ui::style::{Style, plain_style, faint_style};
use crate::ui::text::{Doc, Line as Styled, Piece, pushed, lines_view};

verus! {

/// Account names longer than this don't push every amount in the file right
pub const MAX_ACCOUNT_COLUMN: usize = 48;

/// Runs of more blank lines than this are shortened
pub const MAX_BLANK_LINES: usize = 2;

/// How a file lays out its postings, so new text can match it
#[derive(Clone, Debug, PartialEq, Eq)]
pub struct FileStyle {
    /// What postings are indented with: a tab, or some spaces
    pub indent: String,
    /// Width reserved for account names, before the amounts
    pub account_width: usize,
    /// Width reserved for the whole-number part of amounts, so that decimal
    /// points line up
    pub whole_width: usize,
}

/// Four spaces.
pub open spec fn four_spaces() -> Seq<char> {
    seq![' ', ' ', ' ', ' ']
}

impl Default for FileStyle {
    fn default() -> (r: Self)
        ensures
            r.indent@ == four_spaces(),
            r.account_width == 0,
            r.whole_width == 0,
    {
        let mut v: Vec<char> = Vec::new();
        v.push(' ');
        v.push(' ');
        v.push(' ');
        v.push(' ');
        assert(v@ =~= four_spaces());
        FileStyle { indent: string_of(&v), account_width: 0, whole_width: 0 }
    }
}

/// The whole part of an amount as written: everything before its point.
pub open spec fn whole_part(text: Seq<char>) -> Seq<char> {
    text.take(index_of(text, '.'))
}

/// The rest of an amount as written: its point and the digits after it.
pub open spec fn fraction_part(text: Seq<char>) -> Seq<char> {
    text.skip(index_of(text, '.'))
}

/// The larger of two numbers.
pub open spec fn max(a: int, b: int) -> int {
    if a >= b { a } else { b }
}

/// The column widths after fitting a posting: the account's length, unless
/// it is longer than `MAX_ACCOUNT_COLUMN`, and its amount's whole part.
pub open spec fn fit_widths(widths: (int, int), p: PostingView) -> (int, int) {
    match p.amount {
        None => widths,
        Some(a) => (
            if p.account.len() <= MAX_ACCOUNT_COLUMN { max(widths.0, p.account.len() as int) } else { widths.0 },
            max(widths.1, whole_part(a.value_text).len() as int),
        ),
    }
}

/// `a - b`, or 0 where `b` is larger.
pub open spec fn less(a: int, b: int) -> int {
    if a >= b { a - b } else { 0 }
}

/// `n` spaces.
pub open spec fn spaces(n: int) -> Seq<char> {
    Seq::new(n as nat, |_i: int| ' ')
}

/// A price as it is written after an amount.
pub open spec fn price_suffix(price: Option<crate::syntax::lexer::PriceView>) -> Seq<char> {
    match price {
        Some(pr) => seq![' '] + (if pr.is_total { seq!['@', '@'] } else { seq!['@'] }) + seq![' ']
            + pr.value_text + seq![' '] + pr.currency,
        None => Seq::empty(),
    }
}

/// A lot as it is written after an amount.
pub open spec fn lot_suffix(lot: Option<crate::syntax::lexer::LotView>) -> Seq<char> {
    match lot {
        Some(l) => match l.name {
            Some(n) => " { "@ + l.cost_text + seq![' '] + l.currency + ", \""@ + n + "\" }"@,
            None => " { "@ + l.cost_text + seq![' '] + l.currency + " }"@,
        },
        None => Seq::empty(),
    }
}

/// A posting laid out with the given column widths, without its
/// indentation or comment.
pub open spec fn posting_text(account_width: int, whole_width: int, p: PostingView) -> Seq<char> {
    match p.amount {
        None => p.account,
        Some(a) => {
            let whole = whole_part(a.value_text);
            let gap = less(account_width, p.account.len() as int) + 2;
            let pad = less(whole_width, whole.len() as int);
            p.account + spaces(gap + pad) + whole + fraction_part(a.value_text) + seq![' '] + a.currency
                + price_suffix(a.price) + lot_suffix(a.lot)
        },
    }
}

fn push_price(out: &mut Vec<char>, price: &Option<crate::syntax::lexer::Price>)
    ensures
        final(out)@ == old(out)@ + price_suffix(match price { Some(p) => Some(p@), None => None }),
{
    if let Some(price) = price {
        let ghost start = out@;
        out.push(' ');
        out.push('@');
        if price.is_total {
            out.push('@');
        }
        out.push(' ');
        push_str(out, &price.value_text);
        out.push(' ');
        push_str(out, &price.currency);
        assert(out@ =~= start + price_suffix(Some(price@)));
    } else {
        assert(out@ =~= old(out)@ + Seq::<char>::empty());
    }
}

fn push_lot(out: &mut Vec<char>, lot: &Option<crate::syntax::lexer::LotSpec>)
    ensures
        final(out)@ == old(out)@ + lot_suffix(match lot { Some(l) => Some(l@), None => None }),
{
    if let Some(lot) = lot {
        let ghost start = out@;
        extend_chars(out, " { ");
        push_str(out, &lot.cost_text);
        out.push(' ');
        push_str(out, &lot.currency);
        match &lot.name {
            Some(name) => {
                extend_chars(out, ", \"");
                push_str(out, name);
                extend_chars(out, "\" }");
            },
            None => {
                extend_chars(out, " }");
            },
        }
        assert(out@ =~= start + lot_suffix(Some(lot@)));
    } else {
        assert(out@ =~= old(out)@ + Seq::<char>::empty());
    }
}


/// How many spaces a line starts with.
pub open spec fn lead_blanks(s: Seq<char>) -> int
    decreases s.len(),
{
    if s.len() > 0 && s[0] == ' ' { 1 + lead_blanks(s.skip(1)) } else { 0 }
}

/// How many of `values` are `v`.
pub open spec fn count_in(values: Seq<int>, v: int) -> int
    decreases values.len(),
{
    if values.len() == 0 {
        0
    } else {
        count_in(values.drop_last(), v) + if values.last() == v { 1int } else { 0 }
    }
}

/// The value among the first `k` that occurs most often in all of
/// `values`, the larger one among those that occur equally often.
pub open spec fn most_common_upto(values: Seq<int>, k: int) -> Option<int>
    decreases k,
{
    if k <= 0 {
        None
    } else {
        let prev = most_common_upto(values, k - 1);
        let v = values[k - 1];
        match prev {
            None => Some(v),
            Some(p) => if count_in(values, v) > count_in(values, p) || (count_in(values, v) == count_in(values, p) && v > p) {
                Some(v)
            } else {
                prev
            },
        }
    }
}

/// The value that occurs most often, the larger one of a tie.
pub open spec fn most_common(values: Seq<int>) -> Option<int> {
    most_common_upto(values, values.len() as int)
}

/// What the first `k` lines of a file show of its layout: how many postings
/// are indented with a tab, how many spaces indent each of the others, and
/// the columns that fit them all.
pub open spec fn detect_state(lines: Seq<(Seq<char>, KindView)>, k: int) -> (int, Seq<int>, (int, int))
    decreases k,
{
    if k <= 0 {
        (0, Seq::empty(), (0, 0))
    } else {
        let prev = detect_state(lines, k - 1);
        let raw = lines[k - 1].0;
        match lines[k - 1].1 {
            KindView::Posting(p) => if raw.len() > 0 && raw[0] == '\t' {
                (prev.0 + 1, prev.1, fit_widths(prev.2, p))
            } else {
                (prev.0, prev.1.push(lead_blanks(raw)), fit_widths(prev.2, p))
            },
            _ => prev,
        }
    }
}

/// The indentation most postings use: a tab where more use tabs than not,
/// else the most common number of spaces, else four spaces.
pub open spec fn detected_indent(tabs: int, counts: Seq<int>) -> Seq<char> {
    if tabs > counts.len() {
        seq!['\t']
    } else {
        match most_common(counts) {
            Some(v) => if v > 0 { spaces(v) } else { four_spaces() },
            None => four_spaces(),
        }
    }
}

/// The lines' raw text and what they are.
pub open spec fn line_kinds(lines: Seq<(&str, &Line)>) -> Seq<(Seq<char>, KindView)> {
    lines.map_values(|x: (&str, &Line)| (x.0@, x.1.kind@))
}

/// How many spaces a line starts with.
fn count_lead_blanks(s: &str) -> (r: usize)
    ensures
        r == lead_blanks(s@),
{
    let v = chars_of(s);
    let mut k: usize = 0;
    assert(v@.skip(0) =~= v@);
    while k < v.len() && v[k] == ' '
        invariant
            k <= v@.len(),
            v@ == s@,
            lead_blanks(s@) == k + lead_blanks(v@.skip(k as int)),
        decreases v@.len() - k,
    {
        assert(v@.skip(k as int).skip(1) =~= v@.skip(k + 1));
        k = k + 1;
    }
    k
}

/// The values' numbers.
pub open spec fn as_ints(v: Seq<usize>) -> Seq<int> {
    v.map_values(|x: usize| x as int)
}

/// How many of `values` are `v`.
fn count_value(values: &Vec<usize>, v: usize) -> (r: usize)
    ensures
        r == count_in(as_ints(values@), v as int),
{
    let mut n: usize = 0;
    let mut i: usize = 0;
    assert(as_ints(values@).take(0) =~= Seq::<int>::empty());
    while i < values.len()
        invariant
            i <= values@.len(),
            n == count_in(as_ints(values@).take(i as int), v as int),
            n <= i,
        decreases values@.len() - i,
    {
        assert(as_ints(values@).take(i + 1).drop_last() =~= as_ints(values@).take(i as int));
        if values[i] == v {
            n = n + 1;
        }
        i = i + 1;
    }
    assert(as_ints(values@).take(values@.len() as int) =~= as_ints(values@));
    n
}

/// The value that occurs most often, the larger one of a tie.
fn most_common_value(values: &Vec<usize>) -> (r: Option<usize>)
    ensures
        match r {
            Some(x) => most_common(as_ints(values@)) == Some(x as int),
            None => most_common(as_ints(values@)) is None,
        },
{
    let ghost all = as_ints(values@);
    let mut best: Option<(usize, usize)> = None;
    let mut k: usize = 0;
    while k < values.len()
        invariant
            k <= values@.len(),
            all == as_ints(values@),
            match most_common_upto(all, k as int) {
                None => best is None,
                Some(v) => best matches Some((b, c)) && b == v && c == count_in(all, v),
            },
            k > 0 ==> best is Some,
        decreases values@.len() - k,
    {
        let v = values[k];
        let c = count_value(values, v);
        best = match best {
            None => Some((v, c)),
            Some((b, bc)) => if c > bc || (c == bc && v > b) { Some((v, c)) } else { Some((b, bc)) },
        };
        k = k + 1;
    }
    match best {
        Some((b, _)) => Some(b),
        None => None,
    }
}


/// The pieces of a text between the occurrences of a character take no
/// more bytes than the text.
pub proof fn lemma_split_bytes(s: Seq<char>, c: char)
    ensures
        forall|i: int| 0 <= i < split_on(s, c).len() ==> bytes_of(#[trigger] split_on(s, c)[i]) <= bytes_of(s),
    decreases s.len(),
{
    lemma_index_of_bounds(s, c);
    let k = index_of(s, c);
    lemma_bytes_of_prefix(s, k, s.len() as int);
    assert(s.take(s.len() as int) =~= s);
    if k < s.len() {
        let rest = s.skip(k + 1);
        lemma_split_bytes(rest, c);
        assert(s =~= s.take(k + 1) + rest);
        lemma_bytes_of_concat(s.take(k + 1), rest);
        lemma_bytes_of_nonneg(s.take(k + 1));
        let parts = split_on(s, c);
        assert forall|i: int| 0 <= i < parts.len() implies bytes_of(#[trigger] parts[i]) <= bytes_of(s) by {
            if i > 0 {
                assert(parts[i] == split_on(rest, c)[i - 1]);
            }
        }
    }
}

/// The lines of a text take no more bytes than the text.
pub proof fn lemma_lines_bytes(t: Seq<char>)
    ensures
        forall|i: int| 0 <= i < text_lines(t).len() ==> bytes_of(#[trigger] text_lines(t)[i]) <= bytes_of(t),
{
    let pieces = split_on(t, '\n');
    crate::text::chars::lemma_split_on_nonempty(t, '\n');
    lemma_split_bytes(t, '\n');
    let lines = text_lines(t);
    assert forall|i: int| 0 <= i < lines.len() implies bytes_of(#[trigger] lines[i]) <= bytes_of(t) by {
        let p = pieces[i];
        if i < pieces.len() - 1 {
            assert(lines[i] == (if p.len() > 0 && p.last() == '\r' { p.drop_last() } else { p }));
            if p.len() > 0 && p.last() == '\r' {
                lemma_bytes_of_nonneg(p.drop_last());
                crate::text::utf8::lemma_bytes_of_nonneg(p);
                assert(bytes_of(p) == bytes_of(p.drop_last()) + crate::text::utf8::char_bytes(p.last()));
            }
        } else {
            assert(lines[i] == pieces.last());
        }
    }
}

/// Whether every line takes fewer bytes than the largest `usize`.
pub open spec fn lines_fit(lines: Seq<Seq<char>>) -> bool {
    forall|i: int| 0 <= i < lines.len() ==> bytes_of(#[trigger] lines[i]) < usize::MAX
}

/// The first `k` lines lexed, or the first problem found, with the index of
/// its line.
pub open spec fn lexed_upto(lines: Seq<Seq<char>>, k: int) -> Result<Seq<LineView>, (int, Fault)>
    decreases k,
{
    if k <= 0 {
        Ok(Seq::empty())
    } else {
        match lexed_upto(lines, k - 1) {
            Err(e) => Err(e),
            Ok(vs) => match lexed(lines[k - 1]) {
                Ok(v) => Ok(vs.push(v)),
                Err(f) => Err((k - 1, f)),
            },
        }
    }
}

/// Whether a path has white space in it.
pub open spec fn has_space(s: Seq<char>) -> bool {
    exists|i: int| 0 <= i < s.len() && is_space(#[trigger] s[i])
}

/// A line's content laid out: its kind written one way, postings and
/// references indented, and a comment-only line indented inside an entry.
pub open spec fn kind_text(kind: KindView, indent: Seq<char>, widths: (int, int), in_entry: bool) -> Seq<char> {
    match kind {
        KindView::Blank => Seq::empty(),
        KindView::CommentOnly => if in_entry { indent } else { Seq::empty() },
        KindView::Include { path, .. } => if has_space(path) {
            "include \""@ + path + "\""@
        } else {
            "include "@ + path
        },
        KindView::Directive { date, directive, .. } =>
            seq!['!', ' '] + date_text(date) + seq![' '] + keyword_of(directive) + seq![' '] + args_of(directive),
        KindView::Header { date, description } => date_text(date) + seq![' '] + description,
        KindView::Reference(text) => if text.len() == 0 {
            indent + seq!['/', '/']
        } else {
            indent + seq!['/', '/', ' '] + text
        },
        KindView::Posting(p) => indent + posting_text(widths.0, widths.1, p),
    }
}

/// A line's content with its comment, if it has one, after two spaces.
pub open spec fn with_comment(content: Seq<char>, comment: Option<Seq<char>>) -> Seq<char> {
    match comment {
        Some(c) => if trimmed(content).len() == 0 { content + c } else { content + seq![' ', ' '] + c },
        None => content,
    }
}

/// The first `k` lines laid out: the lines so far, whether an entry is
/// open, and how many blank lines came last. Runs of blank lines are cut to
/// `MAX_BLANK_LINES`, and none start the file.
pub open spec fn layout_state(views: Seq<LineView>, indent: Seq<char>, widths: (int, int), k: int)
    -> (Seq<Seq<char>>, bool, int)
    decreases k,
{
    if k <= 0 {
        (Seq::empty(), false, 0)
    } else {
        let (out, in_entry, blanks) = layout_state(views, indent, widths, k - 1);
        let v = views[k - 1];
        if v.kind is Blank {
            (if blanks + 1 <= MAX_BLANK_LINES && out.len() > 0 { out.push(Seq::empty()) } else { out }, false, blanks + 1)
        } else {
            (
                out.push(with_comment(kind_text(v.kind, indent, widths, in_entry), v.comment)),
                if v.kind is Header { true } else { in_entry },
                0,
            )
        }
    }
}

/// The lines without the empty ones at the end.
pub open spec fn without_trailing_empty(lines: Seq<Seq<char>>) -> Seq<Seq<char>>
    decreases lines.len(),
{
    if lines.len() > 0 && lines.last().len() == 0 { without_trailing_empty(lines.drop_last()) } else { lines }
}

/// Whether a text uses Windows line endings anywhere.
pub open spec fn has_crlf(t: Seq<char>) -> bool {
    exists|i: int| 0 <= i < t.len() - 1 && t[i] == '\r' && #[trigger] t[i + 1] == '\n'
}

/// The lines, each ended by `newline`.
pub open spec fn with_endings(lines: Seq<Seq<char>>, newline: Seq<char>) -> Seq<char>
    decreases lines.len(),
{
    if lines.len() == 0 { Seq::empty() } else { with_endings(lines.drop_last(), newline) + lines.last() + newline }
}

/// A line with its columns set to zero and its numbers' display precision
/// ignored: what it means, apart from how it is laid out.
pub open spec fn stripped_quant(q: Quant) -> Quant {
    Quant { render_precision: 0, ..q }
}

pub open spec fn stripped_kind(k: KindView) -> KindView {
    let zero = Cols { start: 0, end: 0 };
    match k {
        KindView::Include { path, .. } => KindView::Include { path, cols: zero },
        KindView::Directive { date, directive, .. } => KindView::Directive {
            date,
            directive: match directive {
                DirectiveView::Rate { base, quote, rate, rate_text } =>
                    DirectiveView::Rate { base, quote, rate: stripped_quant(rate), rate_text },
                other => other,
            },
            args: zero,
        },
        KindView::Posting(p) => KindView::Posting(PostingView {
            account: p.account,
            account_cols: zero,
            amount: match p.amount {
                Some(a) => Some(crate::syntax::lexer::AmountView {
                    value: stripped_quant(a.value),
                    value_text: a.value_text,
                    currency: a.currency,
                    cols: zero,
                    price: match a.price {
                        Some(pr) => Some(crate::syntax::lexer::PriceView { value: stripped_quant(pr.value), cols: zero, ..pr }),
                        None => None,
                    },
                    lot: match a.lot {
                        Some(l) => Some(crate::syntax::lexer::LotView { cost: stripped_quant(l.cost), cols: zero, ..l }),
                        None => None,
                    },
                }),
                None => None,
            },
        }),
        other => other,
    }
}

/// What the first `k` lines mean: each stripped of its layout, with no
/// blank line first or after another.
pub open spec fn meaning_upto(views: Seq<LineView>, k: int) -> Seq<LineView>
    decreases k,
{
    if k <= 0 {
        Seq::empty()
    } else {
        let prev = meaning_upto(views, k - 1);
        let line = LineView { kind: stripped_kind(views[k - 1].kind), comment: views[k - 1].comment };
        if line.kind is Blank && (prev.len() == 0 || prev.last().kind is Blank) { prev } else { prev.push(line) }
    }
}

/// Whether a meaning line is blank.
pub open spec fn blank_view(v: LineView) -> bool {
    v.kind is Blank
}

/// What a file's lines mean, without the blank lines at the end.
pub open spec fn meaning(views: Seq<LineView>) -> Seq<LineView> {
    without_trailing_blank(meaning_upto(views, views.len() as int))
}

pub open spec fn without_trailing_blank(lines: Seq<LineView>) -> Seq<LineView>
    decreases lines.len(),
{
    if lines.len() > 0 && lines.last().kind is Blank { without_trailing_blank(lines.drop_last()) } else { lines }
}

/// The text of a file laid out in a style.
pub open spec fn laid_out(text: Seq<char>, views: Seq<LineView>, indent: Seq<char>, widths: (int, int)) -> Seq<char> {
    let lines = without_trailing_empty(layout_state(views, indent, widths, views.len() as int).0);
    with_endings(lines, if has_crlf(text) { seq!['\r', '\n'] } else { seq!['\n'] })
}

/// Why a file was not tidied.
pub enum TidyFault {
    /// A line of the file, or of the tidied text, that did not lex
    Lex { tidied: bool, index: int, fault: Fault },
    /// The tidied text would mean something else
    Meaning,
}

/// A file's text tidied: lexed, laid out in the style its postings show,
/// and checked to mean exactly what it meant. (Columns too wide to add up,
/// or lines of the tidied text too long to lex, count as a change of
/// meaning: the text is refused.)
pub open spec fn tidied(text: Seq<char>) -> Result<Seq<char>, TidyFault> {
    let lines = text_lines(text);
    match lexed_upto(lines, lines.len() as int) {
        Err((i, f)) => Err(TidyFault::Lex { tidied: false, index: i, fault: f }),
        Ok(views) => {
            let kinds = Seq::new(lines.len(), |i: int| (lines[i], views[i].kind));
            let (tabs, counts, widths) = detect_state(kinds, lines.len() as int);
            let out = laid_out(text, views, detected_indent(tabs, counts), widths);
            let after = text_lines(out);
            if widths.0 + widths.1 + 2 > usize::MAX || !lines_fit(after) {
                Err(TidyFault::Meaning)
            } else {
                match lexed_upto(after, after.len() as int) {
                    Err((i, f)) => Err(TidyFault::Lex { tidied: true, index: i, fault: f }),
                    Ok(again) => if meaning(views) == meaning(again) { Ok(out) } else { Err(TidyFault::Meaning) },
                }
            }
        },
    }
}


/// The lines' views.
pub open spec fn views_of(lines: Seq<Line>) -> Seq<LineView> {
    lines.map_values(|l: Line| l@)
}

/// Lexes every line, stopping at the first problem.
#[verifier::rlimit(40)]
fn lex_all(lines: &Vec<Vec<char>>, file: FileId) -> (r: Result<Vec<Line>, Diagnostic>)
    requires
        lines_fit(lines.deep_view()),
    ensures
        match lexed_upto(lines.deep_view(), lines@.len() as int) {
            Ok(vs) => r matches Ok(v) && views_of(v@) == vs,
            Err((i, f)) => r matches Err(d) && reports(d, f, file, (i + 1) as usize),
        },
{
    let ghost all = lines.deep_view();
    let mut out: Vec<Line> = Vec::new();
    let mut i: usize = 0;
    assert(views_of(out@) =~= Seq::<LineView>::empty());
    while i < lines.len()
        invariant
            i <= lines@.len(),
            all == lines.deep_view(),
            lines_fit(all),
            out@.len() == i,
            lexed_upto(all, i as int) == Ok::<Seq<LineView>, (int, Fault)>(views_of(out@)),
        decreases lines@.len() - i,
    {
        let raw = &lines[i];
        assert(all[i as int] == raw@);
        assert(bytes_of(all[i as int]) < usize::MAX);
        let s = string_of(raw);
        match lex_line(s.as_str(), file, i + 1) {
            Ok(l) => {
                let ghost before = views_of(out@);
                out.push(l);
                assert(views_of(out@) =~= before.push(out@[i as int]@));
            },
            Err(d) => {
                proof {
                    lemma_lexed_upto_err(all, i as int + 1, lines@.len() as int);
                }
                return Err(d);
            },
        }
        i = i + 1;
    }
    Ok(out)
}

/// An error found in the first `k` lines stays the error of all of them.
proof fn lemma_lexed_upto_err(lines: Seq<Seq<char>>, k: int, n: int)
    requires
        0 <= k <= n,
        lexed_upto(lines, k) is Err,
    ensures
        lexed_upto(lines, n) == lexed_upto(lines, k),
    decreases n - k,
{
    if k < n {
        lemma_lexed_upto_err(lines, k + 1, n);
    }
}

/// Whether a string has white space in it.
fn has_space_char(s: &String) -> (r: bool)
    ensures
        r == has_space(s@),
{
    let v = chars_of(s.as_str());
    let mut i: usize = 0;
    while i < v.len()
        invariant
            i <= v@.len(),
            v@ == s@,
            forall|k: int| 0 <= k < i ==> !is_space(#[trigger] v@[k]),
        decreases v@.len() - i,
    {
        if is_space_char(v[i]) {
            return true;
        }
        i = i + 1;
    }
    false
}

/// A line's content laid out.
fn kind_line(kind: &LineKind, style: &FileStyle, in_entry: bool) -> (r: Vec<char>)
    requires
        style.account_width + style.whole_width + 2 <= usize::MAX,
    ensures
        r@ == kind_text(kind@, style.indent@, (style.account_width as int, style.whole_width as int), in_entry),
{
    let mut out: Vec<char> = Vec::new();
    match kind {
        LineKind::Blank => {},
        LineKind::CommentOnly => {
            if in_entry {
                push_str(&mut out, &style.indent);
            }
        },
        LineKind::Include(i) => {
            if has_space_char(&i.path) {
                extend_chars(&mut out, "include \"");
                push_str(&mut out, &i.path);
                extend_chars(&mut out, "\"");
            } else {
                extend_chars(&mut out, "include ");
                push_str(&mut out, &i.path);
            }
        },
        LineKind::Directive(d) => {
            out.push('!');
            out.push(' ');
            push_str(&mut out, &d.date.text());
            out.push(' ');
            extend_chars(&mut out, d.directive.keyword());
            out.push(' ');
            push_str(&mut out, &d.directive.args());
        },
        LineKind::Header(h) => {
            push_str(&mut out, &h.date.text());
            out.push(' ');
            push_str(&mut out, &h.description);
        },
        LineKind::Reference(text) => {
            push_str(&mut out, &style.indent);
            out.push('/');
            out.push('/');
            if chars_of(text.as_str()).len() > 0 {
                out.push(' ');
                push_str(&mut out, text);
            }
            proof {
                if text@.len() == 0 {
                    assert(out@ =~= style.indent@ + seq!['/', '/']);
                }
            }
        },
        LineKind::Posting(p) => {
            push_str(&mut out, &style.indent);
            push_str(&mut out, &style.posting(p));
        },
    }
    assert(out@ =~= kind_text(kind@, style.indent@, (style.account_width as int, style.whole_width as int), in_entry));
    out
}

/// A line's content with its comment.
fn commented(content: Vec<char>, comment: &Option<String>) -> (r: Vec<char>)
    ensures
        r@ == with_comment(content@, match comment { Some(c) => Some(c@), None => None }),
{
    match comment {
        Some(c) => {
            let t = trim_chars(&content);
            let ghost before = content@;
            let mut out = content;
            if t.len() > 0 {
                out.push(' ');
                out.push(' ');
            }
            push_str(&mut out, c);
            assert(out@ =~= with_comment(before, Some(c@)));
            out
        },
        None => content,
    }
}


/// Lays out every line.
fn layout(lines: &Vec<Line>, style: &FileStyle) -> (r: Vec<Vec<char>>)
    requires
        style.account_width + style.whole_width + 2 <= usize::MAX,
    ensures
        r.deep_view() == layout_state(views_of(lines@), style.indent@,
            (style.account_width as int, style.whole_width as int), lines@.len() as int).0,
{
    let ghost views = views_of(lines@);
    let ghost widths = (style.account_width as int, style.whole_width as int);
    let mut out: Vec<Vec<char>> = Vec::new();
    let mut in_entry = false;
    let mut blanks: usize = 0;
    let mut i: usize = 0;
    assert(out.deep_view() =~= Seq::<Seq<char>>::empty());
    while i < lines.len()
        invariant
            i <= lines@.len(),
            views == views_of(lines@),
            widths == (style.account_width as int, style.whole_width as int),
            blanks <= i,
            style.account_width + style.whole_width + 2 <= usize::MAX,
            layout_state(views, style.indent@, widths, i as int) == (out.deep_view(), in_entry, blanks as int),
        decreases lines@.len() - i,
    {
        let line = &lines[i];
        assert(views[i as int] == line@);
        let ghost before = out.deep_view();
        if let LineKind::Blank = line.kind {
            blanks = blanks + 1;
            if blanks <= MAX_BLANK_LINES && out.len() > 0 {
                let empty: Vec<char> = Vec::new();
                assert(empty.deep_view() =~= Seq::<char>::empty());
                out.push(empty);
                assert(out.deep_view() =~= before.push(Seq::<char>::empty()));
            }
            in_entry = false;
            assert(views[i as int].kind is Blank);
            assert(layout_state(views, style.indent@, widths, i + 1) == (out.deep_view(), in_entry, blanks as int));
        } else {
            assert(!(views[i as int].kind is Blank));
            let ghost was_in = in_entry;
            let content = kind_line(&line.kind, style, in_entry);
            let ghost content_view = content@;
            if let LineKind::Header(_) = line.kind {
                in_entry = true;
            }
            let full = commented(content, &line.comment);
            assert(full.deep_view() =~= full@);
            assert(views[i as int].comment == (match line.comment { Some(c) => Some(c@), None => None::<Seq<char>> }));
            assert(views[i as int].kind == line.kind@);
            assert(content_view == kind_text(views[i as int].kind, style.indent@, widths, was_in));
            assert(full@ == with_comment(kind_text(views[i as int].kind, style.indent@, widths, was_in), views[i as int].comment));
            out.push(full);
            assert(out.deep_view() =~= before.push(full@));
            blanks = 0;
            assert(in_entry == (if views[i as int].kind is Header { true } else { was_in }));
            assert(layout_state(views, style.indent@, widths, i + 1) == (out.deep_view(), in_entry, blanks as int));
        }
        i = i + 1;
    }
    out
}

/// Drops the empty lines at the end.
fn trim_empty_end(lines: &mut Vec<Vec<char>>)
    ensures
        final(lines).deep_view() == without_trailing_empty(old(lines).deep_view()),
{
    let ghost start = lines.deep_view();
    while lines.len() > 0 && lines[lines.len() - 1].len() == 0
        invariant
            without_trailing_empty(start) == without_trailing_empty(lines.deep_view()),
        decreases lines@.len(),
    {
        let ghost before = lines.deep_view();
        assert(before.last() == lines@[lines@.len() - 1]@);
        lines.pop();
        assert(lines.deep_view() =~= before.drop_last());
    }
}

/// Whether a text uses Windows line endings anywhere.
pub(crate) fn crlf_in(t: &Vec<char>) -> (r: bool)
    ensures
        r == has_crlf(t@),
{
    let mut i: usize = 0;
    while t.len() > 0 && i < t.len() - 1
        invariant
            i <= t@.len(),
            forall|k: int| 0 <= k < i && k < t@.len() - 1 ==> !(t@[k] == '\r' && #[trigger] t@[k + 1] == '\n'),
        decreases t@.len() - i,
    {
        if t[i] == '\r' && t[i + 1] == '\n' {
            return true;
        }
        i = i + 1;
    }
    false
}

/// The lines, each ended by `newline`.
fn join_lines(lines: &Vec<Vec<char>>, newline: &Vec<char>) -> (r: Vec<char>)
    ensures
        r@ == with_endings(lines.deep_view(), newline@),
{
    let ghost all = lines.deep_view();
    let mut out: Vec<char> = Vec::new();
    let mut i: usize = 0;
    assert(all.take(0) =~= Seq::<Seq<char>>::empty());
    while i < lines.len()
        invariant
            i <= lines@.len(),
            all == lines.deep_view(),
            out@ == with_endings(all.take(i as int), newline@),
        decreases lines@.len() - i,
    {
        let line = &lines[i];
        assert(all[i as int] == line@);
        let mut k: usize = 0;
        let ghost start = out@;
        while k < line.len()
            invariant
                k <= line@.len(),
                out@ == start + line@.take(k as int),
            decreases line@.len() - k,
        {
            out.push(line[k]);
            assert(line@.take(k + 1) =~= line@.take(k as int).push(line@[k as int]));
            k = k + 1;
        }
        assert(line@.take(line@.len() as int) =~= line@);
        let ghost mid = out@;
        let mut k: usize = 0;
        while k < newline.len()
            invariant
                k <= newline@.len(),
                out@ == mid + newline@.take(k as int),
            decreases newline@.len() - k,
        {
            out.push(newline[k]);
            assert(newline@.take(k + 1) =~= newline@.take(k as int).push(newline@[k as int]));
            k = k + 1;
        }
        assert(newline@.take(newline@.len() as int) =~= newline@);
        assert(all.take(i + 1).drop_last() =~= all.take(i as int));
        assert(out@ =~= with_endings(all.take(i + 1), newline@));
        i = i + 1;
    }
    assert(all.take(lines@.len() as int) =~= all);
    out
}


/// A line stripped of its layout.
pub open spec fn strip_line(v: LineView) -> LineView {
    LineView { kind: stripped_kind(v.kind), comment: v.comment }
}

/// The stripped lines at the given positions.
pub open spec fn picks(views: Seq<LineView>, idx: Seq<usize>) -> Seq<LineView> {
    idx.map_values(|i: usize| strip_line(views[i as int]))
}

fn same_text(a: &String, b: &String) -> (r: bool)
    ensures
        r == (a@ == b@),
{
    str_eq(a.as_str(), b.as_str())
}

fn same_opt_text(a: &Option<String>, b: &Option<String>) -> (r: bool)
    ensures
        r == (crate::diagnostics::opt_view(*a) == crate::diagnostics::opt_view(*b)),
{
    match (a, b) {
        (Some(x), Some(y)) => same_text(x, y),
        (None, None) => true,
        _ => false,
    }
}

fn same_number(a: &Quant, b: &Quant) -> (r: bool)
    ensures
        r == (stripped_quant(*a) == stripped_quant(*b)),
{
    a.numerator == b.numerator && a.denominator == b.denominator && a.is_negative == b.is_negative
}

fn same_posting(a: &Posting, b: &Posting) -> (r: bool)
    ensures
        r == (stripped_kind(KindView::Posting(a@)) == stripped_kind(KindView::Posting(b@))),
{
    if !same_text(&a.account, &b.account) {
        return false;
    }
    match (&a.amount, &b.amount) {
        (None, None) => true,
        (Some(x), Some(y)) => {
            if !(same_number(&x.value, &y.value) && same_text(&x.value_text, &y.value_text)
                && same_text(&x.currency, &y.currency)) {
                return false;
            }
            let prices = match (&x.price, &y.price) {
                (None, None) => true,
                (Some(p), Some(q)) => p.is_total == q.is_total && same_number(&p.value, &q.value)
                    && same_text(&p.value_text, &q.value_text) && same_text(&p.currency, &q.currency),
                _ => false,
            };
            let lots = match (&x.lot, &y.lot) {
                (None, None) => true,
                (Some(p), Some(q)) => same_number(&p.cost, &q.cost) && same_text(&p.cost_text, &q.cost_text)
                    && same_text(&p.currency, &q.currency) && same_opt_text(&p.name, &q.name),
                _ => false,
            };
            prices && lots
        },
        _ => false,
    }
}

fn same_directive(a: &Directive, b: &Directive) -> (r: bool)
    ensures
        r == (match (a@, b@) {
            (DirectiveView::Rate { base, quote, rate, rate_text }, DirectiveView::Rate { base: b2, quote: q2, rate: r2, rate_text: t2 }) =>
                base == b2 && quote == q2 && stripped_quant(rate) == stripped_quant(r2) && rate_text == t2,
            (x, y) => x == y,
        }),
{
    match (a, b) {
        (Directive::Account(x), Directive::Account(y)) => same_text(x, y),
        (Directive::Open(x), Directive::Open(y)) => same_text(x, y),
        (Directive::Close(x), Directive::Close(y)) => same_text(x, y),
        (Directive::Currency(x), Directive::Currency(y)) => same_text(x, y),
        (Directive::Clear(x), Directive::Clear(y)) => same_text(x, y),
        (Directive::Worthless(x), Directive::Worthless(y)) => same_text(x, y),
        (Directive::Rate { base, quote, rate, rate_text }, Directive::Rate { base: b2, quote: q2, rate: r2, rate_text: t2 }) =>
            same_text(base, b2) && same_text(quote, q2) && same_number(rate, r2) && same_text(rate_text, t2),
        _ => false,
    }
}

/// Whether two lines mean the same, apart from their layout.
fn same_meaning_line(a: &Line, b: &Line) -> (r: bool)
    ensures
        r == (strip_line(a@) == strip_line(b@)),
{
    if !same_opt_text(&a.comment, &b.comment) {
        return false;
    }
    match (&a.kind, &b.kind) {
        (LineKind::Blank, LineKind::Blank) => true,
        (LineKind::CommentOnly, LineKind::CommentOnly) => true,
        (LineKind::Include(x), LineKind::Include(y)) => same_text(&x.path, &y.path),
        (LineKind::Directive(x), LineKind::Directive(y)) => x.date == y.date && same_directive(&x.directive, &y.directive),
        (LineKind::Header(x), LineKind::Header(y)) => x.date == y.date && same_text(&x.description, &y.description),
        (LineKind::Reference(x), LineKind::Reference(y)) => same_text(x, y),
        (LineKind::Posting(x), LineKind::Posting(y)) => same_posting(x, y),
        _ => false,
    }
}

/// The positions of the lines that carry a file's meaning.
fn meaning_picks(lines: &Vec<Line>) -> (r: Vec<usize>)
    ensures
        forall|j: int| 0 <= j < r@.len() ==> #[trigger] r@[j] < lines@.len(),
        picks(views_of(lines@), r@) == meaning(views_of(lines@)),
{
    let ghost views = views_of(lines@);
    let mut kept: Vec<usize> = Vec::new();
    let mut i: usize = 0;
    assert(picks(views, kept@) =~= Seq::<LineView>::empty());
    while i < lines.len()
        invariant
            i <= lines@.len(),
            views == views_of(lines@),
            forall|j: int| 0 <= j < kept@.len() ==> #[trigger] kept@[j] < i,
            picks(views, kept@) == meaning_upto(views, i as int),
        decreases lines@.len() - i,
    {
        assert(views[i as int] == lines@[i as int]@);
        let blank = matches!(lines[i].kind, LineKind::Blank);
        let skip = blank && (kept.len() == 0 || matches!(lines[kept[kept.len() - 1]].kind, LineKind::Blank));
        proof {
            if kept@.len() > 0 {
                let k = kept@[kept@.len() - 1];
                assert(picks(views, kept@).last() == strip_line(views[k as int]));
                assert(views[k as int] == lines@[k as int]@);
            }
        }
        if !skip {
            let ghost before = picks(views, kept@);
            kept.push(i);
            assert(picks(views, kept@) =~= before.push(strip_line(views[i as int])));
        }
        i = i + 1;
    }
    let ghost full = picks(views, kept@);
    while kept.len() > 0 && matches!(lines[kept[kept.len() - 1]].kind, LineKind::Blank)
        invariant
            views == views_of(lines@),
            forall|j: int| 0 <= j < kept@.len() ==> #[trigger] kept@[j] < lines@.len(),
            without_trailing_blank(full) == without_trailing_blank(picks(views, kept@)),
        decreases kept@.len(),
    {
        let ghost before = picks(views, kept@);
        let k = kept[kept.len() - 1];
        assert(views[k as int] == lines@[k as int]@);
        assert(before.last() == strip_line(views[k as int]));
        kept.pop();
        assert(picks(views, kept@) =~= before.drop_last());
    }
    kept
}

/// Whether two files' lines mean the same, apart from their layout.
fn same_meaning(a: &Vec<Line>, b: &Vec<Line>) -> (r: bool)
    ensures
        r == (meaning(views_of(a@)) == meaning(views_of(b@))),
{
    let pa = meaning_picks(a);
    let pb = meaning_picks(b);
    let ghost ma = meaning(views_of(a@));
    let ghost mb = meaning(views_of(b@));
    assert(ma.len() == pa@.len());
    assert(mb.len() == pb@.len());
    if pa.len() != pb.len() {
        return false;
    }
    let mut j: usize = 0;
    while j < pa.len()
        invariant
            j <= pa@.len(),
            pa@.len() == pb@.len(),
            forall|k: int| 0 <= k < pa@.len() ==> #[trigger] pa@[k] < a@.len(),
            forall|k: int| 0 <= k < pb@.len() ==> #[trigger] pb@[k] < b@.len(),
            picks(views_of(a@), pa@) == ma,
            picks(views_of(b@), pb@) == mb,
            ma == meaning(views_of(a@)),
            mb == meaning(views_of(b@)),
            ma.len() == pa@.len(),
            forall|k: int| 0 <= k < j ==> ma[k] == mb[k],
        decreases pa@.len() - j,
    {
        let x = pa[j];
        let y = pb[j];
        assert(ma[j as int] == strip_line(views_of(a@)[x as int]));
        assert(mb[j as int] == strip_line(views_of(b@)[y as int]));
        assert(views_of(a@)[x as int] == a@[x as int]@);
        assert(views_of(b@)[y as int] == b@[y as int]@);
        if !same_meaning_line(&a[x], &b[y]) {
            assert(ma[j as int] != mb[j as int]);
            return false;
        }
        j = j + 1;
    }
    assert(ma =~= mb);
    true
}

/// The length of the whole part of an amount as written.
fn whole_len(text: &String) -> (r: usize)
    ensures
        r == whole_part(text@).len(),
        r <= text@.len(),
{
    let v = chars_of(text.as_str());
    let dot = find_char(&v, 0, '.');
    proof {
        assert(v@.subrange(0, v@.len() as int) =~= v@);
        lemma_index_of_bounds(text@, '.');
    }
    dot
}

/// Appends `n` spaces.
fn push_spaces(out: &mut Vec<char>, n: usize)
    ensures
        final(out)@ == old(out)@ + spaces(n as int),
{
    let ghost start = out@;
    let mut i: usize = 0;
    while i < n
        invariant
            i <= n,
            out@ == start + spaces(i as int),
        decreases n - i,
    {
        out.push(' ');
        assert(spaces(i + 1) =~= spaces(i as int).push(' '));
        i = i + 1;
    }
}

/// Appends the characters of a string.
fn push_str(out: &mut Vec<char>, s: &String)
    ensures
        final(out)@ == old(out)@ + s@,
{
    extend_chars(out, s.as_str());
}

impl FileStyle {
    /// Learns a file's indentation from its postings, and sizes the columns
    /// to fit all of them
    pub fn detect(lines: &[(&str, &Line)]) -> (r: FileStyle)
        ensures
            ({
                let (tabs, counts, widths) = detect_state(line_kinds(lines@), lines@.len() as int);
                &&& r.indent@ == detected_indent(tabs, counts)
                &&& (r.account_width as int, r.whole_width as int) == widths
            }),
    {
        let ghost all = line_kinds(lines@);
        let mut tabs: usize = 0;
        let mut counts: Vec<usize> = Vec::new();
        let mut style = FileStyle::default();
        let mut i: usize = 0;
        assert(as_ints(counts@) =~= Seq::<int>::empty());
        while i < lines.len()
            invariant
                i <= lines@.len(),
                all == line_kinds(lines@),
                detect_state(all, i as int) == (tabs as int, as_ints(counts@), (style.account_width as int, style.whole_width as int)),
                tabs <= i,
                counts@.len() <= i,
                style.indent@ == four_spaces(),
            decreases lines@.len() - i,
        {
            let (raw, line) = lines[i];
            assert(all[i as int] == (raw@, line.kind@));
            if let LineKind::Posting(posting) = &line.kind {
                let rv = chars_of(raw);
                if rv.len() > 0 && rv[0] == '\t' {
                    tabs = tabs + 1;
                } else {
                    let ghost before = as_ints(counts@);
                    counts.push(count_lead_blanks(raw));
                    assert(as_ints(counts@) =~= before.push(lead_blanks(raw@)));
                }
                style.fit(posting);
            }
            i = i + 1;
        }
        if tabs > counts.len() {
            let mut t: Vec<char> = Vec::new();
            t.push('\t');
            assert(t@ =~= seq!['\t']);
            style.indent = string_of(&t);
        } else {
            match most_common_value(&counts) {
                Some(n) => if n > 0 {
                    let mut t: Vec<char> = Vec::new();
                    push_spaces(&mut t, n);
                    assert(t@ =~= spaces(n as int));
                    style.indent = string_of(&t);
                },
                None => {},
            }
        }
        style
    }

    /// Widens the columns to fit a posting
    pub fn fit(&mut self, posting: &Posting)
        ensures
            final(self).indent == old(self).indent,
            (final(self).account_width as int, final(self).whole_width as int)
                == fit_widths((old(self).account_width as int, old(self).whole_width as int), posting@),
    {
        if let Some(amount) = &posting.amount {
            let account = chars_of(posting.account.as_str()).len();
            if account <= MAX_ACCOUNT_COLUMN && account > self.account_width {
                self.account_width = account;
            }
            let whole = whole_len(&amount.value_text);
            if whole > self.whole_width {
                self.whole_width = whole;
            }
        }
    }

    /// A posting laid out in this style, without its indentation or comment
    pub fn posting(&self, posting: &Posting) -> (r: String)
        requires
            self.account_width + self.whole_width + 2 <= usize::MAX,
        ensures
            r@ == posting_text(self.account_width as int, self.whole_width as int, posting@),
    {
        let amount = match &posting.amount {
            None => {
                let v = chars_of(posting.account.as_str());
                return string_of(&v);
            },
            Some(a) => a,
        };
        let account_len = chars_of(posting.account.as_str()).len();
        let value = chars_of(amount.value_text.as_str());
        let whole = whole_len(&amount.value_text);
        let gap = if self.account_width >= account_len { self.account_width - account_len } else { 0 } + 2;
        let pad = if self.whole_width >= whole { self.whole_width - whole } else { 0 };
        let mut out: Vec<char> = Vec::new();
        push_str(&mut out, &posting.account);
        push_spaces(&mut out, gap + pad);
        let ghost before_number = out@;
        let mut i: usize = 0;
        while i < value.len()
            invariant
                i <= value@.len(),
                value@ == amount.value_text@,
                out@ == before_number + value@.take(i as int),
            decreases value@.len() - i,
        {
            out.push(value[i]);
            assert(value@.take(i + 1) =~= value@.take(i as int).push(value@[i as int]));
            i = i + 1;
        }
        assert(value@.take(value@.len() as int) =~= value@);
        proof {
            lemma_index_of_bounds(value@, '.');
            assert(value@ =~= whole_part(value@) + fraction_part(value@));
        }
        out.push(' ');
        push_str(&mut out, &amount.currency);
        let ghost head = out@;
        push_price(&mut out, &amount.price);
        push_lot(&mut out, &amount.lot);
        let r = string_of(&out);
        assert(r@ =~= posting_text(self.account_width as int, self.whole_width as int, posting@));
        r
    }
}

/// What is said where tidying would change what a file means.
pub open spec fn refusal() -> Seq<char> {
    "tidying would change what this file means; leaving it alone (this is a bug in ledr)"@
}

fn refused() -> (d: Diagnostic)
    ensures
        d.message@ == refusal(),
{
    Diagnostic::error("tidying would change what this file means; leaving it alone (this is a bug in ledr)")
}

proof fn lemma_lexed_upto_len(lines: Seq<Seq<char>>, k: int)
    requires
        0 <= k,
    ensures
        lexed_upto(lines, k) matches Ok(vs) ==> vs.len() == k,
    decreases k,
{
    if k > 0 {
        lemma_lexed_upto_len(lines, k - 1);
    }
}

/// Each line's text beside the line it lexed to.
fn make_pairs<'a>(raws: &'a Vec<String>, lexed: &'a Vec<Line>) -> (r: Vec<(&'a str, &'a Line)>)
    requires
        raws@.len() == lexed@.len(),
    ensures
        line_kinds(r@) == Seq::new(raws@.len(), |i: int| (raws@[i]@, lexed@[i].kind@)),
{
    let n = raws.len();
    let mut pairs: Vec<(&str, &Line)> = Vec::new();
    let mut i: usize = 0;
    while i < n
        invariant
            i <= n,
            n == raws@.len(),
            n == lexed@.len(),
            pairs@.len() == i,
            forall|k: int| 0 <= k < i ==> (#[trigger] pairs@[k]).0@ == raws@[k]@ && pairs@[k].1 == lexed@[k],
        decreases n - i,
    {
        pairs.push((raws[i].as_str(), &lexed[i]));
        i = i + 1;
    }
    assert(line_kinds(pairs@) =~= Seq::new(raws@.len(), |i: int| (raws@[i]@, lexed@[i].kind@)));
    pairs
}

/// The style a file's lines show.
fn style_of(lines: &Vec<Vec<char>>, lexed: &Vec<Line>) -> (r: FileStyle)
    requires
        lines@.len() == lexed@.len(),
    ensures
        ({
            let kinds = Seq::new(lines@.len(), |i: int| (lines.deep_view()[i], views_of(lexed@)[i].kind));
            let (tabs, counts, widths) = detect_state(kinds, lines@.len() as int);
            &&& r.indent@ == detected_indent(tabs, counts)
            &&& (r.account_width as int, r.whole_width as int) == widths
        }),
{
    let n = lines.len();
    let mut raws: Vec<String> = Vec::new();
    let mut i: usize = 0;
    while i < n
        invariant
            i <= n,
            n == lines@.len(),
            raws@.len() == i,
            forall|k: int| 0 <= k < i ==> #[trigger] raws@[k]@ == lines@[k]@,
        decreases n - i,
    {
        raws.push(string_of(&lines[i]));
        i = i + 1;
    }
    let pairs = make_pairs(&raws, lexed);
    proof {
        let kinds = Seq::new(lines@.len(), |i: int| (lines.deep_view()[i], views_of(lexed@)[i].kind));
        assert forall|k: int| 0 <= k < n implies kinds[k] == (raws@[k]@, lexed@[k].kind@) by {
            assert(lines.deep_view()[k] == lines@[k]@);
            assert(views_of(lexed@)[k] == lexed@[k]@);
        }
        assert(line_kinds(pairs@) =~= kinds);
    }
    FileStyle::detect(pairs.as_slice())
}

/// Lexes the tidied text and checks that it means what `lexed` did.
fn recheck(tidied_text: &String, lexed: &Vec<Line>, file: FileId) -> (r: Result<(), Diagnostic>)
    ensures
        ({
            let after = text_lines(tidied_text@);
            if !lines_fit(after) {
                r matches Err(d) && d.message@ == refusal()
            } else {
                match lexed_upto(after, after.len() as int) {
                    Err((i, f)) => r matches Err(d) && reports(d, f, file, (i + 1) as usize),
                    Ok(again) => if meaning(views_of(lexed@)) == meaning(again) {
                        r is Ok
                    } else {
                        r matches Err(d) && d.message@ == refusal()
                    },
                }
            }
        }),
{
    let after = text_lines_of(tidied_text.as_str());
    let ghost av = text_lines(tidied_text@);
    assert(after.deep_view() == av);
    let mut k: usize = 0;
    while k < after.len()
        invariant
            k <= after@.len(),
            after.deep_view() == av,
            av == text_lines(tidied_text@),
            forall|j: int| 0 <= j < k ==> bytes_of(#[trigger] after.deep_view()[j]) < usize::MAX,
        decreases after@.len() - k,
    {
        assert(after.deep_view()[k as int] == after@[k as int]@);
        if !crate::render::entries::fits(&after[k]) {
            assert(!lines_fit(after.deep_view()));
            assert(after.deep_view() == text_lines(tidied_text@));
            return Err(refused());
        }
        k = k + 1;
    }
    let again = match lex_all(&after, file) {
        Ok(l) => l,
        Err(d) => return Err(d),
    };
    if !same_meaning(lexed, &again) {
        return Err(refused());
    }
    Ok(())
}

/// Formats one file's text. Fails on a syntax error, and refuses to return
/// anything whose meaning differs from the original.
pub fn tidy(text: &str, file: FileId) -> (r: Result<String, Diagnostic>)
    requires
        bytes_of(text@) < usize::MAX,
    ensures
        match tidied(text@) {
            Ok(t) => r matches Ok(s) && s@ == t,
            Err(TidyFault::Lex { index, fault, .. }) => r matches Err(d) && reports(d, fault, file, (index + 1) as usize),
            Err(TidyFault::Meaning) => r matches Err(d) && d.message@ == refusal(),
        },
{
    let lines = text_lines_of(text);
    let ghost lv = text_lines(text@);
    proof { lemma_lines_bytes(text@); }
    assert(lines_fit(lv));
    let lexed = match lex_all(&lines, file) {
        Ok(l) => l,
        Err(d) => return Err(d),
    };
    proof { lemma_lexed_upto_len(lv, lv.len() as int); }
    let style = style_of(&lines, &lexed);
    if style.whole_width > usize::MAX - 2 || style.account_width > usize::MAX - 2 - style.whole_width {
        return Err(refused());
    }
    let mut out = layout(&lexed, &style);
    trim_empty_end(&mut out);
    let chars = chars_of(text);
    let mut newline: Vec<char> = Vec::new();
    if crlf_in(&chars) {
        newline.push('\r');
    }
    newline.push('\n');
    let joined = join_lines(&out, &newline);
    let tidied_text = string_of(&joined);
    proof {
        assert(newline@ =~= (if has_crlf(text@) { seq!['\r', '\n'] } else { seq!['\n'] }));
    }
    match recheck(&tidied_text, &lexed, file) {
        Ok(()) => Ok(tidied_text),
        Err(d) => Err(d),
    }
}

/// Tidying never changes what a file means: a text it returns lexes, line
/// by line, to what the original lexed to, apart from layout.
pub proof fn lemma_tidy_keeps_meaning(text: Seq<char>)
    requires
        tidied(text) is Ok,
    ensures
        ({
            let before = text_lines(text);
            let after = text_lines(tidied(text)->Ok_0);
            &&& lexed_upto(before, before.len() as int) is Ok
            &&& lexed_upto(after, after.len() as int) is Ok
            &&& meaning(lexed_upto(before, before.len() as int)->Ok_0) == meaning(lexed_upto(after, after.len() as int)->Ok_0)
        }),
{
}

/// What happened to a line between two versions of a text.
#[derive(Clone, Copy, Debug, PartialEq, Eq, Structural)]
pub enum ChangeKind {
    Delete,
    Insert,
    Equal,
}

/// How many unchanged lines a diff shows around each change.
pub const CONTEXT_LINES: usize = 2;

/// The unified diff that the similar crate writes between two texts, with
/// `radius` lines of context and the given names in its header.
pub uninterp spec fn unified_text(before: Seq<char>, after: Seq<char>, radius: nat, old_name: Seq<char>, new_name: Seq<char>) -> Seq<char>;

/// `TextDiff::from_lines` of the similar crate, then `unified_diff` with
/// the given context radius and the two names as its header, as text. The
/// result depends on the texts, radius and names alone (no deadline is
/// set, so the diff does not depend on time), and is named `unified_text`.
#[verifier::external_body]
fn unified(before: &str, after: &str, radius: usize, old_name: &str, new_name: &str) -> (r: String)
    ensures
        r@ == unified_text(before@, after@, radius as nat, old_name@, new_name@),
{
    similar::TextDiff::from_lines(before, after).unified_diff().context_radius(radius).header(old_name, new_name).to_string()
}

/// The changes that the similar crate finds between the lines of two
/// texts, in groups that each keep `radius` lines of context: what
/// happened to each line, its index in the old text if it was there, and
/// its text.
pub uninterp spec fn change_groups(before: Seq<char>, after: Seq<char>, radius: nat) -> Seq<Seq<(ChangeKind, Option<usize>, Seq<char>)>>;

/// The groups' plain values.
pub open spec fn groups_view(g: Seq<Vec<(ChangeKind, Option<usize>, String)>>) -> Seq<Seq<(ChangeKind, Option<usize>, Seq<char>)>> {
    g.map_values(|v: Vec<(ChangeKind, Option<usize>, String)>| v@.map_values(|c: (ChangeKind, Option<usize>, String)| (c.0, c.1, c.2@)))
}

/// `TextDiff::from_lines` of the similar crate, then `grouped_ops` with the
/// given radius and `iter_changes` over each group's operations: each
/// change's tag, old index and value. The result depends on the texts and
/// radius alone (no deadline is set), and is named `change_groups`; an old
/// index, being an index into the old text's lines, is below the largest
/// `usize`.
#[verifier::external_body]
fn diff_groups(before: &str, after: &str, radius: usize) -> (r: Vec<Vec<(ChangeKind, Option<usize>, String)>>)
    ensures
        groups_view(r@) == change_groups(before@, after@, radius as nat),
        forall|i: int, j: int| 0 <= i < r@.len() && 0 <= j < r@[i]@.len()
            ==> ((#[trigger] r@[i]@[j]).1 matches Some(n) ==> n < usize::MAX),
{
    let diff = similar::TextDiff::from_lines(before, after);
    let mut groups = Vec::new();
    for group in diff.grouped_ops(radius) {
        let mut changes = Vec::new();
        for c in group.iter().flat_map(|op| diff.iter_changes(op)) {
            let kind = match c.tag() {
                similar::ChangeTag::Delete => ChangeKind::Delete,
                similar::ChangeTag::Insert => ChangeKind::Insert,
                similar::ChangeTag::Equal => ChangeKind::Equal,
            };
            changes.push((kind, c.old_index(), c.value().to_string()));
        }
        groups.push(changes);
    }
    groups
}

/// A unified diff between two versions of a file, as `patch` expects
pub fn plain_diff(path: &str, before: &str, after: &str) -> (r: String)
    ensures
        r@ == unified_text(before@, after@, CONTEXT_LINES as nat, seq!['a', '/'] + path@, seq!['b', '/'] + path@),
{
    let mut a: Vec<char> = Vec::new();
    a.push('a');
    a.push('/');
    extend_chars(&mut a, path);
    let mut b: Vec<char> = Vec::new();
    b.push('b');
    b.push('/');
    extend_chars(&mut b, path);
    assert(a@ =~= seq!['a', '/'] + path@);
    assert(b@ =~= seq!['b', '/'] + path@);
    unified(before, after, CONTEXT_LINES, string_of(&a).as_str(), string_of(&b).as_str())
}

/// `s` without the line feeds at its end.
pub open spec fn without_feeds(s: Seq<char>) -> Seq<char>
    decreases s.len(),
{
    if s.len() > 0 && s.last() == '\n' { without_feeds(s.drop_last()) } else { s }
}

/// `s` with each tab written as four spaces.
pub open spec fn untabbed(s: Seq<char>) -> Seq<char>
    decreases s.len(),
{
    if s.len() == 0 {
        Seq::empty()
    } else {
        untabbed(s.drop_last()) + if s.last() == '\t' { four_spaces() } else { seq![s.last()] }
    }
}

/// `digits` with spaces in front to make at least `width` characters.
pub open spec fn padded_left(digits: Seq<char>, width: int) -> Seq<char> {
    if digits.len() >= width { digits } else { spaces(width - digits.len()) + digits }
}

/// The line that shows one change: its old line number, faint, and for a
/// line taken out or put in, a sign and the text in red or green.
pub open spec fn change_line(c: (ChangeKind, Option<usize>, Seq<char>)) -> Seq<Piece> {
    let text = untabbed(without_feeds(c.2));
    let number = match c.1 {
        Some(n) => decimal_chars((n + 1) as nat),
        None => Seq::empty(),
    };
    let gutter = pushed(Seq::empty(), padded_left(number, 5) + seq![' '], faint_style());
    match c.0 {
        ChangeKind::Delete => pushed(pushed(gutter, seq!['-', ' '], Style { fg: Some(palette::red()), ..plain_style() }),
            text, Style { fg: Some(palette::red()), ..plain_style() }),
        ChangeKind::Insert => pushed(pushed(pushed(Seq::empty(), spaces(6), faint_style()), seq!['+', ' '],
            Style { fg: Some(palette::green()), ..plain_style() }), text, Style { fg: Some(palette::green()), ..plain_style() }),
        ChangeKind::Equal => pushed(pushed(gutter, seq![' ', ' '], plain_style()), text, faint_style()),
    }
}

/// The lines of the first `k` groups of changes, a faint mark between each
/// two groups.
pub open spec fn group_lines(groups: Seq<Seq<(ChangeKind, Option<usize>, Seq<char>)>>, k: int) -> Seq<Seq<Piece>>
    decreases k,
{
    if k <= 0 {
        Seq::empty()
    } else {
        let prev = group_lines(groups, k - 1);
        let marked = if k > 1 { prev.push(pushed(Seq::empty(), "   ┈"@, faint_style())) } else { prev };
        marked + groups[k - 1].map_values(|c: (ChangeKind, Option<usize>, Seq<char>)| change_line(c))
    }
}

/// The lines of a colored diff: the path, then the groups of changes.
pub open spec fn fancy_diff_lines(path: Seq<char>, before: Seq<char>, after: Seq<char>) -> Seq<Seq<Piece>> {
    diff_lines(path, change_groups(before, after, CONTEXT_LINES as nat))
}

/// The lines of a colored diff of the given groups of changes: the path,
/// then the groups.
pub open spec fn diff_lines(path: Seq<char>, groups: Seq<Seq<(ChangeKind, Option<usize>, Seq<char>)>>) -> Seq<Seq<Piece>> {
    seq![pushed(pushed(Seq::empty(), "◇ "@, Style { fg: Some(palette::accent()), ..plain_style() }), path,
        Style { fg: Some(palette::accent()), bold: true, ..plain_style() })]
        + group_lines(groups, groups.len() as int)
}

/// A change's text as shown: its line feeds at the end dropped, and tabs
/// written as four spaces.
#[verifier::rlimit(40)]
fn shown_text(s: &String) -> (r: String)
    ensures
        r@ == untabbed(without_feeds(s@)),
{
    let v = chars_of(s.as_str());
    let mut n = v.len();
    assert(v@.take(v@.len() as int) =~= v@);
    while n > 0 && v[n - 1] == '\n'
        invariant
            n <= v@.len(),
            without_feeds(v@) == without_feeds(v@.take(n as int)),
        decreases n,
    {
        assert(v@.take(n as int).drop_last() =~= v@.take(n - 1));
        n = n - 1;
    }
    assert(v@.take(v@.len() as int) =~= v@);
    let ghost kept = v@.take(n as int);
    assert(without_feeds(kept) == kept);
    let mut out: Vec<char> = Vec::new();
    let mut i: usize = 0;
    assert(kept.take(0) =~= Seq::<char>::empty());
    while i < n
        invariant
            i <= n <= v@.len(),
            kept == v@.take(n as int),
            out@ == untabbed(kept.take(i as int)),
        decreases n - i,
    {
        assert(kept.take(i + 1).drop_last() =~= kept.take(i as int));
        assert(kept.take(i + 1).last() == v@[i as int]);
        if v[i] == '\t' {
            out.push(' ');
            out.push(' ');
            out.push(' ');
            out.push(' ');
        } else {
            out.push(v[i]);
        }
        assert(out@ =~= untabbed(kept.take(i + 1)));
        i = i + 1;
    }
    assert(kept.take(n as int) =~= kept);
    string_of(&out)
}

/// The line that shows one change.
fn change_row(c: &(ChangeKind, Option<usize>, String)) -> (r: Styled)
    requires
        c.1 matches Some(n) ==> n < usize::MAX,
    ensures
        r.pieces() == change_line((c.0, c.1, c.2@)),
{
    let text = shown_text(&c.2);
    let mut number: Vec<char> = Vec::new();
    if let Some(n) = c.1 {
        push_decimal(&mut number, (n + 1) as u128);
    }
    let mut gutter_text: Vec<char> = Vec::new();
    if number.len() < 5 {
        push_spaces(&mut gutter_text, 5 - number.len());
    }
    let mut i: usize = 0;
    let ghost start = gutter_text@;
    while i < number.len()
        invariant
            i <= number@.len(),
            gutter_text@ == start + number@.take(i as int),
        decreases number@.len() - i,
    {
        gutter_text.push(number[i]);
        assert(number@.take(i + 1) =~= number@.take(i as int).push(number@[i as int]));
        i = i + 1;
    }
    assert(number@.take(number@.len() as int) =~= number@);
    gutter_text.push(' ');
    let ghost digits = match c.1 { Some(n) => decimal_chars((n + 1) as nat), None => Seq::<char>::empty() };
    assert(number@ =~= digits);
    assert(gutter_text@ =~= padded_left(digits, 5) + seq![' ']);
    let gutter = Styled::faint(string_of(&gutter_text).as_str());
    let mut sign: Vec<char> = Vec::new();
    match c.0 {
        ChangeKind::Delete => {
            sign.push('-');
            sign.push(' ');
            assert(sign@ =~= seq!['-', ' ']);
            gutter.with(string_of(&sign).as_str(), Style::color(palette::red()))
                .with(text.as_str(), Style::color(palette::red()))
        },
        ChangeKind::Insert => {
            let mut blank: Vec<char> = Vec::new();
            push_spaces(&mut blank, 6);
            sign.push('+');
            sign.push(' ');
            assert(sign@ =~= seq!['+', ' ']);
            Styled::faint(string_of(&blank).as_str())
                .with(string_of(&sign).as_str(), Style::color(palette::green()))
                .with(text.as_str(), Style::color(palette::green()))
        },
        ChangeKind::Equal => {
            sign.push(' ');
            sign.push(' ');
            assert(sign@ =~= seq![' ', ' ']);
            gutter.with(string_of(&sign).as_str(), Style::new()).with(text.as_str(), Style::faint())
        },
    }
}

/// A colored diff, with line numbers from the original file
pub fn fancy_diff(path: &str, before: &str, after: &str) -> (r: Doc)
    ensures
        lines_view(r.lines@) == fancy_diff_lines(path@, before@, after@),
{
    let groups = diff_groups(before, after, CONTEXT_LINES);
    diff_doc(path, &groups)
}

/// A colored diff of the file at `path` from its groups of changes, each
/// change with its old line number where it had one.
pub fn diff_doc(path: &str, groups: &Vec<Vec<(ChangeKind, Option<usize>, String)>>) -> (r: Doc)
    requires
        forall|i: int, j: int| 0 <= i < groups@.len() && 0 <= j < groups@[i]@.len()
            ==> ((#[trigger] groups@[i]@[j]).1 matches Some(n) ==> n < usize::MAX),
    ensures
        lines_view(r.lines@) == diff_lines(path@, groups_view(groups@)),
{
    let ghost gv = groups_view(groups@);
    let mut doc = Doc::new();
    doc.push(Styled::styled("◇ ", Style::color(palette::accent())).with(path, Style::color(palette::accent()).bold()));
    let ghost head = lines_view(doc.lines@);
    let mut i: usize = 0;
    assert(lines_view(doc.lines@) =~= head + group_lines(gv, 0));
    while i < groups.len()
        invariant
            i <= groups@.len(),
            gv == groups_view(groups@),
            forall|a: int, b: int| 0 <= a < groups@.len() && 0 <= b < groups@[a]@.len()
                ==> ((#[trigger] groups@[a]@[b]).1 matches Some(n) ==> n < usize::MAX),
            lines_view(doc.lines@) == head + group_lines(gv, i as int),
        decreases groups@.len() - i,
    {
        let ghost before_marks = lines_view(doc.lines@);
        if i > 0 {
            doc.push(Styled::faint("   ┈"));
            assert(lines_view(doc.lines@) =~= before_marks.push(pushed(Seq::empty(), "   ┈"@, faint_style())));
        }
        let ghost marked = lines_view(doc.lines@);
        let group = &groups[i];
        let ghost gi = group@.map_values(|c: (ChangeKind, Option<usize>, String)| (c.0, c.1, c.2@));
        assert(gv[i as int] == gi);
        let mut j: usize = 0;
        while j < group.len()
            invariant
                j <= group@.len(),
                gi == group@.map_values(|c: (ChangeKind, Option<usize>, String)| (c.0, c.1, c.2@)),
                forall|b: int| 0 <= b < group@.len() ==> ((#[trigger] group@[b]).1 matches Some(n) ==> n < usize::MAX),
                lines_view(doc.lines@) == marked + gi.take(j as int).map_values(|c: (ChangeKind, Option<usize>, Seq<char>)| change_line(c)),
            decreases group@.len() - j,
        {
            let ghost prev = lines_view(doc.lines@);
            let row = change_row(&group[j]);
            doc.push(row);
            assert(gi[j as int] == (group@[j as int].0, group@[j as int].1, group@[j as int].2@));
            assert(gi.take(j + 1).map_values(|c: (ChangeKind, Option<usize>, Seq<char>)| change_line(c))
                =~= gi.take(j as int).map_values(|c: (ChangeKind, Option<usize>, Seq<char>)| change_line(c)).push(change_line(gi[j as int])));
            assert(lines_view(doc.lines@) =~= prev.push(row.pieces()));
            j = j + 1;
        }
        assert(gi.take(group@.len() as int) =~= gi);
        assert(lines_view(doc.lines@) =~= head + group_lines(gv, i + 1));
        i = i + 1;
    }
    doc
}

} // verus!
