//! Errors and warnings, shown with the ledger lines they are about.

use vstd::prelude::*;
use crate::diagnostics::{Diagnostic, Severity, opt_view, notes_view};
use crate::syntax::source::{SourceMap, Span, SourceFile, line_text};
use crate::text::chars::{chars_of, string_of, extend_chars};
use crate::text::digits::{push_decimal, decimal_chars};
use crate::ui::palette;
use crate::ui::style::{Rgb, Style, plain_style, faint_style};
use crate::ui::text::{Doc, Line, Piece, pushed, lines_view, spaces, text_width, width, space_run};
use crate::ui::widgets::repeated;
use crate::text::chars::split_on;
use crate::text::utf8::{char_bytes, chars_before, char_len_utf8, lemma_chars_before_bounds, lemma_chars_before_mono};

verus! {

/// The word a severity is reported with.
pub open spec fn severity_word(s: Severity) -> Seq<char> {
    match s {
        Severity::Error => seq!['e', 'r', 'r', 'o', 'r'],
        Severity::Warning => seq!['w', 'a', 'r', 'n', 'i', 'n', 'g'],
    }
}

/// The glyph a severity is shown with.
pub open spec fn severity_glyph(s: Severity) -> char {
    match s {
        Severity::Error => '✗',
        Severity::Warning => '⚠',
    }
}

/// The color a severity is shown in.
pub open spec fn severity_color(s: Severity) -> Rgb {
    match s {
        Severity::Error => palette::red(),
        Severity::Warning => palette::amber(),
    }
}

fn look(severity: Severity) -> (r: (char, Vec<char>, Rgb))
    ensures
        r.0 == severity_glyph(severity),
        r.1@ == severity_word(severity),
        r.2 == severity_color(severity),
{
    let mut word: Vec<char> = Vec::new();
    match severity {
        Severity::Error => {
            word.push('e'); word.push('r'); word.push('r'); word.push('o'); word.push('r');
            assert(word@ =~= severity_word(severity));
            ('✗', word, palette::red())
        },
        Severity::Warning => {
            word.push('w'); word.push('a'); word.push('r'); word.push('n');
            word.push('i'); word.push('n'); word.push('g');
            assert(word@ =~= severity_word(severity));
            ('⚠', word, palette::amber())
        },
    }
}

/// `path:line` for a span.
pub open spec fn place(sources: SourceMap, span: Span) -> Seq<char> {
    sources.files_view()[span.file.0 as int].path_view() + seq![':'] + decimal_chars(span.line as nat)
}

/// `  kind: text` lines, one per note.
pub open spec fn note_lines(notes: Seq<Seq<char>>) -> Seq<char>
    decreases notes.len(),
{
    if notes.len() == 0 {
        Seq::empty()
    } else {
        note_lines(notes.drop_last()) + seq![' ', ' ', 'n', 'o', 't', 'e', ':', ' '] + notes.last() + seq!['\n']
    }
}

/// The one-line report of a diagnostic, with its notes and help.
pub open spec fn plain_report(d: Diagnostic, sources: SourceMap) -> Seq<char> {
    let head = severity_word(d.severity) + seq![':', ' '] + match d.span {
        Some(span) => place(sources, span) + seq![':', ' '],
        None => Seq::empty(),
    } + d.message@ + seq!['\n'];
    let help = match opt_view(d.help) {
        Some(h) => seq![' ', ' ', 'h', 'e', 'l', 'p', ':', ' '] + h + seq!['\n'],
        None => Seq::empty(),
    };
    head + note_lines(notes_view(d.notes@)) + help
}

/// Whether a diagnostic's place, if any, is a file of the map.
pub open spec fn placed_in(d: Diagnostic, sources: SourceMap) -> bool {
    d.span matches Some(span) ==> span.file.0 < sources.files_view().len()
}

fn push_str(out: &mut Vec<char>, s: &str)
    ensures
        final(out)@ == old(out)@ + s@,
{
    extend_chars(out, s);
}

/// One line per diagnostic plus its help, the way compilers report, so
/// editors and scripts can jump to `path:line`.
pub fn plain(diagnostic: &Diagnostic, sources: &SourceMap) -> (r: String)
    requires
        placed_in(*diagnostic, *sources),
    ensures
        r@ == plain_report(*diagnostic, *sources),
{
    let (_, word, _) = look(diagnostic.severity);
    let mut out: Vec<char> = Vec::new();
    let mut i: usize = 0;
    while i < word.len()
        invariant
            i <= word@.len(),
            out@ == word@.take(i as int),
        decreases word@.len() - i,
    {
        out.push(word[i]);
        assert(word@.take(i + 1) =~= word@.take(i as int).push(word@[i as int]));
        i = i + 1;
    }
    assert(word@.take(word@.len() as int) =~= word@);
    out.push(':');
    out.push(' ');
    match &diagnostic.span {
        Some(span) => {
            let d = sources.describe(span);
            push_str(&mut out, d.as_str());
            out.push(':');
            out.push(' ');
        },
        None => {},
    }
    push_str(&mut out, diagnostic.message.as_str());
    out.push('\n');
    let ghost head = out@;
    let ghost notes = notes_view(diagnostic.notes@);
    let mut k: usize = 0;
    while k < diagnostic.notes.len()
        invariant
            k <= diagnostic.notes@.len(),
            notes == notes_view(diagnostic.notes@),
            out@ == head + note_lines(notes.take(k as int)),
        decreases diagnostic.notes@.len() - k,
    {
        assert(notes.take(k + 1).drop_last() =~= notes.take(k as int));
        out.push(' '); out.push(' ');
        out.push('n'); out.push('o'); out.push('t'); out.push('e');
        out.push(':'); out.push(' ');
        push_str(&mut out, diagnostic.notes[k].as_str());
        out.push('\n');
        k = k + 1;
    }
    assert(notes.take(notes.len() as int) =~= notes);
    match &diagnostic.help {
        Some(help) => {
            out.push(' '); out.push(' ');
            out.push('h'); out.push('e'); out.push('l'); out.push('p');
            out.push(':'); out.push(' ');
            push_str(&mut out, help.as_str());
            out.push('\n');
        },
        None => {},
    }
    assert(out@ =~= plain_report(*diagnostic, *sources));
    string_of(&out)
}

/// `s` with each tab replaced by four spaces.
pub open spec fn expand_tabs(s: Seq<char>) -> Seq<char>
    decreases s.len(),
{
    if s.len() == 0 {
        Seq::empty()
    } else {
        expand_tabs(s.drop_last()) + if s.last() == '\t' { spaces(4) } else { seq![s.last()] }
    }
}

fn expand_tabs_of(s: &Vec<char>) -> (r: Vec<char>)
    ensures
        r@ == expand_tabs(s@),
{
    let mut out: Vec<char> = Vec::new();
    let mut i: usize = 0;
    while i < s.len()
        invariant
            i <= s@.len(),
            out@ == expand_tabs(s@.take(i as int)),
        decreases s@.len() - i,
    {
        assert(s@.take(i + 1).drop_last() =~= s@.take(i as int));
        if s[i] == '\t' {
            out.push(' '); out.push(' '); out.push(' '); out.push(' ');
            assert(out@ =~= expand_tabs(s@.take(i + 1)));
        } else {
            out.push(s[i]);
            assert(out@ =~= expand_tabs(s@.take(i + 1)));
        }
        i = i + 1;
    }
    assert(s@.take(s@.len() as int) =~= s@);
    out
}

fn chars_within(s: &Vec<char>, n: usize) -> (r: Option<usize>)
    ensures
        match r {
            Some(k) => chars_before(s@, n as int) == Some(k as int),
            None => chars_before(s@, n as int) is None,
        },
{
    let mut k: usize = 0;
    let mut left: usize = n;
    assert(s@.skip(0) =~= s@);
    while left > 0
        invariant
            k <= s@.len(),
            left <= n,
            chars_before(s@, n as int) == match chars_before(s@.skip(k as int), left as int) {
                Some(j) => Some(j + k),
                None => None,
            },
        decreases left,
    {
        if k == s.len() {
            return None;
        }
        let b = char_len_utf8(s[k]);
        if b > left {
            return None;
        }
        assert(s@.skip(k as int).skip(1) =~= s@.skip(k + 1));
        left = left - b;
        k = k + 1;
    }
    Some(k)
}

/// The text to the left of a byte column, or the whole line where the
/// column is not on a character boundary.
pub open spec fn text_before(raw: Seq<char>, start: int) -> Seq<char> {
    match chars_before(raw, start) {
        Some(k) => raw.take(k),
        None => raw,
    }
}

/// The text between two byte columns, or nothing where they are not
/// character boundaries.
pub open spec fn text_between(raw: Seq<char>, start: int, end: int) -> Seq<char> {
    match (chars_before(raw, start), chars_before(raw, end)) {
        (Some(a), Some(b)) => if start <= end { raw.subrange(a, b) } else { Seq::empty() },
        _ => Seq::empty(),
    }
}

/// The lines text wraps to, after the first `k` words: the finished lines
/// and the line being filled.
pub open spec fn wrap_state(words: Seq<Seq<char>>, width: int, k: int) -> (Seq<Seq<char>>, Seq<char>)
    decreases k,
{
    if k <= 0 {
        (Seq::empty(), Seq::empty())
    } else {
        let prev = wrap_state(words, width, k - 1);
        let word = words[k - 1];
        let full = prev.1.len() > 0 && text_width(prev.1) + 1 + text_width(word) > width;
        let lines = if full { prev.0.push(prev.1) } else { prev.0 };
        let line = if full { Seq::empty() } else { prev.1 };
        let line = if line.len() > 0 { line.push(' ') } else { line };
        (lines, line + word)
    }
}

/// Text split into lines of at most `width` columns, at spaces.
pub open spec fn wrapped(text: Seq<char>, width: int) -> Seq<Seq<char>> {
    let words = split_on(text, ' ');
    let state = wrap_state(words, width, words.len() as int);
    state.0.push(state.1)
}

/// Splits text into lines of at most `width` columns, at spaces
pub fn wrap(text: &str, width: usize) -> (r: Vec<Vec<char>>)
    ensures
        r.deep_view() == wrapped(text@, width as int),
{
    let chars = chars_of(text);
    let words = crate::text::chars::split_chars(&chars, ' ');
    let ghost ws = words.deep_view();
    let mut lines: Vec<Vec<char>> = Vec::new();
    let mut line: Vec<char> = Vec::new();
    let mut k: usize = 0;
    assert(lines.deep_view() =~= Seq::<Seq<char>>::empty());
    while k < words.len()
        invariant
            k <= words@.len(),
            ws == words.deep_view(),
            (lines.deep_view(), line@) == wrap_state(ws, width as int, k as int),
        decreases words@.len() - k,
    {
        let word = &words[k];
        assert(ws[k as int] == word@);
        let ls = string_of(&line);
        let wsr = string_of(word);
        let lw = crate::ui::text::width(ls.as_str()) as u128;
        let ww = crate::ui::text::width(wsr.as_str()) as u128;
        if line.len() > 0 && lw + 1 + ww > width as u128 {
            let ghost prev = lines.deep_view();
            let done = line;
            assert(done.deep_view() =~= done@);
            lines.push(done);
            assert(lines.deep_view() =~= prev.push(ls@));
            line = Vec::new();
        }
        if line.len() > 0 {
            line.push(' ');
        }
        let mut i: usize = 0;
        let ghost base = line@;
        while i < word.len()
            invariant
                i <= word@.len(),
                line@ == base + word@.take(i as int),
            decreases word@.len() - i,
        {
            line.push(word[i]);
            assert(word@.take(i + 1) =~= word@.take(i as int).push(word@[i as int]));
            i = i + 1;
        }
        assert(word@.take(word@.len() as int) =~= word@);
        k = k + 1;
    }
    let ghost prev = lines.deep_view();
    assert(line.deep_view() =~= line@);
    let last = line;
    lines.push(last);
    assert(lines.deep_view() =~= prev.push(last@));
    lines
}

pub open spec fn tinted(c: Rgb) -> Style {
    Style { fg: Some(c), ..plain_style() }
}

pub open spec fn tinted_bold(c: Rgb) -> Style {
    Style { fg: Some(c), bold: true, ..plain_style() }
}

pub open spec fn bold_plain() -> Style {
    Style { bold: true, ..plain_style() }
}

/// A line of faint text followed by text in a style.
pub open spec fn faint_then(prefix: Seq<char>, text: Seq<char>, style: Style) -> Seq<Piece> {
    pushed(pushed(Seq::empty(), prefix, faint_style()), text, style)
}

/// The width of the line-number gutter.
pub open spec fn gutter_of(d: Diagnostic) -> int {
    let digits = match d.span {
        Some(s) => decimal_chars(s.last_line as nat).len() as int,
        None => 1,
    };
    if digits >= 2 { digits } else { 2 }
}

/// The notes and help shown under the source: kind, text and style.
pub open spec fn tail_of(d: Diagnostic) -> Seq<(Seq<char>, Seq<char>, Style)> {
    let notes = notes_view(d.notes@).map_values(|n: Seq<char>| (seq!['n', 'o', 't', 'e'], n, faint_style()));
    match opt_view(d.help) {
        Some(h) => notes.push((seq!['h', 'e', 'l', 'p'], h, tinted(palette::accent()))),
        None => notes,
    }
}

/// The first line of the report: glyph and message.
pub open spec fn header_line(d: Diagnostic) -> Seq<Piece> {
    pushed(pushed(Seq::empty(), seq![severity_glyph(d.severity), ' '], tinted_bold(severity_color(d.severity))),
        d.message@, bold_plain())
}

/// The lines of one note or help under the source.
pub open spec fn item_lines(item: (Seq<char>, Seq<char>, Style), last: bool, blank: Seq<char>, total: int) -> Seq<Seq<Piece>> {
    let indent = text_width(blank) + 10;
    let room = if total >= indent { total - indent } else { 0 };
    let lines = wrapped(item.1, if room >= 20 { room } else { 20 });
    let corner = if last { seq!['╰', '─'] } else { seq!['├', '─'] };
    let rail = if last { ' ' } else { '│' };
    Seq::new(lines.len(), |j: int| if j == 0 {
        pushed(faint_then(blank + seq![' '] + corner + seq![' '], item.0 + seq![':', ' '], item.2), lines[j], plain_style())
    } else {
        faint_then(blank + seq![' ', rail, ' ', ' '] + spaces(6), lines[j], plain_style())
    })
}

/// The lines of the first `k` notes and help.
pub open spec fn tail_lines(items: Seq<(Seq<char>, Seq<char>, Style)>, blank: Seq<char>, total: int, k: int) -> Seq<Seq<Piece>>
    decreases k,
{
    if k <= 0 {
        Seq::empty()
    } else {
        tail_lines(items, blank, total, k - 1) + item_lines(items[k - 1], k == items.len(), blank, total)
    }
}

/// A number right-aligned in `width` columns.
pub open spec fn right_aligned(digits: Seq<char>, width: int) -> Seq<char> {
    if digits.len() >= width { digits } else { spaces((width - digits.len()) as nat) + digits }
}

/// The last line of a span that is shown: at most eight lines in all.
pub open spec fn last_shown(span: Span) -> int {
    if span.last_line <= span.line + 7 { span.last_line as int } else { span.line + 7 }
}

/// The source lines shown, each after its number.
pub open spec fn snippet_lines(d: Diagnostic, text: Seq<char>, span: Span) -> Seq<Seq<Piece>> {
    let last = last_shown(span);
    Seq::new((if last >= span.line { last - span.line + 1 } else { 0 }) as nat, |j: int| faint_then(
        right_aligned(decimal_chars((span.line + j) as nat), gutter_of(d)) + seq![' ', '│', ' '],
        expand_tabs(line_text(text, span.line + j)), plain_style()))
}

/// How many lines were left out, where some were.
pub open spec fn more_lines(blank: Seq<char>, span: Span) -> Seq<Seq<Piece>> {
    let last = last_shown(span);
    if last < span.last_line {
        seq![pushed(Seq::empty(), blank + seq![' ', '│', ' ', '…', ' '] + decimal_chars((span.last_line - last) as nat)
            + seq![' ', 'm', 'o', 'r', 'e', ' ', 'l', 'i', 'n', 'e', 's'], faint_style())]
    } else {
        Seq::empty()
    }
}

/// The line pointing at the problem, and its label.
pub open spec fn pointer_lines(d: Diagnostic, raw: Seq<char>, span: Span, blank: Seq<char>, color: Rgb) -> Seq<Seq<Piece>> {
    let pointed = !(span.last_line > span.line) && span.end > span.start;
    if pointed {
        let before = expand_tabs(text_before(raw, span.start as int));
        let target = expand_tabs(text_between(raw, span.start as int, span.end as int));
        let marks = if text_width(target) >= 1 { text_width(target) as int } else { 1 };
        let caret = pushed(pushed(pushed(Seq::empty(), blank + seq![' ', '│', ' '], faint_style()),
            spaces(text_width(before) as nat), plain_style()), repeated('^', marks as nat), tinted_bold(color));
        match opt_view(d.label) {
            Some(l) => seq![pushed(caret, seq![' '] + l, tinted(color))],
            None => seq![caret],
        }
    } else {
        match opt_view(d.label) {
            Some(l) => seq![faint_then(blank + seq![' ', '│', ' '], l, tinted(color))],
            None => Seq::empty(),
        }
    }
}

/// The notes and help of a diagnostic without a place, one per line.
pub open spec fn unplaced_tail(d: Diagnostic) -> Seq<Seq<Piece>> {
    let tail = tail_of(d);
    Seq::new(tail.len(), |i: int|
        pushed(pushed(Seq::empty(), seq![' ', ' '] + tail[i].0 + seq![':', ' '], tail[i].2), tail[i].1, plain_style()))
}

/// The report of a diagnostic with its source lines, a pointer at the
/// problem, and its notes and help.
pub open spec fn fancy_lines(d: Diagnostic, sources: SourceMap, total: int) -> Seq<Seq<Piece>> {
    let blank = spaces(gutter_of(d) as nat);
    let tail = tail_of(d);
    match d.span {
        None => seq![header_line(d)] + unplaced_tail(d),
        Some(span) => {
            let text = sources.files_view()[span.file.0 as int].text_view();
            let location = pushed(pushed(Seq::empty(), blank + seq![' ', '╭', '─', ' '], faint_style()),
                place(sources, span), tinted(palette::accent()));
            let closing = if tail.len() == 0 {
                seq![pushed(Seq::empty(), blank + seq![' ', '╰', '─'], faint_style())]
            } else {
                Seq::empty()
            };
            seq![header_line(d), location] + snippet_lines(d, text, span) + more_lines(blank, span)
                + pointer_lines(d, line_text(text, span.line as int), span, blank, severity_color(d.severity))
                + tail_lines(tail, blank, total, tail.len() as int) + closing
        },
    }
}

fn push_line(doc: &mut Doc, line: Line)
    ensures
        lines_view(final(doc).lines@) == lines_view(old(doc).lines@).push(line.pieces()),
{
    let ghost before = doc.lines@;
    doc.push(line);
    assert(lines_view(doc.lines@) =~= lines_view(before).push(line.pieces()));
}

fn faint_then_line(prefix: &Vec<char>, text: &str, style: Style) -> (r: Line)
    ensures
        r.pieces() == faint_then(prefix@, text@, style),
{
    let p = string_of(prefix);
    Line::faint(p.as_str()).with(text, style)
}

fn chars_plus(a: &Vec<char>, b: &[char]) -> (r: Vec<char>)
    ensures
        r@ == a@ + b@,
{
    let mut out: Vec<char> = Vec::new();
    let mut i: usize = 0;
    while i < a.len()
        invariant
            i <= a@.len(),
            out@ == a@.take(i as int),
        decreases a@.len() - i,
    {
        out.push(a[i]);
        assert(a@.take(i + 1) =~= a@.take(i as int).push(a@[i as int]));
        i = i + 1;
    }
    let mut k: usize = 0;
    while k < b.len()
        invariant
            k <= b@.len(),
            i == a@.len(),
            out@ == a@.take(i as int) + b@.take(k as int),
        decreases b@.len() - k,
    {
        out.push(b[k]);
        assert(b@.take(k + 1) =~= b@.take(k as int).push(b@[k as int]));
        k = k + 1;
    }
    assert(a@.take(a@.len() as int) =~= a@);
    assert(b@.take(b@.len() as int) =~= b@);
    out
}

fn push_item(doc: &mut Doc, blank: &Vec<char>, kind: &[char], text: &str, style: Style, last: bool, total: usize)
    ensures
        lines_view(final(doc).lines@) == lines_view(old(doc).lines@)
            + item_lines((kind@, text@, style), last, blank@, total as int),
{
    let bs = string_of(blank);
    let indent: u128 = width(bs.as_str()) as u128 + 10;
    let room: u128 = if total as u128 >= indent { total as u128 - indent } else { 0 };
    let room: usize = if room >= 20 { room as usize } else { 20 };
    let ghost spec_room = {
        let indent = text_width(blank@) + 10;
        let r0 = if total >= indent { total - indent } else { 0 };
        if r0 >= 20 { r0 } else { 20 }
    };
    assert(room as int == spec_room);
    let lines = wrap(text, room);
    let ghost want = item_lines((kind@, text@, style), last, blank@, total as int);
    let ghost start = lines_view(doc.lines@);
    let mut j: usize = 0;
    while j < lines.len()
        invariant
            j <= lines@.len(),
            lines.deep_view() == wrapped(text@, room as int),
            room as int == spec_room,
            spec_room == ({
                let indent = text_width(blank@) + 10;
                let r0 = if total >= indent { total - indent } else { 0 };
                if r0 >= 20 { r0 } else { 20 }
            }),
            want == item_lines((kind@, text@, style), last, blank@, total as int),
            want.len() == lines@.len(),
            lines_view(doc.lines@) == start + want.take(j as int),
        decreases lines@.len() - j,
    {
        let ls = string_of(&lines[j]);
        assert(lines.deep_view()[j as int] == lines@[j as int]@);
        let line = if j == 0 {
            let mut pre = chars_plus(blank, &[' ']);
            if last { pre.push('╰'); } else { pre.push('├'); }
            pre.push('─');
            pre.push(' ');
            let k = chars_plus(&Vec::new(), kind);
            let mut ks = k;
            ks.push(':');
            ks.push(' ');
            let kss = string_of(&ks);
            let ghost corner = if last { seq!['╰', '─'] } else { seq!['├', '─'] };
            assert(pre@ =~= blank@ + seq![' '] + corner + seq![' ']);
            assert(kss@ =~= kind@ + seq![':', ' ']);
            faint_then_line(&pre, kss.as_str(), style).with(ls.as_str(), Style::new())
        } else {
            let mut pre = chars_plus(blank, &[' ']);
            if last { pre.push(' '); } else { pre.push('│'); }
            pre.push(' ');
            pre.push(' ');
            let pad = space_run(6);
            let pad_chars = chars_of(pad.as_str());
            let pre2 = chars_plus(&pre, pad_chars.as_slice());
            let ghost rail = if last { ' ' } else { '│' };
            assert(pre2@ =~= blank@ + seq![' ', rail, ' ', ' '] + spaces(6));
            faint_then_line(&pre2, ls.as_str(), Style::new())
        };
        assert(line.pieces() == want[j as int]);
        push_line(doc, line);
        assert(start + want.take(j + 1) =~= (start + want.take(j as int)).push(want[j as int]));
        j = j + 1;
    }
    assert(want.take(want.len() as int) =~= want);
}

fn word_of(a: char, b: char, c: char, d: char) -> (r: Vec<char>)
    ensures
        r@ == seq![a, b, c, d],
{
    let mut v: Vec<char> = Vec::new();
    v.push(a);
    v.push(b);
    v.push(c);
    v.push(d);
    v
}

/// Pushes the notes and help, each under the last with rails and corners.
fn push_tail(doc: &mut Doc, d: &Diagnostic, blank: &Vec<char>, total: usize)
    ensures
        lines_view(final(doc).lines@) == lines_view(old(doc).lines@)
            + tail_lines(tail_of(*d), blank@, total as int, tail_of(*d).len() as int),
{
    let ghost items = tail_of(*d);
    let ghost start = lines_view(doc.lines@);
    let note = word_of('n', 'o', 't', 'e');
    let help_kind = word_of('h', 'e', 'l', 'p');
    let mut i: usize = 0;
    while i < d.notes.len()
        invariant
            i <= d.notes@.len(),
            items == tail_of(*d),
            items.len() == d.notes@.len() + if d.help is Some { 1int } else { 0 },
            note@ == seq!['n', 'o', 't', 'e'],
            lines_view(doc.lines@) == start + tail_lines(items, blank@, total as int, i as int),
        decreases d.notes@.len() - i,
    {
        assert(items[i as int] == (note@, d.notes@[i as int]@, faint_style()));
        let last = i + 1 == d.notes.len() && d.help.is_none();
        push_item(doc, blank, note.as_slice(), d.notes[i].as_str(), Style::faint(), last, total);
        i = i + 1;
    }
    match &d.help {
        Some(h) => {
            assert(items[i as int] == (help_kind@, h@, tinted(palette::accent())));
            push_item(doc, blank, help_kind.as_slice(), h.as_str(), Style::color(palette::accent()), true, total);
        },
        None => {},
    }
}

fn push_more(doc: &mut Doc, blank: &Vec<char>, span: Span, last: usize)
    requires
        last == last_shown(span),
    ensures
        lines_view(final(doc).lines@) == lines_view(old(doc).lines@) + more_lines(blank@, span),
{
    if last < span.last_line {
        let mut more = chars_plus(blank, &[' ', '│', ' ', '…', ' ']);
        push_decimal(&mut more, (span.last_line - last) as u128);
        let tail_words = chars_plus(&more, &[' ', 'm', 'o', 'r', 'e', ' ', 'l', 'i', 'n', 'e', 's']);
        let ts = string_of(&tail_words);
        push_line(doc, Line::faint(ts.as_str()));
    } else {
        assert(lines_view(doc.lines@) =~= lines_view(old(doc).lines@) + more_lines(blank@, span));
    }
}

fn push_unplaced_tail(doc: &mut Doc, d: &Diagnostic)
    ensures
        lines_view(final(doc).lines@) == lines_view(old(doc).lines@) + unplaced_tail(*d),
{
    let mut i: usize = 0;
    let ghost items = tail_of(*d);
    let ghost head = lines_view(doc.lines@);
    let ghost want = Seq::new(items.len(), |i: int|
        pushed(pushed(Seq::empty(), seq![' ', ' '] + items[i].0 + seq![':', ' '], items[i].2), items[i].1, plain_style()));
    proof { reveal_strlit("  note: "); }
    while i < d.notes.len()
        invariant
            i <= d.notes@.len(),
            items == tail_of(*d),
            want == Seq::new(items.len(), |i: int|
                pushed(pushed(Seq::empty(), seq![' ', ' '] + items[i].0 + seq![':', ' '], items[i].2), items[i].1, plain_style())),
            "  note: "@ == seq![' ', ' ', 'n', 'o', 't', 'e', ':', ' '],
            lines_view(doc.lines@) == head + want.take(i as int),
        decreases d.notes@.len() - i,
    {
        assert(items[i as int] == (seq!['n', 'o', 't', 'e'], d.notes@[i as int]@, faint_style()));
        let line = Line::styled("  note: ", Style::faint()).with(d.notes[i].as_str(), Style::new());
        assert(seq![' ', ' '] + seq!['n', 'o', 't', 'e'] + seq![':', ' '] =~= "  note: "@);
        assert(line.pieces() == want[i as int]);
        push_line(doc, line);
        assert(head + want.take(i + 1) =~= (head + want.take(i as int)).push(want[i as int]));
        i = i + 1;
    }
    match &d.help {
        Some(h) => {
            assert(items[i as int] == (seq!['h', 'e', 'l', 'p'], h@, tinted(palette::accent())));
            let line = Line::styled("  help: ", Style::color(palette::accent())).with(h.as_str(), Style::new());
            proof { reveal_strlit("  help: "); }
            assert(seq![' ', ' '] + seq!['h', 'e', 'l', 'p'] + seq![':', ' '] =~= "  help: "@);
            assert(line.pieces() == want[i as int]);
            push_line(doc, line);
            assert(want.take(i + 1) =~= want);
        },
        None => {
            assert(want.take(i as int) =~= want);
        },
    }
    proof {
        assert(want == unplaced_tail(*d));
    }
}

/// The diagnostic with its source lines, a pointer at the problem, and any
/// notes and help, laid out to fit a given width.
pub fn fancy_width(diagnostic: &Diagnostic, sources: &SourceMap, total_width: usize) -> (r: Doc)
    requires
        placed_in(*diagnostic, *sources),
        sources.wf(),
    ensures
        lines_view(r.lines@) == fancy_lines(*diagnostic, *sources, total_width as int),
{
    let d = diagnostic;
    let (glyph, _, color) = look(d.severity);
    let mut doc = Doc::new();
    let mut g: Vec<char> = Vec::new();
    g.push(glyph);
    g.push(' ');
    assert(g@ =~= seq![severity_glyph(d.severity), ' ']);
    let gs = string_of(&g);
    assert(lines_view(doc.lines@) =~= Seq::<Seq<Piece>>::empty());
    push_line(&mut doc, Line::styled(gs.as_str(), Style::color(color).bold())
        .with(d.message.as_str(), Style::new().bold()));
    assert(lines_view(doc.lines@) =~= seq![header_line(*d)]);

    let digits: usize = match &d.span {
        Some(s) => {
            let mut v: Vec<char> = Vec::new();
            push_decimal(&mut v, s.last_line as u128);
            v.len()
        },
        None => 1,
    };
    let gutter = if digits >= 2 { digits } else { 2 };
    let blank_s = space_run(gutter);
    let blank = chars_of(blank_s.as_str());
    assert(blank@ == spaces(gutter_of(*d) as nat));

    let span = match d.span {
        Some(span) => span,
        None => {
            push_unplaced_tail(&mut doc, d);
            assert(lines_view(doc.lines@) =~= fancy_lines(*d, *sources, total_width as int));
            return doc;
        },
    };

    let file = sources.get(span.file);
    assert(file.wf());
    let loc = chars_plus(&blank, &[' ', '╭', '─', ' ']);
    let place = sources.describe(&span);
    push_line(&mut doc, faint_then_line(&loc, place.as_str(), Style::color(palette::accent())));

    let last = if span.last_line >= span.line && span.last_line - span.line > 7 {
        span.line + 7
    } else {
        span.last_line
    };
    assert(last == last_shown(span));
    push_snippet(&mut doc, d, file, span, last, gutter);
    push_more(&mut doc, &blank, span, last);
    push_pointer(&mut doc, d, file, span, &blank, color);
    push_tail(&mut doc, d, &blank, total_width);
    if d.notes.len() == 0 && d.help.is_none() {
        let closing = chars_plus(&blank, &[' ', '╰', '─']);
        let cs = string_of(&closing);
        push_line(&mut doc, Line::faint(cs.as_str()));
    }
    proof {
        assert(tail_of(*d).len() == d.notes@.len() + if d.help is Some { 1int } else { 0 });
        assert(lines_view(doc.lines@) =~= fancy_lines(*d, *sources, total_width as int));
    }
    doc
}

fn slice_of(v: &Vec<char>, a: usize, b: usize) -> (r: Vec<char>)
    requires
        a <= b <= v@.len(),
    ensures
        r@ == v@.subrange(a as int, b as int),
{
    let mut out: Vec<char> = Vec::new();
    let mut i: usize = a;
    while i < b
        invariant
            a <= i <= b <= v@.len(),
            out@ == v@.subrange(a as int, i as int),
        decreases b - i,
    {
        out.push(v[i]);
        assert(v@.subrange(a as int, i + 1) =~= v@.subrange(a as int, i as int).push(v@[i as int]));
        i = i + 1;
    }
    out
}

fn push_snippet(doc: &mut Doc, d: &Diagnostic, file: &SourceFile, span: Span, last: usize, gutter: usize)
    requires
        file.wf(),
        gutter == gutter_of(*d),
        last == last_shown(span),
    ensures
        lines_view(final(doc).lines@) == lines_view(old(doc).lines@) + snippet_lines(*d, file.text_view(), span),
{
    let ghost want = Seq::new(
        (if last >= span.line { last - span.line + 1 } else { 0 }) as nat,
        |j: int| faint_then(
            right_aligned(decimal_chars((span.line + j) as nat), gutter_of(*d)) + seq![' ', '│', ' '],
            expand_tabs(line_text(file.text_view(), span.line + j)), plain_style()));
    let ghost start = lines_view(doc.lines@);
    if span.line > last {
        assert(want =~= Seq::<Seq<Piece>>::empty());
        assert(lines_view(doc.lines@) =~= start + want);
        return;
    }
    let mut number = span.line;
    let mut going = true;
    while going
        invariant
            file.wf(),
            span.line <= number <= last,
            gutter == gutter_of(*d),
            want == Seq::new((last - span.line + 1) as nat, |j: int| faint_then(
                right_aligned(decimal_chars((span.line + j) as nat), gutter_of(*d)) + seq![' ', '│', ' '],
                expand_tabs(line_text(file.text_view(), span.line + j)), plain_style())),
            going ==> lines_view(doc.lines@) == start + want.take(number - span.line),
            !going ==> lines_view(doc.lines@) == start + want,
        decreases last - number + if going { 1int } else { 0int },
    {
        let mut digits: Vec<char> = Vec::new();
        push_decimal(&mut digits, number as u128);
        let mut prefix: Vec<char> = Vec::new();
        if digits.len() < gutter {
            let pad = space_run(gutter - digits.len());
            prefix = chars_of(pad.as_str());
        }
        let mut prefix = chars_plus(&prefix, digits.as_slice());
        let prefix = chars_plus(&prefix, &[' ', '│', ' ']);
        assert(prefix@ =~= right_aligned(decimal_chars(number as nat), gutter as int) + seq![' ', '│', ' ']);
        let raw = file.line(number);
        let raw_chars = chars_of(raw.as_str());
        let text = expand_tabs_of(&raw_chars);
        let ts = string_of(&text);
        let line = faint_then_line(&prefix, ts.as_str(), Style::new());
        let ghost j = number - span.line;
        assert(line.pieces() == want[j]);
        push_line(doc, line);
        assert(start + want.take(j + 1) =~= (start + want.take(j)).push(want[j]));
        if number < last {
            number = number + 1;
        } else {
            going = false;
            assert(want.take(j + 1) =~= want);
        }
    }
}

fn push_pointer(doc: &mut Doc, d: &Diagnostic, file: &SourceFile, span: Span, blank: &Vec<char>, color: Rgb)
    requires
        file.wf(),
    ensures
        lines_view(final(doc).lines@) == lines_view(old(doc).lines@)
            + pointer_lines(*d, line_text(file.text_view(), span.line as int), span, blank@, color),
{
    let ghost start = lines_view(doc.lines@);
    let rail = chars_plus(blank, &[' ', '│', ' ']);
    let pointed = !span.is_multiline() && span.end > span.start;
    if pointed {
        let raw = file.line(span.line);
        let raw = chars_of(raw.as_str());
        let before = match chars_within(&raw, span.start) {
            Some(k) => {
                proof { lemma_chars_before_bounds(raw@, span.start as int); }
                slice_of(&raw, 0, k)
            },
            None => slice_of(&raw, 0, raw.len()),
        };
        assert(before@ =~= text_before(raw@, span.start as int));
        let target = match (chars_within(&raw, span.start), chars_within(&raw, span.end)) {
            (Some(a), Some(b)) => {
                proof {
                    lemma_chars_before_bounds(raw@, span.start as int);
                    lemma_chars_before_bounds(raw@, span.end as int);
                    lemma_chars_before_mono(raw@, span.start as int, span.end as int);
                }
                slice_of(&raw, a, b)
            },
            _ => Vec::new(),
        };
        assert(target@ =~= text_between(raw@, span.start as int, span.end as int));
        let before = expand_tabs_of(&before);
        let target = expand_tabs_of(&target);
        let bs = string_of(&before);
        let ts = string_of(&target);
        let bw = width(bs.as_str());
        let tw = width(ts.as_str());
        let marks = if tw >= 1 { tw } else { 1 };
        let gap = space_run(bw);
        let hats = crate::ui::widgets::char_run('^', marks);
        let rs = string_of(&rail);
        let mut caret = Line::faint(rs.as_str()).with(gap.as_str(), Style::new())
            .with(hats.as_str(), Style::color(color).bold());
        match &d.label {
            Some(label) => {
                let mut l: Vec<char> = Vec::new();
                l.push(' ');
                extend_chars(&mut l, label.as_str());
                let ls = string_of(&l);
                caret.push(ls.as_str(), Style::color(color));
            },
            None => {},
        }
        push_line(doc, caret);
    } else {
        match &d.label {
            Some(label) => {
                push_line(doc, faint_then_line(&rail, label.as_str(), Style::color(color)));
            },
            None => {
                assert(lines_view(doc.lines@) =~= start + Seq::<Seq<Piece>>::empty());
            },
        }
    }
}

} // verus!
