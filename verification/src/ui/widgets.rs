//! Building blocks for fancy output: panels, badges and tables.

use vstd::prelude::*;
use crate::text::chars::{chars_of, string_of, extend_chars, index_of, lemma_index_of_bounds, find_char};
use crate::ui::palette;
use crate::ui::style::{Rgb, Style, plain_style, faint_style};
use crate::ui::text::{
    Align, Line, Piece, pushed, appended, fitted, truncated, reported_width, text_width, spaces,
    width, space_run,
};

verus! {

/// `n` copies of `c`.
pub open spec fn repeated(c: char, n: nat) -> Seq<char> {
    Seq::new(n, |i: int| c)
}

/// `a - b`, or 0 where `b` is larger.
pub open spec fn minus(a: int, b: int) -> int {
    if a >= b { a - b } else { 0 }
}

/// A string of `n` copies of `c`.
pub fn char_run(c: char, n: usize) -> (r: String)
    ensures
        r@ == repeated(c, n as nat),
{
    let mut v: Vec<char> = Vec::new();
    let mut i: usize = 0;
    while i < n
        invariant
            i <= n,
            v@ == repeated(c, i as nat),
        decreases n - i,
    {
        v.push(c);
        assert(v@ =~= repeated(c, (i + 1) as nat));
        i = i + 1;
    }
    string_of(&v)
}

/// The style of a badge: bold dark text on the color.
pub open spec fn badge_style(color: Rgb) -> Style {
    Style { fg: Some(palette::ink()), bg: Some(color), bold: true, italic: false, underline: false }
}

/// Bold dark text on a solid color, e.g. ` BALANCE SHEET `
pub fn badge(text: &str, color: Rgb) -> (r: Line)
    ensures
        r.pieces() == pushed(Seq::empty(), seq![' '] + text@ + seq![' '], badge_style(color)),
{
    let mut v: Vec<char> = Vec::new();
    v.push(' ');
    extend_chars(&mut v, text);
    v.push(' ');
    let s = string_of(&v);
    assert(s@ =~= seq![' '] + text@ + seq![' ']);
    Line::styled(s.as_str(), Style::color(palette::ink()).on(color).bold())
}

/// A faint section heading with a line trailing off to the right
pub fn rule(title: &str, total_width: usize) -> (r: Line)
    ensures
        r.pieces() == pushed(
            pushed(Seq::empty(), title@, faint_style()),
            seq![' '] + repeated('─', minus(total_width as int, text_width(title@) + 2) as nat),
            faint_style(),
        ),
{
    let w = width(title);
    let n = if total_width >= 2 && w <= total_width - 2 { total_width - 2 - w } else { 0 };
    let mut v: Vec<char> = Vec::new();
    v.push(' ');
    let bar = char_run('─', n);
    extend_chars(&mut v, bar.as_str());
    let s = string_of(&v);
    assert(s@ =~= seq![' '] + repeated('─', n as nat));
    Line::faint(title).with(s.as_str(), Style::faint())
}

/// `l` + `middle` + `r`, as characters.
pub open spec fn framed(l: char, middle: Seq<char>, r: char) -> Seq<char> {
    seq![l] + middle + seq![r]
}

fn framed_string(l: char, middle: &str, r: char) -> (s: String)
    ensures
        s@ == framed(l, middle@, r),
{
    let mut v: Vec<char> = Vec::new();
    v.push(l);
    extend_chars(&mut v, middle);
    v.push(r);
    assert(v@ =~= framed(l, middle@, r));
    string_of(&v)
}

/// The top border of a panel.
pub open spec fn panel_top(color: Rgb, inner: nat) -> Seq<Piece> {
    pushed(Seq::empty(), framed('╭', repeated('─', inner), '╮'), Style { fg: Some(color), ..plain_style() })
}

/// The empty row at the top and bottom of a panel's body.
pub open spec fn panel_blank(color: Rgb, inner: nat) -> Seq<Piece> {
    let border = Style { fg: Some(color), ..plain_style() };
    pushed(pushed(pushed(Seq::empty(), seq!['│'], border), spaces(inner), plain_style()), seq!['│'], border)
}

/// A row of a panel's body.
pub open spec fn panel_row(color: Rgb, content: int, line: Seq<Piece>) -> Seq<Piece> {
    let border = Style { fg: Some(color), ..plain_style() };
    let start = pushed(pushed(Seq::empty(), seq!['│'], border), seq![' ', ' '], plain_style());
    let middle = appended(start, fitted(line, content, Align::Left));
    pushed(pushed(middle, seq![' ', ' '], plain_style()), seq!['│'], border)
}

/// The bottom border of a panel, with the note set into it.
pub open spec fn panel_bottom(color: Rgb, inner: int, subtitle: Option<Seq<Piece>>) -> Seq<Piece> {
    let border = Style { fg: Some(color), ..plain_style() };
    match subtitle {
        Some(note) => {
            let padded = pushed(appended(pushed(Seq::empty(), seq![' '], plain_style()), note), seq![' '], plain_style());
            let cut = truncated(padded, minus(inner, 4));
            let left = minus(inner, reported_width(cut) + 2);
            let start = pushed(Seq::empty(), seq!['╰'] + repeated('─', left as nat), border);
            pushed(appended(start, cut), seq!['─', '─', '╯'], border)
        },
        None => pushed(Seq::empty(), framed('╰', repeated('─', inner as nat), '╯'), border),
    }
}

/// A box with rounded corners around `body`, with an optional note set into
/// its bottom border.
pub fn panel(body: Vec<Line>, color: Rgb, subtitle: Option<Line>, total_width: usize) -> (r: Vec<Line>)
    ensures
        r@.len() == body@.len() + 4,
        r@[0].pieces() == panel_top(color, minus(total_width as int, 2) as nat),
        r@[1].pieces() == panel_blank(color, minus(total_width as int, 2) as nat),
        forall|i: int| 0 <= i < body@.len() ==> (#[trigger] r@[i + 2]).pieces()
            == panel_row(color, minus(minus(total_width as int, 2), 4), body@[i].pieces()),
        r@[body@.len() + 2int].pieces() == panel_blank(color, minus(total_width as int, 2) as nat),
        r@[body@.len() + 3int].pieces() == panel_bottom(
            color,
            minus(total_width as int, 2),
            match subtitle { Some(l) => Some(l.pieces()), None => None },
        ),
{
    let border = Style::color(color);
    let inner = if total_width >= 2 { total_width - 2 } else { 0 };
    let content = if inner >= 4 { inner - 4 } else { 0 };

    let mut out: Vec<Line> = Vec::new();
    let dashes = char_run('─', inner);
    let top = framed_string('╭', dashes.as_str(), '╮');
    out.push(Line::styled(top.as_str(), border));
    let pad = space_run(inner);
    proof { reveal_strlit("│"); reveal_strlit("  "); }
    assert("│"@ =~= seq!['│']);
    assert("  "@ =~= seq![' ', ' ']);
    let blank = Line::styled("│", border).with(pad.as_str(), Style::new()).with("│", border);
    out.push(blank.duplicate());
    let mut i: usize = 0;
    while i < body.len()
        invariant
            i <= body@.len(),
            out@.len() == i + 2,
            "│"@ == seq!['│'],
            "  "@ == seq![' ', ' '],
            border == (Style { fg: Some(color), ..plain_style() }),
            content == minus(minus(total_width as int, 2), 4),
            out@[0].pieces() == panel_top(color, minus(total_width as int, 2) as nat),
            out@[1].pieces() == panel_blank(color, minus(total_width as int, 2) as nat),
            blank.pieces() == panel_blank(color, minus(total_width as int, 2) as nat),
            forall|k: int| 0 <= k < i ==> (#[trigger] out@[k + 2]).pieces()
                == panel_row(color, content as int, body@[k].pieces()),
        decreases body@.len() - i,
    {
        let cell = body[i].duplicate().fit(content, Align::Left);
        let row = Line::styled("│", border)
            .with("  ", Style::new())
            .followed_by(cell)
            .with("  ", Style::new())
            .with("│", border);
        out.push(row);
        i = i + 1;
    }
    out.push(blank);
    let bottom = match subtitle {
        Some(note) => {
            proof { reveal_strlit(" "); reveal_strlit("──╯"); }
            assert(" "@ =~= seq![' ']);
            assert("──╯"@ =~= seq!['─', '─', '╯']);
            let padded = Line::plain(" ").followed_by(note).with(" ", Style::new());
            let cut = padded.truncate(if inner >= 4 { inner - 4 } else { 0 });
            let w = cut.width();
            let left = if w < inner && inner - w >= 2 { inner - w - 2 } else { 0 };
            let mut v: Vec<char> = Vec::new();
            v.push('╰');
            let run = char_run('─', left);
            extend_chars(&mut v, run.as_str());
            let start = string_of(&v);
            assert(start@ =~= seq!['╰'] + repeated('─', left as nat));
            Line::styled(start.as_str(), border).followed_by(cut).with("──╯", border)
        },
        None => {
            let s = framed_string('╰', dashes.as_str(), '╯');
            Line::styled(s.as_str(), border)
        },
    };
    out.push(bottom);
    out
}

/// The part of a number before its decimal point.
pub open spec fn whole_part(s: Seq<char>) -> Seq<char> {
    s.take(index_of(s, '.'))
}

/// The part of a number after its decimal point, if it has one.
pub open spec fn fraction_part(s: Seq<char>) -> Option<Seq<char>> {
    if index_of(s, '.') < s.len() {
        Some(s.skip(index_of(s, '.') + 1))
    } else {
        None
    }
}

/// The columns a number's decimal point and fraction need.
pub open spec fn fraction_columns(s: Seq<char>) -> int {
    match fraction_part(s) {
        Some(f) => if text_width(f) < usize::MAX { text_width(f) + 1 } else { usize::MAX as int },
        None => 0,
    }
}

pub open spec fn max_int(a: int, b: int) -> int {
    if a >= b { a } else { b }
}

/// The widest whole part and fraction among the numbers.
pub open spec fn fit_columns(numbers: Seq<Seq<char>>) -> (int, int)
    decreases numbers.len(),
{
    if numbers.len() == 0 {
        (0, 0)
    } else {
        let prev = fit_columns(numbers.drop_last());
        let n = numbers.last();
        (max_int(prev.0, text_width(whole_part(n)) as int), max_int(prev.1, fraction_columns(n)))
    }
}

/// A number with its point and fraction, as written.
pub open spec fn fraction_text(s: Seq<char>) -> Seq<char> {
    match fraction_part(s) {
        Some(f) => seq!['.'] + f,
        None => Seq::empty(),
    }
}

/// Lines numbers up on their decimal points, e.g. for a column of amounts
/// in currencies with different numbers of decimal places.
#[derive(Clone, Copy, Debug)]
pub struct Decimals {
    whole: usize,
    fraction: usize,
}

fn split_at_point(number: &str) -> (r: (Vec<char>, Option<Vec<char>>))
    ensures
        r.0@ == whole_part(number@),
        match r.1 {
            Some(f) => fraction_part(number@) == Some(f@),
            None => fraction_part(number@) is None,
        },
{
    let chars = chars_of(number);
    let dot = find_char(&chars, 0, '.');
    proof {
        assert(chars@.subrange(0, chars@.len() as int) =~= chars@);
        lemma_index_of_bounds(chars@, '.');
    }
    let mut whole: Vec<char> = Vec::new();
    let mut i: usize = 0;
    while i < dot
        invariant
            i <= dot <= chars@.len(),
            whole@ == chars@.take(i as int),
        decreases dot - i,
    {
        whole.push(chars[i]);
        assert(chars@.take(i + 1) =~= chars@.take(i as int).push(chars@[i as int]));
        i = i + 1;
    }
    if dot == chars.len() {
        return (whole, None);
    }
    let mut frac: Vec<char> = Vec::new();
    let mut k: usize = dot + 1;
    while k < chars.len()
        invariant
            dot + 1 <= k <= chars@.len(),
            frac@ == chars@.subrange(dot + 1, k as int),
        decreases chars@.len() - k,
    {
        frac.push(chars[k]);
        assert(chars@.subrange(dot + 1, k + 1) =~= chars@.subrange(dot + 1, k as int).push(chars@[k as int]));
        k = k + 1;
    }
    assert(frac@ =~= chars@.skip(dot + 1));
    (whole, Some(frac))
}

impl Decimals {
    /// The columns before the decimal point.
    pub closed spec fn whole_columns(&self) -> int {
        self.whole as int
    }

    /// The columns from the decimal point on.
    pub closed spec fn point_columns(&self) -> int {
        self.fraction as int
    }

    pub fn fit(numbers: &[&str]) -> (r: Self)
        ensures
            (r.whole_columns(), r.point_columns()) == fit_columns(numbers@.map_values(|n: &str| n@)),
    {
        let ghost all = numbers@.map_values(|n: &str| n@);
        let mut whole: usize = 0;
        let mut fraction: usize = 0;
        let mut i: usize = 0;
        while i < numbers.len()
            invariant
                i <= numbers@.len(),
                all == numbers@.map_values(|n: &str| n@),
                (whole as int, fraction as int) == fit_columns(all.take(i as int)),
            decreases numbers@.len() - i,
        {
            assert(all.take(i + 1).drop_last() =~= all.take(i as int));
            let (w, f) = split_at_point(numbers[i]);
            let ws = string_of(&w);
            let ww = width(ws.as_str());
            if ww > whole {
                whole = ww;
            }
            match f {
                Some(f) => {
                    let fs = string_of(&f);
                    let fw = width(fs.as_str());
                    let cols = if fw < usize::MAX { fw + 1 } else { usize::MAX };
                    if cols > fraction {
                        fraction = cols;
                    }
                },
                None => {},
            }
            i = i + 1;
        }
        assert(all.take(all.len() as int) =~= all);
        Decimals { whole, fraction }
    }

    /// The column's whole width (the largest `usize` if that overflows).
    pub fn width(&self) -> (r: usize)
        ensures
            r == (if self.whole_columns() + self.point_columns() <= usize::MAX {
                self.whole_columns() + self.point_columns()
            } else {
                usize::MAX as int
            }),
    {
        if self.fraction > usize::MAX - self.whole {
            usize::MAX
        } else {
            self.whole + self.fraction
        }
    }

    /// Pads a number so that its decimal point lands in the column's
    pub fn align(&self, number: &str) -> (r: String)
        ensures
            r@ == spaces(minus(self.whole_columns(), text_width(whole_part(number@)) as int) as nat)
                + whole_part(number@) + fraction_text(number@)
                + spaces(minus(self.point_columns(), text_width(fraction_text(number@)) as int) as nat),
    {
        let (w, f) = split_at_point(number);
        let mut frac: Vec<char> = Vec::new();
        match f {
            Some(f) => {
                frac.push('.');
                let mut k: usize = 0;
                while k < f.len()
                    invariant
                        k <= f@.len(),
                        frac@ == seq!['.'] + f@.take(k as int),
                    decreases f@.len() - k,
                {
                    frac.push(f[k]);
                    assert(f@.take(k + 1) =~= f@.take(k as int).push(f@[k as int]));
                    k = k + 1;
                }
                assert(f@.take(f@.len() as int) =~= f@);
            },
            None => {},
        }
        assert(frac@ =~= fraction_text(number@));
        let ws = string_of(&w);
        let fs = string_of(&frac);
        let ww = width(ws.as_str());
        let fw = width(fs.as_str());
        let left = if self.whole >= ww { self.whole - ww } else { 0 };
        let right = if self.fraction >= fw { self.fraction - fw } else { 0 };
        let mut out: Vec<char> = Vec::new();
        let l = space_run(left);
        let r = space_run(right);
        extend_chars(&mut out, l.as_str());
        extend_chars(&mut out, ws.as_str());
        extend_chars(&mut out, fs.as_str());
        extend_chars(&mut out, r.as_str());
        string_of(&out)
    }
}

/// A column in a [`Table`]
#[derive(Clone, Debug)]
pub struct Column {
    pub header: String,
    pub align: Align,
    /// Whether this column gives up width when the table is too wide
    pub shrinks: bool,
}

impl Column {
    pub fn left(header: &str) -> (r: Self)
        ensures
            r.header@ == header@,
            r.align == Align::Left,
            !r.shrinks,
    {
        Column { header: header.to_owned(), align: Align::Left, shrinks: false }
    }

    pub fn right(header: &str) -> (r: Self)
        ensures
            r.header@ == header@,
            r.align == Align::Right,
            !r.shrinks,
    {
        Column { header: header.to_owned(), align: Align::Right, shrinks: false }
    }

    pub fn shrinking(self) -> (r: Self)
        ensures
            r.header@ == self.header@,
            r.align == self.align,
            r.shrinks,
    {
        Column { shrinks: true, ..self }
    }
}

enum Row {
    Cells(Vec<Line>),
    /// A faint rule under the given columns, e.g. above a total
    Rule(Vec<usize>),
}

/// A row as the contracts see it.
pub enum RowModel {
    Cells(Seq<Seq<Piece>>),
    Rule(Seq<usize>),
}

/// A column as the contracts see it: header, alignment, whether it shrinks.
pub type ColumnModel = (Seq<char>, Align, bool);

/// Column `i`'s width before shrinking: its header's, or its widest cell's
/// among the first `k` rows.
pub open spec fn natural_width(cols: Seq<ColumnModel>, rows: Seq<RowModel>, i: int, k: int) -> int
    decreases k,
{
    if k <= 0 {
        text_width(cols[i].0) as int
    } else {
        let prev = natural_width(cols, rows, i, k - 1);
        match rows[k - 1] {
            RowModel::Cells(cells) => if i < cells.len() {
                max_int(prev, reported_width(cells[i]))
            } else {
                prev
            },
            RowModel::Rule(_) => prev,
        }
    }
}

/// The width of a table laid out with the given column widths.
pub open spec fn table_width(widths: Seq<int>) -> int
    decreases widths.len(),
{
    if widths.len() == 0 {
        0
    } else if widths.len() == 1 {
        widths[0]
    } else {
        table_width(widths.drop_last()) + 2 + widths.last()
    }
}

/// The widths, and the excess still to give up, after shrinking the first
/// `j` columns: each shrinking column gives up what it can above 8 columns.
pub open spec fn shrunk(cols: Seq<ColumnModel>, widths: Seq<int>, excess: int, j: int) -> (Seq<int>, int)
    decreases j,
{
    if j <= 0 {
        (widths, excess)
    } else {
        let prev = shrunk(cols, widths, excess, j - 1);
        if cols[j - 1].2 {
            let room = minus(prev.0[j - 1], 8);
            let give = if prev.1 <= room { prev.1 } else { room };
            (prev.0.update(j - 1, prev.0[j - 1] - give), prev.1 - give)
        } else {
            prev
        }
    }
}

/// The column widths a table is laid out in, within `max_width` where the
/// shrinking columns allow.
pub open spec fn column_widths(cols: Seq<ColumnModel>, rows: Seq<RowModel>, max_width: int) -> Seq<int> {
    let natural = Seq::new(cols.len(), |i: int| natural_width(cols, rows, i, rows.len() as int));
    shrunk(cols, natural, minus(table_width(natural), max_width), cols.len() as int).0
}

/// Cells side by side, two spaces apart.
pub open spec fn joined_cells(cells: Seq<Seq<Piece>>) -> Seq<Piece>
    decreases cells.len(),
{
    if cells.len() == 0 {
        Seq::empty()
    } else {
        let before = joined_cells(cells.drop_last());
        let before = if cells.len() > 1 { pushed(before, seq![' ', ' '], plain_style()) } else { before };
        appended(before, cells.last())
    }
}

/// The header line's cells.
pub open spec fn header_cells(cols: Seq<ColumnModel>, widths: Seq<int>) -> Seq<Seq<Piece>> {
    Seq::new(cols.len(), |i: int| fitted(pushed(Seq::empty(), cols[i].0, faint_style()), widths[i], cols[i].1))
}

/// A row's cells, each fitted to its column.
pub open spec fn row_cells(cols: Seq<ColumnModel>, widths: Seq<int>, row: RowModel) -> Seq<Seq<Piece>> {
    match row {
        RowModel::Cells(cells) => Seq::new(cols.len(), |i: int|
            fitted(if i < cells.len() { cells[i] } else { Seq::empty() }, widths[i], cols[i].1)),
        RowModel::Rule(under) => Seq::new(cols.len(), |i: int|
            if under.contains(i as usize) {
                pushed(Seq::empty(), repeated('─', widths[i] as nat), faint_style())
            } else {
                pushed(Seq::empty(), spaces(widths[i] as nat), plain_style())
            }),
    }
}

/// Whether any column has a header.
pub open spec fn has_header(cols: Seq<ColumnModel>) -> bool {
    exists|i: int| 0 <= i < cols.len() && (#[trigger] cols[i]).0.len() > 0
}

/// The lines a table renders to.
pub open spec fn table_lines(cols: Seq<ColumnModel>, rows: Seq<RowModel>, max_width: int) -> Seq<Seq<Piece>> {
    let widths = column_widths(cols, rows, max_width);
    let body = Seq::new(rows.len(), |k: int| joined_cells(row_cells(cols, widths, rows[k])));
    if has_header(cols) {
        seq![joined_cells(header_cells(cols, widths))] + body
    } else {
        body
    }
}

/// A borderless table with a faint header.
pub struct Table {
    columns: Vec<Column>,
    rows: Vec<Row>,
}

/// The model of a stored row.
spec fn row_model(row: Row) -> RowModel {
    match row {
        Row::Cells(cells) => RowModel::Cells(cells@.map_values(|l: Line| l.pieces())),
        Row::Rule(under) => RowModel::Rule(under@),
    }
}

fn join_cells(cells: Vec<Line>) -> (r: Line)
    ensures
        r.pieces() == joined_cells(cells@.map_values(|l: Line| l.pieces())),
{
    let ghost all = cells@.map_values(|l: Line| l.pieces());
    let mut line = Line::new();
    let mut i: usize = 0;
    proof { reveal_strlit("  "); }
    assert("  "@ =~= seq![' ', ' ']);
    while i < cells.len()
        invariant
            i <= cells@.len(),
            all == cells@.map_values(|l: Line| l.pieces()),
            "  "@ == seq![' ', ' '],
            line.pieces() == joined_cells(all.take(i as int)),
        decreases cells@.len() - i,
    {
        assert(all.take(i + 1).drop_last() =~= all.take(i as int));
        if i > 0 {
            line.push("  ", Style::new());
        }
        line.append(cells[i].duplicate());
        i = i + 1;
    }
    assert(all.take(all.len() as int) =~= all);
    line
}

fn contains_index(v: &Vec<usize>, x: usize) -> (r: bool)
    ensures
        r == v@.contains(x),
{
    let mut i: usize = 0;
    while i < v.len()
        invariant
            i <= v@.len(),
            forall|k: int| 0 <= k < i ==> v@[k] != x,
        decreases v@.len() - i,
    {
        if v[i] == x {
            return true;
        }
        i = i + 1;
    }
    false
}

impl Table {
    pub closed spec fn columns_model(&self) -> Seq<ColumnModel> {
        self.columns@.map_values(|c: Column| (c.header@, c.align, c.shrinks))
    }

    pub closed spec fn rows_model(&self) -> Seq<RowModel> {
        self.rows@.map_values(|r: Row| row_model(r))
    }

    pub fn new(columns: Vec<Column>) -> (r: Self)
        ensures
            r.columns_model() == columns@.map_values(|c: Column| (c.header@, c.align, c.shrinks)),
            r.rows_model() == Seq::<RowModel>::empty(),
    {
        let r = Table { columns, rows: Vec::new() };
        assert(r.rows_model() =~= Seq::<RowModel>::empty());
        r
    }

    pub fn row(&mut self, cells: Vec<Line>)
        ensures
            final(self).columns_model() == old(self).columns_model(),
            final(self).rows_model() == old(self).rows_model().push(
                RowModel::Cells(cells@.map_values(|l: Line| l.pieces()))),
    {
        self.rows.push(Row::Cells(cells));
        assert(self.rows_model() =~= old(self).rows_model().push(
            RowModel::Cells(cells@.map_values(|l: Line| l.pieces()))));
    }

    pub fn rule_under(&mut self, columns: Vec<usize>)
        ensures
            final(self).columns_model() == old(self).columns_model(),
            final(self).rows_model() == old(self).rows_model().push(RowModel::Rule(columns@)),
    {
        self.rows.push(Row::Rule(columns));
        assert(self.rows_model() =~= old(self).rows_model().push(RowModel::Rule(columns@)));
    }

    pub fn is_empty(&self) -> (r: bool)
        ensures
            r == (self.rows_model().len() == 0),
    {
        self.rows.len() == 0
    }
}

/// `usize` widths as integers.
pub open spec fn as_ints(v: Seq<usize>) -> Seq<int> {
    v.map_values(|w: usize| w as int)
}

impl Table {
    fn natural_widths(&self) -> (r: Vec<usize>)
        ensures
            as_ints(r@) == Seq::new(self.columns_model().len(), |i: int|
                natural_width(self.columns_model(), self.rows_model(), i, self.rows_model().len() as int)),
    {
        let ghost cols = self.columns_model();
        let ghost rows = self.rows_model();
        let count = self.columns.len();
        let mut widths: Vec<usize> = Vec::new();
        let mut i: usize = 0;
        while i < count
            invariant
                i <= count,
                count == self.columns@.len(),
                cols == self.columns_model(),
                rows == self.rows_model(),
                widths@.len() == i,
                forall|j: int| 0 <= j < i ==> (#[trigger] widths@[j]) as int
                    == natural_width(cols, rows, j, rows.len() as int),
            decreases count - i,
        {
            let mut w = width(self.columns[i].header.as_str());
            let mut k: usize = 0;
            while k < self.rows.len()
                invariant
                    k <= self.rows@.len(),
                    i < count,
                    count == self.columns@.len(),
                    cols == self.columns_model(),
                    rows == self.rows_model(),
                    w as int == natural_width(cols, rows, i as int, k as int),
                decreases self.rows@.len() - k,
            {
                match &self.rows[k] {
                    Row::Cells(cells) => {
                        if i < cells.len() {
                            let cw = cells[i].width();
                            if cw > w {
                                w = cw;
                            }
                        }
                    },
                    Row::Rule(_) => {},
                }
                k = k + 1;
            }
            widths.push(w);
            i = i + 1;
        }
        assert(as_ints(widths@) =~= Seq::new(cols.len(), |i: int|
            natural_width(cols, rows, i, rows.len() as int)));
        widths
    }
}

/// The total fits in `u128`: each width is at most `usize::MAX`.
fn widths_total(widths: &Vec<usize>) -> (r: u128)
    ensures
        r == table_width(as_ints(widths@)),
{
    let ghost m = usize::MAX as int;
    proof {
        assert(m == 0xffff_ffff || m == 0xffff_ffff_ffff_ffff);
        assert(m * (m + 2) <= u128::MAX) by (nonlinear_arith)
            requires m == 0xffff_ffff || m == 0xffff_ffff_ffff_ffff;
    }
    let mut total: u128 = 0;
    let mut i: usize = 0;
    while i < widths.len()
        invariant
            i <= widths@.len(),
            m == usize::MAX,
            m * (m + 2) <= u128::MAX,
            total == table_width(as_ints(widths@).take(i as int)),
            total <= i * (m + 2),
        decreases widths@.len() - i,
    {
        assert(as_ints(widths@).take(i + 1).drop_last() =~= as_ints(widths@).take(i as int));
        let w = widths[i];
        proof {
            assert(total + 2 + w <= (i + 1) * (m + 2)) by (nonlinear_arith)
                requires total <= i * (m + 2), w <= m;
            assert((i + 1) * (m + 2) <= m * (m + 2)) by (nonlinear_arith)
                requires i + 1 <= m, m >= 0;
        }
        if i == 0 {
            total = w as u128;
        } else {
            total = total + 2 + w as u128;
        }
        i = i + 1;
    }
    assert(as_ints(widths@).take(widths@.len() as int) =~= as_ints(widths@));
    total
}

impl Table {
    fn column_widths(&self, max_width: usize) -> (r: Vec<usize>)
        ensures
            as_ints(r@) == column_widths(self.columns_model(), self.rows_model(), max_width as int),
            r@.len() == self.columns_model().len(),
    {
        let ghost cols = self.columns_model();
        let mut widths = self.natural_widths();
        let ghost natural = as_ints(widths@);
        let total = widths_total(&widths);
        let mut excess: u128 = if total > max_width as u128 { total - max_width as u128 } else { 0 };
        let ghost excess0 = excess as int;
        assert(excess0 == minus(table_width(natural), max_width as int));
        let mut j: usize = 0;
        while j < self.columns.len()
            invariant
                j <= self.columns@.len(),
                cols == self.columns_model(),
                widths@.len() == cols.len(),
                (as_ints(widths@), excess as int) == shrunk(cols, natural, excess0, j as int),
            decreases self.columns@.len() - j,
        {
            if self.columns[j].shrinks {
                let w = widths[j];
                let room: usize = if w >= 8 { w - 8 } else { 0 };
                let give: usize = if excess <= room as u128 { excess as usize } else { room };
                widths.set(j, w - give);
                excess = excess - give as u128;
                assert(as_ints(widths@) =~= shrunk(cols, natural, excess0, j as int).0.update(j as int, w - give));
            }
            j = j + 1;
        }
        widths
    }

    fn header_line(&self, widths: &Vec<usize>) -> (r: Line)
        requires
            widths@.len() == self.columns_model().len(),
        ensures
            r.pieces() == joined_cells(header_cells(self.columns_model(), as_ints(widths@))),
    {
        let ghost cols = self.columns_model();
        let mut cells: Vec<Line> = Vec::new();
        let mut i: usize = 0;
        while i < self.columns.len()
            invariant
                i <= self.columns@.len(),
                widths@.len() == self.columns@.len(),
                cols == self.columns_model(),
                cells@.len() == i,
                forall|k: int| 0 <= k < i ==> (#[trigger] cells@[k]).pieces()
                    == header_cells(cols, as_ints(widths@))[k],
            decreases self.columns@.len() - i,
        {
            let c = &self.columns[i];
            cells.push(Line::faint(c.header.as_str()).fit(widths[i], c.align));
            i = i + 1;
        }
        assert(cells@.map_values(|l: Line| l.pieces()) =~= header_cells(cols, as_ints(widths@)));
        join_cells(cells)
    }

    fn row_line(&self, k: usize, widths: &Vec<usize>) -> (r: Line)
        requires
            k < self.rows_model().len(),
            widths@.len() == self.columns_model().len(),
        ensures
            r.pieces() == joined_cells(row_cells(self.columns_model(), as_ints(widths@), self.rows_model()[k as int])),
    {
        let ghost cols = self.columns_model();
        let ghost model = self.rows_model()[k as int];
        let ghost want = row_cells(cols, as_ints(widths@), model);
        let mut cells: Vec<Line> = Vec::new();
        let mut i: usize = 0;
        while i < self.columns.len()
            invariant
                i <= self.columns@.len(),
                widths@.len() == self.columns@.len(),
                cols == self.columns_model(),
                k < self.rows@.len(),
                model == row_model(self.rows@[k as int]),
                want == row_cells(cols, as_ints(widths@), model),
                cells@.len() == i,
                forall|j: int| 0 <= j < i ==> (#[trigger] cells@[j]).pieces() == want[j],
            decreases self.columns@.len() - i,
        {
            let align = self.columns[i].align;
            let cell = match &self.rows[k] {
                Row::Cells(row) => {
                    let base = if i < row.len() { row[i].duplicate() } else { Line::new() };
                    base.fit(widths[i], align)
                },
                Row::Rule(under) => {
                    if contains_index(under, i) {
                        let s = char_run('─', widths[i]);
                        Line::faint(s.as_str())
                    } else {
                        let s = space_run(widths[i]);
                        Line::plain(s.as_str())
                    }
                },
            };
            cells.push(cell);
            i = i + 1;
        }
        assert(cells@.map_values(|l: Line| l.pieces()) =~= want);
        join_cells(cells)
    }

    pub fn render(&self, max_width: usize) -> (r: Vec<Line>)
        ensures
            r@.map_values(|l: Line| l.pieces())
                == table_lines(self.columns_model(), self.rows_model(), max_width as int),
    {
        let ghost cols = self.columns_model();
        let ghost rows = self.rows_model();
        let widths = self.column_widths(max_width);
        let mut out: Vec<Line> = Vec::new();
        let mut header = false;
        let mut i: usize = 0;
        while i < self.columns.len()
            invariant
                i <= self.columns@.len(),
                cols == self.columns_model(),
                header == exists|j: int| 0 <= j < i && (#[trigger] cols[j]).0.len() > 0,
            decreases self.columns@.len() - i,
        {
            assert(cols[i as int].0 == self.columns@[i as int].header@);
            if !self.columns[i].header.as_str().is_empty() {
                header = true;
            }
            assert(header == exists|j: int| 0 <= j < i + 1 && (#[trigger] cols[j]).0.len() > 0);
            i = i + 1;
        }
        if header {
            out.push(self.header_line(&widths));
        }
        let ghost first = out@.map_values(|l: Line| l.pieces());
        let ghost widths_spec = as_ints(widths@);
        let mut k: usize = 0;
        while k < self.rows.len()
            invariant
                k <= self.rows@.len(),
                cols == self.columns_model(),
                rows == self.rows_model(),
                widths@.len() == cols.len(),
                widths_spec == as_ints(widths@),
                out@.map_values(|l: Line| l.pieces()) == first
                    + Seq::new(k as nat, |j: int| joined_cells(row_cells(cols, widths_spec, rows[j]))),
            decreases self.rows@.len() - k,
        {
            let line = self.row_line(k, &widths);
            let ghost before = out@.map_values(|l: Line| l.pieces());
            out.push(line);
            assert(out@.map_values(|l: Line| l.pieces()) =~= before.push(line.pieces()));
            assert(first + Seq::new((k + 1) as nat, |j: int| joined_cells(row_cells(cols, widths_spec, rows[j])))
                =~= (first + Seq::new(k as nat, |j: int| joined_cells(row_cells(cols, widths_spec, rows[j])))).push(line.pieces()));
            k = k + 1;
        }
        proof {
            let body = Seq::new(rows.len(), |j: int| joined_cells(row_cells(cols, widths_spec, rows[j])));
            if header {
                assert(first =~= seq![joined_cells(header_cells(cols, widths_spec))]);
            } else {
                assert(first =~= Seq::<Seq<Piece>>::empty());
                assert(!has_header(cols));
            }
            assert(out@.map_values(|l: Line| l.pieces()) =~= table_lines(cols, rows, max_width as int));
        }
        out
    }
}

} // verus!
