//! A plain table printer for reports, such as account summaries, that list
//! many single-line objects.

use vstd::prelude::*;
use vstd::utf8::encode_utf8;
use crate::text::chars::{string_of, extend_chars};
use crate::ui::text::spaces;
use crate::ui::widgets::repeated;

verus! {

/// A row of the table.
pub enum Row {
    Header(Vec<String>),
    Data(Vec<String>),
    Separator,
    /// A separator under the columns marked true
    PartialSeparator(Vec<bool>),
}

/// A row as the contracts see it.
pub enum RowText {
    Header(Seq<Seq<char>>),
    Data(Seq<Seq<char>>),
    Separator,
    PartialSeparator(Seq<bool>),
}

/// The length of `s` in UTF-8 bytes.
pub open spec fn byte_len(s: Seq<char>) -> int {
    encode_utf8(s).len() as usize as int
}

pub open spec fn strings(v: Seq<String>) -> Seq<Seq<char>> {
    v.map_values(|s: String| s@)
}

pub open spec fn row_text(row: Row) -> RowText {
    match row {
        Row::Header(v) => RowText::Header(strings(v@)),
        Row::Data(v) => RowText::Data(strings(v@)),
        Row::Separator => RowText::Separator,
        Row::PartialSeparator(v) => RowText::PartialSeparator(v@),
    }
}

/// Column `i`'s width: its longest value, in bytes, among the first `k` rows.
pub open spec fn max_width(rows: Seq<RowText>, i: int, k: int) -> int
    decreases k,
{
    if k <= 0 {
        0
    } else {
        let prev = max_width(rows, i, k - 1);
        let values = match rows[k - 1] {
            RowText::Header(v) => v,
            RowText::Data(v) => v,
            _ => Seq::empty(),
        };
        if i < values.len() && byte_len(values[i]) > prev { byte_len(values[i]) } else { prev }
    }
}

pub open spec fn widths_of(rows: Seq<RowText>, count: int) -> Seq<int> {
    Seq::new(count as nat, |i: int| max_width(rows, i, rows.len() as int))
}

/// A value centered in `width` columns, counting its bytes.
pub open spec fn centered(value: Seq<char>, width: int) -> Seq<char> {
    if byte_len(value) >= width {
        value
    } else {
        let total = width - byte_len(value);
        let left = total / 2;
        spaces(left as nat) + value + spaces((total - left) as nat)
    }
}

/// A value padded with spaces to `width` characters.
pub open spec fn padded(value: Seq<char>, width: int, right: bool) -> Seq<char> {
    if value.len() >= width {
        value
    } else if right {
        spaces((width - value.len()) as nat) + value
    } else {
        value + spaces((width - value.len()) as nat)
    }
}

/// The cells joined by `sep`, the first `k` of them.
pub open spec fn cells_line(cells: Seq<Seq<char>>, sep: Seq<char>, k: int) -> Seq<char>
    decreases k,
{
    if k <= 0 {
        Seq::empty()
    } else if k == 1 {
        cells[0]
    } else {
        cells_line(cells, sep, k - 1) + sep + cells[k - 1]
    }
}

pub open spec fn sum_widths(w: Seq<int>) -> int
    decreases w.len(),
{
    if w.len() == 0 { 0 } else { sum_widths(w.drop_last()) + w.last() }
}

/// One rendered row, with its newline.
pub open spec fn row_rendered(row: RowText, widths: Seq<int>, right: Seq<bool>, count: int) -> Seq<char> {
    match row {
        RowText::Header(v) => cells_line(
            Seq::new(v.len(), |i: int| centered(v[i], widths[i])), seq![' ', '|', ' '], v.len() as int)
            + seq!['\n'],
        RowText::Data(v) => cells_line(
            Seq::new(v.len(), |i: int| padded(v[i], widths[i], right[i])), seq![' ', ' ', ' '], v.len() as int)
            + seq!['\n'],
        RowText::Separator => repeated('-', (sum_widths(widths) + 3 * (count - 1)) as nat) + seq!['\n'],
        RowText::PartialSeparator(d) => cells_line(
            Seq::new(d.len(), |i: int| if d[i] { repeated('-', widths[i] as nat) } else { spaces(widths[i] as nat) }),
            seq![' ', ' ', ' '], d.len() as int) + seq!['\n'],
    }
}

pub open spec fn rows_rendered(rows: Seq<RowText>, widths: Seq<int>, right: Seq<bool>, count: int, k: int) -> Seq<char>
    decreases k,
{
    if k <= 0 {
        Seq::empty()
    } else {
        rows_rendered(rows, widths, right, count, k - 1) + row_rendered(rows[k - 1], widths, right, count)
    }
}

/// A table that prints each row on one line, columns padded to their widest
/// value.
pub struct Table {
    column_count: usize,
    rows: Vec<Row>,
    right_align: Vec<bool>,
}

impl Table {
    pub closed spec fn count(&self) -> int {
        self.column_count as int
    }

    pub closed spec fn rows_view(&self) -> Seq<RowText> {
        self.rows@.map_values(|r: Row| row_text(r))
    }

    /// Which columns are right-aligned.
    pub closed spec fn right_view(&self) -> Seq<bool> {
        self.right_align@
    }

    /// Rows fit the columns: no row is wider, and a partial separator marks
    /// each column.
    pub open spec fn wf(&self) -> bool {
        &&& self.right_view().len() == self.count()
        &&& forall|k: int| 0 <= k < self.rows_view().len() ==> match #[trigger] self.rows_view()[k] {
            RowText::Header(v) => v.len() <= self.count(),
            RowText::Data(v) => v.len() <= self.count(),
            RowText::Separator => self.count() >= 1,
            RowText::PartialSeparator(d) => d.len() == self.count(),
        }
    }

    pub fn new(column_count: usize) -> (r: Self)
        ensures
            r.wf(),
            r.count() == column_count,
            r.rows_view() == Seq::<RowText>::empty(),
            r.right_view() == Seq::new(column_count as nat, |i: int| false),
    {
        let mut right_align: Vec<bool> = Vec::new();
        let mut i: usize = 0;
        while i < column_count
            invariant
                i <= column_count,
                right_align@ == Seq::new(i as nat, |j: int| false),
            decreases column_count - i,
        {
            right_align.push(false);
            assert(right_align@ =~= Seq::new((i + 1) as nat, |j: int| false));
            i = i + 1;
        }
        let r = Table { column_count, rows: Vec::new(), right_align };
        assert(r.rows_view() =~= Seq::<RowText>::empty());
        r
    }

    fn owned(row: &Vec<&str>) -> (r: Vec<String>)
        ensures
            strings(r@) == row@.map_values(|s: &str| s@),
    {
        let mut out: Vec<String> = Vec::new();
        let mut i: usize = 0;
        while i < row.len()
            invariant
                i <= row@.len(),
                strings(out@) == row@.map_values(|s: &str| s@).take(i as int),
            decreases row@.len() - i,
        {
            let ghost prev = out@;
            let owned = row[i].to_owned();
            out.push(owned);
            assert(out@ =~= prev.push(owned));
            assert(strings(out@) =~= strings(prev).push(owned@));
            assert(row@.map_values(|s: &str| s@).take(i + 1) =~= row@.map_values(|s: &str| s@).take(i as int).push(row@[i as int]@));
            i = i + 1;
        }
        assert(row@.map_values(|s: &str| s@).take(row@.len() as int) =~= row@.map_values(|s: &str| s@));
        out
    }

    /// Adds a header row.
    pub fn add_header(&mut self, row: Vec<&str>)
        requires
            old(self).wf(),
            row@.len() <= old(self).count(),
        ensures
            final(self).wf(),
            final(self).count() == old(self).count(),
            final(self).right_view() == old(self).right_view(),
            final(self).rows_view() == old(self).rows_view().push(RowText::Header(row@.map_values(|s: &str| s@))),
    {
        let cells = Self::owned(&row);
        self.rows.push(Row::Header(cells));
        assert(self.rows_view() =~= old(self).rows_view().push(RowText::Header(row@.map_values(|s: &str| s@))));
        assert forall|k: int| 0 <= k < self.rows_view().len() implies match #[trigger] self.rows_view()[k] {
            RowText::Header(v) => v.len() <= self.count(),
            RowText::Data(v) => v.len() <= self.count(),
            RowText::Separator => self.count() >= 1,
            RowText::PartialSeparator(d) => d.len() == self.count(),
        } by {
            if k < old(self).rows_view().len() {
                assert(self.rows_view()[k] == old(self).rows_view()[k]);
            }
        }
    }

    /// Adds a data row.
    pub fn add_row(&mut self, row: Vec<&str>)
        requires
            old(self).wf(),
            row@.len() <= old(self).count(),
        ensures
            final(self).wf(),
            final(self).count() == old(self).count(),
            final(self).right_view() == old(self).right_view(),
            final(self).rows_view() == old(self).rows_view().push(RowText::Data(row@.map_values(|s: &str| s@))),
    {
        let cells = Self::owned(&row);
        self.rows.push(Row::Data(cells));
        assert(self.rows_view() =~= old(self).rows_view().push(RowText::Data(row@.map_values(|s: &str| s@))));
        assert forall|k: int| 0 <= k < self.rows_view().len() implies match #[trigger] self.rows_view()[k] {
            RowText::Header(v) => v.len() <= self.count(),
            RowText::Data(v) => v.len() <= self.count(),
            RowText::Separator => self.count() >= 1,
            RowText::PartialSeparator(d) => d.len() == self.count(),
        } by {
            if k < old(self).rows_view().len() {
                assert(self.rows_view()[k] == old(self).rows_view()[k]);
            }
        }
    }

    /// Adds a full separator row.
    pub fn add_separator(&mut self)
        requires
            old(self).wf(),
            old(self).count() >= 1,
        ensures
            final(self).wf(),
            final(self).count() == old(self).count(),
            final(self).right_view() == old(self).right_view(),
            final(self).rows_view() == old(self).rows_view().push(RowText::Separator),
    {
        self.rows.push(Row::Separator);
        assert(self.rows_view() =~= old(self).rows_view().push(RowText::Separator));
        assert forall|k: int| 0 <= k < self.rows_view().len() implies match #[trigger] self.rows_view()[k] {
            RowText::Header(v) => v.len() <= self.count(),
            RowText::Data(v) => v.len() <= self.count(),
            RowText::Separator => self.count() >= 1,
            RowText::PartialSeparator(d) => d.len() == self.count(),
        } by {
            if k < old(self).rows_view().len() {
                assert(self.rows_view()[k] == old(self).rows_view()[k]);
            }
        }
    }

    /// Adds a partial separator row for selected columns.
    pub fn add_partial_separator(&mut self, indices: Vec<usize>)
        requires
            old(self).wf(),
            forall|j: int| 0 <= j < indices@.len() ==> #[trigger] indices@[j] < old(self).count(),
        ensures
            final(self).wf(),
            final(self).count() == old(self).count(),
            final(self).right_view() == old(self).right_view(),
            final(self).rows_view() == old(self).rows_view().push(RowText::PartialSeparator(
                Seq::new(old(self).count() as nat, |i: int| indices@.contains(i as usize)))),
    {
        let ghost want = Seq::new(self.column_count as nat, |i: int| indices@.contains(i as usize));
        let mut cols: Vec<bool> = Vec::new();
        let mut i: usize = 0;
        while i < self.column_count
            invariant
                i <= self.column_count,
                cols@ == Seq::new(i as nat, |j: int| false),
            decreases self.column_count - i,
        {
            cols.push(false);
            assert(cols@ =~= Seq::new((i + 1) as nat, |j: int| false));
            i = i + 1;
        }
        let mut k: usize = 0;
        while k < indices.len()
            invariant
                k <= indices@.len(),
                cols@.len() == self.column_count,
                forall|j: int| 0 <= j < indices@.len() ==> #[trigger] indices@[j] < self.column_count,
                forall|c: int| 0 <= c < cols@.len() ==> #[trigger] cols@[c] == indices@.take(k as int).contains(c as usize),
            decreases indices@.len() - k,
        {
            let idx = indices[k];
            cols.set(idx, true);
            assert forall|c: int| 0 <= c < cols@.len() implies #[trigger] cols@[c] == indices@.take(k + 1).contains(c as usize) by {
                assert(indices@.take(k + 1) =~= indices@.take(k as int).push(idx));
                if c == idx as int {
                    assert(indices@.take(k + 1)[k as int] == idx);
                }
            }
            k = k + 1;
        }
        assert(indices@.take(indices@.len() as int) =~= indices@);
        assert(cols@ =~= want);
        self.rows.push(Row::PartialSeparator(cols));
        assert(self.rows_view() =~= old(self).rows_view().push(RowText::PartialSeparator(want)));
        assert forall|k: int| 0 <= k < self.rows_view().len() implies match #[trigger] self.rows_view()[k] {
            RowText::Header(v) => v.len() <= self.count(),
            RowText::Data(v) => v.len() <= self.count(),
            RowText::Separator => self.count() >= 1,
            RowText::PartialSeparator(d) => d.len() == self.count(),
        } by {
            if k < old(self).rows_view().len() {
                assert(self.rows_view()[k] == old(self).rows_view()[k]);
            }
        }
    }

    /// Specifies columns that should be right-aligned by index.
    pub fn right_align(&mut self, cols: Vec<usize>)
        requires
            old(self).wf(),
            forall|j: int| 0 <= j < cols@.len() ==> #[trigger] cols@[j] < old(self).count(),
        ensures
            final(self).wf(),
            final(self).count() == old(self).count(),
            final(self).rows_view() == old(self).rows_view(),
            final(self).right_view() == Seq::new(old(self).count() as nat, |i: int|
                old(self).right_view()[i] || cols@.contains(i as usize)),
    {
        let ghost before = self.right_align@;
        let mut k: usize = 0;
        while k < cols.len()
            invariant
                k <= cols@.len(),
                self.right_align@.len() == self.column_count,
                before.len() == self.column_count,
                self.column_count == old(self).count(),
                self.rows == old(self).rows,
                forall|j: int| 0 <= j < cols@.len() ==> #[trigger] cols@[j] < self.column_count,
                forall|c: int| 0 <= c < self.right_align@.len() ==> #[trigger] self.right_align@[c]
                    == (before[c] || cols@.take(k as int).contains(c as usize)),
            decreases cols@.len() - k,
        {
            let idx = cols[k];
            self.right_align.set(idx, true);
            assert forall|c: int| 0 <= c < self.right_align@.len() implies #[trigger] self.right_align@[c]
                == (before[c] || cols@.take(k + 1).contains(c as usize)) by {
                assert(cols@.take(k + 1) =~= cols@.take(k as int).push(idx));
                if c == idx as int {
                    assert(cols@.take(k + 1)[k as int] == idx);
                }
            }
            k = k + 1;
        }
        assert(cols@.take(cols@.len() as int) =~= cols@);
        assert(self.right_view() =~= Seq::new(old(self).count() as nat, |i: int|
            old(self).right_view()[i] || cols@.contains(i as usize)));
    }
}

/// Appends a run of `n` copies of `c`.
fn push_run(out: &mut Vec<char>, c: char, n: usize)
    ensures
        final(out)@ == old(out)@ + repeated(c, n as nat),
{
    let ghost start = out@;
    let mut i: usize = 0;
    while i < n
        invariant
            i <= n,
            out@ == start + repeated(c, i as nat),
        decreases n - i,
    {
        out.push(c);
        assert(start + repeated(c, (i + 1) as nat) =~= (start + repeated(c, i as nat)).push(c));
        i = i + 1;
    }
}

proof fn lemma_spaces_repeated(n: nat)
    ensures
        spaces(n) == repeated(' ', n),
{
    assert(spaces(n) =~= repeated(' ', n));
}

fn push_centered(out: &mut Vec<char>, value: &str, width: usize)
    ensures
        final(out)@ == old(out)@ + centered(value@, width as int),
{
    let blen = value.len();
    if blen >= width {
        extend_chars(out, value);
        return;
    }
    let total = width - blen;
    let left = total / 2;
    proof {
        lemma_spaces_repeated(left as nat);
        lemma_spaces_repeated((total - left) as nat);
    }
    push_run(out, ' ', left);
    extend_chars(out, value);
    push_run(out, ' ', total - left);
    assert(final(out)@ =~= old(out)@ + centered(value@, width as int)) by {
        assert(byte_len(value@) == blen);
    }
}

fn push_padded(out: &mut Vec<char>, value: &str, width: usize, right: bool)
    ensures
        final(out)@ == old(out)@ + padded(value@, width as int, right),
{
    let n = crate::text::chars::chars_of(value).len();
    if n >= width {
        extend_chars(out, value);
        return;
    }
    proof { lemma_spaces_repeated((width - n) as nat); }
    if right {
        push_run(out, ' ', width - n);
        extend_chars(out, value);
    } else {
        extend_chars(out, value);
        push_run(out, ' ', width - n);
    }
    assert(final(out)@ =~= old(out)@ + padded(value@, width as int, right));
}

impl Table {
    /// Whether a full separator, if there is one, fits in memory.
    pub open spec fn render_fits(&self) -> bool {
        (exists|k: int| 0 <= k < self.rows_view().len() && #[trigger] self.rows_view()[k] is Separator)
            ==> sum_widths(widths_of(self.rows_view(), self.count())) + 3 * (self.count() - 1) <= usize::MAX
    }

    fn column_width(&self, i: usize) -> (r: usize)
        ensures
            r == max_width(self.rows_view(), i as int, self.rows_view().len() as int),
    {
        let ghost rows = self.rows_view();
        let mut w: usize = 0;
        let mut k: usize = 0;
        while k < self.rows.len()
            invariant
                k <= self.rows@.len(),
                rows == self.rows_view(),
                w == max_width(rows, i as int, k as int),
            decreases self.rows@.len() - k,
        {
            let values: Option<&Vec<String>> = match &self.rows[k] {
                Row::Header(v) => Some(v),
                Row::Data(v) => Some(v),
                _ => None,
            };
            if let Some(v) = values {
                if i < v.len() {
                    let len = v[i].as_str().len();
                    assert(len == byte_len(strings(v@)[i as int]));
                    if len > w {
                        w = len;
                    }
                }
            }
            k = k + 1;
        }
        w
    }

    fn widths(&self) -> (r: Vec<usize>)
        ensures
            r@.len() == self.count(),
            forall|i: int| 0 <= i < self.count() ==> #[trigger] r@[i] as int == widths_of(self.rows_view(), self.count())[i],
    {
        let mut r: Vec<usize> = Vec::new();
        let mut i: usize = 0;
        while i < self.column_count
            invariant
                i <= self.column_count,
                r@.len() == i,
                forall|j: int| 0 <= j < i ==> #[trigger] r@[j] as int == widths_of(self.rows_view(), self.count())[j],
            decreases self.column_count - i,
        {
            r.push(self.column_width(i));
            i = i + 1;
        }
        r
    }

    fn push_row(&self, out: &mut Vec<char>, k: usize, widths: &Vec<usize>)
        requires
            self.wf(),
            self.render_fits(),
            k < self.rows_view().len(),
            widths@.len() == self.count(),
            forall|i: int| 0 <= i < self.count() ==> #[trigger] widths@[i] as int == widths_of(self.rows_view(), self.count())[i],
        ensures
            final(out)@ == old(out)@ + row_rendered(self.rows_view()[k as int],
                widths_of(self.rows_view(), self.count()), self.right_view(), self.count()),
    {
        let ghost row = self.rows_view()[k as int];
        let ghost w = widths_of(self.rows_view(), self.count());
        let ghost start = out@;
        match &self.rows[k] {
            Row::Header(v) => {
                let ghost cells = Seq::new(v@.len(), |i: int| centered(strings(v@)[i], w[i]));
                let mut i: usize = 0;
                while i < v.len()
                    invariant
                        i <= v@.len() <= self.count(),
                        widths@.len() == self.count(),
                        forall|j: int| 0 <= j < self.count() ==> #[trigger] widths@[j] as int == w[j],
                        cells == Seq::new(v@.len(), |i: int| centered(strings(v@)[i], w[i])),
                        out@ == start + cells_line(cells, seq![' ', '|', ' '], i as int),
                    decreases v@.len() - i,
                {
                    if i > 0 {
                        out.push(' ');
                        out.push('|');
                        out.push(' ');
                    }
                    push_centered(out, v[i].as_str(), widths[i]);
                    i = i + 1;
                }
                out.push('\n');
            },
            Row::Data(v) => {
                let ghost cells = Seq::new(v@.len(), |i: int| padded(strings(v@)[i], w[i], self.right_view()[i]));
                let mut i: usize = 0;
                while i < v.len()
                    invariant
                        i <= v@.len() <= self.count(),
                        widths@.len() == self.count(),
                        self.right_align@.len() == self.count(),
                        forall|j: int| 0 <= j < self.count() ==> #[trigger] widths@[j] as int == w[j],
                        cells == Seq::new(v@.len(), |i: int| padded(strings(v@)[i], w[i], self.right_view()[i])),
                        out@ == start + cells_line(cells, seq![' ', ' ', ' '], i as int),
                    decreases v@.len() - i,
                {
                    if i > 0 {
                        out.push(' ');
                        out.push(' ');
                        out.push(' ');
                    }
                    push_padded(out, v[i].as_str(), widths[i], self.right_align[i]);
                    i = i + 1;
                }
                out.push('\n');
            },
            Row::Separator => {
                let mut total: usize = 0;
                let mut i: usize = 0;
                proof {
                    assert(self.rows_view()[k as int] is Separator);
                    assert forall|j: int| 0 <= j < w.len() implies w[j] >= 0 by {
                        assert(widths@[j] as int == w[j]);
                    }
                    lemma_sum_widths_mono(w, 0);
                }
                while i < widths.len()
                    invariant
                        i <= widths@.len(),
                        widths@.len() == w.len(),
                        forall|j: int| 0 <= j < w.len() ==> #[trigger] widths@[j] as int == w[j],
                        total == sum_widths(w.take(i as int)),
                        sum_widths(w) + 3 * (w.len() - 1) <= usize::MAX,
                        w.len() >= 1,
                        forall|j: int| 0 <= j < w.len() ==> w[j] >= 0,
                    decreases widths@.len() - i,
                {
                    assert(w.take(i + 1).drop_last() =~= w.take(i as int));
                    proof { lemma_sum_widths_mono(w, i + 1); }
                    total = total + widths[i];
                    i = i + 1;
                }
                assert(w.take(w.len() as int) =~= w);
                let n = total + 3 * (self.column_count - 1);
                push_run(out, '-', n);
                out.push('\n');
            },
            Row::PartialSeparator(d) => {
                let ghost dv = d@;
                let ghost cells = Seq::new(dv.len(), |i: int| if dv[i] { repeated('-', w[i] as nat) } else { spaces(w[i] as nat) });
                let mut i: usize = 0;
                while i < d.len()
                    invariant
                        i <= d@.len() == self.count(),
                        dv == d@,
                        widths@.len() == self.count(),
                        forall|j: int| 0 <= j < self.count() ==> #[trigger] widths@[j] as int == w[j],
                        cells == Seq::new(dv.len(), |i: int| if dv[i] { repeated('-', w[i] as nat) } else { spaces(w[i] as nat) }),
                        out@ == start + cells_line(cells, seq![' ', ' ', ' '], i as int),
                    decreases d@.len() - i,
                {
                    if i > 0 {
                        out.push(' ');
                        out.push(' ');
                        out.push(' ');
                    }
                    proof { lemma_spaces_repeated(widths@[i as int] as nat); }
                    push_run(out, if d[i] { '-' } else { ' ' }, widths[i]);
                    i = i + 1;
                }
                out.push('\n');
            },
        }
    }

    /// Renders the table, preceded by a blank line
    pub fn render(&self) -> (r: String)
        requires
            self.wf(),
            self.render_fits(),
        ensures
            r@ == seq!['\n'] + rows_rendered(self.rows_view(), widths_of(self.rows_view(), self.count()),
                self.right_view(), self.count(), self.rows_view().len() as int),
    {
        let widths = self.widths();
        let mut out: Vec<char> = Vec::new();
        out.push('\n');
        let mut k: usize = 0;
        while k < self.rows.len()
            invariant
                k <= self.rows@.len(),
                self.wf(),
                self.render_fits(),
                widths@.len() == self.count(),
                forall|i: int| 0 <= i < self.count() ==> #[trigger] widths@[i] as int == widths_of(self.rows_view(), self.count())[i],
                out@ == seq!['\n'] + rows_rendered(self.rows_view(), widths_of(self.rows_view(), self.count()),
                    self.right_view(), self.count(), k as int),
            decreases self.rows@.len() - k,
        {
            self.push_row(&mut out, k, &widths);
            k = k + 1;
        }
        string_of(&out)
    }
}


proof fn lemma_sum_widths_mono(w: Seq<int>, i: int)
    requires
        0 <= i <= w.len(),
        forall|j: int| 0 <= j < w.len() ==> w[j] >= 0,
    ensures
        0 <= sum_widths(w.take(i)) <= sum_widths(w),
    decreases w.len() - i,
{
    if i < w.len() {
        lemma_sum_widths_mono(w, i + 1);
        assert(w.take(i + 1).drop_last() =~= w.take(i));
        lemma_sum_nonneg(w.take(i));
    } else {
        assert(w.take(i) =~= w);
        lemma_sum_nonneg(w);
    }
}

proof fn lemma_sum_nonneg(w: Seq<int>)
    requires
        forall|j: int| 0 <= j < w.len() ==> w[j] >= 0,
    ensures
        sum_widths(w) >= 0,
    decreases w.len(),
{
    if w.len() > 0 {
        lemma_sum_nonneg(w.drop_last());
    }
}

} // verus!
