//! Reads a ledger file and everything it includes, in include order.
//!
//! The reading itself is the caller's: a [`Loader`] says which file it needs
//! next ([`Need`]), and is handed back what was found there ([`Found`]). It
//! decides everything else: what each line is, which includes are circular
//! or repeated, and when to give up.

use vstd::prelude::*;
use crate::diagnostics::{Diagnostic, Severity, opt_view, notes_view};
use crate::syntax::lexer::{Line, LineKind, LineView, KindView, Cols, Fault, lex_line, lexed, reports};
use crate::syntax::source::{FileId, SourceFile, SourceMap, Span, line_text, line_starts, line_count_of,
    trim_cr, lemma_line_starts};
use crate::text::chars::{chars_of, string_of, extend_chars, str_eq};
use crate::config::{join_path, joined_path, is_absolute, parent_of, parent_dir};
use crate::text::digits::{push_decimal, decimal_chars};
use crate::text::utf8::{bytes_of, lemma_bytes_of_concat, lemma_bytes_of_nonneg};

verus! {

/// Stop collecting syntax errors after this many; the rest are noise.
pub const MAX_ERRORS: usize = 25;

/// One step through the ledger as if every include were pasted in place.
#[derive(Debug)]
pub enum Item {
    Line {
        file: FileId,
        number: usize,
        line: Line,
    },
    /// The end of a file. Like a blank line, it ends any entry in progress.
    EndOfFile(FileId),
}

/// An item as plain values.
pub enum ItemView {
    Line { file: FileId, number: usize, line: LineView },
    EndOfFile(FileId),
}

impl View for Item {
    type V = ItemView;

    open spec fn view(&self) -> ItemView {
        match self {
            Item::Line { file, number, line } => ItemView::Line { file: *file, number: *number, line: line@ },
            Item::EndOfFile(f) => ItemView::EndOfFile(*f),
        }
    }
}

/// The items as plain values.
pub open spec fn items_view(items: Seq<Item>) -> Seq<ItemView> {
    items.map_values(|i: Item| i@)
}

impl Item {
    /// The whole-line span of a line item
    pub fn span(&self) -> (r: Option<Span>)
        ensures
            r == (match self@ {
                ItemView::Line { file, number, .. } =>
                    Some(Span { file, line: number, last_line: number, start: 0, end: 0 }),
                ItemView::EndOfFile(_) => None::<Span>,
            }),
    {
        match self {
            Item::Line { file, number, .. } => Some(Span::new(*file, *number, 0, 0)),
            Item::EndOfFile(_) => None,
        }
    }
}

/// Text to treat as though it were appended to a file, so that a new entry
/// can be checked in full context before it is written anywhere.
#[derive(Clone, Debug)]
pub struct Overlay {
    pub path: String,
    pub appended: String,
}

/// The parts, with `sep` between each two.
pub open spec fn joined_with(parts: Seq<Seq<char>>, sep: Seq<char>) -> Seq<char>
    decreases parts.len(),
{
    if parts.len() == 0 {
        Seq::empty()
    } else if parts.len() == 1 {
        parts[0]
    } else {
        joined_with(parts.drop_last(), sep) + sep + parts.last()
    }
}

/// The strings' characters.
pub open spec fn strings_view(parts: Seq<String>) -> Seq<Seq<char>> {
    parts.map_values(|s: String| s@)
}

/// The parts, with `sep` between each two.
pub fn join_strings(parts: &Vec<String>, sep: &str) -> (r: String)
    ensures
        r@ == joined_with(strings_view(parts@), sep@),
{
    let mut out: Vec<char> = Vec::new();
    let mut i: usize = 0;
    while i < parts.len()
        invariant
            i <= parts@.len(),
            out@ == joined_with(strings_view(parts@).take(i as int), sep@),
        decreases parts@.len() - i,
    {
        let ghost all = strings_view(parts@);
        if i > 0 {
            extend_chars(&mut out, sep);
        }
        extend_chars(&mut out, parts[i].as_str());
        proof {
            assert(all.take(i + 1).drop_last() =~= all.take(i as int));
            assert(all.take(i + 1).last() == parts@[i as int]@);
            if i == 0 {
                assert(out@ =~= all.take(1)[0]);
            }
        }
        i = i + 1;
    }
    assert(strings_view(parts@).take(parts@.len() as int) =~= strings_view(parts@));
    string_of(&out)
}

/// The diagnostics' messages.
pub open spec fn messages(ds: Seq<Diagnostic>) -> Seq<Seq<char>> {
    ds.map_values(|d: Diagnostic| d.message@)
}

/// Several diagnostics at once, such as every syntax error in a file.
#[derive(Debug)]
pub struct Diagnostics(pub Vec<Diagnostic>);

impl Diagnostics {
    /// Every message, in order, separated by semicolons.
    pub fn to_string(&self) -> (r: String)
        ensures
            r@ == joined_with(messages(self.0@), "; "@),
    {
        let mut all: Vec<String> = Vec::new();
        let mut i: usize = 0;
        while i < self.0.len()
            invariant
                i <= self.0@.len(),
                all@.len() == i,
                forall|k: int| 0 <= k < i ==> (#[trigger] all@[k])@ == self.0@[k].message@,
            decreases self.0@.len() - i,
        {
            all.push(self.0[i].message.clone());
            i = i + 1;
        }
        assert(strings_view(all@) =~= messages(self.0@));
        join_strings(&all, "; ")
    }
}

/// Why a ledger could not be loaded.
#[derive(Debug)]
pub enum LoadError {
    /// One problem that stopped the reading, such as a missing file
    One(Diagnostic),
    /// The syntax errors found, across all files
    Many(Diagnostics),
}

impl LoadError {
    /// The error as one line of text.
    pub fn to_string(&self) -> (r: String)
        ensures
            match self {
                LoadError::One(d) => r@ == d.message@,
                LoadError::Many(ds) => r@ == joined_with(messages(ds.0@), "; "@),
            },
    {
        match self {
            LoadError::One(d) => d.message.clone(),
            LoadError::Many(ds) => ds.to_string(),
        }
    }
}

/// Each line's number and characters.
pub open spec fn lines_view(lines: Seq<(usize, String)>) -> Seq<(usize, Seq<char>)> {
    lines.map_values(|p: (usize, String)| (p.0, p.1@))
}

/// How reading a file's lines stopped.
pub enum ScanEnd {
    /// At the include on line `k` (counted from 0), which must be read next
    Include(int),
    /// At the error that made too many
    Limit,
    /// At the end of the file
    End,
}

/// The item a line that lexed to `v` stands for.
pub open spec fn line_item(file: FileId, number: usize, v: LineView) -> ItemView {
    ItemView::Line { file, number, line: v }
}

/// What a line of text lexes to.
#[verifier::opaque]
pub open spec fn lex_result(raw: Seq<char>) -> Result<LineView, Fault> {
    lexed(raw)
}

/// Lexes one line.
pub(crate) fn lex_one(raw: &str, file: FileId, number: usize) -> (r: Result<Line, Diagnostic>)
    requires
        bytes_of(raw@) < usize::MAX,
    ensures
        match lex_result(raw@) {
            Ok(v) => r matches Ok(l) && l@ == v,
            Err(f) => r matches Err(d) && reports(d, f, file, number),
        },
{
    proof { reveal(lex_result); }
    lex_line(raw, file, number)
}

/// Reading `lines` of `file` from the `k`-th on, with `errors` syntax errors
/// already found: the items it adds, the faults it finds with their line
/// numbers, and where it stops. A line that fails to lex adds no item, and an
/// include line is the last one read before the included file.
pub open spec fn scan(file: FileId, lines: Seq<(usize, Seq<char>)>, k: int, errors: int)
    -> (Seq<ItemView>, Seq<(usize, Fault)>, ScanEnd)
    decreases lines.len() - k,
{
    if k < 0 || k >= lines.len() {
        (Seq::empty(), Seq::empty(), ScanEnd::End)
    } else {
        let number = lines[k].0;
        match lex_result(lines[k].1) {
            Err(f) => if errors + 1 >= MAX_ERRORS {
                (Seq::empty(), seq![(number, f)], ScanEnd::Limit)
            } else {
                let rest = scan(file, lines, k + 1, errors + 1);
                (rest.0, seq![(number, f)] + rest.1, rest.2)
            },
            Ok(v) => if v.kind is Include {
                (seq![line_item(file, number, v)], Seq::empty(), ScanEnd::Include(k))
            } else {
                let rest = scan(file, lines, k + 1, errors);
                (seq![line_item(file, number, v)] + rest.0, rest.1, rest.2)
            },
        }
    }
}

/// A file part way through being read: the file, its numbered lines, and
/// the next line to read (counted from 0).
pub type Pending = (FileId, Seq<(usize, Seq<char>)>, int);

/// How reading on stopped.
pub enum RunEnd {
    /// At an include line, whose file must be read next
    Include,
    /// At the error that made too many
    Limit,
    /// With every file read to its end
    Exhausted,
}

/// The numbered lines of a text.
pub open spec fn file_lines(t: Seq<char>) -> Seq<(usize, Seq<char>)> {
    Seq::new(line_count_of(t) as nat, |k: int| ((k + 1) as usize, line_text(t, k + 1)))
}

/// Reading on from the innermost of the `frames` (the last), with `errors`
/// syntax errors already found: a file read to its end is followed by its
/// end-of-file item, and reading goes on in the file that included it. The
/// items added, the faults found (with their file and line), how it stops,
/// and the files left part way read.
pub open spec fn run(frames: Seq<Pending>, errors: int) -> (Seq<ItemView>, Seq<(FileId, usize, Fault)>, RunEnd, Seq<Pending>)
    decreases frames.len(),
{
    if frames.len() == 0 {
        (Seq::empty(), Seq::empty(), RunEnd::Exhausted, Seq::empty())
    } else {
        let top = frames.last();
        let s = scan(top.0, top.1, top.2, errors);
        let faults = in_file(top.0, s.1);
        match s.2 {
            ScanEnd::Include(k) => (s.0, faults, RunEnd::Include, frames.drop_last().push((top.0, top.1, k + 1))),
            ScanEnd::Limit => (s.0, faults, RunEnd::Limit, frames.drop_last()),
            ScanEnd::End => {
                let rest = run(frames.drop_last(), errors + s.1.len());
                (s.0.push(ItemView::EndOfFile(top.0)) + rest.0, faults + rest.1, rest.2, rest.3)
            },
        }
    }
}

/// Faults found in `file`, with the file.
pub open spec fn in_file(file: FileId, faults: Seq<(usize, Fault)>) -> Seq<(FileId, usize, Fault)> {
    faults.map_values(|f: (usize, Fault)| (file, f.0, f.1))
}

/// The error diagnostics `errors` report the `faults`, in order.
pub open spec fn reports_each(errors: Seq<Diagnostic>, faults: Seq<(FileId, usize, Fault)>) -> bool {
    &&& errors.len() == faults.len()
    &&& forall|j: int| 0 <= j < faults.len() ==> reports(#[trigger] errors[j], faults[j].2, faults[j].0, faults[j].1)
}

/// The diagnostics are `before`, then one reporting each of the `faults`.
pub open spec fn errors_after(ds: Seq<Diagnostic>, before: Seq<Diagnostic>, faults: Seq<(FileId, usize, Fault)>) -> bool {
    &&& ds.take(before.len() as int) == before
    &&& before.len() <= ds.len()
    &&& reports_each(ds.skip(before.len() as int), faults)
}

/// Reading on from `frames`, for a loader that had found the `items` and
/// `errors` and whose overlay, if `missing`, had not found its file yet,
/// answered `r` and left the loader `after`: an include line asks for its
/// file with everything before it read; too many errors, or errors at the
/// end, end the reading with all of them; otherwise the reading ends with
/// every item, unless the overlay never found its file.
pub open spec fn resumes(items: Seq<ItemView>, errors: Seq<Diagnostic>, missing: bool, frames: Seq<Pending>,
    r: Need, after: Loader) -> bool {
    let run = run(frames, errors.len() as int);
    let many = r matches Need::Done(Err(LoadError::Many(ds))) && errors_after(ds.0@, errors, run.1);
    &&& (r is Include) == (run.2 is Include)
    &&& run.2 is Include ==> {
        &&& after.items_so_far() == items + run.0
        &&& after.pending() == run.3
        &&& errors_after(after.error_list(), errors, run.1)
    }
    &&& run.2 is Limit ==> many
    &&& run.2 is Exhausted && errors.len() + run.1.len() > 0 ==> many
    &&& run.2 is Exhausted && errors.len() + run.1.len() == 0 && !missing
        ==> (r matches Need::Done(Ok(found)) && items_view(found@) == items + run.0)
    &&& run.2 is Exhausted && errors.len() + run.1.len() == 0 && missing
        ==> r matches Need::Done(Err(LoadError::One(_)))
}

/// The items of the lines from the `k`-th on, each what its line lexes to.
pub open spec fn line_items(file: FileId, lines: Seq<(usize, Seq<char>)>, k: int) -> Seq<ItemView> {
    Seq::new((lines.len() - k) as nat, |i: int| line_item(file, lines[k + i].0, lex_result(lines[k + i].1)->Ok_0))
}

/// Every line from the `k`-th on lexes, and none is an include.
pub open spec fn clean_from(lines: Seq<(usize, Seq<char>)>, k: int) -> bool {
    forall|j: int| k <= j < lines.len() ==> (#[trigger] lex_result(lines[j].1) matches Ok(v) && !(v.kind is Include))
}

proof fn lemma_scan_clean(file: FileId, lines: Seq<(usize, Seq<char>)>, k: int, e: int)
    requires
        0 <= k <= lines.len(),
        clean_from(lines, k),
    ensures
        scan(file, lines, k, e) == (line_items(file, lines, k), Seq::<(usize, Fault)>::empty(), ScanEnd::End),
    decreases lines.len() - k,
{
    if k < lines.len() {
        assert(lex_result(lines[k].1) matches Ok(v) && !(v.kind is Include));
        lemma_scan_clean(file, lines, k + 1, e);
        let rest = line_items(file, lines, k + 1);
        assert(line_items(file, lines, k) =~= seq![line_item(file, lines[k].0, lex_result(lines[k].1)->Ok_0)] + rest);
        assert(Seq::<(usize, Fault)>::empty() + Seq::<(usize, Fault)>::empty() =~= Seq::<(usize, Fault)>::empty());
    } else {
        assert(line_items(file, lines, k) =~= Seq::<ItemView>::empty());
    }
}

proof fn lemma_scan_fault(file: FileId, lines: Seq<(usize, Seq<char>)>, k: int, e: int, bad: int)
    requires
        0 <= k <= bad < lines.len(),
        lex_result(lines[bad].1) is Err,
        forall|j: int| k <= j < lines.len() ==> (#[trigger] lex_result(lines[j].1) matches Ok(v) ==> !(v.kind is Include)),
    ensures
        scan(file, lines, k, e).1.len() > 0,
    decreases lines.len() - k,
{
    if k < bad {
        assert(lex_result(lines[k].1) matches Ok(v) ==> !(v.kind is Include));
        lemma_scan_fault(file, lines, k + 1, e + 1, bad);
        lemma_scan_fault(file, lines, k + 1, e, bad);
    }
}

/// Reading a file on its own, from its first line: where every line lexes
/// and none includes another file, every line is read, in order, then the
/// end of the file, with no fault; where some line does not lex (and none
/// includes another file), a fault is found, so the reading ends in errors.
pub proof fn lemma_file_read_whole(file: FileId, text: Seq<char>)
    ensures
        clean_from(file_lines(text), 0) ==> run(seq![(file, file_lines(text), 0int)], 0)
            == (line_items(file, file_lines(text), 0).push(ItemView::EndOfFile(file)),
                Seq::<(FileId, usize, Fault)>::empty(), RunEnd::Exhausted, Seq::<Pending>::empty()),
        (forall|j: int| 0 <= j < file_lines(text).len()
            ==> (#[trigger] lex_result(file_lines(text)[j].1) matches Ok(v) ==> !(v.kind is Include)))
            && (exists|j: int| 0 <= j < file_lines(text).len() && #[trigger] lex_result(file_lines(text)[j].1) is Err)
            ==> run(seq![(file, file_lines(text), 0int)], 0).1.len() > 0,
{
    let lines = file_lines(text);
    let frames = seq![(file, lines, 0int)];
    assert(frames.drop_last() =~= Seq::<Pending>::empty());
    assert(frames.last() == (file, lines, 0int));
    if clean_from(lines, 0) {
        lemma_scan_clean(file, lines, 0, 0);
        let s = scan(file, lines, 0, 0);
        assert(in_file(file, s.1) =~= Seq::<(FileId, usize, Fault)>::empty());
        let rest = run(Seq::<Pending>::empty(), 0);
        assert(s.0.push(ItemView::EndOfFile(file)) + rest.0 =~= s.0.push(ItemView::EndOfFile(file)));
        assert(in_file(file, s.1) + rest.1 =~= Seq::<(FileId, usize, Fault)>::empty());
    }
    if (forall|j: int| 0 <= j < lines.len() ==> (#[trigger] lex_result(lines[j].1) matches Ok(v) ==> !(v.kind is Include)))
        && (exists|j: int| 0 <= j < lines.len() && #[trigger] lex_result(lines[j].1) is Err) {
        let bad = choose|j: int| 0 <= j < lines.len() && #[trigger] lex_result(lines[j].1) is Err;
        lemma_scan_fault(file, lines, 0, 0, bad);
        let s = scan(file, lines, 0, 0);
        assert(in_file(file, s.1).len() == s.1.len());
        if s.2 is End {
            let rest = run(frames.drop_last(), s.1.len() as int);
            assert((in_file(file, s.1) + rest.1).len() >= s.1.len());
        }
    }
}

/// Where an include line says to read next, and where it says so.
pub enum ScanStop {
    Include { included: String, at: Span },
    Limit,
    End,
}

/// A file part way through being read.
struct Frame {
    file: FileId,
    /// The path it was read from
    path: String,
    /// Whether it has a canonical path (standard input has none)
    canonical: bool,
    lines: Vec<(usize, String)>,
    /// The next line to read
    next: usize,
}

/// The error diagnostics `errors` report the `faults` of `file`, in order.
pub open spec fn reports_all(errors: Seq<Diagnostic>, faults: Seq<(usize, Fault)>, file: FileId) -> bool {
    &&& errors.len() == faults.len()
    &&& forall|j: int| 0 <= j < faults.len() ==> reports(#[trigger] errors[j], faults[j].1, file, faults[j].0)
}

/// Reads the frame's lines from its next one, adding what they stand for to
/// `items` and `errors`, until an include, too many errors, or the end.
#[verifier::rlimit(60)]
fn scan_frame(frame: &mut Frame, items: &mut Vec<Item>, errors: &mut Vec<Diagnostic>) -> (r: ScanStop)
    requires
        old(frame).next <= old(frame).lines@.len(),
        forall|k: int| 0 <= k < old(frame).lines@.len() ==> bytes_of(#[trigger] old(frame).lines@[k].1@) < usize::MAX,
        old(errors)@.len() < MAX_ERRORS,
    ensures
        final(frame).file == old(frame).file,
        final(frame).path == old(frame).path,
        final(frame).canonical == old(frame).canonical,
        final(frame).lines == old(frame).lines,
        final(frame).next <= final(frame).lines@.len(),
        ({
            let s = scan(old(frame).file, lines_view(old(frame).lines@), old(frame).next as int, old(errors)@.len() as int);
            &&& items_view(final(items)@) == items_view(old(items)@) + s.0
            &&& final(errors)@.take(old(errors)@.len() as int) == old(errors)@
            &&& old(errors)@.len() <= final(errors)@.len()
            &&& reports_all(final(errors)@.skip(old(errors)@.len() as int), s.1, old(frame).file)
            &&& match s.2 {
                ScanEnd::Include(k) => {
                    &&& final(frame).next == k + 1
                    &&& lex_result(lines_view(old(frame).lines@)[k].1) matches Ok(v)
                    &&& v.kind matches KindView::Include { path, cols }
                    &&& r matches ScanStop::Include { included, at }
                    &&& included@ == path
                    &&& at == (Span { file: old(frame).file, line: old(frame).lines@[k].0, last_line: old(frame).lines@[k].0,
                        start: cols.start, end: cols.end })
                    &&& final(errors)@.len() < MAX_ERRORS
                    &&& final(items)@.len() > 0
                    &&& final(items)@.last()@ == line_item(old(frame).file, old(frame).lines@[k].0, v)
                },
                ScanEnd::Limit => r is Limit && final(errors)@.len() >= MAX_ERRORS,
                ScanEnd::End => r is End && final(frame).next == final(frame).lines@.len()
                    && final(errors)@.len() < MAX_ERRORS,
            }
        }),
{
    let ghost file = frame.file;
    let ghost lv = lines_view(frame.lines@);
    let ghost items0 = items_view(items@);
    let ghost errors0 = errors@;
    let ghost total = scan(file, lv, frame.next as int, errors@.len() as int);
    let ghost mut added: Seq<ItemView> = Seq::empty();
    let ghost mut faults: Seq<(usize, Fault)> = Seq::empty();
    let mut k: usize = frame.next;
    while k < frame.lines.len()
        invariant
            k <= frame.lines@.len(),
            frame.file == old(frame).file,
            frame.path == old(frame).path,
            frame.canonical == old(frame).canonical,
            frame.lines == old(frame).lines,
            frame.next == old(frame).next,
            file == frame.file,
            lv == lines_view(frame.lines@),
            items0 == items_view(old(items)@),
            errors0 == old(errors)@,
            total == scan(old(frame).file, lines_view(old(frame).lines@), old(frame).next as int, old(errors)@.len() as int),
            forall|j: int| 0 <= j < frame.lines@.len() ==> bytes_of(#[trigger] frame.lines@[j].1@) < usize::MAX,
            errors@.len() < MAX_ERRORS,
            items_view(items@) == items0 + added,
            errors@.take(errors0.len() as int) == errors0,
            errors@.len() == errors0.len() + faults.len(),
            reports_all(errors@.skip(errors0.len() as int), faults, file),
            ({
                let rest = scan(file, lv, k as int, errors@.len() as int);
                total == (added + rest.0, faults + rest.1, rest.2)
            }),
        decreases frame.lines@.len() - k,
    {
        let number = frame.lines[k].0;
        let ghost before_errors = errors@;
        let ghost rest = scan(file, lv, k + 1, errors@.len() as int);
        assert(lv[k as int] == (number, frame.lines@[k as int].1@));
        match lex_one(frame.lines[k].1.as_str(), frame.file, number) {
            Err(d) => {
                let ghost f = lex_result(lv[k as int].1)->Err_0;
                let ghost dd = d;
                assert(reports(dd, f, file, number));
                errors.push(d);
                proof {
                    assert(errors@.take(errors0.len() as int) =~= errors0);
                    assert(errors@.skip(errors0.len() as int) =~= before_errors.skip(errors0.len() as int).push(dd));
                    let old_faults = faults;
                    faults = faults.push((number, f));
                    let tail = errors@.skip(errors0.len() as int);
                    assert forall|j: int| 0 <= j < faults.len() implies
                        reports(#[trigger] tail[j], faults[j].1, file, faults[j].0) by {
                        if j < old_faults.len() {
                            assert(tail[j] == before_errors.skip(errors0.len() as int)[j]);
                        }
                    }
                    assert(reports_all(tail, faults, file));
                }
                if errors.len() >= MAX_ERRORS {
                    proof {
                        assert(total == (added, faults, ScanEnd::Limit)) by {
                            assert(faults =~= faults.drop_last() + seq![(number, f)]);
                            assert(added + Seq::<ItemView>::empty() =~= added);
                        }
                    }
                    frame.next = k + 1;
                    return ScanStop::Limit;
                }
                proof {
                    let r2 = scan(file, lv, k + 1, errors@.len() as int);
                    assert(faults.drop_last() + (seq![(number, f)] + r2.1) =~= faults + r2.1);
                }
            },
            Ok(line) => {
                let ghost v = line@;
                let named = match &line.kind {
                    LineKind::Include(inc) => Some((inc.path.clone(), inc.cols)),
                    _ => None,
                };
                let ghost item = line_item(file, number, v);
                let ghost before_items = items@;
                let new_item = Item::Line { file: frame.file, number, line };
                assert(new_item@ == item);
                items.push(new_item);
                proof {
                    assert(items@ == before_items.push(new_item));
                    assert(items_view(items@) =~= items_view(before_items).push(item));
                    assert(items_view(items@) =~= items0 + added.push(item));
                    added = added.push(item);
                }
                match named {
                    Some((included, cols)) => {
                        proof {
                            assert(total == (added, faults, ScanEnd::Include(k as int))) by {
                                assert(added =~= added.drop_last() + seq![item]);
                                assert(faults + Seq::<(usize, Fault)>::empty() =~= faults);
                            }
                        }
                        frame.next = k + 1;
                        return ScanStop::Include { included, at: Span::new(frame.file, number, cols.start, cols.end) };
                    },
                    None => {
                        proof {
                            let r2 = scan(file, lv, k + 1, errors@.len() as int);
                            assert(added.drop_last() + (seq![item] + r2.0) =~= added + r2.0);
                        }
                    },
                }
            },
        }
        k = k + 1;
    }
    proof {
        assert(added + Seq::<ItemView>::empty() =~= added);
        assert(faults + Seq::<(usize, Fault)>::empty() =~= faults);
    }
    frame.next = k;
    ScanStop::End
}


/// Characters `s` that no character sequence before position `i` of `all`
/// equals, and that `all[i]` does: `i` is where `s` first occurs.
pub open spec fn is_first(all: Seq<Seq<char>>, s: Seq<char>, i: int) -> bool {
    &&& 0 <= i < all.len()
    &&& all[i] == s
    &&& forall|j: int| 0 <= j < i ==> all[j] != s
}

/// `d` says that the file at `path` could not be read, for `reason`.
pub open spec fn unreadable(d: Diagnostic, path: Seq<char>, reason: Seq<char>, at: Option<Span>) -> bool {
    &&& d.severity == Severity::Error
    &&& d.message@ == "Could not read `"@ + path + "`: "@ + reason
    &&& d.span == at
    &&& d.label is None
    &&& d.notes@.len() == 0
    &&& opt_view(d.help) == (if at is Some {
        Some("included paths are relative to the including file"@)
    } else {
        None
    })
}

/// `d` says that an include closes a circle, through the files named in `chain`.
pub open spec fn circular(d: Diagnostic, chain: Seq<Seq<char>>, at: Option<Span>) -> bool {
    &&& d.severity == Severity::Error
    &&& d.message@ == "Circular include"@
    &&& d.span == at
    &&& d.label is None
    &&& notes_view(d.notes@) == seq![joined_with(chain, " → "@)]
    &&& d.help is None
}

/// `d` says that the file at `path` is included a second time; `first` is
/// where it was included the first time, if it was included at all.
pub open spec fn repeated(d: Diagnostic, path: Seq<char>, first: Option<Span>, files: Seq<SourceFile>,
    at: Option<Span>) -> bool {
    &&& d.severity == Severity::Error
    &&& d.message@ == "`"@ + path + "` is included more than once"@
    &&& d.span == at
    &&& d.label is None
    &&& opt_view(d.help) == Some("each file may only be included once, or its entries would count twice"@)
    &&& notes_view(d.notes@) == match first {
        Some(s) => seq!["first included at "@ + files[s.file.0 as int].path_view() + seq![':']
            + decimal_chars(s.line as nat)],
        None => Seq::<Seq<char>>::empty(),
    }
}

/// `d` says that the overlay's file at `path` is not read by the ledger at `root`.
pub open spec fn outside(d: Diagnostic, path: Seq<char>, root: Seq<char>) -> bool {
    &&& d.severity == Severity::Error
    &&& d.message@ == "`"@ + path + "` isn't part of this ledger"@
    &&& d.span is None
    &&& d.label is None
    &&& d.notes@.len() == 0
    &&& opt_view(d.help) == Some("include it from "@ + root + " first, or add to a file the ledger already reads"@)
}

/// The item is what its line lexes to, and its file is one of `files`.
pub open spec fn faithful(item: ItemView, files: Seq<SourceFile>) -> bool {
    match item {
        ItemView::Line { file, number, line } => file.0 < files.len()
            && lex_result(line_text(files[file.0 as int].text_view(), number as int)) == Ok::<LineView, Fault>(line),
        ItemView::EndOfFile(file) => file.0 < files.len(),
    }
}

/// The last of `items` is the include line at `at`, which names `included`,
/// in the file at `including`.
pub open spec fn asks_for(items: Seq<ItemView>, files: Seq<SourceFile>, including: Seq<char>,
    included: Seq<char>, at: Span) -> bool {
    &&& items.len() > 0
    &&& items.last() matches ItemView::Line { file, number, line }
    &&& file == at.file
    &&& number == at.line
    &&& at.last_line == at.line
    &&& line.kind == (KindView::Include { path: included, cols: Cols { start: at.start, end: at.end } })
    &&& file.0 < files.len()
    &&& including == files[file.0 as int].path_view()
}

/// What the loader needs next.
pub enum Need {
    /// The ledger's root file, as named
    Root(String),
    /// Standard input, which stands for the root
    Stdin,
    /// The file that the include line at `at`, in the file at `including`,
    /// names as `included`. The included path is relative to the including
    /// file.
    Include { including: String, included: String, at: Span },
    /// Loading is over: every line in include order, or why not
    Done(Result<Vec<Item>, LoadError>),
}

/// What was found where the loader asked.
pub enum Found {
    /// The file opened at `path`, whose canonical path is `canonical` and
    /// the last part of that `name`, holds `text`
    File { path: String, canonical: String, name: String, text: String },
    /// Standard input held `text`
    Stdin(String),
    /// The file at `path` could not be read, for `reason`
    Unreadable { path: String, reason: String },
}

/// A span, if any, is in one of the first `n` files.
pub open spec fn span_in(s: Option<Span>, n: int) -> bool {
    s matches Some(sp) ==> sp.file.0 < n
}

/// The frame's lines are those of its file, each short enough to lex.
spec fn frame_ok(f: Frame, files: Seq<SourceFile>) -> bool {
    &&& f.file.0 < files.len()
    &&& f.path@ == files[f.file.0 as int].path_view()
    &&& f.next <= f.lines@.len()
    &&& forall|k: int| 0 <= k < f.lines@.len() ==> {
        &&& (#[trigger] f.lines@[k]).0 == k + 1
        &&& f.lines@[k].1@ == line_text(files[f.file.0 as int].text_view(), k + 1)
        &&& bytes_of(f.lines@[k].1@) < usize::MAX
    }
}

/// Reads a ledger file and everything it includes, one file at a time.
pub struct Loader {
    sources: SourceMap,
    root: String,
    overlay: Option<Overlay>,
    /// The overlay file's canonical path, if it has one
    overlay_file: Option<String>,
    /// Canonical paths and names of the files being read, outermost first
    stack: Vec<(String, String)>,
    /// Canonical paths of every file read so far, with where it was included
    seen: Vec<(String, Option<Span>)>,
    items: Vec<Item>,
    errors: Vec<Diagnostic>,
    /// Whether the overlay found its file
    overlaid: bool,
    frames: Vec<Frame>,
    /// Where the file last asked for was included
    asked: Option<Span>,
    done: bool,
}

impl Loader {
    /// The files read so far, in order.
    pub closed spec fn files_view(&self) -> Seq<SourceFile> {
        self.sources.files_view()
    }

    /// The items found so far.
    pub closed spec fn items_so_far(&self) -> Seq<ItemView> {
        items_view(self.items@)
    }

    /// Where the file last asked for was included, if by an include line.
    pub closed spec fn asked(&self) -> Option<Span> {
        self.asked
    }

    /// Canonical paths of the files being read, outermost first.
    pub closed spec fn stack_paths(&self) -> Seq<Seq<char>> {
        self.stack@.map_values(|p: (String, String)| p.0@)
    }

    /// Names of the files being read, outermost first.
    pub closed spec fn stack_names(&self) -> Seq<Seq<char>> {
        self.stack@.map_values(|p: (String, String)| p.1@)
    }

    /// Canonical paths of every file read so far.
    pub closed spec fn seen_paths(&self) -> Seq<Seq<char>> {
        self.seen@.map_values(|p: (String, Option<Span>)| p.0@)
    }

    /// Where the `i`-th file read was included.
    pub closed spec fn seen_at(&self, i: int) -> Option<Span> {
        self.seen@[i].1
    }

    /// Whether the file with canonical path `c` is the overlay's.
    pub closed spec fn overlays(&self, c: Seq<char>) -> bool {
        &&& self.overlay is Some
        &&& self.overlay_file matches Some(f) && f@ == c
    }

    /// The text the overlay appends, if there is one.
    pub closed spec fn appended(&self) -> Seq<char> {
        match self.overlay {
            Some(o) => o.appended@,
            None => Seq::empty(),
        }
    }

    pub closed spec fn is_done(&self) -> bool {
        self.done
    }

    /// The files being read part way, outermost first.
    pub closed spec fn pending(&self) -> Seq<Pending> {
        self.frames@.map_values(|f: Frame| (f.file, lines_view(f.lines@), f.next as int))
    }

    /// The syntax errors found so far.
    pub closed spec fn error_list(&self) -> Seq<Diagnostic> {
        self.errors@
    }

    /// Whether there is an overlay whose file has not been read yet.
    pub closed spec fn overlay_missing(&self) -> bool {
        self.overlay is Some && !self.overlaid
    }

    /// The overlay's path, if there is an overlay.
    pub closed spec fn overlay_path(&self) -> Option<Seq<char>> {
        match self.overlay {
            Some(o) => Some(o.path@),
            None => None,
        }
    }

    /// The root, as it was named.
    pub closed spec fn root_view(&self) -> Seq<char> {
        self.root@
    }

    pub closed spec fn wf(&self) -> bool {
        let files = self.sources.files_view();
        &&& self.sources.wf()
        &&& forall|i: int| 0 <= i < self.frames@.len() ==> frame_ok(#[trigger] self.frames@[i], files)
        &&& forall|i: int| 0 <= i < self.items@.len() ==> faithful(#[trigger] self.items@[i]@, files)
        &&& forall|i: int| 0 <= i < self.seen@.len() ==> span_in(#[trigger] self.seen@[i].1, files.len() as int)
        &&& span_in(self.asked, files.len() as int)
        &&& self.errors@.len() < MAX_ERRORS
    }
}


proof fn lemma_trim_cr_bytes(s: Seq<char>)
    ensures
        0 <= bytes_of(trim_cr(s)) <= bytes_of(s),
    decreases s.len(),
{
    lemma_bytes_of_nonneg(s);
    if s.len() > 0 && s.last() == '\r' {
        lemma_trim_cr_bytes(s.drop_last());
    }
}

/// A line of a text is no longer than the text.
proof fn lemma_line_text_bytes(t: Seq<char>, n: int)
    ensures
        bytes_of(line_text(t, n)) <= bytes_of(t),
{
    lemma_line_starts(t);
    lemma_bytes_of_nonneg(t);
    let starts = line_starts(t);
    if 1 <= n <= starts.len() {
        let start = starts[n - 1];
        let end0 = if n < starts.len() { starts[n] - 1 } else { t.len() as int };
        let end = if end0 < start { start } else { end0 };
        let sub = t.subrange(start, end);
        lemma_trim_cr_bytes(sub);
        assert(t =~= t.take(start) + sub + t.skip(end));
        lemma_bytes_of_concat(t.take(start) + sub, t.skip(end));
        lemma_bytes_of_concat(t.take(start), sub);
        lemma_bytes_of_nonneg(t.take(start));
        lemma_bytes_of_nonneg(t.skip(end));
    }
}

/// Every item that reading a file's lines adds is what its line lexes to.
proof fn lemma_scan_faithful(file: FileId, lv: Seq<(usize, Seq<char>)>, k: int, e: int, files: Seq<SourceFile>)
    requires
        file.0 < files.len(),
        forall|j: int| 0 <= j < lv.len() ==> (#[trigger] lv[j]).1
            == line_text(files[file.0 as int].text_view(), lv[j].0 as int),
    ensures
        forall|i: int| 0 <= i < scan(file, lv, k, e).0.len() ==> faithful(#[trigger] scan(file, lv, k, e).0[i], files),
    decreases lv.len() - k,
{
    if 0 <= k < lv.len() {
        let number = lv[k].0;
        assert(lv[k].1 == line_text(files[file.0 as int].text_view(), number as int));
        match lex_result(lv[k].1) {
            Err(f) => {
                lemma_scan_faithful(file, lv, k + 1, e + 1, files);
                if e + 1 < MAX_ERRORS {
                    let all = scan(file, lv, k, e).0;
                    assert(all == scan(file, lv, k + 1, e + 1).0);
                    assert forall|i: int| 0 <= i < all.len() implies faithful(#[trigger] all[i], files) by {
                        assert(all[i] == scan(file, lv, k + 1, e + 1).0[i]);
                    }
                } else {
                    assert(scan(file, lv, k, e).0.len() == 0);
                }
            },
            Ok(v) => {
                let item = line_item(file, number, v);
                assert(faithful(item, files));
                if v.kind is Include {
                    let all = scan(file, lv, k, e).0;
                    assert(all == seq![item]);
                    assert forall|i: int| 0 <= i < all.len() implies faithful(#[trigger] all[i], files) by {
                        assert(all[i] == item);
                    }
                } else {
                    lemma_scan_faithful(file, lv, k + 1, e, files);
                    let rest = scan(file, lv, k + 1, e);
                    let all = scan(file, lv, k, e).0;
                    assert(all == seq![item] + rest.0);
                    assert forall|i: int| 0 <= i < all.len() implies faithful(#[trigger] all[i], files) by {
                        if i > 0 {
                            assert(all[i] == rest.0[i - 1]);
                        }
                    }
                }
            },
        }
    }
}

impl Loader {
    /// Starts reading the ledger at `root`, or standard input for `-`,
    /// adding what is read to `sources`. `overlay_file` is the canonical
    /// path of the overlay's file, where it has one.
    pub fn new(sources: SourceMap, root: &str, overlay: Option<Overlay>, overlay_file: Option<String>)
        -> (r: (Loader, Need))
        requires
            sources.wf(),
        ensures
            r.0.wf(),
            !r.0.is_done(),
            r.0.files_view() == sources.files_view(),
            r.0.items_so_far().len() == 0,
            r.0.asked() is None,
            r.0.stack_paths().len() == 0,
            r.0.seen_paths().len() == 0,
            r.0.appended() == (match overlay {
                Some(o) => o.appended@,
                None => Seq::<char>::empty(),
            }),
            forall|c: Seq<char>| #[trigger] r.0.overlays(c) <==> (overlay is Some
                && (overlay_file matches Some(f) && f@ == c)),
            root@ == "-"@ ==> r.1 is Stdin,
            root@ != "-"@ ==> (r.1 matches Need::Root(p) && p@ == root@),
    {
        let loader = Loader {
            sources,
            root: root.to_owned(),
            overlay,
            overlay_file,
            stack: Vec::new(),
            seen: Vec::new(),
            items: Vec::new(),
            errors: Vec::new(),
            overlaid: false,
            frames: Vec::new(),
            asked: None,
            done: false,
        };
        proof {
            assert(loader.stack_paths() =~= Seq::<Seq<char>>::empty());
            assert(loader.seen_paths() =~= Seq::<Seq<char>>::empty());
            assert(loader.items_so_far() =~= Seq::<ItemView>::empty());
        }
        if str_eq(root, "-") {
            (loader, Need::Stdin)
        } else {
            (loader, Need::Root(root.to_owned()))
        }
    }

    /// The files read so far.
    pub fn into_sources(self) -> (r: SourceMap)
        ensures
            r.files_view() == self.files_view(),
    {
        self.sources
    }

    /// Where `c` first stands among the canonical paths of the files being
    /// read, or how many there are.
    fn stack_position(&self, c: &str) -> (r: usize)
        ensures
            r <= self.stack_paths().len(),
            forall|j: int| 0 <= j < r ==> self.stack_paths()[j] != c@,
            r < self.stack_paths().len() ==> is_first(self.stack_paths(), c@, r as int),
    {
        let mut i: usize = 0;
        while i < self.stack.len()
            invariant
                i <= self.stack@.len(),
                forall|j: int| 0 <= j < i ==> self.stack_paths()[j] != c@,
            decreases self.stack@.len() - i,
        {
            if str_eq(self.stack[i].0.as_str(), c) {
                return i;
            }
            i = i + 1;
        }
        i
    }

    /// Where `c` first stands among the canonical paths of the files read,
    /// or how many there are.
    fn seen_position(&self, c: &str) -> (r: usize)
        ensures
            r <= self.seen_paths().len(),
            forall|j: int| 0 <= j < r ==> self.seen_paths()[j] != c@,
            r < self.seen_paths().len() ==> is_first(self.seen_paths(), c@, r as int),
    {
        let mut i: usize = 0;
        while i < self.seen.len()
            invariant
                i <= self.seen@.len(),
                forall|j: int| 0 <= j < i ==> self.seen_paths()[j] != c@,
            decreases self.seen@.len() - i,
        {
            if str_eq(self.seen[i].0.as_str(), c) {
                return i;
            }
            i = i + 1;
        }
        i
    }
}


/// `text` followed by `more`.
fn followed_by(text: String, more: &str) -> (r: String)
    ensures
        r@ == text@ + more@,
{
    let mut v: Vec<char> = Vec::new();
    extend_chars(&mut v, text.as_str());
    extend_chars(&mut v, more);
    string_of(&v)
}

/// Errors that reported `flts` after `errs0`, followed by ones reporting
/// the `faults` of `file`, report both in turn.
proof fn lemma_errors_grow(errs0: Seq<Diagnostic>, flts: Seq<(FileId, usize, Fault)>, mid: Seq<Diagnostic>,
    now: Seq<Diagnostic>, file: FileId, faults: Seq<(usize, Fault)>)
    requires
        errors_after(mid, errs0, flts),
        now.take(mid.len() as int) == mid,
        mid.len() <= now.len(),
        reports_all(now.skip(mid.len() as int), faults, file),
    ensures
        errors_after(now, errs0, flts + in_file(file, faults)),
{
    let all = flts + in_file(file, faults);
    assert(now.take(errs0.len() as int) =~= mid.take(errs0.len() as int));
    let tail = now.skip(errs0.len() as int);
    assert forall|j: int| 0 <= j < all.len() implies reports(#[trigger] tail[j], all[j].2, all[j].0, all[j].1) by {
        if j < flts.len() {
            assert(tail[j] == mid.skip(errs0.len() as int)[j]);
        } else {
            assert(tail[j] == now.skip(mid.len() as int)[j - flts.len()]);
            assert(all[j] == in_file(file, faults)[j - flts.len()]);
        }
    }
}

impl Loader {
    /// Ends the reading: every item, or every syntax error, or the overlay's
    /// complaint that its file was never read.
    fn finish(&mut self) -> (r: Need)
        requires
            old(self).wf(),
            !old(self).done,
            old(self).frames@.len() == 0,
        ensures
            final(self).wf(),
            final(self).done,
            r is Done,
            final(self).files_view() == old(self).files_view(),
            r matches Need::Done(Ok(items)) ==> (items_view(items@) == old(self).items_so_far()
                && forall|i: int| 0 <= i < items@.len() ==> faithful(#[trigger] items@[i]@, final(self).files_view())),
            r matches Need::Done(Err(LoadError::Many(ds))) ==> ds.0@.len() > 0,
            r matches Need::Done(Err(LoadError::One(d))) ==> (old(self).overlay_path() matches Some(p)
                && outside(d, p, old(self).root_view())),
            old(self).errors@.len() > 0 ==> (r matches Need::Done(Err(LoadError::Many(ds))) && ds.0@ == old(self).errors@),
            old(self).errors@.len() == 0 && !old(self).overlay_missing() ==> (r matches Need::Done(Ok(items))
                && items_view(items@) == old(self).items_so_far()),
            old(self).errors@.len() == 0 && old(self).overlay_missing() ==> r matches Need::Done(Err(LoadError::One(_))),
    {
        if self.errors.len() == 0 {
            if !self.overlaid {
                match &self.overlay {
                    Some(o) => {
                        let mut msg: Vec<char> = Vec::new();
                        extend_chars(&mut msg, "`");
                        extend_chars(&mut msg, o.path.as_str());
                        extend_chars(&mut msg, "` isn't part of this ledger");
                        let mut help: Vec<char> = Vec::new();
                        extend_chars(&mut help, "include it from ");
                        extend_chars(&mut help, self.root.as_str());
                        extend_chars(&mut help, " first, or add to a file the ledger already reads");
                        assert(msg@ =~= "`"@ + o.path@ + "` isn't part of this ledger"@);
                        assert(help@ =~= "include it from "@ + self.root@ + " first, or add to a file the ledger already reads"@);
                        let e = Diagnostic::error(string_of(&msg).as_str());
                        let d = e.help(string_of(&help).as_str());
                        assert(d.notes@.len() == notes_view(d.notes@).len());
                        assert(e.notes@.len() == notes_view(e.notes@).len());
                        self.done = true;
                        return Need::Done(Err(LoadError::One(d)));
                    },
                    None => {},
                }
            }
            let mut items: Vec<Item> = Vec::new();
            std::mem::swap(&mut items, &mut self.items);
            self.done = true;
            assert(self.items@.len() == 0);
            assert(items_view(items@) == old(self).items_so_far());
            assert forall|i: int| 0 <= i < items@.len() implies faithful(#[trigger] items@[i]@, self.files_view()) by {
                assert(items@[i] == old(self).items@[i]);
            }
            Need::Done(Ok(items))
        } else {
            let mut errors: Vec<Diagnostic> = Vec::new();
            std::mem::swap(&mut errors, &mut self.errors);
            self.done = true;
            Need::Done(Err(LoadError::Many(Diagnostics(errors))))
        }
    }

    /// Reads on from the innermost file being read, until an include asks for
    /// another file or there is nothing left to read.
    fn resume(&mut self) -> (r: Need)
        requires
            old(self).wf(),
            !old(self).done,
        ensures
            final(self).wf(),
            final(self).done == (r is Done),
            final(self).files_view() == old(self).files_view(),
            !(r is Root) && !(r is Stdin),
            r matches Need::Include { including, included, at } ==> (asks_for(final(self).items_so_far(),
                final(self).files_view(), including@, included@, at) && final(self).asked() == Some(at)),
            !final(self).done ==> old(self).items_so_far().is_prefix_of(final(self).items_so_far()),
            r matches Need::Done(Ok(items)) ==> (old(self).items_so_far().is_prefix_of(items_view(items@))
                && forall|i: int| 0 <= i < items@.len() ==> faithful(#[trigger] items@[i]@, final(self).files_view())),
            r matches Need::Done(Err(LoadError::Many(ds))) ==> ds.0@.len() > 0,
            r matches Need::Done(Err(LoadError::One(d))) ==> (old(self).overlay_path() matches Some(p)
                && outside(d, p, old(self).root_view())),
            resumes(old(self).items_so_far(), old(self).error_list(), old(self).overlay_missing(), old(self).pending(),
                r, *final(self)),
    {
        let ghost items0 = self.items_so_far();
        let ghost errs0 = self.errors@;
        let ghost whole = run(self.pending(), self.errors@.len() as int);
        let ghost mut added: Seq<ItemView> = Seq::empty();
        let ghost mut flts: Seq<(FileId, usize, Fault)> = Seq::empty();
        proof {
            assert(self.items_so_far() =~= items0 + added);
            assert(whole.0 =~= added + whole.0);
            assert(whole.1 =~= flts + whole.1);
            assert(self.errors@.take(errs0.len() as int) =~= errs0);
            assert(self.errors@.skip(errs0.len() as int) =~= Seq::<Diagnostic>::empty());
        }
        loop
            invariant
                self.wf(),
                !self.done,
                self.files_view() == old(self).files_view(),
                self.overlay == old(self).overlay,
                self.overlaid == old(self).overlaid,
                self.root == old(self).root,
                items0 == old(self).items_so_far(),
                items0.is_prefix_of(self.items_so_far()),
                errs0 == old(self).errors@,
                whole == run(old(self).pending(), errs0.len() as int),
                self.items_so_far() == items0 + added,
                whole.0 == added + run(self.pending(), self.errors@.len() as int).0,
                whole.1 == flts + run(self.pending(), self.errors@.len() as int).1,
                whole.2 == run(self.pending(), self.errors@.len() as int).2,
                whole.3 == run(self.pending(), self.errors@.len() as int).3,
                errors_after(self.errors@, errs0, flts),
            decreases self.frames@.len(),
        {
            if self.frames.len() == 0 {
                let r = self.finish();
                return r;
            }
            let ghost files = self.sources.files_view();
            let ghost before = self.items_so_far();
            let ghost old_items = self.items@;
            let ghost pend = self.pending();
            let ghost errs_before = self.errors@;
            let ghost cur = run(pend, self.errors@.len() as int);
            assert(frame_ok(self.frames@[self.frames@.len() - 1], files));
            let mut frame = self.frames.pop().unwrap();
            proof {
                assert(self.pending() =~= pend.drop_last());
                assert(pend.last() == (frame.file, lines_view(frame.lines@), frame.next as int));
            }
            let ghost lv = lines_view(frame.lines@);
            let ghost s = scan(frame.file, lv, frame.next as int, self.errors@.len() as int);
            proof {
                assert forall|k: int| 0 <= k < frame.lines@.len() implies bytes_of(#[trigger] frame.lines@[k].1@) < usize::MAX by {
                    assert(frame_ok(frame, files));
                }
                assert forall|j: int| 0 <= j < lv.len() implies (#[trigger] lv[j]).1
                    == line_text(files[frame.file.0 as int].text_view(), lv[j].0 as int) by {
                    assert(lv[j] == (frame.lines@[j].0, frame.lines@[j].1@));
                }
                lemma_scan_faithful(frame.file, lv, frame.next as int, self.errors@.len() as int, files);
            }
            let stop = scan_frame(&mut frame, &mut self.items, &mut self.errors);
            proof {
                let now = self.items_so_far();
                assert(now == before + s.0);
                assert forall|i: int| 0 <= i < self.items@.len() implies faithful(#[trigger] self.items@[i]@, files) by {
                    assert(self.items@[i]@ == now[i]);
                    if i < before.len() {
                        assert(now[i] == before[i]);
                        assert(before[i] == old_items[i]@);
                        assert(faithful(old_items[i]@, files));
                    } else {
                        assert(now[i] == s.0[i - before.len()]);
                    }
                }
                assert(items0.is_prefix_of(now)) by {
                    assert(now.subrange(0, before.len() as int) =~= before);
                }
            }
            let ghost fs = in_file(frame.file, s.1);
            proof {
                lemma_errors_grow(errs0, flts, errs_before, self.errors@, frame.file, s.1);
            }
            match stop {
                ScanStop::Include { included, at } => {
                    let including = frame.path.clone();
                    self.frames.push(frame);
                    self.asked = Some(at);
                    proof {
                        assert(self.pending() =~= pend.drop_last().push((frame.file, lines_view(frame.lines@), frame.next as int)));
                        assert(self.items_so_far() =~= items0 + whole.0);
                    }
                    return Need::Include { including, included, at };
                },
                ScanStop::Limit => {
                    let mut errors: Vec<Diagnostic> = Vec::new();
                    std::mem::swap(&mut errors, &mut self.errors);
                    self.done = true;
                    return Need::Done(Err(LoadError::Many(Diagnostics(errors))));
                },
                ScanStop::End => {
                    let ghost mid = self.items_so_far();
                    self.items.push(Item::EndOfFile(frame.file));
                    proof {
                        assert(self.items_so_far() =~= mid.push(ItemView::EndOfFile(frame.file)));
                        assert(items0.is_prefix_of(self.items_so_far())) by {
                            assert(self.items_so_far().subrange(0, items0.len() as int)
                                =~= mid.subrange(0, items0.len() as int));
                        }
                        let next = run(self.pending(), self.errors@.len() as int);
                        assert(cur.0 =~= s.0.push(ItemView::EndOfFile(frame.file)) + next.0);
                        assert(whole.0 =~= (added + s.0.push(ItemView::EndOfFile(frame.file))) + next.0);
                        assert(whole.1 =~= (flts + fs) + next.1);
                        added = added + s.0.push(ItemView::EndOfFile(frame.file));
                        flts = flts + fs;
                        assert(self.items_so_far() =~= items0 + added);
                    }
                    if frame.canonical {
                        self.stack.pop();
                    }
                },
            }
        }
    }
}


impl Loader {
    /// Adds a file that was read to the sources, and reads on from its first
    /// line. A file with a canonical path joins those being read and those
    /// seen.
    fn open_file(&mut self, path: String, canonical: Option<(String, String)>, text: String) -> (r: Need)
        requires
            old(self).wf(),
            !old(self).done,
            bytes_of(text@) < usize::MAX,
        ensures
            final(self).wf(),
            final(self).done == (r is Done),
            final(self).files_view().len() == old(self).files_view().len() + 1,
            final(self).files_view().take(old(self).files_view().len() as int) == old(self).files_view(),
            final(self).files_view().last().path_view() == path@,
            final(self).files_view().last().text_view() == text@,
            !(r is Root) && !(r is Stdin),
            r matches Need::Include { including, included, at } ==> (asks_for(final(self).items_so_far(),
                final(self).files_view(), including@, included@, at) && final(self).asked() == Some(at)),
            !final(self).done ==> old(self).items_so_far().is_prefix_of(final(self).items_so_far()),
            r matches Need::Done(Ok(items)) ==> (old(self).items_so_far().is_prefix_of(items_view(items@))
                && forall|i: int| 0 <= i < items@.len() ==> faithful(#[trigger] items@[i]@, final(self).files_view())),
            r matches Need::Done(Err(LoadError::Many(ds))) ==> ds.0@.len() > 0,
            r matches Need::Done(Err(LoadError::One(d))) ==> (old(self).overlay_path() matches Some(p)
                && outside(d, p, old(self).root_view())),
            resumes(old(self).items_so_far(), old(self).error_list(), old(self).overlay_missing(),
                old(self).pending().push((FileId(old(self).files_view().len() as usize), file_lines(text@), 0)),
                r, *final(self)),
    {
        let ghost files0 = self.sources.files_view();
        let ghost pend0 = self.pending();
        let ghost text_view = text@;
        let source = SourceFile::new(path.clone(), text);
        let file = self.sources.add(source);
        let ghost files = self.sources.files_view();
        proof {
            assert(files == files0.push(source));
            assert forall|i: int| 0 <= i < files.len() implies (#[trigger] files[i]).wf() by {
                if i < files0.len() {
                    assert(files[i] == files0[i]);
                }
            }
            assert(self.sources.wf());
            assert forall|i: int| 0 <= i < self.items@.len() implies faithful(#[trigger] self.items@[i]@, files) by {
                assert(faithful(self.items@[i]@, files0));
                match self.items@[i]@ {
                    ItemView::Line { file: f, .. } => { assert(files[f.0 as int] == files0[f.0 as int]); },
                    ItemView::EndOfFile(_) => {},
                }
            }
            assert forall|i: int| 0 <= i < self.frames@.len() implies frame_ok(#[trigger] self.frames@[i], files) by {
                assert(frame_ok(self.frames@[i], files0));
                assert(files[self.frames@[i].file.0 as int] == files0[self.frames@[i].file.0 as int]);
            }
            assert forall|i: int| 0 <= i < self.seen@.len() implies span_in(#[trigger] self.seen@[i].1, files.len() as int) by {
                assert(span_in(self.seen@[i].1, files0.len() as int));
            }
        }
        let is_canonical = canonical.is_some();
        match canonical {
            Some((c, name)) => {
                self.stack.push((c.clone(), name));
                self.seen.push((c, self.asked));
            },
            None => {},
        }
        let lines = self.sources.get(file).lines();
        proof {
            assert forall|k: int| 0 <= k < lines@.len() implies {
                &&& (#[trigger] lines@[k]).0 == k + 1
                &&& lines@[k].1@ == line_text(files[file.0 as int].text_view(), k + 1)
                &&& bytes_of(lines@[k].1@) < usize::MAX
            } by {
                lemma_line_text_bytes(text_view, k + 1);
            }
        }
        let frame = Frame { file, path, canonical: is_canonical, lines, next: 0 };
        assert(frame_ok(frame, files));
        self.frames.push(frame);
        proof {
            assert(lines_view(frame.lines@) =~= file_lines(text_view));
            assert(self.pending() =~= pend0.push((file, file_lines(text_view), 0)));
        }
        proof {
            assert forall|i: int| 0 <= i < self.seen@.len() implies span_in(#[trigger] self.seen@[i].1, files.len() as int) by {
            }
        }
        let r = self.resume();
        proof {
            assert(files.take(files0.len() as int) =~= files0);
        }
        r
    }

    /// Takes what was found where the loader asked, and says what it needs
    /// next.
    pub fn step(&mut self, found: Found) -> (r: Need)
        requires
            old(self).wf(),
            !old(self).is_done(),
            found matches Found::File { text, .. } ==> bytes_of(text@) + bytes_of(old(self).appended()) < usize::MAX,
            found matches Found::Stdin(text) ==> bytes_of(text@) < usize::MAX,
        ensures
            final(self).wf(),
            final(self).is_done() == (r is Done),
            !(r is Root) && !(r is Stdin),
            final(self).files_view().take(old(self).files_view().len() as int) == old(self).files_view(),
            found matches Found::Unreadable { path, reason } ==> (r matches Need::Done(Err(LoadError::One(d)))
                && unreadable(d, path@, reason@, old(self).asked())),
            forall|i: int| (found is File && is_first(old(self).stack_paths(), found->File_canonical@, i))
                ==> (r matches Need::Done(Err(LoadError::One(d)))
                    && circular(d, old(self).stack_names().skip(i).push(found->File_name@), old(self).asked())),
            forall|i: int| (found is File
                && !old(self).stack_paths().contains(found->File_canonical@)
                && is_first(old(self).seen_paths(), found->File_canonical@, i))
                ==> (r matches Need::Done(Err(LoadError::One(d)))
                    && repeated(d, found->File_path@, old(self).seen_at(i), old(self).files_view(), old(self).asked())),
            (found is File
                && !old(self).stack_paths().contains(found->File_canonical@)
                && !old(self).seen_paths().contains(found->File_canonical@))
                ==> (final(self).files_view().len() == old(self).files_view().len() + 1
                    && final(self).files_view().last().path_view() == found->File_path@
                    && final(self).files_view().last().text_view() == found->File_text@
                        + (if old(self).overlays(found->File_canonical@) { old(self).appended() } else { Seq::<char>::empty() })),
            found matches Found::Stdin(text) ==> (final(self).files_view().len() == old(self).files_view().len() + 1
                && final(self).files_view().last().path_view() == "<stdin>"@
                && final(self).files_view().last().text_view() == text@),
            r matches Need::Include { including, included, at } ==> (asks_for(final(self).items_so_far(),
                final(self).files_view(), including@, included@, at) && final(self).asked() == Some(at)),
            !final(self).is_done() ==> old(self).items_so_far().is_prefix_of(final(self).items_so_far()),
            r matches Need::Done(Ok(items)) ==> (old(self).items_so_far().is_prefix_of(items_view(items@))
                && forall|i: int| 0 <= i < items@.len() ==> faithful(#[trigger] items@[i]@, final(self).files_view())),
            r matches Need::Done(Err(LoadError::Many(ds))) ==> ds.0@.len() > 0,
            found matches Found::Stdin(text) ==> resumes(old(self).items_so_far(), old(self).error_list(),
                old(self).overlay_missing(),
                old(self).pending().push((FileId(old(self).files_view().len() as usize), file_lines(text@), 0)),
                r, *final(self)),
            (found is File
                && !old(self).stack_paths().contains(found->File_canonical@)
                && !old(self).seen_paths().contains(found->File_canonical@))
                ==> resumes(old(self).items_so_far(), old(self).error_list(),
                    old(self).overlay_missing() && !old(self).overlays(found->File_canonical@),
                    old(self).pending().push((FileId(old(self).files_view().len() as usize),
                        file_lines(found->File_text@ + (if old(self).overlays(found->File_canonical@) {
                            old(self).appended() } else { Seq::<char>::empty() })), 0)),
                    r, *final(self)),
    {
        match found {
            Found::Unreadable { path, reason } => {
                let mut msg: Vec<char> = Vec::new();
                extend_chars(&mut msg, "Could not read `");
                extend_chars(&mut msg, path.as_str());
                extend_chars(&mut msg, "`: ");
                extend_chars(&mut msg, reason.as_str());
                assert(msg@ =~= "Could not read `"@ + path@ + "`: "@ + reason@);
                let e = Diagnostic::error(string_of(&msg).as_str());
                let mut d = e.at_opt(self.asked);
                assert(d.notes@.len() == notes_view(d.notes@).len());
                assert(e.notes@.len() == notes_view(e.notes@).len());
                if self.asked.is_some() {
                    let d0 = d;
                    d = d0.help("included paths are relative to the including file");
                    assert(d.notes@.len() == notes_view(d.notes@).len());
                    assert(d0.notes@.len() == notes_view(d0.notes@).len());
                }
                self.done = true;
                Need::Done(Err(LoadError::One(d)))
            },
            Found::Stdin(text) => {
                self.open_file("<stdin>".to_owned(), None, text)
            },
            Found::File { path, canonical, name, text } => {
                let depth = self.stack_position(canonical.as_str());
                if depth < self.stack.len() {
                    let mut chain: Vec<String> = Vec::new();
                    let mut k: usize = depth;
                    while k < self.stack.len()
                        invariant
                            depth <= k <= self.stack@.len(),
                            strings_view(chain@) == self.stack_names().subrange(depth as int, k as int),
                        decreases self.stack@.len() - k,
                    {
                        let ghost before = chain@;
                        chain.push(self.stack[k].1.clone());
                        assert(strings_view(chain@) =~= self.stack_names().subrange(depth as int, k + 1)) by {
                            assert(strings_view(chain@) =~= strings_view(before).push(self.stack@[k as int].1@));
                        }
                        k = k + 1;
                    }
                    let ghost names = strings_view(chain@);
                    chain.push(name);
                    proof {
                        assert(names =~= self.stack_names().skip(depth as int));
                        assert(strings_view(chain@) =~= self.stack_names().skip(depth as int).push(name@));
                    }
                    let note = join_strings(&chain, " → ");
                    let e = Diagnostic::error("Circular include");
                    let e2 = e.at_opt(self.asked);
                    let d = e2.note(note.as_str());
                    proof {
                        assert(notes_view(e.notes@) =~= Seq::<Seq<char>>::empty());
                        assert(notes_view(d.notes@) =~= seq![note@]);
                    }
                    self.done = true;
                    return Need::Done(Err(LoadError::One(d)));
                }
                let first = self.seen_position(canonical.as_str());
                if first < self.seen.len() {
                    let mut msg: Vec<char> = Vec::new();
                    extend_chars(&mut msg, "`");
                    extend_chars(&mut msg, path.as_str());
                    extend_chars(&mut msg, "` is included more than once");
                    assert(msg@ =~= "`"@ + path@ + "` is included more than once"@);
                    let e = Diagnostic::error(string_of(&msg).as_str());
                    let e2 = e.at_opt(self.asked);
                    let mut d = e2.help("each file may only be included once, or its entries would count twice");
                    assert(notes_view(e.notes@) =~= Seq::<Seq<char>>::empty());
                    match self.seen[first].1 {
                        Some(at) => {
                            assert(span_in(self.seen@[first as int].1, self.files_view().len() as int));
                            let mut note: Vec<char> = Vec::new();
                            extend_chars(&mut note, "first included at ");
                            let place = self.sources.describe(&at);
                            extend_chars(&mut note, place.as_str());
                            assert(note@ =~= "first included at "@ + self.files_view()[at.file.0 as int].path_view()
                                + seq![':'] + decimal_chars(at.line as nat));
                            let d0 = d;
                            d = d0.note(string_of(&note).as_str());
                            assert(notes_view(d.notes@) =~= seq![note@]);
                        },
                        None => {},
                    }
                    assert(self.seen_at(first as int) == self.seen@[first as int].1);
                    assert(d.label is None);
                    self.done = true;
                    return Need::Done(Err(LoadError::One(d)));
                }
                let overlaid = match (&self.overlay, &self.overlay_file) {
                    (Some(_), Some(f)) => str_eq(f.as_str(), canonical.as_str()),
                    _ => false,
                };
                let text = if overlaid {
                    self.overlaid = true;
                    match &self.overlay {
                        Some(o) => {
                            proof {
                                lemma_bytes_of_concat(text@, o.appended@);
                            }
                            followed_by(text, o.appended.as_str())
                        },
                        None => text,
                    }
                } else {
                    proof {
                        lemma_bytes_of_nonneg(self.appended());
                    }
                    text
                };
                self.open_file(path, Some((canonical, name)), text)
            },
        }
    }
}

/// Resolves an included path relative to the directory of the file that
/// includes it. Absolute paths are left alone.
pub fn resolve(including_file: &str, included: &str) -> (r: String)
    ensures
        r@ == (if is_absolute(included@) {
            included@
        } else {
            joined_path(parent_of(including_file@), included@)
        }),
{
    let ic = chars_of(included);
    if ic.len() > 0 && ic[0] == '/' {
        return included.to_owned();
    }
    let dir = parent_dir(&chars_of(including_file));
    let ds = string_of(&dir);
    join_path(ds.as_str(), included)
}

} // verus!
