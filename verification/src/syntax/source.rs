//! Ledger source text: the files that were read, and spans pointing into them.

use vstd::prelude::*;
use crate::text::chars::{chars_of, string_of, extend_chars};
use crate::text::digits::{push_decimal, decimal_chars};

verus! {

/// Names one file of a `SourceMap`: its position in the order read.
#[derive(Clone, Copy, Debug, PartialEq, Eq, Structural, Hash, PartialOrd, Ord)]
pub struct FileId(pub usize);

/// A location in a source file: part of one line, or a run of whole lines.
#[derive(Clone, Copy, Debug, PartialEq, Eq, Structural)]
pub struct Span {
    pub file: FileId,
    /// First line, counted from 1
    pub line: usize,
    /// Last line, inclusive. Equal to `line` for single-line spans.
    pub last_line: usize,
    /// Columns within `line`, counted from 0. Only meaningful for
    /// single-line spans, where they mark exactly what is being pointed at.
    pub start: usize,
    pub end: usize,
}

impl Span {
    pub fn new(file: FileId, line: usize, start: usize, end: usize) -> (r: Self)
        ensures
            r == (Span { file, line, last_line: line, start, end }),
    {
        Span { file, line, last_line: line, start, end }
    }

    /// A span over whole lines, from this one's first line through `other`'s
    /// last line.
    pub fn through(self, other: Span) -> (r: Self)
        ensures
            r == (Span {
                last_line: if other.last_line >= self.line { other.last_line } else { self.line },
                start: 0,
                end: 0,
                ..self
            }),
    {
        let last_line = if other.last_line >= self.line { other.last_line } else { self.line };
        Span { file: self.file, line: self.line, last_line, start: 0, end: 0 }
    }

    pub fn is_multiline(&self) -> (r: bool)
        ensures
            r == (self.last_line > self.line),
    {
        self.last_line > self.line
    }
}

/// Where each line of `t` begins: at 0, and just after every newline.
pub open spec fn line_starts(t: Seq<char>) -> Seq<int>
    decreases t.len(),
{
    if t.len() == 0 {
        seq![0]
    } else if t.last() == '\n' {
        line_starts(t.drop_last()).push(t.len() as int)
    } else {
        line_starts(t.drop_last())
    }
}

pub proof fn lemma_line_starts(t: Seq<char>)
    ensures
        line_starts(t).len() >= 1,
        line_starts(t)[0] == 0,
        forall|i: int| 0 <= i < line_starts(t).len() ==> 0 <= #[trigger] line_starts(t)[i] <= t.len(),
        forall|i: int| 0 < i < line_starts(t).len() ==> #[trigger] line_starts(t)[i] >= 1,
        line_starts(t).len() <= t.len() + 1,
    decreases t.len(),
{
    if t.len() > 0 {
        lemma_line_starts(t.drop_last());
    }
}

/// `s` without any carriage returns at its end.
pub open spec fn trim_cr(s: Seq<char>) -> Seq<char>
    decreases s.len(),
{
    if s.len() > 0 && s.last() == '\r' {
        trim_cr(s.drop_last())
    } else {
        s
    }
}

/// The text of line `n` (from 1) of `t`, without its line ending; empty
/// where there is no such line.
pub open spec fn line_text(t: Seq<char>, n: int) -> Seq<char> {
    let starts = line_starts(t);
    if 1 <= n <= starts.len() {
        let start = starts[n - 1];
        let end = if n < starts.len() { starts[n] - 1 } else { t.len() as int };
        let end = if end < start { start } else { end };
        trim_cr(t.subrange(start, end))
    } else {
        Seq::empty()
    }
}

/// How many lines `t` has: a trailing newline does not begin another one.
pub open spec fn line_count_of(t: Seq<char>) -> int {
    if t.len() > 0 && t.last() == '\n' {
        line_starts(t).len() - 1
    } else {
        line_starts(t).len() as int
    }
}

#[derive(Debug)]
pub struct SourceFile {
    /// The path as it was resolved, used for display
    pub path: String,
    pub text: String,
    chars: Vec<char>,
    line_starts: Vec<usize>,
}

impl SourceFile {
    /// The file's text, as characters.
    pub closed spec fn text_view(&self) -> Seq<char> {
        self.text@
    }

    /// The file's path, as characters.
    pub closed spec fn path_view(&self) -> Seq<char> {
        self.path@
    }

    pub closed spec fn wf(&self) -> bool {
        &&& self.chars@ == self.text@
        &&& self.line_starts@.len() == line_starts(self.text@).len()
        &&& forall|i: int| 0 <= i < self.line_starts@.len()
            ==> self.line_starts@[i] as int == #[trigger] line_starts(self.text@)[i]
    }

    pub fn new(path: String, text: String) -> (r: Self)
        ensures
            r.wf(),
            r.path_view() == path@,
            r.text_view() == text@,
    {
        let chars = chars_of(text.as_str());
        let mut starts: Vec<usize> = Vec::new();
        starts.push(0);
        let mut i: usize = 0;
        while i < chars.len()
            invariant
                i <= chars@.len(),
                starts@.len() == line_starts(chars@.take(i as int)).len(),
                forall|k: int| 0 <= k < starts@.len()
                    ==> starts@[k] as int == #[trigger] line_starts(chars@.take(i as int))[k],
            decreases chars@.len() - i,
        {
            let ghost before = chars@.take(i as int);
            let ghost after = chars@.take(i + 1);
            assert(after.drop_last() =~= before);
            if chars[i] == '\n' {
                starts.push(i + 1);
            }
            i = i + 1;
        }
        assert(chars@.take(chars@.len() as int) =~= chars@);
        SourceFile { path, text, chars, line_starts: starts }
    }

    pub fn line_count(&self) -> (r: usize)
        requires
            self.wf(),
        ensures
            r == line_count_of(self.text_view()),
    {
        proof { lemma_line_starts(self.text@); }
        let n = self.chars.len();
        if n > 0 && self.chars[n - 1] == '\n' {
            self.line_starts.len() - 1
        } else {
            self.line_starts.len()
        }
    }

    /// The text of a line (counted from 1), without its line ending.
    pub fn line(&self, number: usize) -> (r: String)
        requires
            self.wf(),
        ensures
            r@ == line_text(self.text_view(), number as int),
    {
        proof { lemma_line_starts(self.text@); }
        if number == 0 || number > self.line_starts.len() {
            return String::new();
        }
        assert(self.line_starts@[number - 1] as int == line_starts(self.text@)[number - 1]);
        let start = self.line_starts[number - 1];
        if number < self.line_starts.len() {
            assert(self.line_starts@[number as int] as int == line_starts(self.text@)[number as int]);
        }
        let mut end = if number < self.line_starts.len() {
            self.line_starts[number] - 1
        } else {
            self.chars.len()
        };
        if end < start {
            end = start;
        }
        while end > start && self.chars[end - 1] == '\r'
            invariant
                start <= end <= self.chars@.len(),
                trim_cr(self.chars@.subrange(start as int, end as int))
                    == line_text(self.text_view(), number as int),
            decreases end,
        {
            assert(self.chars@.subrange(start as int, end - 1)
                =~= self.chars@.subrange(start as int, end as int).drop_last());
            end = end - 1;
        }
        let mut out: Vec<char> = Vec::new();
        let mut k: usize = start;
        while k < end
            invariant
                start <= k <= end <= self.chars@.len(),
                out@ == self.chars@.subrange(start as int, k as int),
            decreases end - k,
        {
            out.push(self.chars[k]);
            assert(self.chars@.subrange(start as int, k + 1)
                =~= self.chars@.subrange(start as int, k as int).push(self.chars@[k as int]));
            k = k + 1;
        }
        proof {
            let s = self.chars@.subrange(start as int, end as int);
            assert(s.len() == 0 || s.last() != '\r');
        }
        string_of(&out)
    }

    /// Each line with its number, in order.
    pub fn lines(&self) -> (r: Vec<(usize, String)>)
        requires
            self.wf(),
        ensures
            r@.len() == line_count_of(self.text_view()),
            forall|i: int| 0 <= i < r@.len() ==> (#[trigger] r@[i]).0 == i + 1
                && r@[i].1@ == line_text(self.text_view(), i + 1),
    {
        let count = self.line_count();
        let mut r: Vec<(usize, String)> = Vec::new();
        let mut n: usize = 0;
        while n < count
            invariant
                n <= count,
                self.wf(),
                count == line_count_of(self.text_view()),
                r@.len() == n,
                forall|i: int| 0 <= i < r@.len() ==> (#[trigger] r@[i]).0 == i + 1
                    && r@[i].1@ == line_text(self.text_view(), i + 1),
            decreases count - n,
        {
            let text = self.line(n + 1);
            r.push((n + 1, text));
            n = n + 1;
        }
        r
    }
}

/// Every file read while loading a ledger, in the order first read.
#[derive(Debug)]
pub struct SourceMap {
    files: Vec<SourceFile>,
}

impl SourceMap {
    /// The files, in the order they were added.
    pub closed spec fn files_view(&self) -> Seq<SourceFile> {
        self.files@
    }

    pub open spec fn wf(&self) -> bool {
        forall|i: int| 0 <= i < self.files_view().len() ==> (#[trigger] self.files_view()[i]).wf()
    }

    pub fn new() -> (r: Self)
        ensures
            r.files_view() == Seq::<SourceFile>::empty(),
            r.wf(),
    {
        SourceMap { files: Vec::new() }
    }

    pub fn add(&mut self, file: SourceFile) -> (id: FileId)
        ensures
            final(self).files_view() == old(self).files_view().push(file),
            id.0 == old(self).files_view().len(),
    {
        self.files.push(file);
        FileId(self.files.len() - 1)
    }

    pub fn get(&self, id: FileId) -> (r: &SourceFile)
        requires
            id.0 < self.files_view().len(),
        ensures
            *r == self.files_view()[id.0 as int],
    {
        &self.files[id.0]
    }

    pub fn path(&self, id: FileId) -> (r: &String)
        requires
            id.0 < self.files_view().len(),
        ensures
            r@ == self.files_view()[id.0 as int].path_view(),
    {
        &self.files[id.0].path
    }

    /// Each file with its id, in order.
    pub fn files(&self) -> (r: Vec<(FileId, &SourceFile)>)
        ensures
            r@.len() == self.files_view().len(),
            forall|i: int| 0 <= i < r@.len() ==> (#[trigger] r@[i]).0 == FileId(i as usize)
                && *r@[i].1 == self.files_view()[i],
    {
        let mut r: Vec<(FileId, &SourceFile)> = Vec::new();
        let mut i: usize = 0;
        while i < self.files.len()
            invariant
                i <= self.files@.len(),
                r@.len() == i,
                forall|k: int| 0 <= k < r@.len() ==> (#[trigger] r@[k]).0 == FileId(k as usize)
                    && *r@[k].1 == self.files@[k],
            decreases self.files@.len() - i,
        {
            r.push((FileId(i), &self.files[i]));
            i = i + 1;
        }
        r
    }

    pub fn len(&self) -> (r: usize)
        ensures
            r == self.files_view().len(),
    {
        self.files.len()
    }

    pub fn is_empty(&self) -> (r: bool)
        ensures
            r == (self.files_view().len() == 0),
    {
        self.files.len() == 0
    }

    /// `path:line`, the conventional way to point at a place in a file
    pub fn describe(&self, span: &Span) -> (r: String)
        requires
            span.file.0 < self.files_view().len(),
        ensures
            r@ == self.files_view()[span.file.0 as int].path_view() + seq![':']
                + decimal_chars(span.line as nat),
    {
        let mut out: Vec<char> = Vec::new();
        extend_chars(&mut out, self.path(span.file).as_str());
        out.push(':');
        push_decimal(&mut out, span.line as u128);
        string_of(&out)
    }
}

} // verus!
