//! Errors and warnings that know where in the ledger they came from.

use vstd::prelude::*;
use crate::syntax::source::Span;
use crate::text::chars::{chars_of, str_eq, lowercase, to_lower};

verus! {

#[derive(Clone, Copy, Debug, PartialEq, Eq, Structural, PartialOrd, Ord)]
pub enum Severity {
    Error,
    Warning,
}

/// A problem found in a ledger, optionally pinned to a place in its source.
#[derive(Clone, Debug)]
pub struct Diagnostic {
    pub severity: Severity,
    pub message: String,
    /// Where the problem is. A span covering several lines (such as a whole
    /// entry) is shown in full.
    pub span: Option<Span>,
    /// A short note printed under the pointed-at source, if any.
    pub label: Option<String>,
    /// Extra lines of explanation.
    pub notes: Vec<String>,
    /// A suggestion for how to fix the problem.
    pub help: Option<String>,
}

/// An optional string's characters.
pub open spec fn opt_view(s: Option<String>) -> Option<Seq<char>> {
    match s {
        Some(s) => Some(s@),
        None => None,
    }
}

/// The notes' characters.
pub open spec fn notes_view(notes: Seq<String>) -> Seq<Seq<char>> {
    notes.map_values(|n: String| n@)
}

/// `r` is `d` pinned to `span`, unless `d` already had a place.
pub open spec fn located(d: Diagnostic, span: Span, r: Diagnostic) -> bool {
    &&& r.span == (if d.span is Some { d.span } else { Some(span) })
    &&& r.severity == d.severity
    &&& r.message@ == d.message@
    &&& opt_view(r.label) == opt_view(d.label)
    &&& notes_view(r.notes@) == notes_view(d.notes@)
    &&& opt_view(r.help) == opt_view(d.help)
}

impl Diagnostic {
    pub fn error(message: &str) -> (r: Self)
        ensures
            r.severity == Severity::Error,
            r.message@ == message@,
            r.span is None,
            r.label is None,
            r.notes@.len() == 0,
            r.help is None,
    {
        Self::new(Severity::Error, message)
    }

    pub fn warning(message: &str) -> (r: Self)
        ensures
            r.severity == Severity::Warning,
            r.message@ == message@,
            r.span is None,
            r.label is None,
            r.notes@.len() == 0,
            r.help is None,
    {
        Self::new(Severity::Warning, message)
    }

    fn new(severity: Severity, message: &str) -> (r: Self)
        ensures
            r.severity == severity,
            r.message@ == message@,
            r.span is None,
            r.label is None,
            r.notes@.len() == 0,
            r.help is None,
    {
        Diagnostic {
            severity,
            message: message.to_owned(),
            span: None,
            label: None,
            notes: Vec::new(),
            help: None,
        }
    }

    /// Pins this to a place in the source, unless it already has one.
    pub fn at(self, span: Span) -> (r: Self)
        ensures
            r.span == (if self.span is Some { self.span } else { Some(span) }),
            r.severity == self.severity,
            r.message@ == self.message@,
            opt_view(r.label) == opt_view(self.label),
            notes_view(r.notes@) == notes_view(self.notes@),
            opt_view(r.help) == opt_view(self.help),
    {
        let mut d = self;
        if d.span.is_none() {
            d.span = Some(span);
        }
        d
    }

    pub fn at_opt(self, span: Option<Span>) -> (r: Self)
        ensures
            r.span == (if self.span is Some { self.span } else { span }),
            r.severity == self.severity,
            r.message@ == self.message@,
            opt_view(r.label) == opt_view(self.label),
            notes_view(r.notes@) == notes_view(self.notes@),
            opt_view(r.help) == opt_view(self.help),
    {
        match span {
            Some(span) => self.at(span),
            None => self,
        }
    }

    pub fn label(self, label: &str) -> (r: Self)
        ensures
            opt_view(r.label) == Some(label@),
            r.span == self.span,
            r.severity == self.severity,
            r.message@ == self.message@,
            notes_view(r.notes@) == notes_view(self.notes@),
            opt_view(r.help) == opt_view(self.help),
    {
        let mut d = self;
        d.label = Some(label.to_owned());
        d
    }

    pub fn note(self, note: &str) -> (r: Self)
        ensures
            notes_view(r.notes@) == notes_view(self.notes@).push(note@),
            r.span == self.span,
            r.severity == self.severity,
            r.message@ == self.message@,
            opt_view(r.label) == opt_view(self.label),
            opt_view(r.help) == opt_view(self.help),
    {
        let mut d = self;
        let ghost before = d.notes@;
        d.notes.push(note.to_owned());
        assert(notes_view(d.notes@) =~= notes_view(before).push(note@));
        d
    }

    pub fn help(self, help: &str) -> (r: Self)
        ensures
            opt_view(r.help) == Some(help@),
            r.span == self.span,
            r.severity == self.severity,
            r.message@ == self.message@,
            opt_view(r.label) == opt_view(self.label),
            notes_view(r.notes@) == notes_view(self.notes@),
    {
        let mut d = self;
        d.help = Some(help.to_owned());
        d
    }

    /// Converts any failure into a diagnostic pinned to the given span. A
    /// failure that already is a diagnostic keeps its own details, and only
    /// gains a location if it lacked one.
    pub fn locate(error: Failure, span: Span) -> (r: Diagnostic)
        ensures
            error matches Failure::Diagnostic(d) ==> located(d, span, r),
            error matches Failure::Other(message) ==> r.severity == Severity::Error
                && r.message@ == message@ && r.span == Some(span) && r.label is None
                && r.notes@.len() == 0 && r.help is None,
    {
        match error {
            Failure::Diagnostic(d) => {
                d.at(span)
            },
            Failure::Other(message) => {
                let d = Diagnostic::error(message.as_str());
                let r = d.at(span);
                assert(r.notes@.len() == notes_view(r.notes@).len());
                assert(d.notes@.len() == notes_view(d.notes@).len());
                r
            },
        }
    }

    /// The message, as the diagnostic is displayed in one line.
    pub fn to_string(&self) -> (r: String)
        ensures
            r@ == self.message@,
    {
        self.message.clone()
    }
}

/// An error on its way out: a diagnostic, or any other failure described by
/// its message.
#[derive(Clone, Debug)]
pub enum Failure {
    Diagnostic(Diagnostic),
    Other(String),
}

/// Extension for attaching a source location to any fallible result.
pub trait Locate<T>: Sized {
    fn locate(self, span: Span) -> Result<T, Diagnostic>;
}

/// `r` is failure `e` as a diagnostic pinned to `span`: a diagnostic keeps
/// its own details and gains the place only if it lacked one; any other
/// failure becomes an error with its message, at that place.
pub open spec fn pinned(e: Failure, span: Span, r: Diagnostic) -> bool {
    match e {
        Failure::Diagnostic(d) => located(d, span, r),
        Failure::Other(message) => {
            &&& r.severity == Severity::Error
            &&& r.message@ == message@
            &&& r.span == Some(span)
            &&& r.label is None
            &&& r.notes@.len() == 0
            &&& r.help is None
        },
    }
}

impl<T> Locate<T> for Result<T, Failure> {
    fn locate(self, span: Span) -> (r: Result<T, Diagnostic>)
        ensures
            match self {
                Ok(v) => r == Ok::<T, Diagnostic>(v),
                Err(e) => r matches Err(d) && pinned(e, span, d),
            },
    {
        match self {
            Ok(v) => Ok(v),
            Err(e) => Err(Diagnostic::locate(e, span)),
        }
    }
}

pub open spec fn min_int(a: int, b: int) -> int {
    if a <= b { a } else { b }
}

/// The optimal string alignment distance between the first `i` characters
/// of `a` and the first `j` of `b`: insertions, deletions, substitutions and
/// transpositions of adjacent characters each cost one.
pub open spec fn osa(a: Seq<char>, b: Seq<char>, i: int, j: int) -> int
    decreases i, j,
{
    if i <= 0 {
        if j <= 0 { 0 } else { j }
    } else if j <= 0 {
        i
    } else {
        let cost: int = if a[i - 1] == b[j - 1] { 0 } else { 1 };
        let best = min_int(min_int(osa(a, b, i - 1, j) + 1, osa(a, b, i, j - 1) + 1), osa(a, b, i - 1, j - 1) + cost);
        if i > 1 && j > 1 && a[i - 1] == b[j - 2] && a[i - 2] == b[j - 1] {
            min_int(best, osa(a, b, i - 2, j - 2) + 1)
        } else {
            best
        }
    }
}

/// The distance between two whole strings.
pub open spec fn distance(a: Seq<char>, b: Seq<char>) -> int {
    osa(a, b, a.len() as int, b.len() as int)
}

/// The distance is never more than the longer prefix.
pub proof fn lemma_osa_bounds(a: Seq<char>, b: Seq<char>, i: int, j: int)
    requires
        0 <= i,
        0 <= j,
    ensures
        0 <= osa(a, b, i, j) <= (if i >= j { i } else { j }),
    decreases i, j,
{
    if i > 0 && j > 0 {
        lemma_osa_bounds(a, b, i - 1, j);
        lemma_osa_bounds(a, b, i, j - 1);
        lemma_osa_bounds(a, b, i - 1, j - 1);
        if i > 1 && j > 1 {
            lemma_osa_bounds(a, b, i - 2, j - 2);
        }
    }
}

/// Optimal string alignment distance: insertions, deletions, substitutions
/// and transpositions of adjacent characters each cost one.
pub fn edit_distance(a: &str, b: &str) -> (r: usize)
    requires
        a@.len() < usize::MAX,
        b@.len() < usize::MAX,
    ensures
        r == distance(a@, b@),
{
    let a = chars_of(a);
    let b = chars_of(b);
    let la = a.len();
    let lb = b.len();
    let mut rows: Vec<Vec<usize>> = Vec::new();
    let mut first: Vec<usize> = Vec::new();
    let mut j: usize = 0;
    while j <= lb
        invariant
            j <= lb + 1,
            lb < usize::MAX,
            first@.len() == j,
            forall|c: int| 0 <= c < j ==> #[trigger] first@[c] as int == osa(a@, b@, 0, c),
        decreases lb + 1 - j,
    {
        first.push(j);
        j = j + 1;
    }
    rows.push(first);
    let mut i: usize = 1;
    while i <= la
        invariant
            1 <= i <= la + 1,
            la == a@.len(),
            lb == b@.len(),
            la < usize::MAX,
            lb < usize::MAX,
            rows@.len() == i,
            forall|r: int| 0 <= r < i ==> (#[trigger] rows@[r])@.len() == lb + 1,
            forall|r: int, c: int| 0 <= r < i && 0 <= c <= lb ==> #[trigger] rows@[r]@[c] as int == osa(a@, b@, r, c),
        decreases la + 1 - i,
    {
        let mut cur: Vec<usize> = Vec::new();
        cur.push(i);
        let mut j: usize = 1;
        while j <= lb
            invariant
                1 <= i <= la,
                1 <= j <= lb + 1,
                la == a@.len(),
                lb == b@.len(),
                la < usize::MAX,
                lb < usize::MAX,
                rows@.len() == i,
                forall|r: int| 0 <= r < i ==> (#[trigger] rows@[r])@.len() == lb + 1,
                forall|r: int, c: int| 0 <= r < i && 0 <= c <= lb ==> #[trigger] rows@[r]@[c] as int == osa(a@, b@, r, c),
                cur@.len() == j,
                forall|c: int| 0 <= c < j ==> #[trigger] cur@[c] as int == osa(a@, b@, i as int, c),
            decreases lb + 1 - j,
        {
            proof {
                lemma_osa_bounds(a@, b@, i - 1, j as int);
                lemma_osa_bounds(a@, b@, i as int, j - 1);
                lemma_osa_bounds(a@, b@, i - 1, j - 1);
                if i > 1 && j > 1 {
                    lemma_osa_bounds(a@, b@, i - 2, j - 2);
                }
            }
            let cost: usize = if a[i - 1] == b[j - 1] { 0 } else { 1 };
            let up = rows[i - 1][j] + 1;
            let left = cur[j - 1] + 1;
            let diag = rows[i - 1][j - 1] + cost;
            let mut best = if up <= left { up } else { left };
            if diag < best {
                best = diag;
            }
            if i > 1 && j > 1 && a[i - 1] == b[j - 2] && a[i - 2] == b[j - 1] {
                let swap = rows[i - 2][j - 2] + 1;
                if swap < best {
                    best = swap;
                }
            }
            cur.push(best);
            j = j + 1;
        }
        rows.push(cur);
        i = i + 1;
    }
    rows[la][lb]
}

/// The number of errors allowed between a name and a candidate: roughly one
/// typo per four characters, and at least one.
pub open spec fn allowed_typos(input: Seq<char>, candidate: Seq<char>) -> int {
    let longer = if candidate.len() >= input.len() { candidate.len() } else { input.len() };
    if longer / 4 >= 1 { (longer / 4) as int } else { 1 }
}

/// How far a candidate is from the input, ignoring case.
pub open spec fn typo_distance(input: Seq<char>, candidate: Seq<char>) -> int {
    distance(lowercase(input), lowercase(candidate))
}

/// Whether a candidate is plausibly what was meant: not the input itself,
/// and within the allowed typos. (Names whose lower-case forms are as long
/// as the largest `usize` are never suggested.)
pub open spec fn plausible(input: Seq<char>, candidate: Seq<char>) -> bool {
    &&& candidate != input
    &&& lowercase(input).len() < usize::MAX
    &&& lowercase(candidate).len() < usize::MAX
    &&& typo_distance(input, candidate) <= allowed_typos(input, candidate)
}

/// The first plausible candidate among the first `k` at the least distance.
pub open spec fn best_candidate(input: Seq<char>, candidates: Seq<Seq<char>>, k: int) -> Option<int>
    decreases k,
{
    if k <= 0 {
        None
    } else {
        let prev = best_candidate(input, candidates, k - 1);
        let c = candidates[k - 1];
        if plausible(input, c) && (prev matches Some(p)
            ==> typo_distance(input, c) < typo_distance(input, candidates[p])) {
            Some(k - 1)
        } else {
            prev
        }
    }
}

/// Among the first `k` candidates, the suggestion is a plausible one at the
/// least distance from the input, the first of those at that distance, and
/// there is none exactly when no candidate is plausible.
pub proof fn lemma_closest_is_nearest(input: Seq<char>, candidates: Seq<Seq<char>>, k: int)
    requires
        0 <= k <= candidates.len(),
    ensures
        best_candidate(input, candidates, k) is None
            <==> (forall|j: int| 0 <= j < k ==> !plausible(input, #[trigger] candidates[j])),
        best_candidate(input, candidates, k) matches Some(i) ==> {
            &&& 0 <= i < k
            &&& plausible(input, candidates[i])
            &&& forall|j: int| 0 <= j < k && plausible(input, #[trigger] candidates[j])
                ==> typo_distance(input, candidates[i]) <= typo_distance(input, candidates[j])
            &&& forall|j: int| 0 <= j < i && plausible(input, #[trigger] candidates[j])
                ==> typo_distance(input, candidates[i]) < typo_distance(input, candidates[j])
        },
    decreases k,
{
    if k > 0 {
        lemma_closest_is_nearest(input, candidates, k - 1);
    }
}

/// Suggests the candidate closest to `input`, if any is plausibly what was
/// meant. Used for "did you mean" hints on misspelled names.
pub fn closest<'a>(input: &str, candidates: &[&'a str]) -> (r: Option<&'a str>)
    ensures
        ({
            let best = best_candidate(input@, candidates@.map_values(|c: &str| c@), candidates@.len() as int);
            match r {
                None => best is None,
                Some(s) => best matches Some(i) && 0 <= i < candidates@.len() && s == candidates@[i],
            }
        }),
{
    let ghost all = candidates@.map_values(|c: &str| c@);
    let input_lower = to_lower(input);
    let input_chars = chars_of(input).len();
    let lower_len = chars_of(input_lower.as_str()).len();
    let mut best: Option<(usize, usize)> = None;
    let mut k: usize = 0;
    while k < candidates.len()
        invariant
            k <= candidates@.len(),
            all == candidates@.map_values(|c: &str| c@),
            input_lower@ == lowercase(input@),
            input_chars == input@.len(),
            lower_len == lowercase(input@).len(),
            match best {
                None => best_candidate(input@, all, k as int) is None,
                Some((i, d)) => best_candidate(input@, all, k as int) == Some(i as int)
                    && i < k && d == typo_distance(input@, all[i as int]),
            },
        decreases candidates@.len() - k,
    {
        let c = candidates[k];
        assert(all[k as int] == c@);
        if !str_eq(c, input) {
            let c_lower = to_lower(c);
            let c_lower_len = chars_of(c_lower.as_str()).len();
            if lower_len < usize::MAX && c_lower_len < usize::MAX {
                let d = edit_distance(input_lower.as_str(), c_lower.as_str());
                let count = chars_of(c).len();
                let longer = if count >= input_chars { count } else { input_chars };
                let allowed = if longer / 4 >= 1 { longer / 4 } else { 1 };
                if d <= allowed {
                    let better = match best {
                        None => true,
                        Some((_, bd)) => d < bd,
                    };
                    if better {
                        best = Some((k, d));
                    }
                }
            }
        }
        k = k + 1;
    }
    match best {
        None => None,
        Some((i, _)) => Some(candidates[i]),
    }
}

/// A name is at no distance from itself.
pub proof fn lemma_distance_to_self(a: Seq<char>)
    ensures
        distance(a, a) == 0,
{
    lemma_osa_diagonal(a, a.len() as int);
}

proof fn lemma_osa_diagonal(a: Seq<char>, i: int)
    requires
        0 <= i <= a.len(),
    ensures
        osa(a, a, i, i) == 0,
    decreases i,
{
    if i > 0 {
        lemma_osa_diagonal(a, i - 1);
        lemma_osa_bounds(a, a, i - 1, i);
        lemma_osa_bounds(a, a, i, i - 1);
        if i > 1 {
            lemma_osa_bounds(a, a, i - 2, i - 2);
        }
    }
}

/// The distance does not depend on which name comes first.
pub proof fn lemma_distance_symmetric(a: Seq<char>, b: Seq<char>)
    ensures
        distance(a, b) == distance(b, a),
{
    lemma_osa_symmetric(a, b, a.len() as int, b.len() as int);
}

proof fn lemma_osa_symmetric(a: Seq<char>, b: Seq<char>, i: int, j: int)
    ensures
        osa(a, b, i, j) == osa(b, a, j, i),
    decreases i, j,
{
    if i > 0 && j > 0 {
        lemma_osa_symmetric(a, b, i - 1, j);
        lemma_osa_symmetric(a, b, i, j - 1);
        lemma_osa_symmetric(a, b, i - 1, j - 1);
        if i > 1 && j > 1 {
            lemma_osa_symmetric(a, b, i - 2, j - 2);
        }
    }
}

} // verus!
