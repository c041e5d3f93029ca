//! Lines of styled text that know how wide they are on screen.

use vstd::prelude::*;
use unicode_width::UnicodeWidthStr;
use crate::text::chars::{chars_of, string_of, extend_chars};
use crate::ui::style::{ColorLevel, Style, plain_style, faint_style, paintable, painted};

verus! {

/// How many terminal columns `s` takes, as the unicode-width crate counts.
pub uninterp spec fn text_width(s: Seq<char>) -> usize;

/// `UnicodeWidthStr::width` of the unicode-width crate: the displayed width
/// of a string, wide characters counting two columns. The result is the
/// width named by `text_width`. The empty string is 0 wide (the crate's
/// sum starts at 0), and a string of printable ASCII characters (space to
/// `~`) is as wide as it is long: each of them is one column wide.
#[verifier::external_body]
fn str_width(s: &str) -> (r: usize)
    ensures
        r == text_width(s@),
        s@.len() == 0 ==> r == 0,
        (forall|i: int| 0 <= i < s@.len() ==> ' ' <= #[trigger] s@[i] <= '~') ==> r == s@.len(),
{
    UnicodeWidthStr::width(s)
}

/// On-screen width of plain text, counting wide characters as two columns
pub fn width(text: &str) -> (r: usize)
    ensures
        r == text_width(text@),
        (forall|i: int| 0 <= i < text@.len() ==> ' ' <= #[trigger] text@[i] <= '~') ==> r == text@.len(),
{
    str_width(text)
}

/// The width of one character on its own.
fn char_width(c: char) -> (r: usize)
    ensures
        r == text_width(seq![c]),
        ' ' <= c <= '~' ==> r == 1,
{
    let mut v: Vec<char> = Vec::new();
    v.push(c);
    let s = string_of(&v);
    str_width(s.as_str())
}

#[derive(Clone, Copy, Debug, PartialEq, Eq, Structural)]
pub enum Align {
    Left,
    Right,
    Center,
}

/// A piece of a line: its text and how it looks.
pub type Piece = (Seq<char>, Style);

/// The pieces after adding `text` in `style`: nothing for empty text, the
/// last piece grown when it has the same style, a new piece otherwise.
pub open spec fn pushed(p: Seq<Piece>, text: Seq<char>, style: Style) -> Seq<Piece> {
    if text.len() == 0 {
        p
    } else if p.len() > 0 && p.last().1 == style {
        p.drop_last().push((p.last().0 + text, style))
    } else {
        p.push((text, style))
    }
}

/// The pieces after adding each of `q` in turn.
pub open spec fn appended(p: Seq<Piece>, q: Seq<Piece>) -> Seq<Piece>
    decreases q.len(),
{
    if q.len() == 0 {
        p
    } else {
        pushed(appended(p, q.drop_last()), q.last().0, q.last().1)
    }
}

/// All the text of the pieces, in order.
pub open spec fn flat_text(p: Seq<Piece>) -> Seq<char>
    decreases p.len(),
{
    if p.len() == 0 {
        Seq::empty()
    } else {
        flat_text(p.drop_last()) + p.last().0
    }
}

/// The sum of the pieces' widths.
pub open spec fn total_width(p: Seq<Piece>) -> int
    decreases p.len(),
{
    if p.len() == 0 {
        0
    } else {
        total_width(p.drop_last()) + text_width(p.last().0)
    }
}

/// The width as reported: the sum, or the largest `usize` where the sum
/// does not fit.
pub open spec fn reported_width(p: Seq<Piece>) -> int {
    if total_width(p) <= usize::MAX { total_width(p) } else { usize::MAX as int }
}

/// No piece is empty, and no two neighbours share a style.
pub open spec fn well_merged(p: Seq<Piece>) -> bool {
    &&& forall|i: int| 0 <= i < p.len() ==> (#[trigger] p[i]).0.len() > 0
    &&& forall|i: int| 0 < i < p.len() ==> (#[trigger] p[i]).1 != p[i - 1].1
}

/// What is left of a piece of text when cut to fit: characters are taken
/// while the running width `used` stays within `limit`, the state after the
/// first `j` characters being (kept, used, stopped).
pub open spec fn cut_chars(text: Seq<char>, used: int, limit: int, j: int) -> (Seq<char>, int, bool)
    decreases j,
{
    if j <= 0 {
        (Seq::empty(), used, false)
    } else {
        let prev = cut_chars(text, used, limit, j - 1);
        if prev.2 {
            prev
        } else {
            let w = text_width(seq![text[j - 1]]) as int;
            if prev.1 + w > limit {
                (prev.0, prev.1, true)
            } else {
                (prev.0.push(text[j - 1]), prev.1 + w, false)
            }
        }
    }
}

/// Cutting the first `k` pieces: the state is (pieces kept, used, done).
/// Cutting is done once the limit is reached or a character does not fit.
pub open spec fn cut_pieces(p: Seq<Piece>, limit: int, k: int) -> (Seq<Piece>, int, bool)
    decreases k,
{
    if k <= 0 {
        (Seq::empty(), 0, false)
    } else {
        let prev = cut_pieces(p, limit, k - 1);
        if prev.2 {
            prev
        } else {
            let text = p[k - 1].0;
            let cut = cut_chars(text, prev.1, limit, text.len() as int);
            let out = pushed(prev.0, cut.0, p[k - 1].1);
            (out, cut.1, cut.1 >= limit || cut.2)
        }
    }
}

/// The ellipsis that marks cut text.
pub open spec fn ellipsis() -> Seq<char> {
    seq!['…']
}

/// A line shortened to at most `max` columns.
pub open spec fn truncated(p: Seq<Piece>, max: int) -> Seq<Piece> {
    if reported_width(p) <= max {
        p
    } else if max == 0 {
        Seq::empty()
    } else {
        let kept = cut_pieces(p, max - 1, p.len() as int).0;
        let last_style = if kept.len() > 0 { kept.last().1 } else { plain_style() };
        pushed(kept, ellipsis(), last_style)
    }
}

/// `n` spaces.
pub open spec fn spaces(n: nat) -> Seq<char> {
    Seq::new(n, |i: int| ' ')
}

/// A line padded (after cutting) to exactly `width` columns.
pub open spec fn fitted(p: Seq<Piece>, width: int, align: Align) -> Seq<Piece> {
    let line = truncated(p, width);
    let w = reported_width(line);
    let gap = if width >= w { width - w } else { 0 };
    let left = match align {
        Align::Left => 0,
        Align::Right => gap,
        Align::Center => gap / 2,
    };
    let right = gap - left;
    pushed(appended(pushed(Seq::empty(), spaces(left as nat), plain_style()), line), spaces(right as nat), plain_style())
}

/// Each piece painted, one after the other.
pub open spec fn rendered(level: ColorLevel, p: Seq<Piece>) -> Seq<char>
    decreases p.len(),
{
    if p.len() == 0 {
        Seq::empty()
    } else {
        rendered(level, p.drop_last()) + painted(level, p.last().0, p.last().1)
    }
}

/// Whether every piece can be painted at `level`.
pub open spec fn all_paintable(level: ColorLevel, p: Seq<Piece>) -> bool {
    forall|i: int| 0 <= i < p.len() ==> paintable(level, (#[trigger] p[i]).1)
}

/// One line of text made of differently styled pieces.
#[derive(Clone, Debug)]
pub struct Line {
    spans: Vec<(String, Style)>,
}

impl Line {
    /// The line's pieces, in order.
    pub closed spec fn pieces(&self) -> Seq<Piece> {
        self.spans@.map_values(|s: (String, Style)| (s.0@, s.1))
    }

    pub fn new() -> (r: Self)
        ensures
            r.pieces() == Seq::<Piece>::empty(),
    {
        let r = Line { spans: Vec::new() };
        assert(r.pieces() =~= Seq::<Piece>::empty());
        r
    }

    pub fn styled(text: &str, style: Style) -> (r: Self)
        ensures
            r.pieces() == pushed(Seq::empty(), text@, style),
    {
        Self::new().with(text, style)
    }

    pub fn plain(text: &str) -> (r: Self)
        ensures
            r.pieces() == pushed(Seq::empty(), text@, plain_style()),
    {
        Self::styled(text, Style::new())
    }

    pub fn faint(text: &str) -> (r: Self)
        ensures
            r.pieces() == pushed(Seq::empty(), text@, faint_style()),
    {
        Self::styled(text, Style::faint())
    }

    /// Appends a piece of text, builder style
    pub fn with(self, text: &str, style: Style) -> (r: Self)
        ensures
            r.pieces() == pushed(self.pieces(), text@, style),
    {
        let mut line = self;
        line.push(text, style);
        line
    }

    pub fn push(&mut self, text: &str, style: Style)
        ensures
            final(self).pieces() == pushed(old(self).pieces(), text@, style),
    {
        let chars = chars_of(text);
        if chars.len() == 0 {
            return;
        }
        let ghost p = self.pieces();
        let n = self.spans.len();
        if n > 0 && self.spans[n - 1].1 == style {
            let (mut last, last_style) = self.spans.pop().unwrap();
            assert(self.pieces() =~= p.drop_last());
            last.append(text);
            self.spans.push((last, last_style));
            assert(self.pieces() =~= pushed(p, text@, style));
        } else {
            self.spans.push((text.to_owned(), style));
            assert(self.pieces() =~= pushed(p, text@, style));
        }
    }

    pub fn append(&mut self, other: Line)
        ensures
            final(self).pieces() == appended(old(self).pieces(), other.pieces()),
    {
        let ghost q = other.pieces();
        let ghost start = self.pieces();
        let mut i: usize = 0;
        let spans = other.spans;
        while i < spans.len()
            invariant
                i <= spans@.len(),
                q == spans@.map_values(|s: (String, Style)| (s.0@, s.1)),
                self.pieces() == appended(start, q.take(i as int)),
            decreases spans@.len() - i,
        {
            let (text, style) = &spans[i];
            assert(q.take(i + 1).drop_last() =~= q.take(i as int));
            self.push(text.as_str(), *style);
            i = i + 1;
        }
        assert(q.take(q.len() as int) =~= q);
    }

    pub fn followed_by(self, other: Line) -> (r: Self)
        ensures
            r.pieces() == appended(self.pieces(), other.pieces()),
    {
        let mut line = self;
        line.append(other);
        line
    }

    /// The columns the line takes (the largest `usize` if that overflows).
    pub fn width(&self) -> (r: usize)
        ensures
            r == reported_width(self.pieces()),
    {
        let ghost p = self.pieces();
        let mut total: usize = 0;
        let mut full = false;
        let mut i: usize = 0;
        while i < self.spans.len()
            invariant
                i <= self.spans@.len(),
                p == self.pieces(),
                p.len() == self.spans@.len(),
                full ==> total == usize::MAX && total_width(p.take(i as int)) > usize::MAX,
                !full ==> total == total_width(p.take(i as int)),
            decreases self.spans@.len() - i,
        {
            assert(p.take(i + 1).drop_last() =~= p.take(i as int));
            let w = str_width(self.spans[i].0.as_str());
            proof { lemma_total_width_nonneg(p.take(i as int)); }
            if !full {
                if w > usize::MAX - total {
                    full = true;
                    total = usize::MAX;
                } else {
                    total = total + w;
                }
            }
            i = i + 1;
        }
        assert(p.take(p.len() as int) =~= p);
        total
    }

    /// A copy of the line, piece for piece.
    pub fn duplicate(&self) -> (r: Line)
        ensures
            r.pieces() == self.pieces(),
    {
        let mut spans: Vec<(String, Style)> = Vec::new();
        let mut i: usize = 0;
        while i < self.spans.len()
            invariant
                i <= self.spans@.len(),
                spans@.len() == i,
                forall|k: int| 0 <= k < i ==> (#[trigger] spans@[k]).0@ == self.spans@[k].0@
                    && spans@[k].1 == self.spans@[k].1,
            decreases self.spans@.len() - i,
        {
            let text = self.spans[i].0.clone();
            spans.push((text, self.spans[i].1));
            i = i + 1;
        }
        let r = Line { spans };
        assert(r.pieces() =~= self.pieces());
        r
    }

    pub fn is_empty(&self) -> (r: bool)
        ensures
            r == (self.pieces().len() == 0),
    {
        self.spans.len() == 0
    }

    /// Whether every piece can be painted at `level`: whether the line may
    /// be rendered at it.
    pub fn paintable_at(&self, level: ColorLevel) -> (r: bool)
        ensures
            r == all_paintable(level, self.pieces()),
    {
        let ghost p = self.pieces();
        let mut i: usize = 0;
        while i < self.spans.len()
            invariant
                i <= self.spans@.len(),
                p == self.pieces(),
                p.len() == self.spans@.len(),
                forall|k: int| 0 <= k < i ==> paintable(level, (#[trigger] p[k]).1),
            decreases self.spans@.len() - i,
        {
            assert(p[i as int].1 == self.spans@[i as int].1);
            if !self.spans[i].1.paintable_at(level) {
                return false;
            }
            i = i + 1;
        }
        true
    }

    /// The text without any styling
    pub fn text(&self) -> (r: String)
        ensures
            r@ == flat_text(self.pieces()),
    {
        let ghost p = self.pieces();
        let mut out: Vec<char> = Vec::new();
        let mut i: usize = 0;
        while i < self.spans.len()
            invariant
                i <= self.spans@.len(),
                p == self.pieces(),
                p.len() == self.spans@.len(),
                out@ == flat_text(p.take(i as int)),
            decreases self.spans@.len() - i,
        {
            assert(p.take(i + 1).drop_last() =~= p.take(i as int));
            extend_chars(&mut out, self.spans[i].0.as_str());
            i = i + 1;
        }
        assert(p.take(p.len() as int) =~= p);
        string_of(&out)
    }

    /// Pads with spaces to exactly `width` columns, truncating with an
    /// ellipsis if it is too long.
    pub fn fit(self, width: usize, align: Align) -> (r: Line)
        ensures
            r.pieces() == fitted(self.pieces(), width as int, align),
    {
        let line = self.truncate(width);
        let w = line.width();
        let gap = if width >= w { width - w } else { 0 };
        let (left, right) = match align {
            Align::Left => (0, gap),
            Align::Right => (gap, 0),
            Align::Center => (gap / 2, gap - gap / 2),
        };
        let l = space_run(left);
        let r = space_run(right);
        Line::plain(l.as_str()).followed_by(line).with(r.as_str(), Style::new())
    }

    /// Shortens to at most `max` columns, ending in an ellipsis if cut
    pub fn truncate(self, max: usize) -> (r: Line)
        ensures
            r.pieces() == truncated(self.pieces(), max as int),
            reported_width(self.pieces()) > max && max > 0 ==> {
                &&& flat_text(r.pieces()).len() > 0
                &&& flat_text(r.pieces()).last() == '…'
                &&& flat_text(r.pieces()).drop_last().is_prefix_of(flat_text(self.pieces()))
            },
    {
        proof { lemma_truncated_prefix(self.pieces(), max as int); }
        if self.width() <= max {
            return self;
        }
        if max == 0 {
            return Line::new();
        }
        let ghost p = self.pieces();
        let limit = max - 1;
        let mut out = Line::new();
        let mut used: usize = 0;
        let mut i: usize = 0;
        let mut done = false;
        while i < self.spans.len() && !done
            invariant
                i <= self.spans@.len(),
                p == self.pieces(),
                p.len() == self.spans@.len(),
                (out.pieces(), used as int, done) == cut_pieces(p, limit as int, i as int),
                used <= limit,
            decreases self.spans@.len() - i,
        {
            let text = chars_of(self.spans[i].0.as_str());
            let style = self.spans[i].1;
            let mut piece: Vec<char> = Vec::new();
            let mut j: usize = 0;
            let mut stop = false;
            let ghost start = used as int;
            while j < text.len() && !stop
                invariant
                    j <= text@.len(),
                    text@ == p[i as int].0,
                    (piece@, used as int, stop) == cut_chars(text@, start, limit as int, j as int),
                    used <= limit,
                decreases text@.len() - j,
            {
                let w = char_width(text[j]);
                if w > limit - used {
                    stop = true;
                } else {
                    piece.push(text[j]);
                    used = used + w;
                }
                j = j + 1;
            }
            proof { lemma_cut_chars_stays(text@, start, limit as int, j as int, text@.len() as int); }
            let s = string_of(&piece);
            out.push(s.as_str(), style);
            done = used >= limit || stop;
            i = i + 1;
        }
        proof { lemma_cut_pieces_stays(p, limit as int, i as int, p.len() as int); }
        let n = out.spans.len();
        let ghost kept = out.pieces();
        let last_style = if n > 0 { out.spans[n - 1].1 } else { Style::new() };
        assert(n > 0 ==> last_style == kept.last().1);
        proof { reveal_strlit("…"); }
        assert("…"@ =~= ellipsis());
        out.push("…", last_style);
        out
    }

    pub fn render(&self, level: ColorLevel) -> (r: String)
        requires
            all_paintable(level, self.pieces()),
        ensures
            r@ == rendered(level, self.pieces()),
    {
        let ghost p = self.pieces();
        let mut out: Vec<char> = Vec::new();
        let mut i: usize = 0;
        while i < self.spans.len()
            invariant
                i <= self.spans@.len(),
                p == self.pieces(),
                p.len() == self.spans@.len(),
                all_paintable(level, p),
                out@ == rendered(level, p.take(i as int)),
            decreases self.spans@.len() - i,
        {
            assert(p.take(i + 1).drop_last() =~= p.take(i as int));
            assert(paintable(level, p[i as int].1));
            let painted_text = level.paint(self.spans[i].0.as_str(), self.spans[i].1);
            extend_chars(&mut out, painted_text.as_str());
            i = i + 1;
        }
        assert(p.take(p.len() as int) =~= p);
        string_of(&out)
    }
}

/// A string of `n` spaces.
pub fn space_run(n: usize) -> (r: String)
    ensures
        r@ == spaces(n as nat),
{
    let mut v: Vec<char> = Vec::new();
    let mut i: usize = 0;
    while i < n
        invariant
            i <= n,
            v@ == spaces(i as nat),
        decreases n - i,
    {
        v.push(' ');
        assert(v@ =~= spaces((i + 1) as nat));
        i = i + 1;
    }
    string_of(&v)
}

pub proof fn lemma_total_width_nonneg(p: Seq<Piece>)
    ensures
        total_width(p) >= 0,
    decreases p.len(),
{
    if p.len() > 0 {
        lemma_total_width_nonneg(p.drop_last());
    }
}

/// Once cutting stops, further characters change nothing.
pub proof fn lemma_cut_chars_stays(text: Seq<char>, used: int, limit: int, j: int, n: int)
    requires
        0 <= j <= n,
        j == n || cut_chars(text, used, limit, j).2,
    ensures
        cut_chars(text, used, limit, n) == cut_chars(text, used, limit, j),
    decreases n - j,
{
    if j < n {
        lemma_cut_chars_stays(text, used, limit, j, n - 1);
    }
}

pub proof fn lemma_cut_pieces_stays(p: Seq<Piece>, limit: int, k: int, n: int)
    requires
        0 <= k <= n,
        k == n || cut_pieces(p, limit, k).2,
    ensures
        cut_pieces(p, limit, n) == cut_pieces(p, limit, k),
    decreases n - k,
{
    if k < n {
        lemma_cut_pieces_stays(p, limit, k, n - 1);
    }
}

/// What cutting keeps of a text is the start of it, and all of it where
/// cutting did not stop.
proof fn lemma_cut_chars_prefix(text: Seq<char>, used: int, limit: int, j: int)
    requires
        0 <= j <= text.len(),
    ensures
        cut_chars(text, used, limit, j).0.is_prefix_of(text.take(j)),
        !cut_chars(text, used, limit, j).2 ==> cut_chars(text, used, limit, j).0 == text.take(j),
    decreases j,
{
    if j > 0 {
        lemma_cut_chars_prefix(text, used, limit, j - 1);
        let prev = cut_chars(text, used, limit, j - 1);
        assert(text.take(j).take(j - 1) =~= text.take(j - 1));
        assert(text.take(j) =~= text.take(j - 1).push(text[j - 1]));
        if !prev.2 {
            assert(prev.0.push(text[j - 1]) =~= text.take(j));
        }
        assert(prev.0.len() <= j - 1);
        assert(prev.0 =~= text.take(j - 1).subrange(0, prev.0.len() as int));
        assert(prev.0 =~= text.take(j).subrange(0, prev.0.len() as int));
    } else {
        assert(text.take(0) =~= Seq::<char>::empty());
    }
}

/// What cutting keeps of a line's text is the start of it, and all of the
/// first `k` pieces where cutting is not done.
proof fn lemma_cut_pieces_prefix(p: Seq<Piece>, limit: int, k: int)
    requires
        0 <= k <= p.len(),
    ensures
        flat_text(cut_pieces(p, limit, k).0).is_prefix_of(flat_text(p.take(k))),
        !cut_pieces(p, limit, k).2 ==> flat_text(cut_pieces(p, limit, k).0) == flat_text(p.take(k)),
    decreases k,
{
    if k == 0 {
        assert(p.take(0) =~= Seq::<Piece>::empty());
    } else {
        lemma_cut_pieces_prefix(p, limit, k - 1);
        let prev = cut_pieces(p, limit, k - 1);
        assert(p.take(k).drop_last() =~= p.take(k - 1));
        let whole = flat_text(p.take(k));
        assert(whole == flat_text(p.take(k - 1)) + p[k - 1].0);
        let pre = flat_text(prev.0);
        if prev.2 {
            assert(pre =~= whole.subrange(0, pre.len() as int));
        } else {
            let text = p[k - 1].0;
            let cut = cut_chars(text, prev.1, limit, text.len() as int);
            lemma_cut_chars_prefix(text, prev.1, limit, text.len() as int);
            assert(text.take(text.len() as int) =~= text);
            lemma_pushed_text(prev.0, cut.0, p[k - 1].1);
            let now = flat_text(cut_pieces(p, limit, k).0);
            assert(now == pre + cut.0);
            assert(now =~= whole.subrange(0, now.len() as int));
        }
    }
}

/// A cut line reads as the start of the line followed by an ellipsis.
pub proof fn lemma_truncated_prefix(p: Seq<Piece>, max: int)
    ensures
        reported_width(p) > max && max > 0 ==> {
            &&& flat_text(truncated(p, max)).len() > 0
            &&& flat_text(truncated(p, max)).last() == '…'
            &&& flat_text(truncated(p, max)).drop_last().is_prefix_of(flat_text(p))
        },
{
    if reported_width(p) > max && max > 0 {
        let kept = cut_pieces(p, max - 1, p.len() as int).0;
        let last_style = if kept.len() > 0 { kept.last().1 } else { plain_style() };
        lemma_cut_pieces_prefix(p, max - 1, p.len() as int);
        assert(p.take(p.len() as int) =~= p);
        lemma_pushed_text(kept, ellipsis(), last_style);
        let t = flat_text(truncated(p, max));
        assert(t == flat_text(kept) + ellipsis());
        assert(t.drop_last() =~= flat_text(kept));
    }
}

/// Adding text to a line adds it to the line's text.
pub proof fn lemma_pushed_text(p: Seq<Piece>, text: Seq<char>, style: Style)
    ensures
        flat_text(pushed(p, text, style)) == flat_text(p) + text,
{
    if text.len() == 0 {
        assert(flat_text(p) + text =~= flat_text(p));
    } else if p.len() > 0 && p.last().1 == style {
        let q = pushed(p, text, style);
        assert(q.drop_last() =~= p.drop_last());
        assert(flat_text(q) =~= flat_text(p) + text);
    } else {
        assert(pushed(p, text, style).drop_last() =~= p);
    }
}

/// Appending a line appends its text.
pub proof fn lemma_appended_text(p: Seq<Piece>, q: Seq<Piece>)
    ensures
        flat_text(appended(p, q)) == flat_text(p) + flat_text(q),
    decreases q.len(),
{
    if q.len() == 0 {
        assert(flat_text(p) + flat_text(q) =~= flat_text(p));
    } else {
        lemma_appended_text(p, q.drop_last());
        lemma_pushed_text(appended(p, q.drop_last()), q.last().0, q.last().1);
        assert(flat_text(p) + flat_text(q) =~= flat_text(p) + flat_text(q.drop_last()) + q.last().0);
    }
}

/// Adding text keeps a line free of empty pieces and of neighbours that
/// share a style: pieces of one style merge.
pub proof fn lemma_pushed_well_merged(p: Seq<Piece>, text: Seq<char>, style: Style)
    requires
        well_merged(p),
    ensures
        well_merged(pushed(p, text, style)),
{
    let q = pushed(p, text, style);
    if text.len() > 0 && p.len() > 0 && p.last().1 == style {
        assert forall|i: int| 0 < i < q.len() implies (#[trigger] q[i]).1 != q[i - 1].1 by {
            assert(p[i].1 != p[i - 1].1);
        }
    } else if text.len() > 0 {
        assert forall|i: int| 0 < i < q.len() implies (#[trigger] q[i]).1 != q[i - 1].1 by {
            if i < p.len() {
                assert(p[i].1 != p[i - 1].1);
            }
        }
    }
}

/// `s` without the spaces at its end.
pub open spec fn trim_spaces(s: Seq<char>) -> Seq<char>
    decreases s.len(),
{
    if s.len() > 0 && s.last() == ' ' {
        trim_spaces(s.drop_last())
    } else {
        s
    }
}

/// Each line rendered, without trailing spaces, and ended by a newline.
pub open spec fn doc_rendered(level: ColorLevel, lines: Seq<Seq<Piece>>) -> Seq<char>
    decreases lines.len(),
{
    if lines.len() == 0 {
        Seq::empty()
    } else {
        doc_rendered(level, lines.drop_last()) + trim_spaces(rendered(level, lines.last())) + seq!['\n']
    }
}

/// Styled text in many lines, rendered together
#[derive(Clone, Debug)]
pub struct Doc {
    pub lines: Vec<Line>,
}

/// The pieces of each line.
pub open spec fn lines_view(lines: Seq<Line>) -> Seq<Seq<Piece>> {
    lines.map_values(|l: Line| l.pieces())
}

impl Doc {
    pub fn new() -> (r: Self)
        ensures
            r.lines@ == Seq::<Line>::empty(),
    {
        Doc { lines: Vec::new() }
    }

    /// A document of the given lines.
    pub fn from_lines(lines: Vec<Line>) -> (r: Self)
        ensures
            r.lines@ == lines@,
    {
        Doc { lines }
    }

    pub fn push(&mut self, line: Line)
        ensures
            final(self).lines@ == old(self).lines@.push(line),
    {
        self.lines.push(line);
    }

    pub fn blank(&mut self)
        ensures
            final(self).lines@.len() == old(self).lines@.len() + 1,
            final(self).lines@.drop_last() == old(self).lines@,
            final(self).lines@.last().pieces() == Seq::<Piece>::empty(),
    {
        self.lines.push(Line::new());
    }

    pub fn extend(&mut self, lines: Vec<Line>)
        ensures
            final(self).lines@ == old(self).lines@ + lines@,
    {
        let mut lines = lines;
        self.lines.append(&mut lines);
    }

    /// Whether every line can be rendered at `level`.
    pub fn paintable_at(&self, level: ColorLevel) -> (r: bool)
        ensures
            r == (forall|i: int| 0 <= i < self.lines@.len() ==> all_paintable(level, #[trigger] self.lines@[i].pieces())),
    {
        let mut i: usize = 0;
        while i < self.lines.len()
            invariant
                i <= self.lines@.len(),
                forall|k: int| 0 <= k < i ==> all_paintable(level, #[trigger] self.lines@[k].pieces()),
            decreases self.lines@.len() - i,
        {
            if !self.lines[i].paintable_at(level) {
                return false;
            }
            i = i + 1;
        }
        true
    }

    pub fn render(&self, level: ColorLevel) -> (r: String)
        requires
            forall|i: int| 0 <= i < self.lines@.len() ==> all_paintable(level, #[trigger] self.lines@[i].pieces()),
        ensures
            r@ == doc_rendered(level, lines_view(self.lines@)),
    {
        let ghost lv = lines_view(self.lines@);
        let mut out: Vec<char> = Vec::new();
        let mut i: usize = 0;
        while i < self.lines.len()
            invariant
                i <= self.lines@.len(),
                lv == lines_view(self.lines@),
                forall|k: int| 0 <= k < self.lines@.len() ==> all_paintable(level, #[trigger] self.lines@[k].pieces()),
                out@ == doc_rendered(level, lv.take(i as int)),
            decreases self.lines@.len() - i,
        {
            assert(lv.take(i + 1).drop_last() =~= lv.take(i as int));
            let text = self.lines[i].render(level);
            let chars = chars_of(text.as_str());
            let mut end = chars.len();
            assert(chars@.take(end as int) =~= chars@);
            while end > 0 && chars[end - 1] == ' '
                invariant
                    end <= chars@.len(),
                    trim_spaces(chars@.take(end as int)) == trim_spaces(chars@),
                decreases end,
            {
                assert(chars@.take(end - 1) =~= chars@.take(end as int).drop_last());
                end = end - 1;
            }
            let mut k: usize = 0;
            let ghost before = out@;
            while k < end
                invariant
                    k <= end <= chars@.len(),
                    out@ == before + chars@.take(k as int),
                decreases end - k,
            {
                out.push(chars[k]);
                assert(chars@.take(k + 1) =~= chars@.take(k as int).push(chars@[k as int]));
                k = k + 1;
            }
            out.push('\n');
            proof {
                assert(chars@.take(chars@.len() as int) =~= chars@);
                assert(trim_spaces(chars@.take(end as int)) == chars@.take(end as int));
            }
            i = i + 1;
        }
        assert(lv.take(lv.len() as int) =~= lv);
        string_of(&out)
    }
}

} // verus!
