//! Fancy views of reports: color, panels and styled amounts.

pub mod diagnostics;
pub mod entries;

use vstd::prelude::*;
use crate::text::chars::{chars_of, string_of, split_on, split_chars, str_eq};
use crate::text::digits::{push_decimal, decimal_chars, push_with_commas, with_commas};
use crate::ui::palette;
use crate::ui::style::{ColorLevel, Rgb, Style, plain_style, faint_style, paintable};
use crate::ui::text::{Doc, Line, Piece, pushed, lines_view, doc_rendered, all_paintable};
use crate::util::quant::Quant;

verus! {

/// How output should look
#[derive(Clone, Copy, Debug, PartialEq, Eq, Structural)]
pub enum Mode {
    /// Simple text for scripts and pipes
    Plain,
    /// Color, panels and charts, laid out to a width
    Fancy { color: ColorLevel, width: usize },
}

impl Mode {
    pub fn is_fancy(&self) -> (r: bool)
        ensures
            r == (*self is Fancy),
    {
        match self {
            Mode::Plain => false,
            Mode::Fancy { .. } => true,
        }
    }

    pub fn width(&self) -> (r: usize)
        ensures
            r == (match *self {
                Mode::Plain => 80,
                Mode::Fancy { width, .. } => width,
            }),
    {
        match self {
            Mode::Plain => 80,
            Mode::Fancy { width, .. } => *width,
        }
    }

    pub open spec fn color_spec(&self) -> ColorLevel {
        match *self {
            Mode::Plain => ColorLevel::NoColor,
            Mode::Fancy { color, .. } => color,
        }
    }

    pub fn color(&self) -> (r: ColorLevel)
        ensures
            r == self.color_spec(),
    {
        match self {
            Mode::Plain => ColorLevel::NoColor,
            Mode::Fancy { color, .. } => *color,
        }
    }

    pub fn render(&self, doc: &Doc) -> (r: String)
        requires
            forall|i: int| 0 <= i < doc.lines@.len()
                ==> all_paintable(self.color_spec(), #[trigger] doc.lines@[i].pieces()),
        ensures
            r@ == doc_rendered(self.color_spec(), lines_view(doc.lines@)),
    {
        doc.render(self.color())
    }
}

/// The color of an account's top-level category.
pub open spec fn category_of(account: Seq<char>) -> Rgb {
    let first = split_on(account, ':')[0];
    if first == "Assets"@ {
        palette::green()
    } else if first == "Liabilities"@ {
        palette::red()
    } else if first == "Equity"@ {
        palette::purple()
    } else if first == "Income"@ {
        palette::accent()
    } else if first == "Expenses"@ {
        palette::amber()
    } else {
        palette::faint()
    }
}

proof fn lemma_split_nonempty(s: Seq<char>, c: char)
    ensures
        split_on(s, c).len() >= 1,
{
}

/// Each top-level category has a color, used wherever it appears
pub fn category_color(account: &str) -> (r: Rgb)
    ensures
        r == category_of(account@),
{
    let chars = chars_of(account);
    let parts = split_chars(&chars, ':');
    proof { lemma_split_nonempty(account@, ':'); }
    assert(parts.deep_view()[0] == parts@[0]@);
    let first = string_of(&parts[0]);
    let f = first.as_str();
    if str_eq(f, "Assets") {
        palette::green()
    } else if str_eq(f, "Liabilities") {
        palette::red()
    } else if str_eq(f, "Equity") {
        palette::purple()
    } else if str_eq(f, "Income") {
        palette::accent()
    } else if str_eq(f, "Expenses") {
        palette::amber()
    } else {
        palette::faint()
    }
}

/// The pieces of an account name: the first segment tinted, each later one
/// after a faint separator.
pub open spec fn account_pieces(segments: Seq<Seq<char>>, tint: Style, k: int) -> Seq<Piece>
    decreases k,
{
    if k <= 0 {
        Seq::empty()
    } else if k == 1 {
        pushed(Seq::empty(), segments[0], tint)
    } else {
        pushed(pushed(account_pieces(segments, tint, k - 1), seq![':'], faint_style()), segments[k - 1], plain_style())
    }
}

/// An account name with its category tinted and separators faint
pub fn account(name: &str) -> (r: Line)
    ensures
        r.pieces() == account_pieces(split_on(name@, ':'),
            Style { fg: Some(category_of(name@)), ..plain_style() }, split_on(name@, ':').len() as int),
{
    let chars = chars_of(name);
    let parts = split_chars(&chars, ':');
    let ghost segs = split_on(name@, ':');
    let tint = Style::color(category_color(name));
    proof { reveal_strlit(":"); }
    assert(":"@ =~= seq![':']);
    let mut line = Line::new();
    let mut i: usize = 0;
    while i < parts.len()
        invariant
            i <= parts@.len(),
            parts.deep_view() == segs,
            ":"@ == seq![':'],
            line.pieces() == account_pieces(segs, tint, i as int),
        decreases parts@.len() - i,
    {
        let seg = string_of(&parts[i]);
        assert(parts.deep_view()[i as int] == parts@[i as int]@);
        if i == 0 {
            line.push(seg.as_str(), tint);
        } else {
            line.push(":", Style::faint());
            line.push(seg.as_str(), Style::new());
        }
        i = i + 1;
    }
    line
}

/// An amount as `1,234.56 USD` with the currency faint and negative
/// numbers tinted.
pub fn money(number: &str, currency: &str, negative: bool) -> (r: Line)
    ensures
        r.pieces() == pushed(
            pushed(Seq::empty(), number@,
                if negative { Style { fg: Some(palette::red()), ..plain_style() } } else { plain_style() }),
            seq![' '] + currency@, faint_style()),
{
    let style = if negative { Style::color(palette::red()) } else { Style::new() };
    let mut v: Vec<char> = Vec::new();
    v.push(' ');
    crate::text::chars::extend_chars(&mut v, currency);
    let c = string_of(&v);
    Line::styled(number, style).with(c.as_str(), Style::faint())
}

/// The sign-aware color for a gain or loss.
pub open spec fn gain_tint(negative: bool, zero: bool) -> Rgb {
    if negative { palette::red() } else if zero { palette::faint() } else { palette::green() }
}

/// The sign-aware color for a gain or loss
pub fn gain_color(value: &Quant) -> (r: Rgb)
    ensures
        r == gain_tint(value.is_negative, value.numerator == 0),
{
    if value.is_negative() {
        palette::red()
    } else if value.is_zero() {
        palette::faint()
    } else {
        palette::green()
    }
}

/// `s` without the minus signs at its start.
pub open spec fn trim_minus(s: Seq<char>) -> Seq<char>
    decreases s.len(),
{
    if s.len() > 0 && s[0] == '-' { trim_minus(s.skip(1)) } else { s }
}

/// `▲ 1,234.00 USD` or `▼ 56.00 USD`, colored
pub fn gain(shown: &str, value: &Quant, currency: &str) -> (r: Line)
    ensures
        ({
            let negative = value.is_negative;
            let zero = value.numerator == 0;
            let tint = Style { fg: Some(gain_tint(negative, zero)), ..plain_style() };
            let arrow = if negative { seq!['▼', ' '] } else if zero { seq![' ', ' '] } else { seq!['▲', ' '] };
            r.pieces() == pushed(pushed(pushed(Seq::empty(), arrow, tint), trim_minus(shown@),
                Style { bold: true, ..tint }), seq![' '] + currency@, faint_style())
        }),
{
    let color = gain_color(value);
    let mut arrow: Vec<char> = Vec::new();
    if value.is_negative() {
        arrow.push('▼');
    } else if value.is_zero() {
        arrow.push(' ');
    } else {
        arrow.push('▲');
    }
    arrow.push(' ');
    assert(arrow@ == (if value.is_negative { seq!['▼', ' '] } else if value.numerator == 0 { seq![' ', ' '] } else { seq!['▲', ' '] }));
    let arrow = string_of(&arrow);
    let chars = chars_of(shown);
    let mut start: usize = 0;
    assert(chars@.skip(0) =~= chars@);
    while start < chars.len() && chars[start] == '-'
        invariant
            start <= chars@.len(),
            trim_minus(chars@.skip(start as int)) == trim_minus(shown@),
            chars@ == shown@,
        decreases chars@.len() - start,
    {
        assert(chars@.skip(start as int).skip(1) =~= chars@.skip(start + 1));
        start = start + 1;
    }
    let mut rest: Vec<char> = Vec::new();
    let mut k: usize = start;
    while k < chars.len()
        invariant
            start <= k <= chars@.len(),
            rest@ == chars@.subrange(start as int, k as int),
        decreases chars@.len() - k,
    {
        rest.push(chars[k]);
        assert(chars@.subrange(start as int, k + 1) =~= chars@.subrange(start as int, k as int).push(chars@[k as int]));
        k = k + 1;
    }
    assert(rest@ =~= chars@.skip(start as int));
    assert(trim_minus(chars@.skip(start as int)) == chars@.skip(start as int));
    let rest = string_of(&rest);
    let mut cur: Vec<char> = Vec::new();
    cur.push(' ');
    crate::text::chars::extend_chars(&mut cur, currency);
    let cur = string_of(&cur);
    Line::styled(arrow.as_str(), Style::color(color))
        .with(rest.as_str(), Style::color(color).bold())
        .with(cur.as_str(), Style::faint())
}

/// Whether `c` is a vowel.
pub open spec fn is_vowel(c: char) -> bool {
    c == 'a' || c == 'e' || c == 'i' || c == 'o' || c == 'u'
}

/// `n word`, with thousands separators, and the word made plural unless
/// `n` is 1: `y` after a consonant becomes `ies`, otherwise `s` is added.
pub open spec fn pluralized(n: nat, word: Seq<char>) -> Seq<char> {
    let count = with_commas(decimal_chars(n)) + seq![' '];
    if n == 1 {
        count + word
    } else if word.len() > 1 && word.last() == 'y' && !is_vowel(word[word.len() - 2]) {
        count + word.drop_last() + seq!['i', 'e', 's']
    } else {
        count + word + seq!['s']
    }
}

/// `n thing` or `n things`, with thousands separators
pub fn plural(n: usize, word: &str) -> (r: String)
    ensures
        r@ == pluralized(n as nat, word@),
{
    let mut digits: Vec<char> = Vec::new();
    push_decimal(&mut digits, n as u128);
    assert(digits@ =~= decimal_chars(n as nat));
    let mut out: Vec<char> = Vec::new();
    push_with_commas(&mut out, &digits);
    out.push(' ');
    let w = chars_of(word);
    let len = w.len();
    if n == 1 {
        crate::text::chars::extend_chars(&mut out, word);
        assert(out@ =~= pluralized(n as nat, word@));
        return string_of(&out);
    }
    let last = if len > 0 { w[len - 1] } else { ' ' };
    let before = if len > 1 { w[len - 2] } else { ' ' };
    let consonant_y = len > 1 && last == 'y'
        && !(before == 'a' || before == 'e' || before == 'i' || before == 'o' || before == 'u');
    if consonant_y {
        let mut k: usize = 0;
        let ghost start = out@;
        while k < len - 1
            invariant
                k <= len - 1,
                len == w@.len(),
                len > 1,
                out@ == start + w@.take(k as int),
            decreases len - 1 - k,
        {
            out.push(w[k]);
            assert(w@.take(k + 1) =~= w@.take(k as int).push(w@[k as int]));
            k = k + 1;
        }
        out.push('i');
        out.push('e');
        out.push('s');
        assert(w@.take(len - 1) =~= w@.drop_last());
    } else {
        crate::text::chars::extend_chars(&mut out, word);
        out.push('s');
    }
    assert(out@ =~= pluralized(n as nat, word@));
    string_of(&out)
}

/// The parts that are not empty, joined with faint middle dots.
pub open spec fn dotted_pieces(parts: Seq<Seq<char>>, k: int) -> (Seq<Piece>, bool)
    decreases k,
{
    if k <= 0 {
        (Seq::empty(), false)
    } else {
        let prev = dotted_pieces(parts, k - 1);
        let part = parts[k - 1];
        if part.len() == 0 {
            prev
        } else {
            let with_dot = if prev.1 { pushed(prev.0, seq![' ', '·', ' '], faint_style()) } else { prev.0 };
            (pushed(with_dot, part, faint_style()), true)
        }
    }
}

/// Joined with faint middle dots: `a · b · c`
pub fn dotted(parts: &[String]) -> (r: Line)
    ensures
        r.pieces() == dotted_pieces(parts@.map_values(|p: String| p@), parts@.len() as int).0,
{
    let ghost all = parts@.map_values(|p: String| p@);
    proof { reveal_strlit(" · "); }
    assert(" · "@ =~= seq![' ', '·', ' ']);
    let mut line = Line::new();
    let mut any = false;
    let mut i: usize = 0;
    while i < parts.len()
        invariant
            i <= parts@.len(),
            all == parts@.map_values(|p: String| p@),
            " · "@ == seq![' ', '·', ' '],
            (line.pieces(), any) == dotted_pieces(all, i as int),
        decreases parts@.len() - i,
    {
        let p = parts[i].as_str();
        assert(all[i as int] == p@);
        if !p.is_empty() {
            if any {
                line.push(" · ", Style::faint());
            }
            line.push(p, Style::faint());
            any = true;
        }
        i = i + 1;
    }
    line
}

} // verus!
