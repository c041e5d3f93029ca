//! Searching entries by description, and the heading shown over the
//! entries a search found.

use vstd::prelude::*;
use crate::config::{text_lines, text_lines_of};
use crate::render::{plural, pluralized, account, account_pieces, category_of};
use crate::syntax::lexer::{lex_line, lexed, KindView, LineKind, PostingView};
use crate::syntax::source::{SourceFile, SourceMap};
use crate::syntax::lexer::space_at;
use crate::text::chars::{index_of, find_char, split_on, joined, lemma_index_of_bounds, lemma_split_on_nonempty, is_space_char};
use crate::ui::text::{appended, flat_text, lemma_pushed_text, lemma_appended_text, Piece};
use crate::text::chars::{chars_of, extend_chars, string_of, capital, is_capital, char_lowercase, lower_char, same_chars};
use crate::text::utf8::{bytes_of, char_len_utf8, lemma_bytes_of_prefix, lemma_bytes_of_nonneg};
use crate::ui::palette;
use crate::ui::style::{Style, plain_style, faint_style};
use crate::ui::text::{Line, pushed};
use crate::parsing::loader::{Item, ItemView, items_view};
use crate::syntax::source::FileId;

verus! {

/// Whether a search term has a capital in it, which makes the search
/// case-sensitive ("smart case", as in ripgrep).
pub open spec fn has_capital(t: Seq<char>) -> bool {
    exists|i: int| 0 <= i < t.len() && capital(#[trigger] t[i])
}

/// Whether `t` occurs in `h` at character `s`, exactly as typed.
pub open spec fn occurs_at(h: Seq<char>, t: Seq<char>, s: int) -> bool {
    0 <= s && s + t.len() <= h.len() && h.subrange(s, s + t.len()) == t
}

/// Whether `t` occurs in `h` at character `s` when each character is taken
/// by its lower-case form.
pub open spec fn folds_at(h: Seq<char>, t: Seq<char>, s: int) -> bool {
    &&& 0 <= s
    &&& s + t.len() <= h.len()
    &&& forall|j: int| 0 <= j < t.len() ==> char_lowercase(#[trigger] h[s + j]) == char_lowercase(t[j])
}

/// Whether the search for `t` matches `h` at character `s`.
pub open spec fn hit_at(h: Seq<char>, t: Seq<char>, s: int) -> bool {
    if has_capital(t) { occurs_at(h, t, s) } else { folds_at(h, t, s) }
}

/// The first character at or after `k` where the search matches.
pub open spec fn first_hit(h: Seq<char>, t: Seq<char>, k: int) -> Option<int>
    decreases h.len() - k,
{
    if k < 0 || k >= h.len() {
        None
    } else if hit_at(h, t, k) {
        Some(k)
    } else {
        first_hit(h, t, k + 1)
    }
}

/// Where a search term first matches a text, as a byte range; an empty
/// term matches nothing.
pub open spec fn found(h: Seq<char>, t: Seq<char>) -> Option<(int, int)> {
    if t.len() == 0 {
        None
    } else {
        match first_hit(h, t, 0) {
            Some(s) => Some((bytes_of(h.take(s)), bytes_of(h.take(s + t.len())))),
            None => None,
        }
    }
}

/// Whether the search matches at `s`.
fn hit(h: &Vec<char>, t: &Vec<char>, s: usize, exact: bool) -> (r: bool)
    requires
        s < h@.len(),
        exact == has_capital(t@),
    ensures
        r == hit_at(h@, t@, s as int),
{
    if t.len() > h.len() - s {
        return false;
    }
    let mut j: usize = 0;
    while j < t.len()
        invariant
            s + t@.len() <= h@.len(),
            h@.len() == h.len(),
            j <= t@.len(),
            exact == has_capital(t@),
            exact ==> forall|k: int| 0 <= k < j ==> h@[s + k] == t@[k],
            !exact ==> forall|k: int| 0 <= k < j ==> char_lowercase(#[trigger] h@[s + k]) == char_lowercase(t@[k]),
        decreases t@.len() - j,
    {
        if exact {
            if h[s + j] != t[j] {
                assert(h@.subrange(s as int, s + t@.len())[j as int] == h@[s + j]);
                return false;
            }
        } else {
            let a = lower_char(h[s + j]);
            let b = lower_char(t[j]);
            if !same_chars(&a, &b) {
                return false;
            }
        }
        j = j + 1;
    }
    if exact {
        assert(h@.subrange(s as int, s + t@.len()) =~= t@);
    }
    true
}

/// Whether the term has a capital in it.
fn any_capital(t: &Vec<char>) -> (r: bool)
    ensures
        r == has_capital(t@),
{
    let mut i: usize = 0;
    while i < t.len()
        invariant
            i <= t@.len(),
            forall|k: int| 0 <= k < i ==> !capital(#[trigger] t@[k]),
        decreases t@.len() - i,
    {
        if is_capital(t[i]) {
            return true;
        }
        i = i + 1;
    }
    false
}

/// Where a search term first matches a text, as a byte range:
/// case-insensitively, unless the term has capitals in it. An empty term
/// matches nothing.
pub fn find(haystack: &str, term: &str) -> (r: Option<(usize, usize)>)
    requires
        bytes_of(haystack@) <= usize::MAX,
    ensures
        r == (match found(haystack@, term@) {
            Some((a, b)) => Some((a as usize, b as usize)),
            None => None,
        }),
{
    let t = chars_of(term);
    if t.len() == 0 {
        return None;
    }
    let h = chars_of(haystack);
    let ghost hs = h@;
    let exact = any_capital(&t);
    let mut s: usize = 0;
    let mut b: usize = 0;
    assert(hs.take(0) =~= Seq::<char>::empty());
    while s < h.len()
        invariant
            hs == h@,
            hs == haystack@,
            t@ == term@,
            t@.len() > 0,
            exact == has_capital(t@),
            bytes_of(hs) <= usize::MAX,
            s <= hs.len(),
            b == bytes_of(hs.take(s as int)),
            first_hit(hs, t@, 0) == first_hit(hs, t@, s as int),
        decreases hs.len() - s,
    {
        if hit(&h, &t, s, exact) {
            let end = s + t.len();
            let mut k: usize = s;
            let mut e: usize = b;
            while k < end
                invariant
                    hs == h@,
                    s <= k <= end <= hs.len(),
                    bytes_of(hs) <= usize::MAX,
                    e == bytes_of(hs.take(k as int)),
                decreases end - k,
            {
                proof {
                    lemma_bytes_of_prefix(hs, k + 1, hs.len() as int);
                    assert(hs.take(hs.len() as int) =~= hs);
                    assert(hs.take(k + 1).drop_last() =~= hs.take(k as int));
                }
                e = e + char_len_utf8(h[k]);
                k = k + 1;
            }
            return Some((b, e));
        }
        proof {
            lemma_bytes_of_prefix(hs, s + 1, hs.len() as int);
            assert(hs.take(hs.len() as int) =~= hs);
            assert(hs.take(s + 1).drop_last() =~= hs.take(s as int));
        }
        b = b + char_len_utf8(h[s]);
        s = s + 1;
    }
    None
}

/// Whether a search term matches a description: case-insensitively, unless
/// the term has capitals in it ("smart case", as in ripgrep).
pub fn matches(description: &str, term: &str) -> (r: bool)
    requires
        bytes_of(description@) <= usize::MAX,
    ensures
        r == found(description@, term@) is Some,
{
    find(description, term).is_some()
}

/// The text of a search heading after the count.
pub open spec fn matching_text(term: Seq<char>) -> Seq<char> {
    " · matching “"@ + term + "”"@
}

/// A heading for search results
pub fn search_heading(count: usize, term: &str) -> (r: Line)
    ensures
        r.pieces() == pushed(
            pushed(
                pushed(Seq::empty(), "◇ "@, Style { fg: Some(palette::accent()), ..plain_style() }),
                pluralized(count as nat, "entry"@),
                Style { fg: Some(palette::accent()), bold: true, ..plain_style() },
            ),
            matching_text(term@),
            faint_style(),
        ),
{
    let mut tail: Vec<char> = Vec::new();
    extend_chars(&mut tail, " · matching “");
    extend_chars(&mut tail, term);
    extend_chars(&mut tail, "”");
    assert(tail@ =~= matching_text(term@));
    let tail = string_of(&tail);
    let count_text = plural(count, "entry");
    Line::styled("◇ ", Style::color(palette::accent()))
        .with(count_text.as_str(), Style::color(palette::accent()).bold())
        .with(tail.as_str(), Style::faint())
}

/// The first character of `s` from `k` on at which at least `c` bytes
/// come before it, or the length of `s`: where a byte column falls.
pub open spec fn at_col_from(s: Seq<char>, c: int, k: int) -> int
    decreases s.len() - k,
{
    if k < 0 || k >= s.len() {
        s.len() as int
    } else if bytes_of(s.take(k)) >= c {
        k
    } else {
        at_col_from(s, c, k + 1)
    }
}

/// The character at which byte column `c` of `s` falls.
pub open spec fn at_col(s: Seq<char>, c: int) -> int {
    at_col_from(s, c, 0)
}

pub proof fn lemma_at_col_from(s: Seq<char>, c: int, k: int)
    requires
        0 <= k <= s.len(),
    ensures
        k <= at_col_from(s, c, k) <= s.len(),
    decreases s.len() - k,
{
    if k < s.len() && bytes_of(s.take(k)) < c {
        lemma_at_col_from(s, c, k + 1);
    }
}

/// The larger of two numbers.
pub open spec fn larger(a: int, b: int) -> int {
    if a >= b { a } else { b }
}

/// An account name tinted by its category, its separators faint.
pub open spec fn tinted_account(name: Seq<char>) -> Seq<Piece> {
    account_pieces(split_on(name, ':'), Style { fg: Some(category_of(name)), ..plain_style() }, split_on(name, ':').len() as int)
}

/// The pieces of a posting line's content: the account tinted, the number
/// bold, or red where it is negative, and the currency and any price or lot
/// faint.
pub open spec fn posting_pieces(content: Seq<char>, p: PostingView) -> Seq<Piece> {
    let s0 = at_col(content, p.account_cols.start as int);
    let s1 = larger(s0, at_col(content, p.account_cols.end as int));
    let head = appended(pushed(Seq::empty(), content.take(s0), plain_style()), tinted_account(content.subrange(s0, s1)));
    match p.amount {
        Some(a) => {
            let s2 = larger(s1, at_col(content, a.cols.start as int));
            let s3 = larger(s2, at_col(content, a.cols.start + bytes_of(a.value_text)));
            let number = if a.value.is_negative {
                Style { fg: Some(palette::red()), ..plain_style() }
            } else {
                Style { bold: true, ..plain_style() }
            };
            pushed(pushed(pushed(head, content.subrange(s1, s2), plain_style()), content.subrange(s2, s3), number),
                content.skip(s3), faint_style())
        },
        None => pushed(head, content.skip(s1), plain_style()),
    }
}

/// A lexed line's text, colored by what each part is: its comment faint and
/// italic, and before it, dates, directives and references each in their
/// own color.
pub open spec fn highlighted(raw: Seq<char>, kind: KindView) -> Seq<Piece> {
    let hash = index_of(raw, '#');
    let content = raw.take(hash);
    let body = match kind {
        KindView::Header { .. } => {
            let d = space_at(content, 0);
            pushed(pushed(Seq::empty(), content.take(d), Style { fg: Some(palette::accent()), ..plain_style() }),
                content.skip(d), Style { bold: true, ..plain_style() })
        },
        KindView::Directive { .. } => pushed(Seq::empty(), content, Style { fg: Some(palette::purple()), ..plain_style() }),
        KindView::Posting(p) => posting_pieces(content, p),
        KindView::Reference(_) => pushed(Seq::empty(), content, faint_style()),
        KindView::CommentOnly => pushed(Seq::empty(), content, faint_style()),
        _ => pushed(Seq::empty(), content, plain_style()),
    };
    pushed(body, raw.skip(hash), Style { italic: true, ..faint_style() })
}

/// A line of ledger text, highlighted where it lexes, and plain where it
/// does not.
pub open spec fn highlight_pieces(raw: Seq<char>) -> Seq<Piece> {
    if bytes_of(raw) < usize::MAX && lexed(raw) is Ok {
        highlighted(raw, lexed(raw)->Ok_0.kind)
    } else {
        pushed(Seq::empty(), raw, plain_style())
    }
}

/// The character of `s` at which byte column `c` falls.
fn char_at_col(s: &Vec<char>, c: usize) -> (r: usize)
    ensures
        r == at_col(s@, c as int),
        r <= s@.len(),
{
    let mut k: usize = 0;
    let mut b: usize = 0;
    assert(s@.take(0) =~= Seq::<char>::empty());
    proof { lemma_at_col_from(s@, c as int, 0); }
    while k < s.len() && b < c
        invariant
            k <= s@.len(),
            b == bytes_of(s@.take(k as int)),
            b <= c,
            at_col(s@, c as int) == at_col_from(s@, c as int, k as int),
        decreases s@.len() - k,
    {
        assert(s@.take(k + 1).drop_last() =~= s@.take(k as int));
        let n = char_len_utf8(s[k]);
        if n > c - b {
            k = k + 1;
            proof {
                lemma_at_col_from(s@, c as int, k as int);
                if k < s@.len() {
                    assert(bytes_of(s@.take(k as int)) >= c);
                }
            }
            return k;
        }
        b = b + n;
        k = k + 1;
    }
    k
}

/// `v` as a string.
fn text_of(v: &Vec<char>, a: usize, b: usize) -> (r: String)
    requires
        a <= b <= v@.len(),
    ensures
        r@ == v@.subrange(a as int, b as int),
{
    let mut out: Vec<char> = Vec::new();
    let mut i: usize = a;
    while i < b
        invariant
            a <= i <= b <= v@.len(),
            out@ == v@.subrange(a as int, i as int),
        decreases b - i,
    {
        out.push(v[i]);
        assert(v@.subrange(a as int, i + 1) =~= v@.subrange(a as int, i as int).push(v@[i as int]));
        i = i + 1;
    }
    string_of(&out)
}

/// A lexed line's text, colored by what each part is.
fn highlight_line(raw: &Vec<char>, kind: &LineKind) -> (r: Line)
    requires
        bytes_of(raw@) < usize::MAX,
    ensures
        r.pieces() == highlighted(raw@, kind@),
{
    let n = raw.len();
    let hash = find_char(raw, 0, '#');
    assert(raw@.subrange(0, n as int) =~= raw@);
    let ghost content = raw@.take(hash as int);
    let out = match kind {
        LineKind::Header(_) => {
            let mut d: usize = 0;
            proof { crate::syntax::lexer::lemma_space_at(content, 0); }
            while d < hash && !is_space_char(raw[d])
                invariant
                    d <= hash <= n,
                    n == raw@.len(),
                    content == raw@.take(hash as int),
                    space_at(content, 0) == space_at(content, d as int),
                decreases hash - d,
            {
                assert(content[d as int] == raw@[d as int]);
                d = d + 1;
            }
            assert(raw@.subrange(0, d as int) =~= content.take(d as int));
            assert(raw@.subrange(d as int, hash as int) =~= content.skip(d as int));
            Line::styled(text_of(raw, 0, d).as_str(), Style::color(palette::accent()))
                .with(text_of(raw, d, hash).as_str(), Style::new().bold())
        },
        LineKind::Directive(_) => {
            assert(raw@.subrange(0, hash as int) =~= content);
            Line::styled(text_of(raw, 0, hash).as_str(), Style::color(palette::purple()))
        },
        LineKind::Posting(p) => {
            let c = text_of(raw, 0, hash);
            assert(c@ =~= content);
            let cv = chars_of(c.as_str());
            let s0 = char_at_col(&cv, p.account_cols.start);
            let e0 = char_at_col(&cv, p.account_cols.end);
            let s1 = if s0 >= e0 { s0 } else { e0 };
            let name = text_of(&cv, 0, s0);
            let seg = text_of(&cv, s0, s1);
            let mut l = Line::plain(name.as_str()).followed_by(account(seg.as_str()));
            match &p.amount {
                Some(a) => {
                    let v2 = char_at_col(&cv, a.cols.start);
                    let s2 = if s1 >= v2 { s1 } else { v2 };
                    let value_bytes = value_len(&a.value_text);
                    let v3 = if value_bytes <= usize::MAX - a.cols.start {
                        char_at_col(&cv, a.cols.start + value_bytes)
                    } else {
                        cv.len()
                    };
                    proof {
                        lemma_bytes_of_prefix(raw@, hash as int, n as int);
                        assert(raw@.take(n as int) =~= raw@);
                        lemma_bytes_of_nonneg(a.value_text@);
                        if bytes_of(a.value_text@) >= usize::MAX || !(value_bytes <= usize::MAX - a.cols.start) {
                            lemma_at_col_whole(cv@, a.cols.start + bytes_of(a.value_text@));
                            if value_bytes <= usize::MAX - a.cols.start {
                                lemma_at_col_whole(cv@, a.cols.start + value_bytes);
                            }
                        }
                    }
                    let s3 = if s2 >= v3 { s2 } else { v3 };
                    let number = if a.value.is_negative {
                        Style::color(palette::red())
                    } else {
                        Style::new().bold()
                    };
                    l.push(text_of(&cv, s1, s2).as_str(), Style::new());
                    l.push(text_of(&cv, s2, s3).as_str(), number);
                    l.push(text_of(&cv, s3, cv.len()).as_str(), Style::faint());
                    proof {
                        assert(cv@.subrange(s3 as int, cv@.len() as int) =~= content.skip(s3 as int));
                    }
                    l
                },
                None => {
                    l.push(text_of(&cv, s1, cv.len()).as_str(), Style::new());
                    assert(cv@.subrange(s1 as int, cv@.len() as int) =~= content.skip(s1 as int));
                    l
                },
            }
        },
        LineKind::Reference(_) | LineKind::CommentOnly => {
            assert(raw@.subrange(0, hash as int) =~= content);
            Line::styled(text_of(raw, 0, hash).as_str(), Style::faint())
        },
        _ => {
            assert(raw@.subrange(0, hash as int) =~= content);
            Line::plain(text_of(raw, 0, hash).as_str())
        },
    };
    let mut out = out;
    assert(raw@.subrange(hash as int, n as int) =~= raw@.skip(hash as int));
    out.push(text_of(raw, hash, n).as_str(), Style::faint().italic());
    out
}

/// A byte column past the end of the text falls at its end.
proof fn lemma_at_col_whole(s: Seq<char>, c: int)
    requires
        c > bytes_of(s),
    ensures
        at_col(s, c) == s.len(),
{
    assert forall|k: int| 0 <= k <= s.len() implies at_col_from(s, c, k) == s.len() by {
        lemma_at_col_whole_from(s, c, k);
    }
}

proof fn lemma_at_col_whole_from(s: Seq<char>, c: int, k: int)
    requires
        c > bytes_of(s),
        0 <= k <= s.len(),
    ensures
        at_col_from(s, c, k) == s.len(),
    decreases s.len() - k,
{
    if k < s.len() {
        lemma_bytes_of_prefix(s, k, s.len() as int);
        assert(s.take(s.len() as int) =~= s);
        lemma_at_col_whole_from(s, c, k + 1);
    }
}

/// The length of a text in bytes, or the largest `usize` where it is at
/// least that long.
fn value_len(text: &String) -> (r: usize)
    ensures
        r == (if bytes_of(text@) < usize::MAX { bytes_of(text@) } else { usize::MAX as int }),
{
    let v = chars_of(text.as_str());
    assert(v@ == text@);
    let mut b: usize = 0;
    let mut i: usize = 0;
    assert(v@.take(0) =~= Seq::<char>::empty());
    while i < v.len()
        invariant
            i <= v@.len(),
            b == bytes_of(v@.take(i as int)),
            b < usize::MAX,
            v@ == text@,
        decreases v@.len() - i,
    {
        assert(v@.take(i + 1).drop_last() =~= v@.take(i as int));
        let n = char_len_utf8(v[i]);
        assert(bytes_of(v@.take(i + 1)) == b + n);
        if n >= usize::MAX - b {
            proof {
                lemma_bytes_of_prefix(v@, i + 1, v@.len() as int);
                assert(v@.take(v@.len() as int) =~= v@);
            }
            return usize::MAX;
        }
        b = b + n;
        i = i + 1;
    }
    assert(v@.take(v@.len() as int) =~= v@);
    b
}

/// Whether a line's text takes fewer bytes than the largest `usize`.
pub(crate) fn fits(v: &Vec<char>) -> (r: bool)
    ensures
        r == (bytes_of(v@) < usize::MAX),
{
    let s = string_of(v);
    value_len(&s) < usize::MAX
}

/// Ledger text colored by what each part is, keeping its exact spacing
pub fn highlight(text: &str) -> (r: Vec<Line>)
    ensures
        r@.len() == text_lines(text@).len(),
        forall|i: int| 0 <= i < r@.len() ==> (#[trigger] r@[i]).pieces() == highlight_pieces(text_lines(text@)[i]),
{
    let mut map = SourceMap::new();
    let file = map.add(SourceFile::new(string_of(&Vec::new()), string_of(&Vec::new())));
    let lines = text_lines_of(text);
    let ghost all = text_lines(text@);
    let mut out: Vec<Line> = Vec::new();
    let mut i: usize = 0;
    while i < lines.len()
        invariant
            i <= lines@.len(),
            lines.deep_view() == all,
            all == text_lines(text@),
            out@.len() == i,
            forall|k: int| 0 <= k < i ==> (#[trigger] out@[k]).pieces() == highlight_pieces(all[k]),
        decreases lines@.len() - i,
    {
        let raw = &lines[i];
        assert(all[i as int] == raw@);
        let line = if fits(raw) && i < usize::MAX {
            let s = string_of(raw);
            match lex_line(s.as_str(), file, i + 1) {
                Ok(l) => highlight_line(raw, &l.kind),
                Err(_) => Line::plain(s.as_str()),
            }
        } else {
            Line::plain(string_of(raw).as_str())
        };
        out.push(line);
        i = i + 1;
    }
    out
}

proof fn lemma_joined_front(a: Seq<char>, rest: Seq<Seq<char>>, c: char)
    requires
        rest.len() >= 1,
    ensures
        joined(seq![a] + rest, c) == a + seq![c] + joined(rest, c),
    decreases rest.len(),
{
    let all = seq![a] + rest;
    if rest.len() == 1 {
        assert(all.drop_last() =~= seq![a]);
        assert(all.last() == rest[0]);
        assert(joined(seq![a], c) == a);
        assert(joined(rest, c) == rest[0]);
        assert(joined(all, c) == joined(all.drop_last(), c) + seq![c] + all.last());
    } else {
        lemma_joined_front(a, rest.drop_last(), c);
        assert(all.drop_last() =~= seq![a] + rest.drop_last());
        assert(all.last() == rest.last());
        assert(joined(all, c) =~= a + seq![c] + joined(rest, c));
    }
}

/// Joining the pieces between the occurrences of a character, with that
/// character, gives back the text.
pub proof fn lemma_split_joined(s: Seq<char>, c: char)
    ensures
        joined(split_on(s, c), c) == s,
    decreases s.len(),
{
    lemma_index_of_bounds(s, c);
    let i = index_of(s, c);
    if i < s.len() {
        let rest = s.skip(i + 1);
        lemma_split_joined(rest, c);
        lemma_split_on_nonempty(rest, c);
        lemma_joined_front(s.take(i), split_on(rest, c), c);
        assert(s =~= s.take(i) + seq![c] + rest);
    }
}

proof fn lemma_account_text(segs: Seq<Seq<char>>, tint: Style, k: int)
    requires
        0 <= k <= segs.len(),
    ensures
        flat_text(account_pieces(segs, tint, k)) == joined(segs.take(k), ':'),
    decreases k,
{
    if k == 0 {
        assert(segs.take(0) =~= Seq::<Seq<char>>::empty());
    } else if k == 1 {
        lemma_pushed_text(Seq::empty(), segs[0], tint);
        assert(flat_text(Seq::<Piece>::empty()) + segs[0] =~= segs[0]);
    } else {
        lemma_account_text(segs, tint, k - 1);
        let p = account_pieces(segs, tint, k - 1);
        lemma_pushed_text(p, seq![':'], faint_style());
        lemma_pushed_text(pushed(p, seq![':'], faint_style()), segs[k - 1], plain_style());
        assert(segs.take(k).drop_last() =~= segs.take(k - 1));
    }
}

/// An account name tinted keeps its text.
pub proof fn lemma_tinted_text(name: Seq<char>)
    ensures
        flat_text(tinted_account(name)) == name,
{
    let segs = split_on(name, ':');
    lemma_split_on_nonempty(name, ':');
    lemma_account_text(segs, Style { fg: Some(category_of(name)), ..plain_style() }, segs.len() as int);
    assert(segs.take(segs.len() as int) =~= segs);
    lemma_split_joined(name, ':');
}

proof fn lemma_posting_text(content: Seq<char>, p: PostingView)
    ensures
        flat_text(posting_pieces(content, p)) == content,
{
    let e: Seq<Piece> = Seq::empty();
    let s0 = at_col(content, p.account_cols.start as int);
    lemma_at_col_from(content, p.account_cols.start as int, 0);
    lemma_at_col_from(content, p.account_cols.end as int, 0);
    let s1 = larger(s0, at_col(content, p.account_cols.end as int));
    let first = pushed(e, content.take(s0), plain_style());
    lemma_pushed_text(e, content.take(s0), plain_style());
    assert(flat_text(e) =~= Seq::<char>::empty());
    lemma_tinted_text(content.subrange(s0, s1));
    lemma_appended_text(first, tinted_account(content.subrange(s0, s1)));
    let head = appended(first, tinted_account(content.subrange(s0, s1)));
    assert(flat_text(head) =~= content.take(s1));
    match p.amount {
        Some(a) => {
            lemma_at_col_from(content, a.cols.start as int, 0);
            lemma_at_col_from(content, a.cols.start + bytes_of(a.value_text), 0);
            let s2 = larger(s1, at_col(content, a.cols.start as int));
            let s3 = larger(s2, at_col(content, a.cols.start + bytes_of(a.value_text)));
            let number = if a.value.is_negative {
                Style { fg: Some(palette::red()), ..plain_style() }
            } else {
                Style { bold: true, ..plain_style() }
            };
            let h1 = pushed(head, content.subrange(s1, s2), plain_style());
            let h2 = pushed(h1, content.subrange(s2, s3), number);
            lemma_pushed_text(head, content.subrange(s1, s2), plain_style());
            lemma_pushed_text(h1, content.subrange(s2, s3), number);
            lemma_pushed_text(h2, content.skip(s3), faint_style());
            assert(content =~= content.take(s1) + content.subrange(s1, s2) + content.subrange(s2, s3) + content.skip(s3));
        },
        None => {
            lemma_pushed_text(head, content.skip(s1), plain_style());
            assert(content =~= content.take(s1) + content.skip(s1));
        },
    }
}

proof fn lemma_header_text(content: Seq<char>)
    ensures
        ({
            let d = space_at(content, 0);
            flat_text(pushed(pushed(Seq::empty(), content.take(d), Style { fg: Some(palette::accent()), ..plain_style() }),
                content.skip(d), Style { bold: true, ..plain_style() })) == content
        }),
{
    let e: Seq<Piece> = Seq::empty();
    let d = space_at(content, 0);
    crate::syntax::lexer::lemma_space_at(content, 0);
    let a = Style { fg: Some(palette::accent()), ..plain_style() };
    lemma_pushed_text(e, content.take(d), a);
    assert(flat_text(e) =~= Seq::<char>::empty());
    lemma_pushed_text(pushed(e, content.take(d), a), content.skip(d), Style { bold: true, ..plain_style() });
    assert(content =~= content.take(d) + content.skip(d));
}

/// Highlighting a line of ledger text changes only how it looks: its text,
/// every space included, is kept exactly.
pub proof fn lemma_highlight_keeps_text(raw: Seq<char>)
    ensures
        flat_text(highlight_pieces(raw)) == raw,
{
    let e: Seq<Piece> = Seq::empty();
    assert(flat_text(e) =~= Seq::<char>::empty());
    if bytes_of(raw) < usize::MAX && lexed(raw) is Ok {
        let kind = lexed(raw)->Ok_0.kind;
        lemma_index_of_bounds(raw, '#');
        let hash = index_of(raw, '#');
        let content = raw.take(hash);
        let body = match kind {
            KindView::Header { .. } => {
                let d = space_at(content, 0);
                pushed(pushed(e, content.take(d), Style { fg: Some(palette::accent()), ..plain_style() }),
                    content.skip(d), Style { bold: true, ..plain_style() })
            },
            KindView::Directive { .. } => pushed(e, content, Style { fg: Some(palette::purple()), ..plain_style() }),
            KindView::Posting(p) => posting_pieces(content, p),
            KindView::Reference(_) => pushed(e, content, faint_style()),
            KindView::CommentOnly => pushed(e, content, faint_style()),
            _ => pushed(e, content, plain_style()),
        };
        assert(flat_text(body) == content) by {
            match kind {
                KindView::Header { .. } => lemma_header_text(content),
                KindView::Posting(p) => lemma_posting_text(content, p),
                KindView::Directive { .. } => lemma_pushed_text(e, content, Style { fg: Some(palette::purple()), ..plain_style() }),
                KindView::Reference(_) => lemma_pushed_text(e, content, faint_style()),
                KindView::CommentOnly => lemma_pushed_text(e, content, faint_style()),
                _ => lemma_pushed_text(e, content, plain_style()),
            }
        }
        lemma_pushed_text(body, raw.skip(hash), Style { italic: true, ..faint_style() });
        assert(raw =~= content + raw.skip(hash));
    } else {
        lemma_pushed_text(e, raw, plain_style());
        assert(flat_text(e) + raw =~= raw);
    }
}

} // verus!

verus! {

/// Whether a search for `term` finds an entry with this description.
pub open spec fn description_hit(description: Seq<char>, term: Seq<char>) -> bool {
    bytes_of(description) < usize::MAX && found(description, term) is Some
}

/// Searching the first `n` items for `term`: the entries found so far, each
/// as the places of its lines, the places of the entry being read, and
/// whether its description matches. A header starts an entry and a blank
/// line or the end of a file ends it; every other line belongs to it.
pub open spec fn search_state(items: Seq<ItemView>, term: Seq<char>, n: int)
    -> (Seq<Seq<(FileId, usize)>>, Seq<(FileId, usize)>, bool)
    decreases n,
{
    if n <= 0 {
        (Seq::empty(), Seq::empty(), false)
    } else {
        let s = search_state(items, term, n - 1);
        let closed = if s.2 { s.0.push(s.1) } else { s.0 };
        match items[n - 1] {
            ItemView::EndOfFile(_) => (closed, Seq::empty(), false),
            ItemView::Line { file, number, line } => match line.kind {
                KindView::Blank => (closed, Seq::empty(), false),
                KindView::Header { description, .. } => (closed, seq![(file, number)], description_hit(description, term)),
                _ => (s.0, s.1.push((file, number)), s.2),
            },
        }
    }
}

/// The entries whose description a search for `term` finds, in order, each
/// as the places of its lines.
pub open spec fn search_hits(items: Seq<ItemView>, term: Seq<char>) -> Seq<Seq<(FileId, usize)>> {
    let s = search_state(items, term, items.len() as int);
    if s.2 { s.0.push(s.1) } else { s.0 }
}

/// The places as plain values.
pub open spec fn places_view(v: Seq<Vec<(FileId, usize)>>) -> Seq<Seq<(FileId, usize)>> {
    v.map_values(|p: Vec<(FileId, usize)>| p@)
}

/// The entries whose description matches `term`, in order, each as the
/// file and number of each of its lines.
pub fn entries_matching(items: &[Item], term: &str) -> (r: Vec<Vec<(FileId, usize)>>)
    ensures
        places_view(r@) == search_hits(items_view(items@), term@),
{
    let ghost iv = items_view(items@);
    let mut out: Vec<Vec<(FileId, usize)>> = Vec::new();
    let mut entry: Vec<(FileId, usize)> = Vec::new();
    let mut hit = false;
    let mut i: usize = 0;
    while i < items.len()
        invariant
            i <= items@.len(),
            iv == items_view(items@),
            (places_view(out@), entry@, hit) == search_state(iv, term@, i as int),
        decreases items@.len() - i,
    {
        assert(iv[i as int] == items@[i as int]@);
        let ghost before = out@;
        let mut ends = false;
        let mut starts: Option<(FileId, usize, bool)> = None;
        let mut place: Option<(FileId, usize)> = None;
        match &items[i] {
            Item::EndOfFile(_) => {
                ends = true;
            },
            Item::Line { file, number, line } => match &line.kind {
                LineKind::Blank => {
                    ends = true;
                },
                LineKind::Header(h) => {
                    let d = chars_of(h.description.as_str());
                    let matched = fits(&d) && find(h.description.as_str(), term).is_some();
                    starts = Some((*file, *number, matched));
                },
                _ => {
                    place = Some((*file, *number));
                },
            },
        }
        if ends || starts.is_some() {
            if hit {
                let mut done: Vec<(FileId, usize)> = Vec::new();
                std::mem::swap(&mut done, &mut entry);
                let ghost dv = done@;
                out.push(done);
                assert(places_view(out@) =~= places_view(before).push(dv));
            }
            entry = Vec::new();
            hit = false;
        }
        match starts {
            Some((file, number, matched)) => {
                entry.push((file, number));
                hit = matched;
            },
            None => {},
        }
        match place {
            Some(p) => {
                entry.push(p);
            },
            None => {},
        }
        proof {
            assert(entry@ =~= search_state(iv, term@, i + 1).1);
        }
        i = i + 1;
    }
    if hit {
        let ghost before = out@;
        let ghost ev = entry@;
        out.push(entry);
        assert(places_view(out@) =~= places_view(before).push(ev));
    }
    out
}

} // verus!
