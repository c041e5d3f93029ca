//! A directive written back from what was read of it reads as the same
//! directive.

use vstd::prelude::*;
use crate::syntax::lexer::{
    lexed, read_kind, read_directive, read_directive_kind, words_from, space_at, col, keyword_of,
    args_of, include_word, starts_include, DirectiveView, KindView, LineView, Fault, Cols, lemma_trimmed_first,
};
use crate::text::chars::{is_space, index_of, lead_spaces, kept_len, trim_start, trimmed, lemma_index_of,
    lemma_index_of_bounds};
use crate::text::digits::{is_digit, decimal_chars};
use crate::util::date::{Date, date_text, zero_padded, read_date};

verus! {

/// A run of characters as the lexer reads a word: not empty, with no white
/// space and no `#` in it.
pub open spec fn plain_word(w: Seq<char>) -> bool {
    &&& w.len() > 0
    &&& forall|m: int| 0 <= m < w.len() ==> !is_space(#[trigger] w[m]) && w[m] != '#'
}

/// The parts, each after one space.
pub open spec fn spaced(parts: Seq<Seq<char>>) -> Seq<char>
    decreases parts.len(),
{
    if parts.len() == 0 {
        Seq::empty()
    } else {
        seq![' '] + parts[0] + spaced(parts.drop_first())
    }
}

proof fn lemma_space_at_exact(s: Seq<char>, i: int, k: int)
    requires
        0 <= i <= k <= s.len(),
        forall|j: int| i <= j < k ==> !is_space(#[trigger] s[j]),
        k == s.len() || is_space(s[k]),
    ensures
        space_at(s, i) == k,
    decreases k - i,
{
    if i < k {
        lemma_space_at_exact(s, i + 1, k);
    }
}

/// The words after `pre` in `pre` followed by the spaced parts are the parts.
proof fn lemma_words_spaced(pre: Seq<char>, parts: Seq<Seq<char>>, base: int)
    requires
        forall|j: int| 0 <= j < parts.len() ==> plain_word(#[trigger] parts[j]),
    ensures
        words_from(pre + spaced(parts), pre.len() as int, base).len() == parts.len(),
        forall|j: int| 0 <= j < parts.len()
            ==> (#[trigger] words_from(pre + spaced(parts), pre.len() as int, base)[j]).0 == parts[j],
    decreases parts.len(),
{
    let s = pre + spaced(parts);
    let i = pre.len() as int;
    if parts.len() == 0 {
        assert(s =~= pre);
    } else {
        let w = parts[0];
        let rest = parts.drop_first();
        let pre2 = pre + seq![' '] + w;
        assert(s =~= pre2 + spaced(rest));
        assert(s[i] == ' ');
        assert(plain_word(w));
        let k = i + 1 + w.len();
        assert forall|j: int| i + 1 <= j < k implies !is_space(#[trigger] s[j]) by {
            assert(s[j] == w[j - i - 1]);
        }
        if rest.len() > 0 {
            assert(spaced(rest)[0] == ' ');
            assert(s[k] == ' ');
        } else {
            assert(spaced(rest) =~= Seq::<char>::empty());
            assert(k == s.len());
        }
        lemma_space_at_exact(s, i + 1, k);
        assert(s.subrange(i + 1, k) =~= w);
        assert forall|j: int| 0 <= j < rest.len() implies plain_word(#[trigger] rest[j]) by {
            assert(rest[j] == parts[j + 1]);
        }
        lemma_words_spaced(pre2, rest, base);
        assert(pre2.len() == k);
        let tail = words_from(s, k, base);
        assert(words_from(s, i, base) == words_from(s, i + 1, base));
        assert(words_from(s, i + 1, base) == seq![(w, col(s, base, i + 1), col(s, base, k))] + tail);
        assert forall|j: int| 0 <= j < parts.len()
            implies (#[trigger] words_from(s, i, base)[j]).0 == parts[j] by {
            if j > 0 {
                assert(words_from(s, i, base)[j] == tail[j - 1]);
                assert(rest[j - 1] == parts[j]);
            }
        }
    }
}

/// The words of text without a `#` are plain words.
proof fn lemma_words_plain(s: Seq<char>, i: int, base: int)
    requires
        0 <= i <= s.len(),
        forall|m: int| 0 <= m < s.len() ==> #[trigger] s[m] != '#',
    ensures
        forall|j: int| 0 <= j < words_from(s, i, base).len() ==> plain_word((#[trigger] words_from(s, i, base)[j]).0),
    decreases s.len() - i,
{
    if i < s.len() {
        if is_space(s[i]) {
            lemma_words_plain(s, i + 1, base);
            assert(words_from(s, i, base) == words_from(s, i + 1, base));
        } else {
            let k = space_at(s, i);
            crate::syntax::lexer::lemma_space_at(s, i);
            crate::syntax::lexer::lemma_space_at(s, i + 1);
            lemma_words_plain(s, k, base);
            let w = s.subrange(i, k);
            assert(plain_word(w)) by {
                assert forall|m: int| 0 <= m < w.len() implies !is_space(#[trigger] w[m]) && w[m] != '#' by {
                    assert(w[m] == s[i + m]);
                }
            }
            let ws = words_from(s, i, base);
            let rest = words_from(s, k, base);
            assert(ws == seq![(w, col(s, base, i), col(s, base, k))] + rest);
            assert forall|j: int| 0 <= j < ws.len() implies plain_word((#[trigger] ws[j]).0) by {
                if j > 0 {
                    assert(ws[j] == rest[j - 1]);
                }
            }
        }
    }
}

/// The parts, spaced, hold no `#`, and end in a character that is not
/// white space.
proof fn lemma_spaced_plain(parts: Seq<Seq<char>>)
    requires
        forall|j: int| 0 <= j < parts.len() ==> plain_word(#[trigger] parts[j]),
    ensures
        forall|m: int| 0 <= m < spaced(parts).len() ==> #[trigger] spaced(parts)[m] != '#',
        parts.len() > 0 ==> spaced(parts).len() > 0 && !is_space(spaced(parts).last()),
    decreases parts.len(),
{
    if parts.len() > 0 {
        let w = parts[0];
        let rest = parts.drop_first();
        assert(plain_word(w));
        assert forall|j: int| 0 <= j < rest.len() implies plain_word(#[trigger] rest[j]) by {
            assert(rest[j] == parts[j + 1]);
        }
        lemma_spaced_plain(rest);
        let t = spaced(parts);
        assert(t == seq![' '] + w + spaced(rest));
        assert forall|m: int| 0 <= m < t.len() implies #[trigger] t[m] != '#' by {
            if m > 0 && m <= w.len() {
                assert(t[m] == w[m - 1]);
            } else if m > w.len() {
                assert(t[m] == spaced(rest)[m - 1 - w.len()]);
            }
        }
        if rest.len() == 0 {
            assert(spaced(rest) =~= Seq::<char>::empty());
            assert(t.last() == w[w.len() - 1]);
        } else {
            assert(t.last() == spaced(rest).last());
        }
    }
}

proof fn lemma_decimal_plain(v: nat)
    ensures
        decimal_chars(v).len() > 0,
        forall|m: int| 0 <= m < decimal_chars(v).len() ==> is_digit(#[trigger] decimal_chars(v)[m]),
    decreases v,
{
    if v >= 10 {
        lemma_decimal_plain(v / 10);
        let t = decimal_chars(v);
        assert forall|m: int| 0 <= m < t.len() implies is_digit(#[trigger] t[m]) by {
            if m < t.len() - 1 {
                assert(t[m] == decimal_chars(v / 10)[m]);
            }
        }
    }
}

proof fn lemma_padded_plain(n: nat, width: nat)
    ensures
        zero_padded(n, width).len() > 0,
        forall|m: int| 0 <= m < zero_padded(n, width).len() ==> is_digit(#[trigger] zero_padded(n, width)[m]),
{
    lemma_decimal_plain(n);
    let digits = decimal_chars(n);
    let t = zero_padded(n, width);
    if digits.len() < width {
        let pad = Seq::new((width - digits.len()) as nat, |_i: int| '0');
        assert forall|m: int| 0 <= m < t.len() implies is_digit(#[trigger] t[m]) by {
            if m < pad.len() {
                assert(t[m] == '0');
            } else {
                assert(t[m] == digits[m - pad.len()]);
            }
        }
    }
}

/// A written date is a plain word: digits, dashes and a sign.
proof fn lemma_date_plain(d: Date)
    ensures
        plain_word(date_text(d)),
{
    lemma_padded_plain(if d.year < 0 { (-d.year) as nat } else { d.year as nat }, 4);
    lemma_padded_plain(d.month as nat, 2);
    lemma_padded_plain(d.day as nat, 2);
    let year = if 0 <= d.year <= 9999 {
        zero_padded(d.year as nat, 4)
    } else if d.year < 0 {
        seq!['-'] + zero_padded((-d.year) as nat, 4)
    } else {
        seq!['+'] + zero_padded(d.year as nat, 4)
    };
    assert forall|m: int| 0 <= m < year.len() implies is_digit(#[trigger] year[m]) || year[m] == '-' || year[m] == '+' by {
        if 0 <= d.year <= 9999 {
        } else if d.year < 0 {
            if m > 0 {
                assert(year[m] == zero_padded((-d.year) as nat, 4)[m - 1]);
            }
        } else {
            if m > 0 {
                assert(year[m] == zero_padded(d.year as nat, 4)[m - 1]);
            }
        }
    }
    let mo = zero_padded(d.month as nat, 2);
    let da = zero_padded(d.day as nat, 2);
    let t = date_text(d);
    assert(t == year + seq!['-'] + mo + seq!['-'] + da);
    assert forall|m: int| 0 <= m < t.len() implies !is_space(#[trigger] t[m]) && t[m] != '#' by {
        if m < year.len() {
            assert(t[m] == year[m]);
        } else if m == year.len() {
        } else if m < year.len() + 1 + mo.len() {
            assert(t[m] == mo[m - year.len() - 1]);
        } else if m == year.len() + 1 + mo.len() {
        } else {
            assert(t[m] == da[m - year.len() - 2 - mo.len()]);
        }
    }
}

/// How a directive is written: `!`, its date, its keyword and its
/// arguments, one space apart.
pub open spec fn directive_text(date: Date, d: DirectiveView) -> Seq<char> {
    seq!['!', ' '] + date_text(date) + seq![' '] + keyword_of(d) + seq![' '] + args_of(d)
}

/// The words a directive's arguments are written with.
pub open spec fn arg_words(d: DirectiveView) -> Seq<Seq<char>> {
    match d {
        DirectiveView::Account(a) => seq![a],
        DirectiveView::Open(a) => seq![a],
        DirectiveView::Close(a) => seq![a],
        DirectiveView::Currency(a) => seq![a],
        DirectiveView::Clear(a) => seq![a],
        DirectiveView::Worthless(a) => seq![a],
        DirectiveView::Rate { base, quote, rate_text, .. } => seq![base, quote, rate_text],
    }
}

/// The text reads as a directive line, with no comment, of that date and
/// directive.
pub open spec fn reads_as(text: Seq<char>, date: Date, d: DirectiveView) -> bool {
    &&& lexed(text) is Ok
    &&& lexed(text)->Ok_0.comment is None
    &&& lexed(text)->Ok_0.kind is Directive
    &&& lexed(text)->Ok_0.kind->Directive_date == date
    &&& lexed(text)->Ok_0.kind->directive == d
}

/// A directive read from a line, written back as `!`, its date, its
/// keyword and its arguments, reads as the same directive on the same day:
/// the arguments are written so that they read back as they were. (The
/// date reads back through chrono, which reads the dates it writes.)
pub proof fn lemma_directive_reads_back(raw: Seq<char>)
    ensures
        lexed(raw) matches Ok(v) ==> (v.kind matches KindView::Directive { date, directive, .. } ==> (
            read_date(date_text(date)) == Some(date) ==> reads_as(directive_text(date, directive), date, directive))),
{
    match lexed(raw) {
        Ok(v) => {
            match v.kind {
                KindView::Directive { date, directive, .. } => {
                    if read_date(date_text(date)) == Some(date) {
                        lemma_reads_back(raw, date, directive);
                    }
                },
                _ => {},
            }
        },
        Err(_) => {},
    }
}

/// What a directive line was read from: its keyword and its arguments,
/// plain words, and the directive they read as.
#[verifier::spinoff_prover]
proof fn lemma_source(raw: Seq<char>, date: Date, directive: DirectiveView)
    -> (r: (Seq<char>, Seq<(Seq<char>, int, int)>, (int, int), (int, int), Cols))
    requires
        lexed(raw) is Ok,
        lexed(raw)->Ok_0.kind is Directive,
        lexed(raw)->Ok_0.kind->Directive_date == date,
        lexed(raw)->Ok_0.kind->directive == directive,
    ensures
        plain_word(r.0),
        keyword_of(directive) == r.0,
        r.1.len() == arg_words(directive).len(),
        forall|j: int| 0 <= j < r.1.len() ==> plain_word(#[trigger] arg_words(directive)[j]) && r.1[j].0 == arg_words(directive)[j],
        read_directive_kind(r.0, r.1, r.2, r.3, date, r.4) == Ok::<DirectiveView, Fault>(directive),
{
    let hash = index_of(raw, '#');
    lemma_index_of_bounds(raw, '#');
    let before = raw.take(hash);
    let content = trimmed(before);
    lemma_trimmed_first(before);
    let offset = crate::text::utf8::bytes_of(before.take(lead_spaces(before)));
    let has_comment = hash < raw.len();
    let c1 = content.skip(1);
    let base1 = offset + 1;
    assert(content.len() > 0 && content[0] == '!' && (read_directive(c1, base1) matches Ok(x) && x.0 == date && x.1 == directive)) by {
        assert(read_kind(content, offset, has_comment) is Ok);
    }
    let ls = lead_spaces(before);
    assert forall|m: int| 0 <= m < c1.len() implies #[trigger] c1[m] != '#' by {
        assert(c1[m] == content[m + 1]);
        assert(content[m + 1] == before[ls + m + 1]);
        assert(before[ls + m + 1] == raw[ls + m + 1]);
    }
    lemma_words_plain(c1, 0, base1);
    let ws = words_from(c1, 0, base1);
    let whole = (base1 - 1, base1 + crate::text::utf8::bytes_of(c1));
    let args = ws.skip(2);
    let arg_cols = if args.len() > 0 { crate::syntax::lexer::cols(args[0].1, args.last().2) } else {
        crate::syntax::lexer::cols(ws[1].2, ws[1].2) };
    assert(ws.len() >= 2 && read_directive_kind(ws[1].0, args, (ws[1].1, ws[1].2), whole, date, arg_cols)
        == Ok::<DirectiveView, Fault>(directive));
    let kw = ws[1].0;
    assert(plain_word(kw));
    assert(keyword_of(directive) == kw);
    let aw = arg_words(directive);
    assert(args.len() == aw.len());
    assert forall|j: int| 0 <= j < args.len() implies plain_word(#[trigger] aw[j]) && args[j].0 == aw[j] by {
        assert(args[j] == ws[j + 2]);
    }
    (kw, args, (ws[1].1, ws[1].2), whole, arg_cols)
}

/// Reading a directive's keyword and arguments depends on the arguments'
/// words alone, where it succeeds.
proof fn lemma_same_words(
    kw: Seq<char>,
    args: Seq<(Seq<char>, int, int)>,
    args2: Seq<(Seq<char>, int, int)>,
    k1: (int, int),
    w1: (int, int),
    c1: Cols,
    k2: (int, int),
    w2: (int, int),
    c2: Cols,
    date: Date,
    d: DirectiveView,
)
    requires
        read_directive_kind(kw, args, k1, w1, date, c1) == Ok::<DirectiveView, Fault>(d),
        args.len() == args2.len(),
        forall|j: int| 0 <= j < args.len() ==> #[trigger] args2[j].0 == args[j].0,
    ensures
        read_directive_kind(kw, args2, k2, w2, date, c2) == Ok::<DirectiveView, Fault>(d),
{
    if args.len() > 0 {
        assert(args2[0].0 == args[0].0);
    }
    if args.len() == 3 {
        assert(args2[1].0 == args[1].0);
        assert(args2[2].0 == args[2].0);
    }
}

/// A line that is `!` and then text without a `#`, ending in a character
/// that is not white space, reads as the directive that text reads as.
#[verifier::spinoff_prover]
proof fn lemma_bang_line(t: Seq<char>)
    requires
        t.len() > 0,
        !is_space(t.last()),
        forall|m: int| 0 <= m < t.len() ==> #[trigger] t[m] != '#',
    ensures
        lexed(seq!['!'] + t) == (match read_directive(t, 1) {
            Ok((date, directive, args)) => Ok(LineView { kind: KindView::Directive { date, directive, args }, comment: None }),
            Err(f) => Err(f),
        }),
{
    let text = seq!['!'] + t;
    assert forall|m: int| 0 <= m < text.len() implies #[trigger] text[m] != '#' by {
        if m > 0 {
            assert(text[m] == t[m - 1]);
        }
    }
    lemma_index_of(text, '#', text.len() as int);
    assert(text.take(text.len() as int) =~= text);
    assert(lead_spaces(text) == 0);
    assert(text.take(0) =~= Seq::<char>::empty());
    assert(trim_start(text) =~= text);
    assert(text.last() == t.last());
    assert(kept_len(text) == text.len());
    assert(trimmed(text) =~= text);
    assert(!starts_include(text)) by {
        if text.len() >= 7 {
            assert(text.take(7)[0] == '!');
            assert(include_word()[0] == 'i');
        }
    }
    assert(text.skip(1) =~= t);
}

/// The spaced parts, a date, a keyword and its argument words, read as the
/// directive, where the date reads back.
#[verifier::spinoff_prover]
proof fn lemma_spaced_directive(
    t: Seq<char>,
    parts: Seq<Seq<char>>,
    date: Date,
    directive: DirectiveView,
    kw: Seq<char>,
    args: Seq<(Seq<char>, int, int)>,
    k1: (int, int),
    w1: (int, int),
    c1: Cols,
)
    requires
        t == spaced(parts),
        parts == seq![date_text(date), kw] + arg_words(directive),
        forall|j: int| 0 <= j < parts.len() ==> plain_word(#[trigger] parts[j]),
        read_date(date_text(date)) == Some(date),
        args.len() == arg_words(directive).len(),
        forall|j: int| 0 <= j < args.len() ==> #[trigger] args[j].0 == arg_words(directive)[j],
        read_directive_kind(kw, args, k1, w1, date, c1) == Ok::<DirectiveView, Fault>(directive),
    ensures
        read_directive(t, 1) matches Ok(x) && x.0 == date && x.1 == directive,
{
    let aw = arg_words(directive);
    lemma_words_spaced(Seq::empty(), parts, 1);
    assert(Seq::<char>::empty() + t =~= t);
    let ws2 = words_from(t, 0, 1);
    assert(ws2.len() == parts.len());
    assert(ws2[0].0 == date_text(date));
    assert(ws2[1].0 == kw);
    let args2 = ws2.skip(2);
    assert forall|j: int| 0 <= j < args.len() implies #[trigger] args2[j].0 == args[j].0 by {
        assert(args2[j] == ws2[j + 2]);
        assert(parts[j + 2] == aw[j]);
    }
    let whole2 = (0int, 1 + crate::text::utf8::bytes_of(t));
    let arg_cols2 = if args2.len() > 0 { crate::syntax::lexer::cols(args2[0].1, args2.last().2) } else {
        crate::syntax::lexer::cols(ws2[1].2, ws2[1].2) };
    lemma_same_words(kw, args, args2, k1, w1, c1, (ws2[1].1, ws2[1].2), whole2, arg_cols2, date, directive);
}

#[verifier::spinoff_prover]
proof fn lemma_reads_back(raw: Seq<char>, date: Date, directive: DirectiveView)
    requires
        lexed(raw) is Ok,
        lexed(raw)->Ok_0.kind is Directive,
        lexed(raw)->Ok_0.kind->Directive_date == date,
        lexed(raw)->Ok_0.kind->directive == directive,
        read_date(date_text(date)) == Some(date),
    ensures
        reads_as(directive_text(date, directive), date, directive),
{
    let (kw, args, k1, w1, c1) = lemma_source(raw, date, directive);
    lemma_written(date, directive, kw, args, k1, w1, c1);
}

/// The written directive is `!` and then its date, keyword and argument
/// words, spaced.
proof fn lemma_directive_spaced(date: Date, directive: DirectiveView, kw: Seq<char>)
    requires
        keyword_of(directive) == kw,
    ensures
        directive_text(date, directive) == seq!['!'] + spaced(seq![date_text(date), kw] + arg_words(directive)),
{
    reveal_with_fuel(spaced, 6);
    assert(directive_text(date, directive) =~= seq!['!'] + spaced(seq![date_text(date), kw] + arg_words(directive)));
}

#[verifier::spinoff_prover]
proof fn lemma_written(
    date: Date,
    directive: DirectiveView,
    kw: Seq<char>,
    args: Seq<(Seq<char>, int, int)>,
    k1: (int, int),
    w1: (int, int),
    c1: Cols,
)
    requires
        plain_word(kw),
        keyword_of(directive) == kw,
        args.len() == arg_words(directive).len(),
        forall|j: int| 0 <= j < args.len() ==> plain_word(#[trigger] arg_words(directive)[j]) && args[j].0 == arg_words(directive)[j],
        read_directive_kind(kw, args, k1, w1, date, c1) == Ok::<DirectiveView, Fault>(directive),
        read_date(date_text(date)) == Some(date),
    ensures
        reads_as(directive_text(date, directive), date, directive),
{
    let aw = arg_words(directive);
    lemma_date_plain(date);
    let parts = seq![date_text(date), kw] + aw;
    assert forall|j: int| 0 <= j < parts.len() implies plain_word(#[trigger] parts[j]) by {
        if j >= 2 {
            assert(parts[j] == aw[j - 2]);
        }
    }
    let t = spaced(parts);
    lemma_directive_spaced(date, directive, kw);
    lemma_spaced_plain(parts);
    lemma_spaced_directive(t, parts, date, directive, kw, args, k1, w1, c1);
    lemma_bang_line(t);
}

} // verus!
