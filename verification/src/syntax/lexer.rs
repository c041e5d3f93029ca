//! Classifies single lines of ledger text and breaks them into their parts.
//!
//! This is the one place that knows the ledger syntax: what is built from a
//! ledger, how it is formatted and how entries are composed all start from
//! what it produces.

use vstd::prelude::*;
use crate::diagnostics::{Diagnostic, Severity, opt_view, notes_view, best_candidate, closest};
use crate::syntax::source::{FileId, Span};
use crate::text::chars::{chars_of, string_of, split_on, split_chars, is_space, is_space_char, index_of, find_char, extend_chars, trimmed, trim_chars, lead_spaces,
    lemma_lead_spaces, lemma_kept_len, kept_len, trim_start, str_eq,
    lemma_index_of_bounds};
use crate::text::utf8::{bytes_of, char_len_utf8, lemma_bytes_of_prefix, lemma_bytes_of_concat};
use crate::text::digits::{is_digit, all_digits, is_digit_char};
use crate::util::numbers::pow10;
use crate::util::quant::{Quant, NumberError, decimal_syntax, decimal_fits, decimal_parts, decimal_scaled};
use crate::util::date::{Date, date_text, read_date};

verus! {

/// Three non-empty runs of digits joined by hyphens, like `2024-01-31`.
pub open spec fn date_like(word: Seq<char>) -> bool {
    let parts = split_on(word, '-');
    &&& parts.len() == 3
    &&& forall|i: int| 0 <= i < 3 ==> (#[trigger] parts[i]).len() > 0 && all_digits(parts[i])
}

/// True for text shaped like a date: three runs of digits joined by hyphens
pub fn is_date_like(word: &str) -> (r: bool)
    ensures
        r == date_like(word@),
{
    let chars = chars_of(word);
    let parts = split_chars(&chars, '-');
    if parts.len() != 3 {
        return false;
    }
    let mut i: usize = 0;
    while i < 3
        invariant
            i <= 3,
            parts@.len() == 3,
            parts.deep_view() == split_on(word@, '-'),
            forall|k: int| 0 <= k < i ==> (#[trigger] parts.deep_view()[k]).len() > 0
                && all_digits(parts.deep_view()[k]),
        decreases 3 - i,
    {
        let part = &parts[i];
        assert(parts.deep_view()[i as int] == part@);
        if part.len() == 0 {
            return false;
        }
        let mut j: usize = 0;
        while j < part.len()
            invariant
                j <= part@.len(),
                i < 3,
                parts@.len() == 3,
                parts.deep_view() == split_on(word@, '-'),
                part@ == parts.deep_view()[i as int],
                forall|k: int| 0 <= k < j ==> is_digit(#[trigger] part@[k]),
            decreases part@.len() - j,
        {
            if !is_digit_char(part[j]) {
                assert(!all_digits(part@));
                assert(!date_like(word@));
                return false;
            }
            j = j + 1;
        }
        i = i + 1;
    }
    true
}

/// The word after one leading sign, if it has one.
pub open spec fn unsigned_part(word: Seq<char>) -> Seq<char> {
    if word.len() > 0 && (word[0] == '-' || word[0] == '+') { word.skip(1) } else { word }
}

/// Digits with an optional sign, thousands separators and at most one
/// decimal point, and at least one digit.
pub open spec fn number_like(word: Seq<char>) -> bool {
    let digits = unsigned_part(word);
    &&& exists|i: int| 0 <= i < digits.len() && is_digit(#[trigger] digits[i])
    &&& forall|i: int| 0 <= i < digits.len() ==> is_digit(#[trigger] digits[i]) || digits[i] == ',' || digits[i] == '.'
    &&& digits.filter(|c: char| c == '.').len() <= 1
}

/// True for text that reads as an amount: digits with an optional sign,
/// thousands separators and decimal point.
pub fn is_number(word: &str) -> (r: bool)
    ensures
        r == number_like(word@),
{
    let chars = chars_of(word);
    let start: usize = if chars.len() > 0 && (chars[0] == '-' || chars[0] == '+') { 1 } else { 0 };
    let ghost digits = unsigned_part(word@);
    assert(digits =~= chars@.skip(start as int));
    let mut any_digit = false;
    let mut points: usize = 0;
    let mut i: usize = start;
    while i < chars.len()
        invariant
            start <= i <= chars@.len(),
            chars@ == word@,
            digits == unsigned_part(word@),
            digits == chars@.skip(start as int),
            digits.len() == chars@.len() - start,
            any_digit == exists|k: int| 0 <= k < i - start && is_digit(#[trigger] digits[k]),
            forall|k: int| 0 <= k < i - start ==> is_digit(#[trigger] digits[k]) || digits[k] == ',' || digits[k] == '.',
            points == digits.take(i - start).filter(|c: char| c == '.').len(),
            points <= i - start,
        decreases chars@.len() - i,
    {
        let c = chars[i];
        assert(digits[i - start] == c);
        assert(digits.take(i - start + 1) =~= digits.take(i - start).push(c));
        proof { digits.take(i - start).lemma_filter_push(c, |c: char| c == '.'); }
        if is_digit_char(c) {
            any_digit = true;
        } else if c == '.' {
            points = points + 1;
        } else if c != ',' {
            assert(!(is_digit(digits[i - start]) || digits[i - start] == ',' || digits[i - start] == '.'));
            return false;
        }
        i = i + 1;
    }
    assert(digits.take(i - start) =~= digits);
    any_digit && points <= 1
}

/// `s` without its commas.
pub open spec fn without_commas(s: Seq<char>) -> Seq<char> {
    s.filter(|c: char| c != ',')
}

/// Parses an amount as written in a ledger, allowing thousands separators.
pub fn parse_number(word: &str) -> (r: Result<Quant, NumberError>)
    ensures
        r == Err::<Quant, NumberError>(NumberError::Invalid) <==> !decimal_syntax(without_commas(word@)),
        r == Err::<Quant, NumberError>(NumberError::TooLarge) <==> decimal_syntax(without_commas(word@))
            && !decimal_fits(without_commas(word@)),
        r matches Ok(q) ==> {
            let s = without_commas(word@);
            let (is_negative, _, fraction) = decimal_parts(s);
            &&& q.normalized()
            &&& q.has_value(
                if is_negative { -(decimal_scaled(s) as int) } else { decimal_scaled(s) as int },
                pow10(fraction.len()) as int,
            )
            &&& q.render_precision == fraction.len()
        },
{
    let chars = chars_of(word);
    let mut kept: Vec<char> = Vec::new();
    let mut i: usize = 0;
    while i < chars.len()
        invariant
            i <= chars@.len(),
            chars@ == word@,
            kept@ == without_commas(chars@.take(i as int)),
        decreases chars@.len() - i,
    {
        assert(chars@.take(i + 1) =~= chars@.take(i as int).push(chars@[i as int]));
        proof { chars@.take(i as int).lemma_filter_push(chars@[i as int], |c: char| c != ','); }
        if chars[i] != ',' {
            kept.push(chars[i]);
        }
        i = i + 1;
    }
    assert(chars@.take(chars@.len() as int) =~= chars@);
    let s = string_of(&kept);
    Quant::from_str(s.as_str())
}

/// Byte columns within a line, for pointing at exactly what went wrong
#[derive(Clone, Copy, Debug, PartialEq, Eq, Structural)]
pub struct Cols {
    pub start: usize,
    pub end: usize,
}

/// A problem found while lexing: its message, the byte columns it points at,
/// and a suggestion, if any.
pub struct Fault {
    pub message: Seq<char>,
    pub start: int,
    pub end: int,
    pub help: Option<Seq<char>>,
}

/// `d` reports `f`, as an error on line `number` of `file`.
pub open spec fn reports(d: Diagnostic, f: Fault, file: FileId, number: usize) -> bool {
    &&& d.severity == Severity::Error
    &&& d.message@ == f.message
    &&& d.span == Some(Span { file, line: number, last_line: number, start: f.start as usize, end: f.end as usize })
    &&& d.label is None
    &&& d.notes@.len() == 0
    &&& opt_view(d.help) == f.help
}

/// The byte column of character `k` of `s`, where `s` starts at column `base`.
pub open spec fn col(s: Seq<char>, base: int, k: int) -> int {
    base + bytes_of(s.take(k))
}

/// The byte column of every character of `s`, and of its end.
fn columns(s: &Vec<char>, base: usize) -> (r: Vec<usize>)
    requires
        base + bytes_of(s@) < usize::MAX,
    ensures
        r@.len() == s@.len() + 1,
        forall|k: int| 0 <= k <= s@.len() ==> r@[k] == col(s@, base as int, k),
{
    let mut r: Vec<usize> = Vec::new();
    let mut b: usize = base;
    let mut i: usize = 0;
    assert(s@.take(0) =~= Seq::<char>::empty());
    while i < s.len()
        invariant
            i <= s@.len(),
            base + bytes_of(s@) < usize::MAX,
            b == col(s@, base as int, i as int),
            r@.len() == i,
            forall|k: int| 0 <= k < i ==> r@[k] == col(s@, base as int, k),
        decreases s@.len() - i,
    {
        r.push(b);
        proof {
            lemma_bytes_of_prefix(s@, i + 1, s@.len() as int);
            assert(s@.take(s@.len() as int) =~= s@);
            assert(s@.take(i + 1).drop_last() =~= s@.take(i as int));
        }
        b = b + char_len_utf8(s[i]);
        i = i + 1;
    }
    r.push(b);
    r
}

/// What sort of token a piece of a posting line is.
#[derive(Clone, Copy, Debug, PartialEq, Eq, Structural)]
pub enum TokKind {
    /// Text up to white space, a brace or a quote
    Word,
    /// Text between double quotes
    Quoted,
    /// `{`
    Open,
    /// `}`
    Close,
}

/// A token: its kind, its text and its byte columns.
pub struct Tok {
    pub kind: TokKind,
    pub text: Seq<char>,
    pub start: int,
    pub end: int,
}

struct Token {
    kind: TokKind,
    text: Vec<char>,
    start: usize,
    end: usize,
}

impl View for Token {
    type V = Tok;

    closed spec fn view(&self) -> Tok {
        Tok { kind: self.kind, text: self.text@, start: self.start as int, end: self.end as int }
    }
}

/// Whether a character ends a word: white space, a brace or a quote.
pub open spec fn ends_word(c: char) -> bool {
    is_space(c) || c == '{' || c == '}' || c == '"'
}

/// Where the word starting at `i` ends: at the first character from `i` on
/// that ends a word, or at the end.
pub open spec fn word_end(s: Seq<char>, i: int) -> int
    decreases s.len() - i,
{
    if i < 0 || i >= s.len() {
        s.len() as int
    } else if ends_word(s[i]) {
        i
    } else {
        word_end(s, i + 1)
    }
}

pub proof fn lemma_word_end(s: Seq<char>, i: int)
    requires
        0 <= i <= s.len(),
    ensures
        i <= word_end(s, i) <= s.len(),
        forall|j: int| i <= j < word_end(s, i) ==> !ends_word(#[trigger] s[j]),
        word_end(s, i) < s.len() ==> ends_word(s[word_end(s, i)]),
    decreases s.len() - i,
{
    if i < s.len() && !ends_word(s[i]) {
        lemma_word_end(s, i + 1);
    }
}

/// `t` in front of the tokens that `rest` holds, if it holds any.
pub open spec fn prepend(t: Tok, rest: Result<Seq<Tok>, Fault>) -> Result<Seq<Tok>, Fault> {
    match rest {
        Ok(ts) => Ok(seq![t] + ts),
        Err(f) => Err(f),
    }
}

/// The tokens of `s` from character `i` on, where `s` starts at byte column
/// `base`: white space separates them, braces stand alone, and quotes
/// enclose a name.
pub open spec fn tokens_from(s: Seq<char>, i: int, base: int) -> Result<Seq<Tok>, Fault>
    decreases s.len() - i,
{
    if i < 0 || i >= s.len() {
        Ok(Seq::empty())
    } else if is_space(s[i]) {
        tokens_from(s, i + 1, base)
    } else if s[i] == '{' {
        prepend(Tok { kind: TokKind::Open, text: seq!['{'], start: col(s, base, i), end: col(s, base, i + 1) },
            tokens_from(s, i + 1, base))
    } else if s[i] == '}' {
        prepend(Tok { kind: TokKind::Close, text: seq!['}'], start: col(s, base, i), end: col(s, base, i + 1) },
            tokens_from(s, i + 1, base))
    } else if s[i] == '"' {
        let close = i + 1 + index_of(s.subrange(i + 1, s.len() as int), '"');
        proof { lemma_index_of_bounds(s.subrange(i + 1, s.len() as int), '"'); }
        if close >= s.len() {
            Err(Fault {
                message: "Unclosed quote"@,
                start: col(s, base, i),
                end: col(s, base, s.len() as int),
                help: Some("lot names are quoted, like \"lot A\""@),
            })
        } else {
            prepend(
                Tok { kind: TokKind::Quoted, text: s.subrange(i + 1, close), start: col(s, base, i), end: col(s, base, close + 1) },
                tokens_from(s, close + 1, base),
            )
        }
    } else {
        let k = word_end(s, i);
        proof { lemma_word_end(s, i + 1); }
        prepend(Tok { kind: TokKind::Word, text: s.subrange(i, k), start: col(s, base, i), end: col(s, base, k) },
            tokens_from(s, k, base))
    }
}

/// The tokens of `a` followed by those `rest` holds, if it holds any.
pub open spec fn after(a: Seq<Tok>, rest: Result<Seq<Tok>, Fault>) -> Result<Seq<Tok>, Fault> {
    match rest {
        Ok(ts) => Ok(a + ts),
        Err(f) => Err(f),
    }
}

/// The tokens' views.
pub open spec fn toks(v: Seq<Token>) -> Seq<Tok> {
    v.map_values(|t: Token| t@)
}

/// Characters `a` to `b` of `s`.
fn chars_between(s: &Vec<char>, a: usize, b: usize) -> (r: Vec<char>)
    requires
        a <= b <= s@.len(),
    ensures
        r@ == s@.subrange(a as int, b as int),
{
    let mut out: Vec<char> = Vec::new();
    let mut i: usize = a;
    while i < b
        invariant
            a <= i <= b <= s@.len(),
            out@ == s@.subrange(a as int, i as int),
        decreases b - i,
    {
        out.push(s[i]);
        assert(s@.subrange(a as int, i + 1) =~= s@.subrange(a as int, i as int).push(s@[i as int]));
        i = i + 1;
    }
    out
}

fn ends_word_char(c: char) -> (r: bool)
    ensures
        r == ends_word(c),
{
    is_space_char(c) || c == '{' || c == '}' || c == '"'
}


/// `q` is what a word reads as: the number it writes, without its commas,
/// with as many decimal places to show as it was written with.
pub open spec fn number_reads(word: Seq<char>, q: Quant) -> bool {
    let s = without_commas(word);
    let (is_negative, _, fraction) = decimal_parts(s);
    &&& q.normalized()
    &&& q.has_value(
        if is_negative { -(decimal_scaled(s) as int) } else { decimal_scaled(s) as int },
        pow10(fraction.len()) as int,
    )
    &&& q.render_precision == fraction.len()
}

/// The number a word reads as.
pub open spec fn number_value(word: Seq<char>) -> Quant {
    choose|q: Quant| number_reads(word, q)
}

/// Why a word is not a number that fits, if it is not.
pub open spec fn number_error(word: Seq<char>) -> Option<NumberError> {
    let s = without_commas(word);
    if !decimal_syntax(s) {
        Some(NumberError::Invalid)
    } else if !decimal_fits(s) {
        Some(NumberError::TooLarge)
    } else {
        None
    }
}

/// How a failure to read a number is reported.
pub open spec fn number_message(e: NumberError, word: Seq<char>) -> Seq<char> {
    match e {
        NumberError::Invalid => "Invalid number: "@ + without_commas(word),
        NumberError::TooLarge => "Number is too large or too precise: "@ + without_commas(word),
    }
}

/// Reads a number from a token: its value, its text and its columns.
pub open spec fn read_number(t: Option<Tok>, what: Seq<char>, after: int) -> Result<(Quant, Seq<char>, int, int), Fault> {
    match t {
        Some(tok) => if tok.kind == TokKind::Word && number_like(tok.text) {
            match number_error(tok.text) {
                Some(e) => Err(Fault { message: number_message(e, tok.text), start: tok.start, end: tok.end, help: None }),
                None => Ok((number_value(tok.text), tok.text, tok.start, tok.end)),
            }
        } else {
            Err(Fault { message: "Expected "@ + what + " here"@, start: tok.start, end: tok.end, help: None })
        },
        None => Err(Fault { message: "Missing "@ + what, start: after, end: after + 1, help: None }),
    }
}

/// `s` without the commas at its end.
pub open spec fn commas_trimmed(s: Seq<char>) -> Seq<char>
    decreases s.len(),
{
    if s.len() > 0 && s.last() == ',' { commas_trimmed(s.drop_last()) } else { s }
}

pub proof fn lemma_commas_trimmed(s: Seq<char>)
    ensures
        commas_trimmed(s) == s.take(commas_trimmed(s).len() as int),
        commas_trimmed(s).len() <= s.len(),
    decreases s.len(),
{
    if s.len() > 0 && s.last() == ',' {
        lemma_commas_trimmed(s.drop_last());
        assert(s.drop_last().take(commas_trimmed(s).len() as int) =~= s.take(commas_trimmed(s).len() as int));
    } else {
        assert(s.take(s.len() as int) =~= s);
    }
}

/// The suggestion made where a currency is missing after `after_text`.
pub open spec fn currency_help(after_text: Seq<char>) -> Seq<char> {
    "write the currency after the amount, like `"@ + after_text + " USD`"@
}

/// Reads a currency from a token: its name, without a stray trailing comma,
/// and the column where the name ends.
pub open spec fn read_currency(t: Option<Tok>, after_text: Seq<char>, after: int) -> Result<(Seq<char>, int), Fault> {
    match t {
        Some(tok) => if tok.kind == TokKind::Word && !number_like(tok.text) && !(tok.text.len() > 0 && tok.text[0] == '@') {
            let c = commas_trimmed(tok.text);
            Ok((c, tok.end - (tok.text.len() - c.len())))
        } else {
            Err(Fault { message: "Expected a currency here"@, start: tok.start, end: tok.end, help: Some(currency_help(after_text)) })
        },
        None => Err(Fault {
            message: "Missing a currency after `"@ + after_text + "`"@,
            start: after,
            end: after + 1,
            help: Some(currency_help(after_text)),
        }),
    }
}

/// A token's columns are in order, within `limit`, and at least as far
/// apart as its text is long; a word is never empty.
pub open spec fn tok_ok(t: Tok, limit: int) -> bool {
    &&& 0 <= t.start <= t.end <= limit
    &&& t.text.len() <= t.end - t.start
    &&& t.kind == TokKind::Word ==> t.text.len() > 0
}

pub proof fn lemma_bytes_of_len(s: Seq<char>)
    ensures
        bytes_of(s) >= s.len(),
    decreases s.len(),
{
    if s.len() > 0 {
        lemma_bytes_of_len(s.drop_last());
    }
}

/// Characters `i` to `k` take at least `k - i` bytes.
pub proof fn lemma_col_gap(s: Seq<char>, base: int, i: int, k: int)
    requires
        0 <= i <= k <= s.len(),
    ensures
        col(s, base, k) - col(s, base, i) >= k - i,
        col(s, base, i) >= base,
        col(s, base, k) <= base + bytes_of(s),
{
    assert(s.take(k) =~= s.take(i) + s.subrange(i, k));
    lemma_bytes_of_concat(s.take(i), s.subrange(i, k));
    lemma_bytes_of_len(s.subrange(i, k));
    lemma_bytes_of_prefix(s, i, k);
    lemma_bytes_of_prefix(s, k, s.len() as int);
    assert(s.take(s.len() as int) =~= s);
}

/// Every token that `r` holds is in order within `limit`.
pub open spec fn all_ok(r: Result<Seq<Tok>, Fault>, limit: int) -> bool {
    r matches Ok(ts) ==> forall|j: int| 0 <= j < ts.len() ==> tok_ok(#[trigger] ts[j], limit)
}

proof fn lemma_prepend_ok(t: Tok, rest: Result<Seq<Tok>, Fault>, limit: int)
    requires
        tok_ok(t, limit),
        all_ok(rest, limit),
    ensures
        all_ok(prepend(t, rest), limit),
{
    if let Ok(ts) = rest {
        let all = seq![t] + ts;
        assert forall|j: int| 0 <= j < all.len() implies tok_ok(#[trigger] all[j], limit) by {
            if j > 0 {
                assert(all[j] == ts[j - 1]);
            }
        }
    }
}

pub proof fn lemma_tokens_ok(s: Seq<char>, i: int, base: int)
    requires
        0 <= i <= s.len(),
        base >= 0,
    ensures
        all_ok(tokens_from(s, i, base), base + bytes_of(s)),
    decreases s.len() - i,
{
    let limit = base + bytes_of(s);
    if i < s.len() {
        if is_space(s[i]) {
            lemma_tokens_ok(s, i + 1, base);
        } else if s[i] == '{' || s[i] == '}' {
            lemma_tokens_ok(s, i + 1, base);
            lemma_col_gap(s, base, i, i + 1);
            let kind = if s[i] == '{' { TokKind::Open } else { TokKind::Close };
            lemma_prepend_ok(Tok { kind, text: seq![s[i]], start: col(s, base, i), end: col(s, base, i + 1) },
                tokens_from(s, i + 1, base), limit);
        } else if s[i] == '"' {
            let close = i + 1 + index_of(s.subrange(i + 1, s.len() as int), '"');
            lemma_index_of_bounds(s.subrange(i + 1, s.len() as int), '"');
            if close < s.len() {
                lemma_tokens_ok(s, close + 1, base);
                lemma_col_gap(s, base, i, close + 1);
                lemma_prepend_ok(
                    Tok { kind: TokKind::Quoted, text: s.subrange(i + 1, close), start: col(s, base, i), end: col(s, base, close + 1) },
                    tokens_from(s, close + 1, base), limit);
            }
        } else {
            let k = word_end(s, i);
            lemma_word_end(s, i + 1);
            lemma_tokens_ok(s, k, base);
            lemma_col_gap(s, base, i, k);
            lemma_prepend_ok(Tok { kind: TokKind::Word, text: s.subrange(i, k), start: col(s, base, i), end: col(s, base, k) },
                tokens_from(s, k, base), limit);
        }
    }
}

/// Parsing gives the number a word reads as.
proof fn lemma_number_value(word: Seq<char>, q: Quant)
    requires
        number_reads(word, q),
    ensures
        q == number_value(word),
{
    let p = number_value(word);
    assert(number_reads(word, p));
    let s = without_commas(word);
    let (is_negative, _, fraction) = decimal_parts(s);
    let n: int = if is_negative { -(decimal_scaled(s) as int) } else { decimal_scaled(s) as int };
    let d: int = pow10(fraction.len()) as int;
    crate::util::numbers::lemma_pow10_positive(fraction.len());
    assert(q.same_value(p)) by (nonlinear_arith)
        requires
            q.sn() * d == n * q.denominator,
            p.sn() * d == n * p.denominator,
            d > 0,
    {
        assert(q.sn() * p.denominator * d == n * q.denominator * p.denominator);
        assert(p.sn() * q.denominator * d == n * p.denominator * q.denominator);
    }
    crate::util::quant::lemma_normalized_unique(q, p);
}



/// An inline conversion, `@ 1.3 CAD` (per unit) or `@@ 130 CAD` (total)
#[derive(Clone, Debug, PartialEq)]
pub struct Price {
    pub is_total: bool,
    pub value: Quant,
    pub value_text: String,
    pub currency: String,
    pub cols: Cols,
}

/// A lot's cost basis and optional name, `{ 234.56 USD, "lot A" }`
#[derive(Clone, Debug, PartialEq)]
pub struct LotSpec {
    pub cost: Quant,
    pub cost_text: String,
    pub currency: String,
    pub name: Option<String>,
    pub cols: Cols,
}

#[derive(Clone, Debug, PartialEq)]
pub struct PostingAmount {
    pub value: Quant,
    /// The amount exactly as written, e.g. `1,000.00`
    pub value_text: String,
    pub currency: String,
    /// Columns spanning the amount and currency
    pub cols: Cols,
    pub price: Option<Price>,
    pub lot: Option<LotSpec>,
}

#[derive(Clone, Debug, PartialEq)]
pub struct Posting {
    pub account: String,
    pub account_cols: Cols,
    /// None for the one line of an entry that balances all the others
    pub amount: Option<PostingAmount>,
}

/// A copy of an optional string.
fn copy_text(s: &Option<String>) -> (r: Option<String>)
    ensures
        opt_view(r) == opt_view(*s),
{
    match s {
        Some(t) => Some(t.clone()),
        None => None,
    }
}

impl Price {
    /// A copy of this price.
    pub fn duplicate(&self) -> (r: Price)
        ensures
            r@ == self@,
    {
        Price {
            is_total: self.is_total,
            value: self.value,
            value_text: self.value_text.clone(),
            currency: self.currency.clone(),
            cols: self.cols,
        }
    }
}

impl LotSpec {
    /// A copy of this lot.
    pub fn duplicate(&self) -> (r: LotSpec)
        ensures
            r@ == self@,
    {
        LotSpec {
            cost: self.cost,
            cost_text: self.cost_text.clone(),
            currency: self.currency.clone(),
            name: copy_text(&self.name),
            cols: self.cols,
        }
    }
}

impl PostingAmount {
    /// A copy of this amount.
    pub fn duplicate(&self) -> (r: PostingAmount)
        ensures
            r@ == self@,
    {
        PostingAmount {
            value: self.value,
            value_text: self.value_text.clone(),
            currency: self.currency.clone(),
            cols: self.cols,
            price: match &self.price {
                Some(p) => Some(p.duplicate()),
                None => None,
            },
            lot: match &self.lot {
                Some(l) => Some(l.duplicate()),
                None => None,
            },
        }
    }
}

impl Posting {
    /// A copy of this posting.
    pub fn duplicate(&self) -> (r: Posting)
        ensures
            r@ == self@,
    {
        Posting {
            account: self.account.clone(),
            account_cols: self.account_cols,
            amount: match &self.amount {
                Some(a) => Some(a.duplicate()),
                None => None,
            },
        }
    }
}

/// A price as plain values.
pub struct PriceView {
    pub is_total: bool,
    pub value: Quant,
    pub value_text: Seq<char>,
    pub currency: Seq<char>,
    pub cols: Cols,
}

/// A lot as plain values.
pub struct LotView {
    pub cost: Quant,
    pub cost_text: Seq<char>,
    pub currency: Seq<char>,
    pub name: Option<Seq<char>>,
    pub cols: Cols,
}

/// An amount as plain values.
pub struct AmountView {
    pub value: Quant,
    pub value_text: Seq<char>,
    pub currency: Seq<char>,
    pub cols: Cols,
    pub price: Option<PriceView>,
    pub lot: Option<LotView>,
}

/// A posting as plain values.
pub struct PostingView {
    pub account: Seq<char>,
    pub account_cols: Cols,
    pub amount: Option<AmountView>,
}

impl View for Price {
    type V = PriceView;

    open spec fn view(&self) -> PriceView {
        PriceView {
            is_total: self.is_total,
            value: self.value,
            value_text: self.value_text@,
            currency: self.currency@,
            cols: self.cols,
        }
    }
}

impl View for LotSpec {
    type V = LotView;

    open spec fn view(&self) -> LotView {
        LotView {
            cost: self.cost,
            cost_text: self.cost_text@,
            currency: self.currency@,
            name: opt_view(self.name),
            cols: self.cols,
        }
    }
}

impl View for PostingAmount {
    type V = AmountView;

    open spec fn view(&self) -> AmountView {
        AmountView {
            value: self.value,
            value_text: self.value_text@,
            currency: self.currency@,
            cols: self.cols,
            price: match self.price { Some(p) => Some(p@), None => None },
            lot: match self.lot { Some(l) => Some(l@), None => None },
        }
    }
}

impl View for Posting {
    type V = PostingView;

    open spec fn view(&self) -> PostingView {
        PostingView {
            account: self.account@,
            account_cols: self.account_cols,
            amount: match self.amount { Some(a) => Some(a@), None => None },
        }
    }
}

/// Columns `start` to `end`.
pub open spec fn cols(start: int, end: int) -> Cols {
    Cols { start: start as usize, end: end as usize }
}

/// The `i`th token, if there is one.
pub open spec fn tok_at(ts: Seq<Tok>, i: int) -> Option<Tok> {
    if 0 <= i < ts.len() { Some(ts[i]) } else { None }
}

/// The first `}` from token `k` on, or the number of tokens.
pub open spec fn first_close(ts: Seq<Tok>, k: int) -> int
    decreases ts.len() - k,
{
    if k < 0 || k >= ts.len() {
        ts.len() as int
    } else if ts[k].kind == TokKind::Close {
        k
    } else {
        first_close(ts, k + 1)
    }
}

/// A token inside a lot, with the commas that decorate it dropped: a lone
/// comma is dropped altogether.
pub open spec fn unadorned(t: Tok) -> Option<Tok> {
    if t.kind == TokKind::Word && t.text == seq![','] {
        None
    } else if t.kind == TokKind::Word && t.text.len() > 1 && t.text.last() == ',' {
        Some(Tok { text: t.text.drop_last(), end: t.end - 1, ..t })
    } else {
        Some(t)
    }
}

/// The tokens inside a lot, undecorated.
pub open spec fn inner_tokens(ts: Seq<Tok>) -> Seq<Tok>
    decreases ts.len(),
{
    if ts.len() == 0 {
        Seq::empty()
    } else {
        match unadorned(ts.last()) {
            Some(t) => inner_tokens(ts.drop_last()).push(t),
            None => inner_tokens(ts.drop_last()),
        }
    }
}

/// How a lot is written.
pub open spec fn lot_usage() -> Seq<char> {
    "lots look like `{ 234.56 USD }` or `{ 234.56 USD, \"lot A\" }`"@
}

/// Reads a lot from `rest`, the tokens from its `{` on.
pub open spec fn read_lot(rest: Seq<Tok>, open_start: int, open_end: int, line_end: int) -> Result<LotView, Fault> {
    let close = first_close(rest, 0);
    if close >= rest.len() {
        Err(Fault { message: "Unclosed `{`"@, start: open_start, end: open_end, help: Some(lot_usage()) })
    } else if close + 1 < rest.len() {
        Err(Fault { message: "Unexpected text after the lot"@, start: rest[close + 1].start, end: line_end, help: None })
    } else {
        let inner = inner_tokens(rest.subrange(1, close));
        match read_number(tok_at(inner, 0), "a cost basis"@, open_end) {
            Err(f) => Err(f),
            Ok((cost, cost_text, _, cost_end)) => match read_currency(tok_at(inner, 1), cost_text, cost_end) {
                Err(f) => Err(f),
                Ok((currency, _)) => {
                    if inner.len() > 2 && !(inner[2].kind == TokKind::Quoted || inner[2].kind == TokKind::Word) {
                        Err(Fault { message: "Expected a lot name"@, start: inner[2].start, end: inner[2].end, help: None })
                    } else if inner.len() > 3 {
                        Err(Fault {
                            message: "Unexpected text in the lot"@,
                            start: inner[3].start,
                            end: inner[3].end,
                            help: Some("lot names with spaces need quotes, like \"lot A\""@),
                        })
                    } else {
                        Ok(LotView {
                            cost,
                            cost_text,
                            currency,
                            name: if inner.len() > 2 { Some(inner[2].text) } else { None },
                            cols: cols(open_start, rest[close].end),
                        })
                    }
                },
            },
        }
    }
}

/// Reads a price from `rest`, the tokens from its `@` or `@@` on, for an
/// amount whose value is `value` and which starts at column `v_start`.
pub open spec fn read_price(rest: Seq<Tok>, value: Quant, v_start: int, line_end: int) -> Result<PriceView, Fault> {
    let op = rest[0];
    let is_total = op.text == seq!['@', '@'];
    match read_number(tok_at(rest, 1), "a price"@, op.end) {
        Err(f) => Err(f),
        Ok((pv, ptext, _, p_end)) => match read_currency(tok_at(rest, 2), ptext, p_end) {
            Err(f) => Err(f),
            Ok((pcur, pc_end)) => {
                if rest.len() > 3 {
                    Err(Fault { message: "Unexpected text after the price"@, start: rest[3].start, end: line_end, help: None })
                } else if is_total && value.numerator == 0 {
                    Err(Fault { message: "A total price (`@@`) needs a nonzero amount"@, start: v_start, end: pc_end, help: None })
                } else {
                    Ok(PriceView { is_total, value: pv, value_text: ptext, currency: pcur, cols: cols(op.start, pc_end) })
                }
            },
        },
    }
}

/// Whether `t` is `@` or `@@`.
pub open spec fn is_price_op(t: Tok) -> bool {
    t.kind == TokKind::Word && (t.text == seq!['@'] || t.text == seq!['@', '@'])
}

/// Reads the amount of a posting from its tokens, the account first.
pub open spec fn read_amount(ts: Seq<Tok>, line_end: int) -> Result<AmountView, Fault> {
    match read_number(tok_at(ts, 1), "an amount"@, ts[0].end) {
        Err(f) => Err(f),
        Ok((value, value_text, v_start, v_end)) => match read_currency(tok_at(ts, 2), value_text, v_end) {
            Err(f) => Err(f),
            Ok((currency, c_end)) => {
                let plain = AmountView { value, value_text, currency, cols: cols(v_start, c_end), price: None, lot: None };
                let rest = ts.skip(3);
                if rest.len() == 0 {
                    Ok(plain)
                } else if is_price_op(rest[0]) {
                    match read_price(rest, value, v_start, line_end) {
                        Err(f) => Err(f),
                        Ok(price) => Ok(AmountView { price: Some(price), ..plain }),
                    }
                } else if rest[0].kind == TokKind::Open {
                    match read_lot(rest, rest[0].start, rest[0].end, line_end) {
                        Err(f) => Err(f),
                        Ok(lot) => Ok(AmountView { lot: Some(lot), ..plain }),
                    }
                } else {
                    Err(Fault {
                        message: "Unexpected text after the amount"@,
                        start: rest[0].start,
                        end: rest[0].end,
                        help: Some("an amount may be followed by a price like `@ 1.3 CAD` or a lot like `{ 234.56 USD }`"@),
                    })
                }
            },
        },
    }
}

/// Whether every character is an ASCII capital.
pub open spec fn all_capitals(s: Seq<char>) -> bool {
    forall|i: int| 0 <= i < s.len() ==> 'A' <= #[trigger] s[i] <= 'Z'
}

/// The error for a posting whose second word is not a number: most likely
/// a space inside the account name, or a currency before its amount.
pub open spec fn amount_slip(ts: Seq<Tok>) -> Fault {
    let w = ts[1];
    Fault {
        message: "Expected an amount after `"@ + ts[0].text + "`, found `"@ + w.text + "`"@,
        start: w.start,
        end: w.end,
        help: Some(if ts.len() > 2 && ts[2].kind == TokKind::Word && number_like(ts[2].text) {
            if all_capitals(w.text) {
                "amounts come before their currency, like `100 USD`"@
            } else {
                "account names cannot contain spaces"@
            }
        } else {
            "postings look like `Assets:Cash  100 USD`"@
        }),
    }
}

/// Reads a posting line's content, which starts at byte column `offset`.
pub open spec fn read_posting(content: Seq<char>, offset: int) -> Result<PostingView, Fault> {
    match tokens_from(content, 0, offset) {
        Err(f) => Err(f),
        Ok(ts) => {
            if ts.len() == 0 || ts[0].kind != TokKind::Word {
                // A posting's content starts with a character that is not
                // white space, so it always has a first token.
                Err(Fault { message: "Expected an account name"@, start: ts[0].start, end: ts[0].end, help: None })
            } else if ts.len() == 1 {
                Ok(PostingView { account: ts[0].text, account_cols: cols(ts[0].start, ts[0].end), amount: None })
            } else if ts[1].kind == TokKind::Word && !number_like(ts[1].text) {
                Err(amount_slip(ts))
            } else {
                match read_amount(ts, offset + bytes_of(content)) {
                    Err(f) => Err(f),
                    Ok(a) => Ok(PostingView { account: ts[0].text, account_cols: cols(ts[0].start, ts[0].end), amount: Some(a) }),
                }
            }
        },
    }
}



/// One line of a ledger file, classified and broken into its parts.
#[derive(Clone, Debug, PartialEq)]
pub struct Line {
    pub kind: LineKind,
    /// Trailing comment, from its `#` to the end of the line
    pub comment: Option<String>,
}

#[derive(Clone, Debug, PartialEq)]
pub enum LineKind {
    /// Nothing but whitespace. Ends the current entry.
    Blank,
    /// Nothing but a comment. Does not end the current entry.
    CommentOnly,
    Include(Include),
    Directive(DirectiveLine),
    Header(Header),
    /// A `//` line attached to the surrounding entry
    Reference(String),
    Posting(Box<Posting>),
}

#[derive(Clone, Debug, PartialEq)]
pub struct Include {
    pub path: String,
    pub cols: Cols,
}

#[derive(Clone, Debug, PartialEq)]
pub struct DirectiveLine {
    pub date: Date,
    pub directive: Directive,
    /// Columns of the directive's arguments, after its keyword
    pub args: Cols,
}

#[derive(Clone, Debug, PartialEq)]
pub enum Directive {
    Account(String),
    Open(String),
    Close(String),
    Currency(String),
    Clear(String),
    Worthless(String),
    Rate { base: String, quote: String, rate: Quant, rate_text: String },
}

#[derive(Clone, Debug, PartialEq)]
pub struct Header {
    pub date: Date,
    pub description: String,
}

impl View for Directive {
    type V = DirectiveView;

    open spec fn view(&self) -> DirectiveView {
        match self {
            Directive::Account(a) => DirectiveView::Account(a@),
            Directive::Open(a) => DirectiveView::Open(a@),
            Directive::Close(a) => DirectiveView::Close(a@),
            Directive::Currency(a) => DirectiveView::Currency(a@),
            Directive::Clear(a) => DirectiveView::Clear(a@),
            Directive::Worthless(a) => DirectiveView::Worthless(a@),
            Directive::Rate { base, quote, rate, rate_text } => DirectiveView::Rate {
                base: base@,
                quote: quote@,
                rate: *rate,
                rate_text: rate_text@,
            },
        }
    }
}

impl View for LineKind {
    type V = KindView;

    open spec fn view(&self) -> KindView {
        match self {
            LineKind::Blank => KindView::Blank,
            LineKind::CommentOnly => KindView::CommentOnly,
            LineKind::Include(i) => KindView::Include { path: i.path@, cols: i.cols },
            LineKind::Directive(d) => KindView::Directive { date: d.date, directive: d.directive@, args: d.args },
            LineKind::Header(h) => KindView::Header { date: h.date, description: h.description@ },
            LineKind::Reference(r) => KindView::Reference(r@),
            LineKind::Posting(p) => KindView::Posting((**p)@),
        }
    }
}

impl View for Line {
    type V = LineView;

    open spec fn view(&self) -> LineView {
        LineView { kind: self.kind@, comment: opt_view(self.comment) }
    }
}

/// The keyword a directive is written with.
pub open spec fn keyword_of(d: DirectiveView) -> Seq<char> {
    match d {
        DirectiveView::Account(_) => "account"@,
        DirectiveView::Open(_) => "open"@,
        DirectiveView::Close(_) => "close"@,
        DirectiveView::Currency(_) => "currency"@,
        DirectiveView::Clear(_) => "clear"@,
        DirectiveView::Worthless(_) => "worthless"@,
        DirectiveView::Rate { .. } => "rate"@,
    }
}

/// A directive's arguments, as they are written.
pub open spec fn args_of(d: DirectiveView) -> Seq<char> {
    match d {
        DirectiveView::Account(a) => a,
        DirectiveView::Open(a) => a,
        DirectiveView::Close(a) => a,
        DirectiveView::Currency(a) => a,
        DirectiveView::Clear(a) => a,
        DirectiveView::Worthless(a) => a,
        DirectiveView::Rate { base, quote, rate_text, .. } => base + seq![' '] + quote + seq![' '] + rate_text,
    }
}

impl Directive {
    pub fn keyword(&self) -> (r: &'static str)
        ensures
            r@ == keyword_of(self@),
    {
        match self {
            Directive::Account(_) => "account",
            Directive::Open(_) => "open",
            Directive::Close(_) => "close",
            Directive::Currency(_) => "currency",
            Directive::Clear(_) => "clear",
            Directive::Worthless(_) => "worthless",
            Directive::Rate { .. } => "rate",
        }
    }

    /// The directive's arguments, as they should be written
    pub fn args(&self) -> (r: String)
        ensures
            r@ == args_of(self@),
    {
        match self {
            Directive::Account(a) | Directive::Open(a) | Directive::Close(a) | Directive::Currency(a)
            | Directive::Clear(a) | Directive::Worthless(a) => {
                let v = chars_of(a.as_str());
                string_of(&v)
            },
            Directive::Rate { base, quote, rate_text, .. } => {
                let mut out: Vec<char> = Vec::new();
                extend_chars(&mut out, base.as_str());
                out.push(' ');
                extend_chars(&mut out, quote.as_str());
                out.push(' ');
                extend_chars(&mut out, rate_text.as_str());
                assert(out@ =~= base@ + seq![' '] + quote@ + seq![' '] + rate_text@);
                string_of(&out)
            },
        }
    }
}

/// A line's directive, its arguments as plain values.
pub enum DirectiveView {
    Account(Seq<char>),
    Open(Seq<char>),
    Close(Seq<char>),
    Currency(Seq<char>),
    Clear(Seq<char>),
    Worthless(Seq<char>),
    Rate { base: Seq<char>, quote: Seq<char>, rate: Quant, rate_text: Seq<char> },
}

/// What a line is, as plain values.
pub enum KindView {
    Blank,
    CommentOnly,
    Include { path: Seq<char>, cols: Cols },
    Directive { date: Date, directive: DirectiveView, args: Cols },
    Header { date: Date, description: Seq<char> },
    Reference(Seq<char>),
    Posting(PostingView),
}

/// A line as plain values.
pub struct LineView {
    pub kind: KindView,
    pub comment: Option<Seq<char>>,
}

/// Where the run of characters that are not white space, starting at `i`,
/// ends.
pub open spec fn space_at(s: Seq<char>, i: int) -> int
    decreases s.len() - i,
{
    if i < 0 || i >= s.len() {
        s.len() as int
    } else if is_space(s[i]) {
        i
    } else {
        space_at(s, i + 1)
    }
}

pub proof fn lemma_space_at(s: Seq<char>, i: int)
    requires
        0 <= i <= s.len(),
    ensures
        i <= space_at(s, i) <= s.len(),
        forall|j: int| i <= j < space_at(s, i) ==> !is_space(#[trigger] s[j]),
        space_at(s, i) < s.len() ==> is_space(s[space_at(s, i)]),
    decreases s.len() - i,
{
    if i < s.len() && !is_space(s[i]) {
        lemma_space_at(s, i + 1);
    }
}

/// The words of `s` from character `i` on, separated by white space, each
/// with its byte columns, where `s` starts at column `base`.
pub open spec fn words_from(s: Seq<char>, i: int, base: int) -> Seq<(Seq<char>, int, int)>
    decreases s.len() - i,
{
    if i < 0 || i >= s.len() {
        Seq::empty()
    } else if is_space(s[i]) {
        words_from(s, i + 1, base)
    } else {
        let k = space_at(s, i);
        proof { lemma_space_at(s, i + 1); }
        seq![(s.subrange(i, k), col(s, base, i), col(s, base, k))] + words_from(s, k, base)
    }
}

/// Reads a date written at column `start`.
pub open spec fn read_date_at(text: Seq<char>, start: int) -> Result<Date, Fault> {
    match read_date(text) {
        Some(d) => Ok(d),
        None => Err(Fault {
            message: "`"@ + text + "` is not a valid date"@,
            start,
            end: start + bytes_of(text),
            help: Some("dates are written YYYY-MM-DD, like 2024-11-24"@),
        }),
    }
}

/// `include`, spelled out.
pub open spec fn include_word() -> Seq<char> {
    seq!['i', 'n', 'c', 'l', 'u', 'd', 'e']
}

/// Whether `s` starts with the keyword `include`, followed by white space
/// or nothing at all.
pub open spec fn starts_include(s: Seq<char>) -> bool {
    s.len() >= 7 && s.take(7) == include_word() && (s.len() == 7 || is_space(s[7]))
}

/// Reads an include line's content: the path it names, unquoted, and the
/// columns from the path to the end of the content.
pub open spec fn read_include(content: Seq<char>, offset: int) -> Result<(Seq<char>, Cols), Fault> {
    let rest = content.skip(7);
    let written = trimmed(rest);
    let path = if written.len() >= 2 && written[0] == '"' && written.last() == '"' {
        written.subrange(1, written.len() - 1)
    } else {
        written
    };
    if path.len() == 0 {
        Err(Fault {
            message: "Include is missing a file path"@,
            start: offset,
            end: offset + 7,
            help: Some("write the path after the keyword, like `include 2024.ledr`"@),
        })
    } else {
        Ok((path, cols(col(content, offset, 7 + lead_spaces(rest)), offset + bytes_of(content))))
    }
}

/// Reads an entry's header: its date and description.
pub open spec fn read_header(content: Seq<char>, offset: int) -> Result<(Date, Seq<char>), Fault> {
    let written = content.take(space_at(content, 0));
    match read_date_at(written, offset) {
        Err(f) => Err(f),
        Ok(date) => {
            let description = trimmed(content.skip(written.len() as int));
            if description.len() == 0 {
                Err(Fault {
                    message: "Entry dated "@ + date_text(date) + " has no description"@,
                    start: offset,
                    end: offset + bytes_of(content),
                    help: Some("write a description after the date, like `2024-11-24 Paycheck`"@),
                })
            } else {
                Ok((date, description))
            }
        },
    }
}

/// The directives' keywords.
pub open spec fn keyword_names() -> Seq<Seq<char>> {
    seq!["account"@, "open"@, "close"@, "currency"@, "clear"@, "worthless"@, "rate"@]
}

/// The list of keywords, as suggested after a mistake.
pub open spec fn keyword_list() -> Seq<char> {
    "expected one of: account, open, close, currency, clear, worthless, rate"@
}

/// How a directive with the wrong arguments is reported.
pub open spec fn directive_usage(whole: (int, int), date: Date, keyword: Seq<char>, example: Seq<char>) -> Fault {
    Fault {
        message: "Invalid `"@ + keyword + "` directive"@,
        start: whole.0,
        end: whole.1,
        help: Some("write it like `! "@ + date_text(date) + " "@ + keyword + " "@ + example + "`"@),
    }
}

/// The one argument a directive takes.
pub open spec fn single_arg(args: Seq<(Seq<char>, int, int)>, usage: Fault) -> Result<Seq<char>, Fault> {
    if args.len() == 1 { Ok(args[0].0) } else { Err(usage) }
}

/// The one argument a directive takes, which must be an account below the
/// top level.
pub open spec fn account_arg(args: Seq<(Seq<char>, int, int)>, usage: Fault, arg_cols: Cols) -> Result<Seq<char>, Fault> {
    match single_arg(args, usage) {
        Err(f) => Err(f),
        Ok(a) => if !a.contains(':') {
            Err(Fault {
                message: "Top level accounts cannot be used on their own"@,
                start: arg_cols.start as int,
                end: arg_cols.end as int,
                help: Some("use a sub-account, like `"@ + a + ":Cash`"@),
            })
        } else {
            Ok(a)
        },
    }
}


/// Reads a `rate` directive's arguments: a base currency, a quote currency
/// and a rate.
pub open spec fn read_rate(args: Seq<(Seq<char>, int, int)>, usage: Fault) -> Result<DirectiveView, Fault> {
    if args.len() == 3 {
        match number_error(args[2].0) {
            Some(e) => Err(Fault { message: number_message(e, args[2].0), start: args[2].1, end: args[2].2, help: None }),
            None => Ok(DirectiveView::Rate {
                base: args[0].0,
                quote: args[1].0,
                rate: number_value(args[2].0),
                rate_text: args[2].0,
            }),
        }
    } else {
        Err(usage)
    }
}

/// How a keyword that is no directive's is reported.
pub open spec fn unknown_directive(keyword: Seq<char>, kw_cols: (int, int)) -> Fault {
    Fault {
        message: "Unknown directive `"@ + keyword + "`"@,
        start: kw_cols.0,
        end: kw_cols.1,
        help: Some(match best_candidate(keyword, keyword_names(), 7) {
            Some(i) => "did you mean `"@ + keyword_names()[i] + "`?"@,
            None => keyword_list(),
        }),
    }
}

/// Reads a directive from its keyword and arguments.
pub open spec fn read_directive_kind(
    keyword: Seq<char>,
    args: Seq<(Seq<char>, int, int)>,
    kw_cols: (int, int),
    whole: (int, int),
    date: Date,
    arg_cols: Cols,
) -> Result<DirectiveView, Fault> {
    if keyword == "account"@ {
        match account_arg(args, directive_usage(whole, date, keyword, "Assets:Cash"@), arg_cols) {
            Ok(a) => Ok(DirectiveView::Account(a)),
            Err(f) => Err(f),
        }
    } else if keyword == "open"@ {
        match account_arg(args, directive_usage(whole, date, keyword, "Assets:Cash"@), arg_cols) {
            Ok(a) => Ok(DirectiveView::Open(a)),
            Err(f) => Err(f),
        }
    } else if keyword == "close"@ {
        match account_arg(args, directive_usage(whole, date, keyword, "Assets:Cash"@), arg_cols) {
            Ok(a) => Ok(DirectiveView::Close(a)),
            Err(f) => Err(f),
        }
    } else if keyword == "currency"@ {
        match single_arg(args, directive_usage(whole, date, keyword, "USD"@)) {
            Ok(a) => Ok(DirectiveView::Currency(a)),
            Err(f) => Err(f),
        }
    } else if keyword == "clear"@ {
        match single_arg(args, directive_usage(whole, date, keyword, "USD"@)) {
            Ok(a) => Ok(DirectiveView::Clear(a)),
            Err(f) => Err(f),
        }
    } else if keyword == "worthless"@ {
        match single_arg(args, directive_usage(whole, date, keyword, "USD"@)) {
            Ok(a) => Ok(DirectiveView::Worthless(a)),
            Err(f) => Err(f),
        }
    } else if keyword == "rate"@ {
        read_rate(args, directive_usage(whole, date, keyword, "USD CAD 1.3"@))
    } else {
        Err(unknown_directive(keyword, kw_cols))
    }
}

/// Reads a directive's content, after its `!`: its date, the directive and
/// the columns of its arguments.
pub open spec fn read_directive(content: Seq<char>, offset: int) -> Result<(Date, DirectiveView, Cols), Fault> {
    let ws = words_from(content, 0, offset);
    let whole = (offset - 1, offset + bytes_of(content));
    if ws.len() == 0 {
        Err(Fault {
            message: "Directive is empty"@,
            start: whole.0,
            end: whole.1,
            help: Some("directives look like `! 2024-11-24 account Assets:Cash`"@),
        })
    } else {
        match read_date_at(ws[0].0, ws[0].1) {
            Err(f) => Err(f),
            Ok(date) => if ws.len() == 1 {
                Err(Fault {
                    message: "Directive on "@ + date_text(date) + " has no keyword"@,
                    start: whole.0,
                    end: whole.1,
                    help: Some(keyword_list()),
                })
            } else {
                let keyword = ws[1].0;
                let args = ws.skip(2);
                let arg_cols = if args.len() > 0 { cols(args[0].1, args.last().2) } else { cols(ws[1].2, ws[1].2) };
                let directive = read_directive_kind(keyword, args, (ws[1].1, ws[1].2), whole, date, arg_cols);
                match directive {
                    Err(f) => Err(f),
                    Ok(d) => Ok((date, d, arg_cols)),
                }
            },
        }
    }
}

/// Reads what a line's content is, `offset` being its column and
/// `has_comment` whether a comment follows it.
pub open spec fn read_kind(content: Seq<char>, offset: int, has_comment: bool) -> Result<KindView, Fault> {
    if content.len() == 0 {
        Ok(if has_comment { KindView::CommentOnly } else { KindView::Blank })
    } else if starts_include(content) {
        match read_include(content, offset) {
            Ok((path, c)) => Ok(KindView::Include { path, cols: c }),
            Err(f) => Err(f),
        }
    } else if content[0] == '!' {
        match read_directive(content.skip(1), offset + 1) {
            Ok((date, directive, args)) => Ok(KindView::Directive { date, directive, args }),
            Err(f) => Err(f),
        }
    } else if content.len() >= 2 && content[0] == '/' && content[1] == '/' {
        Ok(KindView::Reference(trimmed(content.skip(2))))
    } else if date_like(content.take(space_at(content, 0))) {
        match read_header(content, offset) {
            Ok((date, description)) => Ok(KindView::Header { date, description }),
            Err(f) => Err(f),
        }
    } else {
        match read_posting(content, offset) {
            Ok(p) => Ok(KindView::Posting(p)),
            Err(f) => Err(f),
        }
    }
}

/// What a line of ledger text is: its trailing comment, from its `#`, kept
/// apart, and the rest classified.
pub open spec fn lexed(raw: Seq<char>) -> Result<LineView, Fault> {
    let hash = index_of(raw, '#');
    let comment = if hash < raw.len() { Some(trimmed(raw.skip(hash))) } else { None };
    let before = raw.take(hash);
    let offset = bytes_of(before.take(lead_spaces(before)));
    match read_kind(trimmed(before), offset, comment is Some) {
        Ok(kind) => Ok(LineView { kind, comment }),
        Err(f) => Err(f),
    }
}

/// The token's view, if there is a token.
pub open spec fn opt_tok(t: Option<&Token>) -> Option<Tok> {
    match t {
        Some(tok) => Some(tok@),
        None => None,
    }
}

/// `a`, then `b`, then `c`.
fn text3(a: &str, b: &Vec<char>, c: &str) -> (r: String)
    ensures
        r@ == a@ + b@ + c@,
{
    let mut out: Vec<char> = Vec::new();
    extend_chars(&mut out, a);
    let mut i: usize = 0;
    let ghost start = out@;
    while i < b.len()
        invariant
            i <= b@.len(),
            out@ == start + b@.take(i as int),
        decreases b@.len() - i,
    {
        out.push(b[i]);
        assert(b@.take(i + 1) =~= b@.take(i as int).push(b@[i as int]));
        i = i + 1;
    }
    assert(b@.take(b@.len() as int) =~= b@);
    extend_chars(&mut out, c);
    assert(out@ =~= a@ + b@ + c@);
    string_of(&out)
}

/// `v` without its commas.
fn strip_commas(v: &Vec<char>) -> (r: Vec<char>)
    ensures
        r@ == without_commas(v@),
{
    let mut kept: Vec<char> = Vec::new();
    let mut i: usize = 0;
    while i < v.len()
        invariant
            i <= v@.len(),
            kept@ == without_commas(v@.take(i as int)),
        decreases v@.len() - i,
    {
        assert(v@.take(i + 1) =~= v@.take(i as int).push(v@[i as int]));
        proof { v@.take(i as int).lemma_filter_push(v@[i as int], |c: char| c != ','); }
        if v[i] != ',' {
            kept.push(v[i]);
        }
        i = i + 1;
    }
    assert(v@.take(v@.len() as int) =~= v@);
    kept
}


/// The `i`th token, if there is one.
fn tok_get(v: &Vec<Token>, i: usize) -> (r: Option<&Token>)
    ensures
        opt_tok(r) == tok_at(toks(v@), i as int),
{
    if i < v.len() {
        Some(&v[i])
    } else {
        None
    }
}

/// A copy of a token.
fn copy_token(t: &Token) -> (r: Token)
    ensures
        r@ == t@,
{
    let text = chars_between(&t.text, 0, t.text.len());
    assert(text@ =~= t.text@);
    Token { kind: t.kind, text, start: t.start, end: t.end }
}

/// Every token of `ts` is in order within `limit`.
pub open spec fn toks_ok(ts: Seq<Tok>, limit: int) -> bool {
    forall|j: int| 0 <= j < ts.len() ==> tok_ok(#[trigger] ts[j], limit)
}

proof fn lemma_first_token(s: Seq<char>, base: int)
    requires
        s.len() > 0,
        !is_space(s[0]),
    ensures
        tokens_from(s, 0, base) matches Ok(ts) ==> ts.len() > 0,
{
    if s[0] == '"' {
        lemma_index_of_bounds(s.subrange(1, s.len() as int), '"');
    }
}


fn all_capitals_of(v: &Vec<char>) -> (r: bool)
    ensures
        r == all_capitals(v@),
{
    let mut i: usize = 0;
    while i < v.len()
        invariant
            i <= v@.len(),
            forall|k: int| 0 <= k < i ==> 'A' <= #[trigger] v@[k] <= 'Z',
        decreases v@.len() - i,
    {
        if !('A' <= v[i] && v[i] <= 'Z') {
            return false;
        }
        i = i + 1;
    }
    true
}


/// The words' views.
pub open spec fn words_view(v: Seq<(Vec<char>, usize, usize)>) -> Seq<(Seq<char>, int, int)> {
    v.map_values(|w: (Vec<char>, usize, usize)| (w.0@, w.1 as int, w.2 as int))
}

/// A word's end column is its start column plus its length in bytes, and
/// lies within `limit`.
pub open spec fn word_ok(w: (Seq<char>, int, int), limit: int) -> bool {
    &&& 0 <= w.1
    &&& w.2 == w.1 + bytes_of(w.0)
    &&& w.2 <= limit
}

pub proof fn lemma_words_ok(s: Seq<char>, i: int, base: int)
    requires
        0 <= i <= s.len(),
        base >= 0,
    ensures
        forall|j: int| 0 <= j < words_from(s, i, base).len() ==> word_ok(#[trigger] words_from(s, i, base)[j], base + bytes_of(s)),
    decreases s.len() - i,
{
    if i < s.len() {
        if is_space(s[i]) {
            lemma_words_ok(s, i + 1, base);
            assert(words_from(s, i, base) == words_from(s, i + 1, base));
        } else {
            let k = space_at(s, i);
            lemma_space_at(s, i + 1);
            lemma_words_ok(s, k, base);
            lemma_col_gap(s, base, i, k);
            assert(s.take(k) =~= s.take(i) + s.subrange(i, k));
            lemma_bytes_of_concat(s.take(i), s.subrange(i, k));
            let ws = words_from(s, i, base);
            let rest = words_from(s, k, base);
            let w = (s.subrange(i, k), col(s, base, i), col(s, base, k));
            assert(ws == seq![w] + rest);
            assert(word_ok(w, base + bytes_of(s)));
            assert forall|j: int| 0 <= j < ws.len() implies word_ok(#[trigger] ws[j], base + bytes_of(s)) by {
                if j > 0 {
                    assert(ws[j] == rest[j - 1]);
                } else {
                    assert(ws[j] == w);
                }
            }
        }
    }
}

/// Whether `v` holds `c`.
fn holds_char(v: &Vec<char>, c: char) -> (r: bool)
    ensures
        r == v@.contains(c),
{
    let i = find_char(v, 0, c);
    proof {
        assert(v@.subrange(0, v@.len() as int) =~= v@);
        lemma_index_of_bounds(v@, c);
        if i < v@.len() {
            assert(v@[i as int] == c);
        }
    }
    i < v.len()
}

/// How many characters at the start of `v` are white space.
fn count_lead(v: &Vec<char>) -> (r: usize)
    ensures
        r == lead_spaces(v@),
        r <= v@.len(),
{
    let mut k: usize = 0;
    assert(v@.skip(0) =~= v@);
    while k < v.len() && is_space_char(v[k])
        invariant
            k <= v@.len(),
            lead_spaces(v@) == k + lead_spaces(v@.skip(k as int)),
        decreases v@.len() - k,
    {
        assert(v@.skip(k as int).skip(1) =~= v@.skip(k + 1));
        k = k + 1;
    }
    proof { lemma_lead_spaces(v@); }
    k
}

/// The directives' keywords, in order.
fn keywords() -> (r: Vec<&'static str>)
    ensures
        r@.map_values(|c: &str| c@) == keyword_names(),
{
    let mut kws: Vec<&'static str> = Vec::new();
    kws.push("account");
    kws.push("open");
    kws.push("close");
    kws.push("currency");
    kws.push("clear");
    kws.push("worthless");
    kws.push("rate");
    assert(kws@.map_values(|c: &str| c@) =~= keyword_names());
    kws
}


/// Appends the characters of `v`.
fn push_all(out: &mut Vec<char>, v: &Vec<char>)
    ensures
        final(out)@ == old(out)@ + v@,
{
    let mut i: usize = 0;
    let ghost start = out@;
    while i < v.len()
        invariant
            i <= v@.len(),
            out@ == start + v@.take(i as int),
        decreases v@.len() - i,
    {
        out.push(v[i]);
        assert(v@.take(i + 1) =~= v@.take(i as int).push(v@[i as int]));
        i = i + 1;
    }
    assert(v@.take(v@.len() as int) =~= v@);
}

/// The suggestion made for a directive written with the wrong arguments.
fn usage_help(date: &Vec<char>, keyword: &Vec<char>, example: &str) -> (r: String)
    ensures
        r@ == "write it like `! "@ + date@ + " "@ + keyword@ + " "@ + example@ + "`"@,
{
    let mut out: Vec<char> = Vec::new();
    extend_chars(&mut out, "write it like `! ");
    push_all(&mut out, date);
    extend_chars(&mut out, " ");
    push_all(&mut out, keyword);
    extend_chars(&mut out, " ");
    extend_chars(&mut out, example);
    extend_chars(&mut out, "`");
    string_of(&out)
}

/// The white space at the start of `s` ends before a character that is not
/// white space, if it ends before the end.
pub proof fn lemma_lead_stop(s: Seq<char>)
    ensures
        0 <= lead_spaces(s) <= s.len(),
        lead_spaces(s) < s.len() ==> !is_space(s[lead_spaces(s)]),
    decreases s.len(),
{
    if s.len() > 0 && is_space(s[0]) {
        lemma_lead_stop(s.skip(1));
        if lead_spaces(s) < s.len() {
            assert(s[lead_spaces(s)] == s.skip(1)[lead_spaces(s.skip(1))]);
        }
    }
}

/// White space never starts trimmed text, which is a run of the text.
pub proof fn lemma_trimmed_first(s: Seq<char>)
    ensures
        trimmed(s).len() > 0 ==> !is_space(trimmed(s)[0]),
        trimmed(s) == s.subrange(lead_spaces(s), lead_spaces(s) + kept_len(trim_start(s))),
        0 <= lead_spaces(s) <= lead_spaces(s) + kept_len(trim_start(s)) <= s.len(),
{
    lemma_lead_stop(s);
    lemma_kept_len(trim_start(s));
    assert(trimmed(s) =~= s.subrange(lead_spaces(s), lead_spaces(s) + kept_len(trim_start(s))));
    if trimmed(s).len() > 0 {
        assert(trimmed(s)[0] == s[lead_spaces(s)]);
    }
}

/// Lexes the lines of one file, reporting problems against its line
/// `number`.
struct LineLexer {
    file: FileId,
    number: usize,
}

impl LineLexer {
    /// The error `message` at columns `start` to `end`, with `help` if given.
    fn fail(&self, message: &str, start: usize, end: usize, help: Option<&str>) -> (d: Diagnostic)
        ensures
            reports(d, Fault {
                message: message@,
                start: start as int,
                end: end as int,
                help: match help { Some(h) => Some(h@), None => None },
            }, self.file, self.number),
    {
        let e = Diagnostic::error(message);
        assert(notes_view(e.notes@).len() == 0);
        let e = e.at(Span::new(self.file, self.number, start, end));
        assert(e.notes@.len() == notes_view(e.notes@).len());
        match help {
            Some(h) => {
                let r = e.help(h);
                assert(r.notes@.len() == notes_view(r.notes@).len());
                r
            },
            None => e,
        }
    }

    /// The tokens of a posting's text `s`, which starts at byte column `base`.
    fn tokenize(&self, s: &Vec<char>, base: usize) -> (r: Result<Vec<Token>, Diagnostic>)
        requires
            base + bytes_of(s@) < usize::MAX,
        ensures
            match tokens_from(s@, 0, base as int) {
                Ok(ts) => r matches Ok(v) && toks(v@) == ts,
                Err(f) => r matches Err(d) && reports(d, f, self.file, self.number),
            },
    {
        let offs = columns(s, base);
        let mut acc: Vec<Token> = Vec::new();
        let mut i: usize = 0;
        assert(toks(acc@) =~= Seq::<Tok>::empty());
        while i < s.len()
            invariant
                i <= s@.len(),
                offs@.len() == s@.len() + 1,
                forall|k: int| 0 <= k <= s@.len() ==> offs@[k] == col(s@, base as int, k),
                tokens_from(s@, 0, base as int) == after(toks(acc@), tokens_from(s@, i as int, base as int)),
            decreases s@.len() - i,
        {
            let c = s[i];
            let ghost before = toks(acc@);
            if is_space_char(c) {
                i = i + 1;
            } else if c == '{' || c == '}' {
                let kind = if c == '{' { TokKind::Open } else { TokKind::Close };
                let text = chars_between(s, i, i + 1);
                assert(text@ =~= seq![c]);
                let t = Token { kind, text, start: offs[i], end: offs[i + 1] };
                acc.push(t);
                assert(toks(acc@) =~= before.push(t@));
                assert(before + (seq![t@] + Seq::<Tok>::empty()) =~= before.push(t@) + Seq::<Tok>::empty());
                proof {
                    match tokens_from(s@, i + 1, base as int) {
                        Ok(ts) => { assert(before + (seq![t@] + ts) =~= before.push(t@) + ts); },
                        Err(_) => {},
                    }
                }
                i = i + 1;
            } else if c == '"' {
                let close = find_char(s, i + 1, '"');
                if close >= s.len() {
                    return Err(self.fail("Unclosed quote", offs[i], offs[s.len()], Some("lot names are quoted, like \"lot A\"")));
                }
                let text = chars_between(s, i + 1, close);
                let t = Token { kind: TokKind::Quoted, text, start: offs[i], end: offs[close + 1] };
                acc.push(t);
                assert(toks(acc@) =~= before.push(t@));
                proof {
                    match tokens_from(s@, close + 1, base as int) {
                        Ok(ts) => { assert(before + (seq![t@] + ts) =~= before.push(t@) + ts); },
                        Err(_) => {},
                    }
                }
                i = close + 1;
            } else {
                let mut k: usize = i + 1;
                proof { lemma_word_end(s@, i + 1); }
                while k < s.len() && !ends_word_char(s[k])
                    invariant
                        i < k <= s@.len(),
                        word_end(s@, i + 1) == word_end(s@, k as int),
                    decreases s@.len() - k,
                {
                    k = k + 1;
                }
                let text = chars_between(s, i, k);
                let t = Token { kind: TokKind::Word, text, start: offs[i], end: offs[k] };
                acc.push(t);
                assert(toks(acc@) =~= before.push(t@));
                proof {
                    match tokens_from(s@, k as int, base as int) {
                        Ok(ts) => { assert(before + (seq![t@] + ts) =~= before.push(t@) + ts); },
                        Err(_) => {},
                    }
                }
                i = k;
            }
        }
        assert(toks(acc@) + Seq::<Tok>::empty() =~= toks(acc@));
        Ok(acc)
    }

    /// Reads a number from a token, `what` naming what was expected there
    /// and `after` the column just after the text before it.
    fn number(&self, t: Option<&Token>, what: &str, after: usize) -> (r: Result<(Quant, Vec<char>, usize, usize), Diagnostic>)
        requires
            after < usize::MAX,
        ensures
            match read_number(opt_tok(t), what@, after as int) {
                Ok((q, text, a, b)) => r matches Ok((q2, text2, a2, b2))
                    && q2 == q && text2@ == text && a2 == a && b2 == b,
                Err(f) => r matches Err(d) && reports(d, f, self.file, self.number),
            },
    {
        match t {
            Some(tok) => {
                let w = string_of(&tok.text);
                if tok.kind == TokKind::Word && is_number(w.as_str()) {
                    match parse_number(w.as_str()) {
                        Ok(q) => {
                            proof { lemma_number_value(tok.text@, q); }
                            let text = chars_between(&tok.text, 0, tok.text.len());
                            assert(text@ =~= tok.text@);
                            Ok((q, text, tok.start, tok.end))
                        },
                        Err(e) => {
                            let kept = strip_commas(&tok.text);
                            let message = match e {
                                NumberError::Invalid => text3("Invalid number: ", &kept, ""),
                                NumberError::TooLarge => text3("Number is too large or too precise: ", &kept, ""),
                            };
                            proof {
                                reveal_strlit("");
                            }
                            assert(message@ =~= number_message(e, tok.text@));
                            Err(self.fail(message.as_str(), tok.start, tok.end, None))
                        },
                    }
                } else {
                    let wv = chars_of(what);
                    let message = text3("Expected ", &wv, " here");
                    Err(self.fail(message.as_str(), tok.start, tok.end, None))
                }
            },
            None => {
                let wv = chars_of(what);
                let message = text3("Missing ", &wv, "");
                proof { reveal_strlit(""); }
                assert(message@ =~= "Missing "@ + what@);
                Err(self.fail(message.as_str(), after, after + 1, None))
            },
        }
    }

    /// Reads a currency from a token, `after_text` being the amount before
    /// it and `after` the column just after that amount.
    fn currency(&self, t: Option<&Token>, after_text: &Vec<char>, after: usize) -> (r: Result<(Vec<char>, usize), Diagnostic>)
        requires
            after < usize::MAX,
            t matches Some(tok) ==> tok_ok(tok@, usize::MAX as int),
        ensures
            match read_currency(opt_tok(t), after_text@, after as int) {
                Ok((c, end)) => r matches Ok((c2, end2)) && c2@ == c && end2 == end,
                Err(f) => r matches Err(d) && reports(d, f, self.file, self.number),
            },
    {
        let help = text3("write the currency after the amount, like `", after_text, " USD`");
        match t {
            Some(tok) => {
                let w = string_of(&tok.text);
                let len = tok.text.len();
                if tok.kind == TokKind::Word && !is_number(w.as_str()) && !(len > 0 && tok.text[0] == '@') {
                    let mut n: usize = len;
                    assert(tok.text@.take(len as int) =~= tok.text@);
                    while n > 0 && tok.text[n - 1] == ','
                        invariant
                            n <= len,
                            len == tok.text@.len(),
                            commas_trimmed(tok.text@) == commas_trimmed(tok.text@.take(n as int)),
                        decreases n,
                    {
                        assert(tok.text@.take(n as int).drop_last() =~= tok.text@.take(n - 1));
                        n = n - 1;
                    }
                    assert(tok.text@.take(len as int) =~= tok.text@);
                    let c = chars_between(&tok.text, 0, n);
                    assert(c@ =~= tok.text@.take(n as int));
                    Ok((c, tok.end - (len - n)))
                } else {
                    Err(self.fail("Expected a currency here", tok.start, tok.end, Some(help.as_str())))
                }
            },
            None => {
                let message = text3("Missing a currency after `", after_text, "`");
                Err(self.fail(message.as_str(), after, after + 1, Some(help.as_str())))
            },
        }
    }


    /// Reads a lot from the tokens from `from` on, the first being its `{`.
    fn lot(&self, ts: &Vec<Token>, from: usize, line_end: usize) -> (r: Result<LotSpec, Diagnostic>)
        requires
            from < ts@.len(),
            toks(ts@)[from as int].kind == TokKind::Open,
            toks_ok(toks(ts@), line_end as int),
            line_end < usize::MAX,
        ensures
            match read_lot(toks(ts@).skip(from as int), toks(ts@)[from as int].start, toks(ts@)[from as int].end, line_end as int) {
                Ok(v) => r matches Ok(l) && l@ == v,
                Err(f) => r matches Err(d) && reports(d, f, self.file, self.number),
            },
    {
        let ghost all = toks(ts@);
        let ghost rest = all.skip(from as int);
        let open_start = ts[from].start;
        let open_end = ts[from].end;
        assert(all[from as int] == ts@[from as int]@);
        let mut k: usize = from;
        while k < ts.len() && ts[k].kind != TokKind::Close
            invariant
                from <= k <= ts@.len(),
                all == toks(ts@),
                rest == all.skip(from as int),
                first_close(rest, 0) == first_close(rest, k - from),
            decreases ts@.len() - k,
        {
            assert(rest[k - from] == ts@[k as int]@);
            k = k + 1;
        }
        if k >= ts.len() {
            return Err(self.fail("Unclosed `{`", open_start, open_end, Some("lots look like `{ 234.56 USD }` or `{ 234.56 USD, \"lot A\" }`")));
        }
        assert(rest[k - from] == ts@[k as int]@);
        if k + 1 < ts.len() {
            assert(rest[k + 1 - from] == ts@[k + 1]@);
            return Err(self.fail("Unexpected text after the lot", ts[k + 1].start, line_end, None));
        }
        assert(k > from) by {
            assert(rest[0] == all[from as int]);
        }
        let mut inner: Vec<Token> = Vec::new();
        let mut j: usize = from + 1;
        assert(rest.subrange(1, 1) =~= Seq::<Tok>::empty());
        assert(toks(inner@) =~= Seq::<Tok>::empty());
        while j < k
            invariant
                from < j <= k < ts@.len(),
                all == toks(ts@),
                rest == all.skip(from as int),
                toks_ok(all, line_end as int),
                toks(inner@) == inner_tokens(rest.subrange(1, j - from)),
                toks_ok(toks(inner@), line_end as int),
            decreases k - j,
        {
            let t = &ts[j];
            assert(all[j as int] == t@);
            assert(tok_ok(all[j as int], line_end as int));
            assert(rest.subrange(1, j + 1 - from).drop_last() =~= rest.subrange(1, j - from));
            assert(rest.subrange(1, j + 1 - from).last() == t@);
            let ghost before = toks(inner@);
            let n = t.text.len();
            if t.kind == TokKind::Word && n == 1 && t.text[0] == ',' {
                assert(t@.text =~= seq![',']);
            } else if t.kind == TokKind::Word && n > 1 && t.text[n - 1] == ',' {
                let text = chars_between(&t.text, 0, n - 1);
                assert(text@ =~= t@.text.drop_last());
                assert(t@.text != seq![',']);
                let u = Token { kind: t.kind, text, start: t.start, end: t.end - 1 };
                inner.push(u);
                assert(toks(inner@) =~= before.push(u@));
            } else {
                if t.kind == TokKind::Word && n == 1 {
                    assert(t@.text != seq![',']) by {
                        assert(t@.text[0] != ',');
                    }
                }
                let u = copy_token(t);
                inner.push(u);
                assert(toks(inner@) =~= before.push(u@));
            }
            j = j + 1;
        }
        let ghost iv = toks(inner@);
        assert(iv == inner_tokens(rest.subrange(1, k - from)));
        let num = self.number(tok_get(&inner, 0), "a cost basis", open_end);
        let (cost, cost_text, _, cost_end) = match num {
            Ok(x) => x,
            Err(d) => return Err(d),
        };
        proof {
            if iv.len() > 1 {
                assert(tok_ok(iv[1], line_end as int));
            }
        }
        let cur = self.currency(tok_get(&inner, 1), &cost_text, cost_end);
        let (currency, _) = match cur {
            Ok(x) => x,
            Err(d) => return Err(d),
        };
        if inner.len() > 2 && !(inner[2].kind == TokKind::Quoted || inner[2].kind == TokKind::Word) {
            assert(iv[2] == inner@[2]@);
            return Err(self.fail("Expected a lot name", inner[2].start, inner[2].end, None));
        }
        if inner.len() > 3 {
            assert(iv[3] == inner@[3]@);
            return Err(self.fail("Unexpected text in the lot", inner[3].start, inner[3].end,
                Some("lot names with spaces need quotes, like \"lot A\"")));
        }
        let name = if inner.len() > 2 {
            assert(iv[2] == inner@[2]@);
            Some(string_of(&inner[2].text))
        } else {
            None
        };
        Ok(LotSpec {
            cost,
            cost_text: string_of(&cost_text),
            currency: string_of(&currency),
            name,
            cols: Cols { start: open_start, end: ts[k].end },
        })
    }


    /// Reads a price from the tokens from `from` on, the first being its
    /// `@` or `@@`, for an amount of `value` that starts at `v_start`.
    fn price(&self, ts: &Vec<Token>, from: usize, value: Quant, v_start: usize, line_end: usize) -> (r: Result<Price, Diagnostic>)
        requires
            from == 3,
            from < ts@.len(),
            is_price_op(toks(ts@)[from as int]),
            toks_ok(toks(ts@), line_end as int),
            line_end < usize::MAX,
        ensures
            match read_price(toks(ts@).skip(from as int), value, v_start as int, line_end as int) {
                Ok(v) => r matches Ok(p) && p@ == v,
                Err(f) => r matches Err(d) && reports(d, f, self.file, self.number),
            },
    {
        let ghost all = toks(ts@);
        let ghost rest = all.skip(from as int);
        let op = &ts[from];
        assert(rest[0] == op@);
        assert(tok_ok(all[from as int], line_end as int));
        let is_total = op.text.len() == 2;
        assert(is_total == (op@.text == seq!['@', '@']));
        assert(tok_at(rest, 1) == tok_at(all, from + 1));
        let num = self.number(tok_get(ts, from + 1), "a price", op.end);
        let (pv, ptext, _, p_end) = match num {
            Ok(x) => x,
            Err(d) => return Err(d),
        };
        assert(tok_at(rest, 2) == tok_at(all, from + 2));
        proof {
            if from + 2 < all.len() {
                assert(tok_ok(all[from + 2], line_end as int));
            }
        }
        let cur = self.currency(tok_get(ts, from + 2), &ptext, p_end);
        let (pcur, pc_end) = match cur {
            Ok(x) => x,
            Err(d) => return Err(d),
        };
        if ts.len() > from + 3 {
            assert(rest[3] == ts@[from + 3]@);
            return Err(self.fail("Unexpected text after the price", ts[from + 3].start, line_end, None));
        }
        if is_total && value.is_zero() {
            return Err(self.fail("A total price (`@@`) needs a nonzero amount", v_start, pc_end, None));
        }
        Ok(Price {
            is_total,
            value: pv,
            value_text: string_of(&ptext),
            currency: string_of(&pcur),
            cols: Cols { start: op.start, end: pc_end },
        })
    }

    /// Reads the amount of a posting from its tokens, the account first.
    fn amount(&self, ts: &Vec<Token>, line_end: usize) -> (r: Result<PostingAmount, Diagnostic>)
        requires
            ts@.len() >= 2,
            toks_ok(toks(ts@), line_end as int),
            line_end < usize::MAX,
        ensures
            match read_amount(toks(ts@), line_end as int) {
                Ok(v) => r matches Ok(a) && a@ == v,
                Err(f) => r matches Err(d) && reports(d, f, self.file, self.number),
            },
    {
        let ghost all = toks(ts@);
        assert(all[0] == ts@[0]@);
        assert(tok_ok(all[0], line_end as int));
        let num = self.number(tok_get(ts, 1), "an amount", ts[0].end);
        let (value, value_text, v_start, v_end) = match num {
            Ok(x) => x,
            Err(d) => return Err(d),
        };
        proof {
            if 2 < all.len() {
                assert(tok_ok(all[2], line_end as int));
            }
        }
        let cur = self.currency(tok_get(ts, 2), &value_text, v_end);
        let (currency, c_end) = match cur {
            Ok(x) => x,
            Err(d) => return Err(d),
        };
        let plain = PostingAmount {
            value,
            value_text: string_of(&value_text),
            currency: string_of(&currency),
            cols: Cols { start: v_start, end: c_end },
            price: None,
            lot: None,
        };
        let ghost rest = all.skip(3);
        if ts.len() <= 3 {
            assert(rest.len() == 0);
            return Ok(plain);
        }
        assert(rest[0] == ts@[3]@);
        let op = &ts[3];
        let is_op = op.kind == TokKind::Word && ((op.text.len() == 1 && op.text[0] == '@')
            || (op.text.len() == 2 && op.text[0] == '@' && op.text[1] == '@'));
        proof {
            if op.text@.len() == 1 && op.text@[0] == '@' {
                assert(op.text@ =~= seq!['@']);
            }
            if op.text@.len() == 2 && op.text@[0] == '@' && op.text@[1] == '@' {
                assert(op.text@ =~= seq!['@', '@']);
            }
        }
        assert(is_op == is_price_op(rest[0]));
        if is_op {
            match self.price(ts, 3, value, v_start, line_end) {
                Ok(price) => Ok(PostingAmount { price: Some(price), ..plain }),
                Err(d) => Err(d),
            }
        } else if op.kind == TokKind::Open {
            match self.lot(ts, 3, line_end) {
                Ok(lot) => Ok(PostingAmount { lot: Some(lot), ..plain }),
                Err(d) => Err(d),
            }
        } else {
            Err(self.fail("Unexpected text after the amount", op.start, op.end,
                Some("an amount may be followed by a price like `@ 1.3 CAD` or a lot like `{ 234.56 USD }`")))
        }
    }

    /// Reads a posting line's content, which starts at byte column `offset`
    /// with a character that is not white space.
    fn posting(&self, content: &Vec<char>, offset: usize) -> (r: Result<Posting, Diagnostic>)
        requires
            content@.len() > 0,
            !is_space(content@[0]),
            offset + bytes_of(content@) < usize::MAX,
        ensures
            match read_posting(content@, offset as int) {
                Ok(v) => r matches Ok(p) && p@ == v,
                Err(f) => r matches Err(d) && reports(d, f, self.file, self.number),
            },
    {
        let ts = match self.tokenize(content, offset) {
            Ok(ts) => ts,
            Err(d) => return Err(d),
        };
        let ghost all = toks(ts@);
        proof {
            lemma_first_token(content@, offset as int);
            lemma_tokens_ok(content@, 0, offset as int);
            assert(content@.take(content@.len() as int) =~= content@);
        }
        let offs = columns(content, offset);
        let line_end = offs[content.len()];
        assert(all[0] == ts@[0]@);
        if ts[0].kind != TokKind::Word {
            return Err(self.fail("Expected an account name", ts[0].start, ts[0].end, None));
        }
        let account_cols = Cols { start: ts[0].start, end: ts[0].end };
        if ts.len() == 1 {
            return Ok(Posting { account: string_of(&ts[0].text), account_cols, amount: None });
        }
        assert(all[1] == ts@[1]@);
        let second = string_of(&ts[1].text);
        if ts[1].kind == TokKind::Word && !is_number(second.as_str()) {
            let head = text3("Expected an amount after `", &ts[0].text, "`, found `");
            let message = text3(head.as_str(), &ts[1].text, "`");
            let help = if ts.len() > 2 && ts[2].kind == TokKind::Word && is_number(string_of(&ts[2].text).as_str()) {
                assert(all[2] == ts@[2]@);
                if all_capitals_of(&ts[1].text) {
                    "amounts come before their currency, like `100 USD`"
                } else {
                    "account names cannot contain spaces"
                }
            } else {
                "postings look like `Assets:Cash  100 USD`"
            };
            return Err(self.fail(message.as_str(), ts[1].start, ts[1].end, Some(help)));
        }
        match self.amount(&ts, line_end) {
            Ok(a) => Ok(Posting { account: string_of(&ts[0].text), account_cols, amount: Some(a) }),
            Err(d) => Err(d),
        }
    }


    /// The words of `s`, which starts at column `base`, with their columns.
    fn words(&self, s: &Vec<char>, base: usize) -> (r: Vec<(Vec<char>, usize, usize)>)
        requires
            base + bytes_of(s@) < usize::MAX,
        ensures
            words_view(r@) == words_from(s@, 0, base as int),
    {
        let offs = columns(s, base);
        let mut acc: Vec<(Vec<char>, usize, usize)> = Vec::new();
        let mut i: usize = 0;
        assert(words_view(acc@) =~= Seq::<(Seq<char>, int, int)>::empty());
        assert(words_from(s@, 0, base as int) =~= Seq::<(Seq<char>, int, int)>::empty() + words_from(s@, 0, base as int));
        while i < s.len()
            invariant
                i <= s@.len(),
                offs@.len() == s@.len() + 1,
                forall|k: int| 0 <= k <= s@.len() ==> offs@[k] == col(s@, base as int, k),
                words_from(s@, 0, base as int) == words_view(acc@) + words_from(s@, i as int, base as int),
            decreases s@.len() - i,
        {
            if is_space_char(s[i]) {
                i = i + 1;
            } else {
                let mut k: usize = i + 1;
                proof { lemma_space_at(s@, i + 1); }
                while k < s.len() && !is_space_char(s[k])
                    invariant
                        i < k <= s@.len(),
                        space_at(s@, i + 1) == space_at(s@, k as int),
                    decreases s@.len() - k,
                {
                    k = k + 1;
                }
                let ghost before = words_view(acc@);
                let w = (chars_between(s, i, k), offs[i], offs[k]);
                acc.push(w);
                assert(words_view(acc@) =~= before.push((s@.subrange(i as int, k as int), offs@[i as int] as int, offs@[k as int] as int)));
                assert(before + (seq![(s@.subrange(i as int, k as int), col(s@, base as int, i as int), col(s@, base as int, k as int))]
                    + words_from(s@, k as int, base as int)) =~= words_view(acc@) + words_from(s@, k as int, base as int));
                i = k;
            }
        }
        assert(words_view(acc@) + Seq::<(Seq<char>, int, int)>::empty() =~= words_view(acc@));
        acc
    }

    /// Reads the date `text`, written from column `start` to `end`.
    fn date(&self, text: &Vec<char>, start: usize, end: usize) -> (r: Result<Date, Diagnostic>)
        requires
            end == start + bytes_of(text@),
        ensures
            match read_date_at(text@, start as int) {
                Ok(d) => r == Ok::<Date, Diagnostic>(d),
                Err(f) => r matches Err(d) && reports(d, f, self.file, self.number),
            },
    {
        let t = string_of(text);
        match Date::from_str(t.as_str()) {
            Some(d) => Ok(d),
            None => {
                let message = text3("`", text, "` is not a valid date");
                Err(self.fail(message.as_str(), start, end, Some("dates are written YYYY-MM-DD, like 2024-11-24")))
            },
        }
    }

    /// Reads an include line's content, which starts with the keyword.
    fn included(&self, content: &Vec<char>, offset: usize) -> (r: Result<Include, Diagnostic>)
        requires
            starts_include(content@),
            offset + bytes_of(content@) < usize::MAX,
        ensures
            match read_include(content@, offset as int) {
                Ok((path, c)) => r matches Ok(i) && i.path@ == path && i.cols == c,
                Err(f) => r matches Err(d) && reports(d, f, self.file, self.number),
            },
    {
        let offs = columns(content, offset);
        let rest = chars_between(content, 7, content.len());
        assert(rest@ =~= content@.skip(7));
        let written = trim_chars(&rest);
        let n = written.len();
        let path = if n >= 2 && written[0] == '"' && written[n - 1] == '"' {
            chars_between(&written, 1, n - 1)
        } else {
            chars_between(&written, 0, n)
        };
        assert(written@.subrange(0, n as int) =~= written@);
        if path.len() == 0 {
            proof {
                lemma_col_gap(content@, offset as int, 0, 7);
                assert(content@.take(7) =~= include_word());
                assert(bytes_of(include_word()) == 7) by {
                    reveal_with_fuel(bytes_of, 8);
                }
            }
            return Err(self.fail("Include is missing a file path", offset, offset + 7,
                Some("write the path after the keyword, like `include 2024.ledr`")));
        }
        let lead = count_lead(&rest);
        proof { lemma_lead_spaces(rest@); }
        assert(content@.take(content@.len() as int) =~= content@);
        Ok(Include { path: string_of(&path), cols: Cols { start: offs[7 + lead], end: offs[content.len()] } })
    }


    /// Reads an entry's header: its date, then its description.
    fn header(&self, content: &Vec<char>, offset: usize) -> (r: Result<Header, Diagnostic>)
        requires
            offset + bytes_of(content@) < usize::MAX,
        ensures
            match read_header(content@, offset as int) {
                Ok((d, description)) => r matches Ok(h) && h.date == d && h.description@ == description,
                Err(f) => r matches Err(d) && reports(d, f, self.file, self.number),
            },
    {
        let offs = columns(content, offset);
        let mut k: usize = 0;
        proof { lemma_space_at(content@, 0); }
        while k < content.len() && !is_space_char(content[k])
            invariant
                k <= content@.len(),
                space_at(content@, 0) == space_at(content@, k as int),
            decreases content@.len() - k,
        {
            k = k + 1;
        }
        let written = chars_between(content, 0, k);
        assert(written@ =~= content@.take(k as int));
        let date = match self.date(&written, offset, offs[k]) {
            Ok(d) => d,
            Err(d) => return Err(d),
        };
        let rest = chars_between(content, k, content.len());
        assert(rest@ =~= content@.skip(k as int));
        let description = trim_chars(&rest);
        if description.len() == 0 {
            let dtext = chars_of(date.text().as_str());
            let message = text3("Entry dated ", &dtext, " has no description");
            assert(content@.take(content@.len() as int) =~= content@);
            return Err(self.fail(message.as_str(), offset, offs[content.len()],
                Some("write a description after the date, like `2024-11-24 Paycheck`")));
        }
        Ok(Header { date, description: string_of(&description) })
    }

    /// The one argument of a directive whose words are `ws`.
    fn single(&self, ws: &Vec<(Vec<char>, usize, usize)>, usage: &str, whole: (usize, usize), help: &str) -> (r: Result<Vec<char>, Diagnostic>)
        requires
            ws@.len() >= 2,
        ensures
            match single_arg(words_view(ws@).skip(2), Fault {
                message: usage@, start: whole.0 as int, end: whole.1 as int, help: Some(help@),
            }) {
                Ok(a) => r matches Ok(v) && v@ == a,
                Err(f) => r matches Err(d) && reports(d, f, self.file, self.number),
            },
    {
        if ws.len() == 3 {
            assert(words_view(ws@).skip(2)[0] == words_view(ws@)[2]);
            Ok(chars_between(&ws[2].0, 0, ws[2].0.len()))
        } else {
            Err(self.fail(usage, whole.0, whole.1, Some(help)))
        }
    }

    /// The one argument of a directive, which must be an account below the
    /// top level.
    fn account_arg(&self, ws: &Vec<(Vec<char>, usize, usize)>, usage: &str, whole: (usize, usize), help: &str, arg_cols: Cols)
        -> (r: Result<Vec<char>, Diagnostic>)
        requires
            ws@.len() >= 2,
        ensures
            match account_arg(words_view(ws@).skip(2), Fault {
                message: usage@, start: whole.0 as int, end: whole.1 as int, help: Some(help@),
            }, arg_cols) {
                Ok(a) => r matches Ok(v) && v@ == a,
                Err(f) => r matches Err(d) && reports(d, f, self.file, self.number),
            },
    {
        let a = match self.single(ws, usage, whole, help) {
            Ok(a) => a,
            Err(d) => return Err(d),
        };
        if !holds_char(&a, ':') {
            let h = text3("use a sub-account, like `", &a, ":Cash`");
            return Err(self.fail("Top level accounts cannot be used on their own", arg_cols.start, arg_cols.end,
                Some(h.as_str())));
        }
        Ok(a)
    }

    /// Reads a `rate` directive's arguments.
    fn rate(&self, ws: &Vec<(Vec<char>, usize, usize)>, usage: &str, whole: (usize, usize), help: &str) -> (r: Result<Directive, Diagnostic>)
        requires
            ws@.len() >= 2,
        ensures
            match read_rate(words_view(ws@).skip(2), Fault {
                message: usage@, start: whole.0 as int, end: whole.1 as int, help: Some(help@),
            }) {
                Ok(v) => r matches Ok(d) && d@ == v,
                Err(f) => r matches Err(d) && reports(d, f, self.file, self.number),
            },
    {
        let ghost wv = words_view(ws@);
        let ghost args = wv.skip(2);
        if ws.len() != 5 {
            return Err(self.fail(usage, whole.0, whole.1, Some(help)));
        }
        assert(args[0] == wv[2] && args[1] == wv[3] && args[2] == wv[4]);
        let rate_text = &ws[4].0;
        match parse_number(string_of(rate_text).as_str()) {
            Ok(q) => {
                proof { lemma_number_value(rate_text@, q); }
                Ok(Directive::Rate {
                    base: string_of(&ws[2].0),
                    quote: string_of(&ws[3].0),
                    rate: q,
                    rate_text: string_of(rate_text),
                })
            },
            Err(e) => {
                let kept = strip_commas(rate_text);
                let message = match e {
                    NumberError::Invalid => text3("Invalid number: ", &kept, ""),
                    NumberError::TooLarge => text3("Number is too large or too precise: ", &kept, ""),
                };
                proof { reveal_strlit(""); }
                assert(message@ =~= number_message(e, rate_text@));
                Err(self.fail(message.as_str(), ws[4].1, ws[4].2, None))
            },
        }
    }

    /// Reports a keyword that is no directive's, suggesting the closest one.
    fn unknown(&self, keyword: &Vec<char>, start: usize, end: usize) -> (d: Diagnostic)
        ensures
            reports(d, unknown_directive(keyword@, (start as int, end as int)), self.file, self.number),
    {
        let message = text3("Unknown directive `", keyword, "`");
        let kws = keywords();
        let kw = string_of(keyword);
        let slice = kws.as_slice();
        assert(slice@ == kws@);
        assert(slice@.map_values(|c: &str| c@) == keyword_names());
        assert(slice@.len() == 7);
        assert(kw@ == keyword@);
        let ghost best = best_candidate(keyword@, keyword_names(), 7);
        let help = match closest(kw.as_str(), slice) {
            Some(suggestion) => {
                let sv = chars_of(suggestion);
                proof {
                    let i = best->0;
                    assert(slice@.map_values(|c: &str| c@)[i] == slice@[i]@);
                    assert(sv@ == keyword_names()[i]);
                }
                text3("did you mean `", &sv, "`?")
            },
            None => string_of(&chars_of("expected one of: account, open, close, currency, clear, worthless, rate")),
        };
        self.fail(message.as_str(), start, end, Some(help.as_str()))
    }

    /// Reads a directive from its words: its date, keyword and arguments.
    fn directive_kind(&self, ws: &Vec<(Vec<char>, usize, usize)>, date: Date, whole: (usize, usize), arg_cols: Cols)
        -> (r: Result<Directive, Diagnostic>)
        requires
            ws@.len() >= 2,
        ensures
            match read_directive_kind(words_view(ws@)[1].0, words_view(ws@).skip(2), (ws@[1].1 as int, ws@[1].2 as int),
                (whole.0 as int, whole.1 as int), date, arg_cols) {
                Ok(v) => r matches Ok(d) && d@ == v,
                Err(f) => r matches Err(d) && reports(d, f, self.file, self.number),
            },
    {
        let ghost wv = words_view(ws@);
        assert(wv[1] == (ws@[1].0@, ws@[1].1 as int, ws@[1].2 as int));
        let keyword = &ws[1].0;
        let dtext = chars_of(date.text().as_str());
        let usage = text3("Invalid `", keyword, "` directive");
        let kw = string_of(keyword);
        let k = kw.as_str();
        if str_eq(k, "account") || str_eq(k, "open") || str_eq(k, "close") {
            let help = usage_help(&dtext, keyword, "Assets:Cash");
            let a = match self.account_arg(ws, usage.as_str(), whole, help.as_str(), arg_cols) {
                Ok(a) => string_of(&a),
                Err(d) => return Err(d),
            };
            Ok(if str_eq(k, "account") {
                Directive::Account(a)
            } else if str_eq(k, "open") {
                Directive::Open(a)
            } else {
                Directive::Close(a)
            })
        } else if str_eq(k, "currency") || str_eq(k, "clear") || str_eq(k, "worthless") {
            let help = usage_help(&dtext, keyword, "USD");
            let a = match self.single(ws, usage.as_str(), whole, help.as_str()) {
                Ok(a) => string_of(&a),
                Err(d) => return Err(d),
            };
            Ok(if str_eq(k, "currency") {
                Directive::Currency(a)
            } else if str_eq(k, "clear") {
                Directive::Clear(a)
            } else {
                Directive::Worthless(a)
            })
        } else if str_eq(k, "rate") {
            let help = usage_help(&dtext, keyword, "USD CAD 1.3");
            self.rate(ws, usage.as_str(), whole, help.as_str())
        } else {
            Err(self.unknown(keyword, ws[1].1, ws[1].2))
        }
    }

    /// Reads a directive's content, after its `!`, which stands at column
    /// `offset - 1`.
    fn directive(&self, content: &Vec<char>, offset: usize) -> (r: Result<DirectiveLine, Diagnostic>)
        requires
            offset >= 1,
            offset + bytes_of(content@) < usize::MAX,
        ensures
            match read_directive(content@, offset as int) {
                Ok((date, directive, args)) => r matches Ok(l) && l.date == date && l.directive@ == directive && l.args == args,
                Err(f) => r matches Err(d) && reports(d, f, self.file, self.number),
            },
    {
        let ws = self.words(content, offset);
        let ghost wv = words_view(ws@);
        proof {
            lemma_words_ok(content@, 0, offset as int);
            assert(content@.take(content@.len() as int) =~= content@);
        }
        let offs = columns(content, offset);
        let whole = (offset - 1, offs[content.len()]);
        if ws.len() == 0 {
            return Err(self.fail("Directive is empty", whole.0, whole.1,
                Some("directives look like `! 2024-11-24 account Assets:Cash`")));
        }
        assert(wv[0] == (ws@[0].0@, ws@[0].1 as int, ws@[0].2 as int));
        assert(word_ok(wv[0], offset + bytes_of(content@)));
        let date = match self.date(&ws[0].0, ws[0].1, ws[0].2) {
            Ok(d) => d,
            Err(d) => return Err(d),
        };
        if ws.len() == 1 {
            let dtext = chars_of(date.text().as_str());
            let message = text3("Directive on ", &dtext, " has no keyword");
            return Err(self.fail(message.as_str(), whole.0, whole.1,
                Some("expected one of: account, open, close, currency, clear, worthless, rate")));
        }
        let n = ws.len();
        assert(wv[1] == (ws@[1].0@, ws@[1].1 as int, ws@[1].2 as int));
        let ghost args = wv.skip(2);
        let arg_cols = if n > 2 {
            assert(args[0] == wv[2]);
            assert(args.last() == wv[n - 1]);
            Cols { start: ws[2].1, end: ws[n - 1].2 }
        } else {
            Cols { start: ws[1].2, end: ws[1].2 }
        };
        match self.directive_kind(&ws, date, whole, arg_cols) {
            Ok(directive) => Ok(DirectiveLine { date, directive, args: arg_cols }),
            Err(d) => Err(d),
        }
    }

    /// Classifies a line's content, which starts at column `offset`.
    fn kind(&self, content: &Vec<char>, offset: usize, has_comment: bool) -> (r: Result<LineKind, Diagnostic>)
        requires
            offset + bytes_of(content@) < usize::MAX,
            content@.len() > 0 ==> !is_space(content@[0]),
        ensures
            match read_kind(content@, offset as int, has_comment) {
                Ok(k) => r matches Ok(x) && x@ == k,
                Err(f) => r matches Err(d) && reports(d, f, self.file, self.number),
            },
    {
        let n = content.len();
        if n == 0 {
            return Ok(if has_comment { LineKind::CommentOnly } else { LineKind::Blank });
        }
        let is_include = n >= 7 && content[0] == 'i' && content[1] == 'n' && content[2] == 'c' && content[3] == 'l'
            && content[4] == 'u' && content[5] == 'd' && content[6] == 'e' && (n == 7 || is_space_char(content[7]));
        proof {
            if n >= 7 {
                if content@.take(7) == include_word() {
                    assert(content@[0] == content@.take(7)[0]);
                    assert(content@[1] == content@.take(7)[1]);
                    assert(content@[2] == content@.take(7)[2]);
                    assert(content@[3] == content@.take(7)[3]);
                    assert(content@[4] == content@.take(7)[4]);
                    assert(content@[5] == content@.take(7)[5]);
                    assert(content@[6] == content@.take(7)[6]);
                }
                if content@[0] == 'i' && content@[1] == 'n' && content@[2] == 'c' && content@[3] == 'l'
                    && content@[4] == 'u' && content@[5] == 'd' && content@[6] == 'e' {
                    assert(content@.take(7) =~= include_word());
                }
            }
        }
        if is_include {
            return match self.included(content, offset) {
                Ok(i) => Ok(LineKind::Include(i)),
                Err(d) => Err(d),
            };
        }
        if content[0] == '!' {
            let rest = chars_between(content, 1, n);
            proof {
                assert(content@ =~= seq!['!'] + rest@);
                lemma_bytes_of_concat(seq!['!'], rest@);
                assert(seq!['!'].drop_last() =~= Seq::<char>::empty());
                assert(seq!['!'].len() == 1 && seq!['!'].last() == '!');
                assert(bytes_of(seq!['!'].drop_last()) == 0);
                assert(bytes_of(seq!['!']) == 1);
                crate::text::utf8::lemma_bytes_of_nonneg(rest@);
                assert(rest@ =~= content@.skip(1));
            }
            return match self.directive(&rest, offset + 1) {
                Ok(l) => Ok(LineKind::Directive(l)),
                Err(d) => Err(d),
            };
        }
        if n >= 2 && content[0] == '/' && content[1] == '/' {
            let rest = chars_between(content, 2, n);
            assert(rest@ =~= content@.skip(2));
            let t = trim_chars(&rest);
            return Ok(LineKind::Reference(string_of(&t)));
        }
        let mut k: usize = 0;
        proof { lemma_space_at(content@, 0); }
        while k < n && !is_space_char(content[k])
            invariant
                k <= content@.len(),
                n == content@.len(),
                space_at(content@, 0) == space_at(content@, k as int),
            decreases content@.len() - k,
        {
            k = k + 1;
        }
        let first = chars_between(content, 0, k);
        assert(first@ =~= content@.take(k as int));
        if is_date_like(string_of(&first).as_str()) {
            return match self.header(content, offset) {
                Ok(h) => Ok(LineKind::Header(h)),
                Err(d) => Err(d),
            };
        }
        match self.posting(content, offset) {
            Ok(p) => Ok(LineKind::Posting(Box::new(p))),
            Err(d) => Err(d),
        }
    }

}

/// Lexes one line of ledger text. `number` counts from 1.
pub fn lex_line(raw: &str, file: FileId, number: usize) -> (r: Result<Line, Diagnostic>)
    requires
        bytes_of(raw@) < usize::MAX,
    ensures
        match lexed(raw@) {
            Ok(v) => r matches Ok(l) && l@ == v,
            Err(f) => r matches Err(d) && reports(d, f, file, number),
        },
{
    let lexer = LineLexer { file, number };
    let v = chars_of(raw);
    let hash = find_char(&v, 0, '#');
    assert(v@.subrange(0, v@.len() as int) =~= v@);
    let comment = if hash < v.len() {
        let tail = chars_between(&v, hash, v.len());
        assert(tail@ =~= raw@.skip(hash as int));
        Some(string_of(&trim_chars(&tail)))
    } else {
        None
    };
    let before = chars_between(&v, 0, hash);
    assert(before@ =~= raw@.take(hash as int));
    let lead = count_lead(&before);
    let content = trim_chars(&before);
    proof {
        lemma_trimmed_first(before@);
        let l = lead as int;
        let k = kept_len(trim_start(before@));
        assert(before@.take(l + k) =~= before@.take(l) + content@);
        lemma_bytes_of_concat(before@.take(l), content@);
        lemma_bytes_of_prefix(before@, l + k, before@.len() as int);
        assert(before@.take(before@.len() as int) =~= before@);
        lemma_bytes_of_prefix(raw@, hash as int, raw@.len() as int);
        assert(raw@.take(raw@.len() as int) =~= raw@);
    }
    let offs = columns(&before, 0);
    let offset = offs[lead];
    let kind = match lexer.kind(&content, offset, comment.is_some()) {
        Ok(k) => k,
        Err(d) => return Err(d),
    };
    Ok(Line { kind, comment })
}

} // verus!
