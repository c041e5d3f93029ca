//! Amounts as people type them: with arithmetic and an optional currency.

use vstd::prelude::*;
use crate::syntax::lexer::{parse_number, without_commas};
use crate::text::chars::{
    chars_of, string_of, extend_chars, is_space, is_space_char, trimmed, trim_chars, alphabetic, is_alpha,
};
use crate::text::digits::is_digit;
use crate::util::numbers::pow10;
use crate::util::quant::{
    Quant, NumberError, decimal_syntax, decimal_fits, decimal_parts, decimal_scaled, add_fits, mul_fits,
    is_sum, is_product, negated, reciprocal,
};

verus! {

/// An amount typed at a prompt, like `12.50`, `4.50 CAD`, `CAD 4.50`,
/// `12.50 + 3.20 * 2` or `(90 / 3) CAD`.
#[derive(Clone, Debug)]
pub struct Typed {
    pub value: Quant,
    pub currency: Option<String>,
    /// Whether it was a calculation, rather than a plain number
    pub computed: bool,
}

/// A word that names a currency: letters, with underscores and dots.
pub open spec fn is_code(w: Seq<char>) -> bool {
    &&& w.len() > 0
    &&& forall|i: int| 0 <= i < w.len() ==> alphabetic(#[trigger] w[i]) || w[i] == '_' || w[i] == '.'
    &&& exists|i: int| 0 <= i < w.len() && alphabetic(#[trigger] w[i])
}

/// The last white space among the first `k` characters, or -1.
pub open spec fn last_space(s: Seq<char>, k: int) -> int
    decreases k,
{
    if k <= 0 { -1 } else if is_space(s[k - 1]) { k - 1 } else { last_space(s, k - 1) }
}

/// The first white space at or after `k`, or the length.
pub open spec fn first_space(s: Seq<char>, k: int) -> int
    decreases s.len() - k,
{
    if k < 0 || k >= s.len() { s.len() as int } else if is_space(s[k]) { k } else { first_space(s, k + 1) }
}

/// The first letter at or after `k`, or the length.
pub open spec fn first_letter(s: Seq<char>, k: int) -> int
    decreases s.len() - k,
{
    if k < 0 || k >= s.len() { s.len() as int } else if alphabetic(s[k]) { k } else { first_letter(s, k + 1) }
}

/// A currency written after, before or glued to the amount, and what is
/// left of the text.
pub open spec fn split_currency(b: Seq<char>) -> (Option<Seq<char>>, Seq<char>) {
    let p = last_space(b, b.len() as int);
    let q = first_space(b, 0);
    let a = first_letter(b, 0);
    if p >= 0 && is_code(b.skip(p + 1)) {
        (Some(b.skip(p + 1)), trimmed(b.take(p)))
    } else if q < b.len() && is_code(b.take(q)) {
        (Some(b.take(q)), trimmed(b.skip(q + 1)))
    } else if 0 < a < b.len() && is_code(b.skip(a)) {
        (Some(b.skip(a)), trimmed(b.take(a)))
    } else {
        (None, b)
    }
}

/// A currency symbol at the start, alone or after a minus sign, stands for
/// its code where no currency was named.
pub open spec fn symbol_step(state: (Option<Seq<char>>, Seq<char>), symbol: char, code: Seq<char>) -> (Option<Seq<char>>, Seq<char>) {
    let (cur, body) = state;
    let cur2 = if cur is Some { cur } else { Some(code) };
    if body.len() > 0 && body[0] == symbol {
        (cur2, trimmed(body.skip(1)))
    } else if body.len() > 1 && body[0] == '-' && body[1] == symbol {
        (cur2, seq!['-'] + trimmed(body.skip(2)))
    } else {
        state
    }
}

/// The currency, and the arithmetic left to read, of a trimmed input.
pub open spec fn prepared(input: Seq<char>) -> (Option<Seq<char>>, Seq<char>) {
    let s0 = split_currency(input);
    let s1 = symbol_step(s0, '$', "USD"@);
    let s2 = symbol_step(s1, '€', "EUR"@);
    let s3 = symbol_step(s2, '£', "GBP"@);
    symbol_step(s3, '¥', "JPY"@)
}

/// `s` without its white space.
pub open spec fn without_spaces(s: Seq<char>) -> Seq<char> {
    s.filter(|c: char| !is_space(c))
}

/// What reading part of an amount gives: a value, where reading stopped and
/// how many operators were read so far; or a message; or a result too large
/// to compute.
pub enum Reading {
    Value(Quant, int, nat),
    Failed(Seq<char>),
    Overflow,
}

/// Where the run of digits, points and commas starting at `i` ends.
pub open spec fn number_end(s: Seq<char>, i: int) -> int
    decreases s.len() - i,
{
    if i < 0 || i >= s.len() || !(is_digit(s[i]) || s[i] == '.' || s[i] == ',') {
        i
    } else {
        number_end(s, i + 1)
    }
}

/// Whether `q` is the decimal `s` in lowest terms, shown with as many
/// places as it was written with.
pub open spec fn decimal_is(s: Seq<char>, q: Quant) -> bool {
    let (is_negative, _, fraction) = decimal_parts(s);
    &&& q.normalized()
    &&& q.has_value(
        if is_negative { -(decimal_scaled(s) as int) } else { decimal_scaled(s) as int },
        pow10(fraction.len()) as int,
    )
    &&& q.render_precision == fraction.len()
}

/// The value of a number as written, if it is one.
pub open spec fn number_value(text: Seq<char>) -> Option<Quant> {
    let s = without_commas(text);
    if decimal_syntax(s) && decimal_fits(s) {
        Some(choose|q: Quant| decimal_is(s, q))
    } else {
        None
    }
}

pub open spec fn sum_of(a: Quant, b: Quant) -> Quant {
    choose|r: Quant| is_sum(a, b, r)
}

pub open spec fn product_of(a: Quant, b: Quant) -> Quant {
    choose|r: Quant| is_product(a, b, r)
}

/// A factor: a signed factor, a parenthesized expression, or a number.
pub open spec fn factor(s: Seq<char>, i: int, ops: nat) -> Reading
    decreases s.len() - i, 0int,
{
    if i < 0 || i >= s.len() {
        Reading::Failed("the amount is incomplete"@)
    } else if s[i] == '-' {
        match factor(s, i + 1, ops) {
            Reading::Value(v, n, o) => Reading::Value(negated(v), n, o),
            other => other,
        }
    } else if s[i] == '+' {
        factor(s, i + 1, ops)
    } else if s[i] == '(' {
        match expression(s, i + 1, ops) {
            Reading::Value(v, n, o) => if n < s.len() && s[n] == ')' {
                Reading::Value(v, n + 1, o)
            } else {
                Reading::Failed("missing a closing parenthesis"@)
            },
            other => other,
        }
    } else if is_digit(s[i]) || s[i] == '.' {
        let end = number_end(s, i);
        let text = s.subrange(i, end);
        match number_value(text) {
            Some(q) => Reading::Value(q, end, ops),
            None => Reading::Failed("`"@ + text + "` is not a number"@),
        }
    } else {
        Reading::Failed("unexpected `"@ + seq![s[i]] + "`"@)
    }
}

/// Whether a character multiplies or divides.
pub open spec fn is_mul_op(c: char) -> bool {
    c == '*' || c == 'x' || c == '×' || c == '/' || c == '÷'
}

/// The rest of a term after `acc`, read from `j`.
pub open spec fn term_tail(s: Seq<char>, j: int, acc: Quant, ops: nat) -> Reading
    decreases s.len() - j, 1int,
{
    if j < 0 || j > s.len() {
        Reading::Failed("the amount is incomplete"@)
    } else if j < s.len() && is_mul_op(s[j]) {
        match factor(s, j + 1, ops + 1) {
            Reading::Value(rhs, n, o) => {
                if n <= j || n > s.len() {
                    Reading::Failed("the amount is incomplete"@)
                } else if s[j] == '/' || s[j] == '÷' {
                    if rhs.numerator == 0 {
                        Reading::Failed("cannot divide by zero"@)
                    } else if !mul_fits(acc, reciprocal(rhs)) {
                        Reading::Overflow
                    } else {
                        term_tail(s, n, product_of(acc, reciprocal(rhs)), o)
                    }
                } else if !mul_fits(acc, rhs) {
                    Reading::Overflow
                } else {
                    term_tail(s, n, product_of(acc, rhs), o)
                }
            },
            other => other,
        }
    } else {
        Reading::Value(acc, j, ops)
    }
}

/// A term: factors multiplied and divided, left to right.
pub open spec fn term(s: Seq<char>, i: int, ops: nat) -> Reading
    decreases s.len() - i, 2int,
{
    if i < 0 || i > s.len() {
        Reading::Failed("the amount is incomplete"@)
    } else {
        match factor(s, i, ops) {
            Reading::Value(v, n, o) => if n <= i || n > s.len() {
                Reading::Failed("the amount is incomplete"@)
            } else {
                term_tail(s, n, v, o)
            },
            other => other,
        }
    }
}

/// The rest of an expression after `acc`, read from `j`.
pub open spec fn expression_tail(s: Seq<char>, j: int, acc: Quant, ops: nat) -> Reading
    decreases s.len() - j, 3int,
{
    if j < 0 || j > s.len() {
        Reading::Failed("the amount is incomplete"@)
    } else if j < s.len() && (s[j] == '+' || s[j] == '-') {
        match term(s, j + 1, ops + 1) {
            Reading::Value(rhs, n, o) => {
                let r = if s[j] == '+' { rhs } else { negated(rhs) };
                if n <= j || n > s.len() {
                    Reading::Failed("the amount is incomplete"@)
                } else if !add_fits(acc, r) {
                    Reading::Overflow
                } else {
                    expression_tail(s, n, sum_of(acc, r), o)
                }
            },
            other => other,
        }
    } else {
        Reading::Value(acc, j, ops)
    }
}

/// An expression: terms added and subtracted, left to right.
pub open spec fn expression(s: Seq<char>, i: int, ops: nat) -> Reading
    decreases s.len() - i, 4int,
{
    if i < 0 || i > s.len() {
        Reading::Failed("the amount is incomplete"@)
    } else {
        match term(s, i, ops) {
            Reading::Value(v, n, o) => if n <= i || n > s.len() {
                Reading::Failed("the amount is incomplete"@)
            } else {
                expression_tail(s, n, v, o)
            },
            other => other,
        }
    }
}

/// What reading a whole typed amount gives.
pub open spec fn reading_of(input: Seq<char>) -> Reading {
    let (_, body) = prepared(trimmed(input));
    let s = without_spaces(body);
    match expression(s, 0, 0) {
        Reading::Value(v, n, o) => if n < s.len() {
            Reading::Failed("`"@ + trimmed(input) + "` is not an amount I understand"@)
        } else {
            Reading::Value(v, n, o)
        },
        other => other,
    }
}

/// Whether computing a typed amount would overflow.
pub open spec fn overflows(input: Seq<char>) -> bool {
    trimmed(input).len() > 0 && reading_of(input) is Overflow
}

/// Reading part of an amount, as computed.
enum Step {
    Value(Quant, usize, usize),
    Failed(String),
    Overflow,
}

/// The step is what reading gives.
spec fn step_is(st: Step, r: Reading) -> bool {
    match (st, r) {
        (Step::Value(v, n, o), Reading::Value(w, m, p)) => v == w && n == m && o == p && v.wf(),
        (Step::Failed(msg), Reading::Failed(m)) => msg@ == m,
        (Step::Overflow, Reading::Overflow) => true,
        _ => false,
    }
}

/// A value read from `i` ends after it and has no more operators than
/// characters.
spec fn step_sound(st: Step, i: int, len: int) -> bool {
    st matches Step::Value(_, n, o) ==> i < n <= len && o <= n
}

proof fn lemma_sum_wf(a: Quant, b: Quant, r: Quant)
    requires
        a.wf(),
        b.wf(),
        is_sum(a, b, r),
    ensures
        r.wf(),
        r == sum_of(a, b),
{
    let c = choose|x: Quant| is_sum(a, b, x);
    crate::util::quant::lemma_sum_unique(a, b, r, c);
}

proof fn lemma_product_wf(a: Quant, b: Quant, r: Quant)
    requires
        a.wf(),
        b.wf(),
        is_product(a, b, r),
    ensures
        r.wf(),
        r == product_of(a, b),
{
    let c = choose|x: Quant| is_product(a, b, x);
    crate::util::quant::lemma_product_unique(a, b, r, c);
}

fn message(prefix: &str, middle: &Vec<char>, suffix: &str) -> (r: String)
    ensures
        r@ == prefix@ + middle@ + suffix@,
{
    let mut out: Vec<char> = Vec::new();
    extend_chars(&mut out, prefix);
    let mut k: usize = 0;
    let ghost start = out@;
    while k < middle.len()
        invariant
            k <= middle@.len(),
            out@ == start + middle@.take(k as int),
        decreases middle@.len() - k,
    {
        out.push(middle[k]);
        assert(middle@.take(k + 1) =~= middle@.take(k as int).push(middle@[k as int]));
        k = k + 1;
    }
    assert(middle@.take(middle@.len() as int) =~= middle@);
    extend_chars(&mut out, suffix);
    string_of(&out)
}

fn read_factor(s: &Vec<char>, i: usize, ops: usize) -> (r: Step)
    requires
        i <= s@.len(),
        ops <= i,
    ensures
        step_is(r, factor(s@, i as int, ops as nat)),
        step_sound(r, i as int, s@.len() as int),
    decreases s@.len() - i, 0int,
{
    if i >= s.len() {
        return Step::Failed("the amount is incomplete".to_owned());
    }
    let c = s[i];
    if c == '-' {
        match read_factor(s, i + 1, ops) {
            Step::Value(v, n, o) => {
                let w = core::ops::Neg::neg(v);
                assert(w == negated(v));
                Step::Value(w, n, o)
            },
            other => other,
        }
    } else if c == '+' {
        read_factor(s, i + 1, ops)
    } else if c == '(' {
        match read_expression(s, i + 1, ops) {
            Step::Value(v, n, o) => {
                if n < s.len() && s[n] == ')' {
                    Step::Value(v, n + 1, o)
                } else {
                    Step::Failed("missing a closing parenthesis".to_owned())
                }
            },
            other => other,
        }
    } else if crate::text::digits::is_digit_char(c) || c == '.' {
        let mut end = i;
        let mut text: Vec<char> = Vec::new();
        while end < s.len() && (crate::text::digits::is_digit_char(s[end]) || s[end] == '.' || s[end] == ',')
            invariant
                i <= end <= s@.len(),
                text@ == s@.subrange(i as int, end as int),
                number_end(s@, i as int) == number_end(s@, end as int),
            decreases s@.len() - end,
        {
            text.push(s[end]);
            assert(s@.subrange(i as int, end + 1) =~= s@.subrange(i as int, end as int).push(s@[end as int]));
            end = end + 1;
        }
        assert(end > i);
        assert(number_end(s@, end as int) == end);
        let t = string_of(&text);
        let parsed = parse_number(t.as_str());
        match parsed {
            Ok(q) => {
                proof {
                    let w = without_commas(text@);
                    assert(decimal_is(w, q));
                    let c = choose|x: Quant| decimal_is(w, x);
                    let (_, _, fraction) = decimal_parts(w);
                    crate::util::numbers::lemma_pow10_positive(fraction.len());
                    crate::util::quant::lemma_value_determines(q, c,
                        if decimal_parts(w).0 { -(decimal_scaled(w) as int) } else { decimal_scaled(w) as int },
                        pow10(fraction.len()) as int);
                }
                Step::Value(q, end, ops)
            },
            Err(NumberError::Invalid) => {
                assert(number_value(text@) is None);
                Step::Failed(message("`", &text, "` is not a number"))
            },
            Err(NumberError::TooLarge) => {
                assert(number_value(text@) is None);
                Step::Failed(message("`", &text, "` is not a number"))
            },
        }
    } else {
        let mut one: Vec<char> = Vec::new();
        one.push(c);
        Step::Failed(message("unexpected `", &one, "`"))
    }
}

fn read_term_tail(s: &Vec<char>, j: usize, acc: Quant, ops: usize) -> (r: Step)
    requires
        j <= s@.len(),
        ops <= j,
        acc.wf(),
    ensures
        step_is(r, term_tail(s@, j as int, acc, ops as nat)),
        r matches Step::Value(_, n, o) ==> j <= n <= s@.len() && o <= n,
    decreases s@.len() - j, 1int,
{
    if j < s.len() && (s[j] == '*' || s[j] == 'x' || s[j] == '×' || s[j] == '/' || s[j] == '÷') {
        match read_factor(s, j + 1, ops + 1) {
            Step::Value(rhs, n, o) => {
                if s[j] == '/' || s[j] == '÷' {
                    if rhs.is_zero() {
                        Step::Failed("cannot divide by zero".to_owned())
                    } else {
                        let flipped = rhs.recip();
                        assert(flipped == reciprocal(rhs));
                        match acc.checked_mul(flipped) {
                            None => Step::Overflow,
                            Some(p) => {
                                proof { lemma_product_wf(acc, flipped, p); }
                                read_term_tail(s, n, p, o)
                            },
                        }
                    }
                } else {
                    match acc.checked_mul(rhs) {
                        None => Step::Overflow,
                        Some(p) => {
                            proof { lemma_product_wf(acc, rhs, p); }
                            read_term_tail(s, n, p, o)
                        },
                    }
                }
            },
            other => other,
        }
    } else {
        Step::Value(acc, j, ops)
    }
}

fn read_term(s: &Vec<char>, i: usize, ops: usize) -> (r: Step)
    requires
        i <= s@.len(),
        ops <= i,
    ensures
        step_is(r, term(s@, i as int, ops as nat)),
        step_sound(r, i as int, s@.len() as int),
    decreases s@.len() - i, 2int,
{
    match read_factor(s, i, ops) {
        Step::Value(v, n, o) => read_term_tail(s, n, v, o),
        other => other,
    }
}

fn read_expression_tail(s: &Vec<char>, j: usize, acc: Quant, ops: usize) -> (r: Step)
    requires
        j <= s@.len(),
        ops <= j,
        acc.wf(),
    ensures
        step_is(r, expression_tail(s@, j as int, acc, ops as nat)),
        r matches Step::Value(_, n, o) ==> j <= n <= s@.len() && o <= n,
    decreases s@.len() - j, 3int,
{
    if j < s.len() && (s[j] == '+' || s[j] == '-') {
        match read_term(s, j + 1, ops + 1) {
            Step::Value(rhs, n, o) => {
                let r = if s[j] == '+' { rhs } else { core::ops::Neg::neg(rhs) };
                match acc.checked_add(r) {
                    None => Step::Overflow,
                    Some(sum) => {
                        proof { lemma_sum_wf(acc, r, sum); }
                        read_expression_tail(s, n, sum, o)
                    },
                }
            },
            other => other,
        }
    } else {
        Step::Value(acc, j, ops)
    }
}

fn read_expression(s: &Vec<char>, i: usize, ops: usize) -> (r: Step)
    requires
        i <= s@.len(),
        ops <= i,
    ensures
        step_is(r, expression(s@, i as int, ops as nat)),
        step_sound(r, i as int, s@.len() as int),
    decreases s@.len() - i, 4int,
{
    match read_term(s, i, ops) {
        Step::Value(v, n, o) => read_expression_tail(s, n, v, o),
        other => other,
    }
}

/// A possible currency's characters.
pub open spec fn opt_seq(o: Option<Vec<char>>) -> Option<Seq<char>> {
    match o {
        Some(v) => Some(v@),
        None => None,
    }
}

fn is_code_of(w: &Vec<char>) -> (r: bool)
    ensures
        r == is_code(w@),
{
    if w.len() == 0 {
        return false;
    }
    let mut any = false;
    let mut i: usize = 0;
    while i < w.len()
        invariant
            i <= w@.len(),
            forall|k: int| 0 <= k < i ==> alphabetic(#[trigger] w@[k]) || w@[k] == '_' || w@[k] == '.',
            any == exists|k: int| 0 <= k < i && alphabetic(#[trigger] w@[k]),
        decreases w@.len() - i,
    {
        let c = w[i];
        let letter = is_alpha(c);
        if !(letter || c == '_' || c == '.') {
            assert(!(alphabetic(w@[i as int]) || w@[i as int] == '_' || w@[i as int] == '.'));
            return false;
        }
        if letter {
            any = true;
        }
        i = i + 1;
    }
    any
}

fn take_chars(v: &Vec<char>, n: usize) -> (r: Vec<char>)
    requires
        n <= v@.len(),
    ensures
        r@ == v@.take(n as int),
{
    let mut out: Vec<char> = Vec::new();
    let mut i: usize = 0;
    while i < n
        invariant
            i <= n <= v@.len(),
            out@ == v@.take(i as int),
        decreases n - i,
    {
        out.push(v[i]);
        assert(v@.take(i + 1) =~= v@.take(i as int).push(v@[i as int]));
        i = i + 1;
    }
    out
}

fn skip_chars(v: &Vec<char>, n: usize) -> (r: Vec<char>)
    requires
        n <= v@.len(),
    ensures
        r@ == v@.skip(n as int),
{
    let mut out: Vec<char> = Vec::new();
    let mut i: usize = n;
    while i < v.len()
        invariant
            n <= i <= v@.len(),
            out@ == v@.subrange(n as int, i as int),
        decreases v@.len() - i,
    {
        out.push(v[i]);
        assert(v@.subrange(n as int, i + 1) =~= v@.subrange(n as int, i as int).push(v@[i as int]));
        i = i + 1;
    }
    assert(out@ =~= v@.skip(n as int));
    out
}

fn split_currency_of(b: &Vec<char>) -> (r: (Option<Vec<char>>, Vec<char>))
    ensures
        (opt_seq(r.0), r.1@) == split_currency(b@),
{
    let mut p: usize = b.len();
    while p > 0 && !is_space_char(b[p - 1])
        invariant
            p <= b@.len(),
            last_space(b@, b@.len() as int) == last_space(b@, p as int),
        decreases p,
    {
        p = p - 1;
    }
    if p > 0 {
        let last = skip_chars(b, p);
        if is_code_of(&last) {
            let rest = take_chars(b, p - 1);
            return (Some(last), trim_chars(&rest));
        }
    }
    let mut q: usize = 0;
    while q < b.len() && !is_space_char(b[q])
        invariant
            q <= b@.len(),
            first_space(b@, 0) == first_space(b@, q as int),
        decreases b@.len() - q,
    {
        q = q + 1;
    }
    if q < b.len() {
        let first = take_chars(b, q);
        if is_code_of(&first) {
            let rest = skip_chars(b, q + 1);
            return (Some(first), trim_chars(&rest));
        }
    }
    let mut a: usize = 0;
    while a < b.len() && !is_alpha(b[a])
        invariant
            a <= b@.len(),
            first_letter(b@, 0) == first_letter(b@, a as int),
        decreases b@.len() - a,
    {
        a = a + 1;
    }
    if 0 < a && a < b.len() {
        let glued = skip_chars(b, a);
        if is_code_of(&glued) {
            let rest = take_chars(b, a);
            return (Some(glued), trim_chars(&rest));
        }
    }
    let mut copy: Vec<char> = Vec::new();
    let mut i: usize = 0;
    while i < b.len()
        invariant
            i <= b@.len(),
            copy@ == b@.take(i as int),
        decreases b@.len() - i,
    {
        copy.push(b[i]);
        assert(b@.take(i + 1) =~= b@.take(i as int).push(b@[i as int]));
        i = i + 1;
    }
    assert(b@.take(b@.len() as int) =~= b@);
    (None, copy)
}

fn symbol_step_of(cur: Option<Vec<char>>, body: Vec<char>, symbol: char, code: &str) -> (r: (Option<Vec<char>>, Vec<char>))
    ensures
        (opt_seq(r.0), r.1@) == symbol_step((opt_seq(cur), body@), symbol, code@),
{
    let starts = body.len() > 0 && body[0] == symbol;
    let signed = !starts && body.len() > 1 && body[0] == '-' && body[1] == symbol;
    if !starts && !signed {
        return (cur, body);
    }
    let cur2 = match cur {
        Some(c) => Some(c),
        None => Some(chars_of(code)),
    };
    if starts {
        let rest = skip_chars(&body, 1);
        (cur2, trim_chars(&rest))
    } else {
        let rest = skip_chars(&body, 2);
        let t = trim_chars(&rest);
        let mut out: Vec<char> = Vec::new();
        out.push('-');
        let mut i: usize = 0;
        while i < t.len()
            invariant
                i <= t@.len(),
                out@ == seq!['-'] + t@.take(i as int),
            decreases t@.len() - i,
        {
            out.push(t[i]);
            assert(t@.take(i + 1) =~= t@.take(i as int).push(t@[i as int]));
            i = i + 1;
        }
        assert(t@.take(t@.len() as int) =~= t@);
        (cur2, out)
    }
}

/// What parsing a typed amount gives, where it does not overflow: the
/// value, the currency and whether it was a calculation; or why not.
pub open spec fn parse_result(input: Seq<char>) -> Result<(Quant, Option<Seq<char>>, bool), Seq<char>> {
    if trimmed(input).len() == 0 {
        Err("no amount given"@)
    } else {
        match reading_of(input) {
            Reading::Value(v, _, o) => Ok((v, prepared(trimmed(input)).0, o > 0)),
            Reading::Failed(m) => Err(m),
            Reading::Overflow => Err(Seq::empty()),
        }
    }
}

/// What a parsed amount holds, as the contracts see it.
pub open spec fn typed_view(t: Typed) -> (Quant, Option<Seq<char>>, bool) {
    (t.value, match t.currency { Some(c) => Some(c@), None => None }, t.computed)
}

fn read_amount(input: &str) -> (r: Option<Result<Typed, String>>)
    ensures
        r is None <==> overflows(input@),
        r matches Some(x) ==> match x {
            Ok(t) => parse_result(input@) == Ok::<(Quant, Option<Seq<char>>, bool), Seq<char>>(typed_view(t)),
            Err(e) => parse_result(input@) == Err::<(Quant, Option<Seq<char>>, bool), Seq<char>>(e@),
        },
{
    let raw = chars_of(input);
    let trimmed_input = trim_chars(&raw);
    if trimmed_input.len() == 0 {
        return Some(Err("no amount given".to_owned()));
    }
    let (c0, b0) = split_currency_of(&trimmed_input);
    let (c1, b1) = symbol_step_of(c0, b0, '$', "USD");
    let (c2, b2) = symbol_step_of(c1, b1, '€', "EUR");
    let (c3, b3) = symbol_step_of(c2, b2, '£', "GBP");
    let (currency, body) = symbol_step_of(c3, b3, '¥', "JPY");
    let mut s: Vec<char> = Vec::new();
    let mut i: usize = 0;
    while i < body.len()
        invariant
            i <= body@.len(),
            s@ == without_spaces(body@.take(i as int)),
        decreases body@.len() - i,
    {
        assert(body@.take(i + 1) =~= body@.take(i as int).push(body@[i as int]));
        proof { body@.take(i as int).lemma_filter_push(body@[i as int], |c: char| !is_space(c)); }
        if !is_space_char(body[i]) {
            s.push(body[i]);
        }
        i = i + 1;
    }
    assert(body@.take(body@.len() as int) =~= body@);
    match read_expression(&s, 0, 0) {
        Step::Value(v, n, o) => {
            if n < s.len() {
                Some(Err(message("`", &trimmed_input, "` is not an amount I understand")))
            } else {
                let cur = match currency {
                    Some(c) => Some(string_of(&c)),
                    None => None,
                };
                Some(Ok(Typed { value: v, currency: cur, computed: o > 0 }))
            }
        },
        Step::Failed(m) => Some(Err(m)),
        Step::Overflow => None,
    }
}

/// Parses a typed amount. Anything alphabetic before or after the
/// arithmetic is taken as the currency.
pub fn parse(input: &str) -> (r: Result<Typed, String>)
    requires
        !overflows(input@),
    ensures
        match r {
            Ok(t) => parse_result(input@) == Ok::<(Quant, Option<Seq<char>>, bool), Seq<char>>(typed_view(t)),
            Err(e) => parse_result(input@) == Err::<(Quant, Option<Seq<char>>, bool), Seq<char>>(e@),
        },
{
    match read_amount(input) {
        Some(x) => x,
        None => Err(String::new()),
    }
}

/// Parses a typed amount where that can be computed exactly: None where a
/// step of the arithmetic would overflow.
pub fn try_parse(input: &str) -> (r: Option<Result<Typed, String>>)
    ensures
        r is None <==> overflows(input@),
        r matches Some(x) ==> match x {
            Ok(t) => parse_result(input@) == Ok::<(Quant, Option<Seq<char>>, bool), Seq<char>>(typed_view(t)),
            Err(e) => parse_result(input@) == Err::<(Quant, Option<Seq<char>>, bool), Seq<char>>(e@),
        },
{
    read_amount(input)
}

} // verus!
