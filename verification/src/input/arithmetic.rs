//! What a typed sum or difference of two numbers comes to.

use vstd::prelude::*;
use crate::input::expr::{expression, expression_tail, term, term_tail, factor, is_mul_op, sum_of, product_of, number_end, number_value, Reading};
use crate::text::digits::is_digit;
use crate::util::quant::{Quant, is_sum, is_product, negated, reciprocal, add_fits, mul_fits, lemma_sum_unique, lemma_product_unique};

verus! {

/// Whether `s` is a run of decimal digits.
pub open spec fn digits_only(s: Seq<char>) -> bool {
    s.len() > 0 && forall|i: int| 0 <= i < s.len() ==> is_digit(#[trigger] s[i])
}

proof fn lemma_number_end_at(s: Seq<char>, i: int, k: int)
    requires
        0 <= i <= k <= s.len(),
        forall|j: int| i <= j < k ==> is_digit(#[trigger] s[j]),
        k == s.len() || !(is_digit(s[k]) || s[k] == '.' || s[k] == ','),
    ensures
        number_end(s, i) == k,
    decreases k - i,
{
    if i < k {
        lemma_number_end_at(s, i + 1, k);
    }
}

/// Reading `a op b`, for runs of digits `a` and `b`: the value, to the end.
proof fn lemma_two_numbers(a: Seq<char>, op: char, b: Seq<char>, qa: Quant, qb: Quant, rhs: Quant, r: Quant)
    requires
        digits_only(a),
        digits_only(b),
        op == '+' || op == '-',
        number_value(a) == Some(qa),
        number_value(b) == Some(qb),
        qa.wf(),
        qb.wf(),
        rhs == (if op == '+' { qb } else { negated(qb) }),
        add_fits(qa, rhs),
        is_sum(qa, rhs, r),
    ensures
        expression(a + seq![op] + b, 0, 0) == Reading::Value(r, (a.len() + 1 + b.len()) as int, 1),
{
    let s = a + seq![op] + b;
    let k = a.len() as int;
    assert forall|j: int| 0 <= j < k implies is_digit(#[trigger] s[j]) by {
        assert(s[j] == a[j]);
    }
    assert(s[k] == op);
    lemma_number_end_at(s, 0, k);
    assert(s.subrange(0, k) =~= a);
    assert forall|j: int| k + 1 <= j < s.len() implies is_digit(#[trigger] s[j]) by {
        assert(s[j] == b[j - k - 1]);
    }
    lemma_number_end_at(s, k + 1, s.len() as int);
    assert(s.subrange(k + 1, s.len() as int) =~= b);
    let c = choose|x: Quant| is_sum(qa, rhs, x);
    lemma_sum_unique(qa, rhs, r, c);
    let n = s.len() as int;
    assert(is_digit(s[0]) && is_digit(s[k + 1]));
    assert(factor(s, 0, 0) == Reading::Value(qa, k, 0));
    assert(!is_mul_op(s[k]));
    assert(term_tail(s, k, qa, 0) == Reading::Value(qa, k, 0));
    assert(term(s, 0, 0) == Reading::Value(qa, k, 0));
    assert(factor(s, k + 1, 1) == Reading::Value(qb, n, 1));
    assert(term_tail(s, n, qb, 1) == Reading::Value(qb, n, 1));
    assert(term(s, k + 1, 1) == Reading::Value(qb, n, 1));
    assert(expression_tail(s, n, sum_of(qa, rhs), 1) == Reading::Value(sum_of(qa, rhs), n, 1));
    assert(expression_tail(s, k, qa, 0) == Reading::Value(r, n, 1));
}

/// Two numbers with `-` between them read as their exact difference: the
/// first plus the negation of the second, in lowest terms, read to the end,
/// with one operator read (so the amount counts as a calculation).
pub proof fn lemma_difference_of_numbers(a: Seq<char>, b: Seq<char>, qa: Quant, qb: Quant, r: Quant)
    requires
        digits_only(a),
        digits_only(b),
        number_value(a) == Some(qa),
        number_value(b) == Some(qb),
        qa.wf(),
        qb.wf(),
        add_fits(qa, negated(qb)),
        is_sum(qa, negated(qb), r),
    ensures
        expression(a + seq!['-'] + b, 0, 0) == Reading::Value(r, (a.len() + 1 + b.len()) as int, 1),
{
    lemma_two_numbers(a, '-', b, qa, qb, negated(qb), r);
}

/// Two numbers with `+` between them read as their exact sum, in lowest
/// terms, read to the end, with one operator read.
pub proof fn lemma_sum_of_numbers(a: Seq<char>, b: Seq<char>, qa: Quant, qb: Quant, r: Quant)
    requires
        digits_only(a),
        digits_only(b),
        number_value(a) == Some(qa),
        number_value(b) == Some(qb),
        qa.wf(),
        qb.wf(),
        add_fits(qa, qb),
        is_sum(qa, qb, r),
    ensures
        expression(a + seq!['+'] + b, 0, 0) == Reading::Value(r, (a.len() + 1 + b.len()) as int, 1),
{
    lemma_two_numbers(a, '+', b, qa, qb, qb, r);
}

/// Reading `a op b`, for runs of digits `a` and `b` and `op` one that
/// multiplies or divides: the product with `rhs`, to the end.
proof fn lemma_scaled_numbers(a: Seq<char>, op: char, b: Seq<char>, qa: Quant, qb: Quant, rhs: Quant, r: Quant)
    requires
        digits_only(a),
        digits_only(b),
        op == '*' || op == '/',
        number_value(a) == Some(qa),
        number_value(b) == Some(qb),
        qa.wf(),
        qb.wf(),
        op == '/' ==> qb.numerator != 0,
        rhs == (if op == '*' { qb } else { reciprocal(qb) }),
        rhs.wf(),
        mul_fits(qa, rhs),
        is_product(qa, rhs, r),
    ensures
        expression(a + seq![op] + b, 0, 0) == Reading::Value(r, (a.len() + 1 + b.len()) as int, 1),
{
    let s = a + seq![op] + b;
    let k = a.len() as int;
    let n = s.len() as int;
    assert forall|j: int| 0 <= j < k implies is_digit(#[trigger] s[j]) by {
        assert(s[j] == a[j]);
    }
    assert(s[k] == op);
    lemma_number_end_at(s, 0, k);
    assert(s.subrange(0, k) =~= a);
    assert forall|j: int| k + 1 <= j < s.len() implies is_digit(#[trigger] s[j]) by {
        assert(s[j] == b[j - k - 1]);
    }
    lemma_number_end_at(s, k + 1, n);
    assert(s.subrange(k + 1, n) =~= b);
    let c = choose|x: Quant| is_product(qa, rhs, x);
    lemma_product_unique(qa, rhs, r, c);
    assert(is_digit(s[0]) && is_digit(s[k + 1]));
    assert(factor(s, 0, 0) == Reading::Value(qa, k, 0));
    assert(is_mul_op(s[k]));
    assert(factor(s, k + 1, 1) == Reading::Value(qb, n, 1));
    assert(product_of(qa, rhs) == r);
    assert(term_tail(s, n, r, 1) == Reading::Value(r, n, 1));
    assert(term_tail(s, k, qa, 0) == Reading::Value(r, n, 1));
    assert(term(s, 0, 0) == Reading::Value(r, n, 1));
    assert(expression_tail(s, n, r, 1) == Reading::Value(r, n, 1));
}

/// Two numbers with `*` between them read as their exact product, in
/// lowest terms, read to the end, with one operator read.
pub proof fn lemma_product_of_numbers(a: Seq<char>, b: Seq<char>, qa: Quant, qb: Quant, r: Quant)
    requires
        digits_only(a),
        digits_only(b),
        number_value(a) == Some(qa),
        number_value(b) == Some(qb),
        qa.wf(),
        qb.wf(),
        mul_fits(qa, qb),
        is_product(qa, qb, r),
    ensures
        expression(a + seq!['*'] + b, 0, 0) == Reading::Value(r, (a.len() + 1 + b.len()) as int, 1),
{
    lemma_scaled_numbers(a, '*', b, qa, qb, qb, r);
}

/// Two numbers with `/` between them, the second not zero, read as the
/// first times the reciprocal of the second: their exact quotient.
pub proof fn lemma_quotient_of_numbers(a: Seq<char>, b: Seq<char>, qa: Quant, qb: Quant, r: Quant)
    requires
        digits_only(a),
        digits_only(b),
        number_value(a) == Some(qa),
        number_value(b) == Some(qb),
        qa.wf(),
        qb.wf(),
        qb.numerator != 0,
        mul_fits(qa, reciprocal(qb)),
        is_product(qa, reciprocal(qb), r),
    ensures
        expression(a + seq!['/'] + b, 0, 0) == Reading::Value(r, (a.len() + 1 + b.len()) as int, 1),
{
    lemma_scaled_numbers(a, '/', b, qa, qb, reciprocal(qb), r);
}

/// Multiplication binds tighter than addition: `a + b * c` reads as `a`
/// plus the product of `b` and `c`, with two operators read.
pub proof fn lemma_product_before_sum(a: Seq<char>, b: Seq<char>, c: Seq<char>, qa: Quant, qb: Quant, qc: Quant,
    p: Quant, r: Quant)
    requires
        digits_only(a),
        digits_only(b),
        digits_only(c),
        number_value(a) == Some(qa),
        number_value(b) == Some(qb),
        number_value(c) == Some(qc),
        qa.wf(),
        qb.wf(),
        qc.wf(),
        mul_fits(qb, qc),
        is_product(qb, qc, p),
        p.wf(),
        add_fits(qa, p),
        is_sum(qa, p, r),
    ensures
        expression(a + seq!['+'] + b + seq!['*'] + c, 0, 0)
            == Reading::Value(r, (a.len() + b.len() + c.len() + 2) as int, 2),
{
    let s = a + seq!['+'] + b + seq!['*'] + c;
    let k1 = a.len() as int;
    let k2 = k1 + 1 + b.len();
    let n = s.len() as int;
    assert forall|j: int| 0 <= j < k1 implies is_digit(#[trigger] s[j]) by {
        assert(s[j] == a[j]);
    }
    assert(s[k1] == '+');
    lemma_number_end_at(s, 0, k1);
    assert(s.subrange(0, k1) =~= a);
    assert forall|j: int| k1 + 1 <= j < k2 implies is_digit(#[trigger] s[j]) by {
        assert(s[j] == b[j - k1 - 1]);
    }
    assert(s[k2] == '*');
    lemma_number_end_at(s, k1 + 1, k2);
    assert(s.subrange(k1 + 1, k2) =~= b);
    assert forall|j: int| k2 + 1 <= j < n implies is_digit(#[trigger] s[j]) by {
        assert(s[j] == c[j - k2 - 1]);
    }
    lemma_number_end_at(s, k2 + 1, n);
    assert(s.subrange(k2 + 1, n) =~= c);
    let cp = choose|x: Quant| is_product(qb, qc, x);
    lemma_product_unique(qb, qc, p, cp);
    let cs = choose|x: Quant| is_sum(qa, p, x);
    lemma_sum_unique(qa, p, r, cs);
    assert(is_digit(s[0]) && is_digit(s[k1 + 1]) && is_digit(s[k2 + 1]));
    assert(factor(s, 0, 0) == Reading::Value(qa, k1, 0));
    assert(!is_mul_op(s[k1]));
    assert(term_tail(s, k1, qa, 0) == Reading::Value(qa, k1, 0));
    assert(term(s, 0, 0) == Reading::Value(qa, k1, 0));
    assert(factor(s, k1 + 1, 1) == Reading::Value(qb, k2, 1));
    assert(is_mul_op(s[k2]));
    assert(factor(s, k2 + 1, 2) == Reading::Value(qc, n, 2));
    assert(term_tail(s, n, p, 2) == Reading::Value(p, n, 2));
    assert(term_tail(s, k2, qb, 1) == Reading::Value(p, n, 2));
    assert(term(s, k1 + 1, 1) == Reading::Value(p, n, 2));
    assert(expression_tail(s, n, r, 2) == Reading::Value(r, n, 2));
    assert(expression_tail(s, k1, qa, 0) == Reading::Value(r, n, 2));
}

} // verus!
