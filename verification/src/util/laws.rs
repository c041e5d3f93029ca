//! What holds of quants across operations: the representation stays in
//! lowest terms, and the arithmetic is commutative and associative.

use vstd::prelude::*;
use crate::util::numbers::{gcd, lemma_gcd_commutes};
use crate::util::quant::{
    Quant, is_sum, is_product, negated, reciprocal, max_u32, lemma_value_determines,
};

verus! {

/// Every result of an addition of numbers in lowest terms is in lowest
/// terms: the representation invariant is kept.
pub proof fn lemma_sum_normalized(a: Quant, b: Quant, r: Quant)
    requires
        a.normalized(),
        b.normalized(),
        is_sum(a, b, r),
    ensures
        r.normalized(),
{
}

/// Every product of numbers in lowest terms is in lowest terms.
pub proof fn lemma_product_normalized(a: Quant, b: Quant, r: Quant)
    requires
        a.normalized(),
        b.normalized(),
        is_product(a, b, r),
    ensures
        r.normalized(),
{
}

/// Negation keeps lowest terms, never makes zero negative, and undoes
/// itself.
pub proof fn lemma_negation(a: Quant)
    requires
        a.normalized(),
    ensures
        negated(a).normalized(),
        negated(negated(a)) == a,
        a.numerator == 0 ==> !negated(a).is_negative,
{
}

/// The reciprocal of a non-zero number in lowest terms is in lowest terms,
/// and taking it twice gives the number back.
pub proof fn lemma_reciprocal(a: Quant)
    requires
        a.normalized(),
        a.numerator != 0,
    ensures
        reciprocal(a).normalized(),
        reciprocal(reciprocal(a)) == a,
{
    lemma_gcd_commutes(a.numerator as nat, a.denominator as nat);
}

/// Addition commutes: `a + b` and `b + a` are the same quant.
pub proof fn lemma_sum_commutes(a: Quant, b: Quant, r1: Quant, r2: Quant)
    requires
        a.normalized(),
        b.normalized(),
        is_sum(a, b, r1),
        is_sum(b, a, r2),
    ensures
        r1 == r2,
{
    if a.numerator != 0 && b.numerator != 0 {
        let n = a.sn() * b.denominator + b.sn() * a.denominator;
        let d = a.denominator * b.denominator;
        assert(d > 0) by (nonlinear_arith)
            requires a.denominator > 0, b.denominator > 0, d == a.denominator * b.denominator;
        assert(r2.has_value(n, d)) by (nonlinear_arith)
            requires r2.has_value(b.sn() * a.denominator + a.sn() * b.denominator, b.denominator * a.denominator),
                n == a.sn() * b.denominator + b.sn() * a.denominator, d == a.denominator * b.denominator;
        lemma_value_determines(r1, r2, n, d);
    }
}

/// Multiplication commutes: `a * b` and `b * a` are the same quant.
pub proof fn lemma_product_commutes(a: Quant, b: Quant, r1: Quant, r2: Quant)
    requires
        a.normalized(),
        b.normalized(),
        is_product(a, b, r1),
        is_product(b, a, r2),
    ensures
        r1 == r2,
{
    if a.numerator != 0 && b.numerator != 0 {
        let n = a.sn() * b.sn();
        let d = a.denominator * b.denominator;
        assert(d > 0) by (nonlinear_arith)
            requires a.denominator > 0, b.denominator > 0, d == a.denominator * b.denominator;
        assert(r2.has_value(n, d)) by (nonlinear_arith)
            requires r2.has_value(b.sn() * a.sn(), b.denominator * a.denominator),
                n == a.sn() * b.sn(), d == a.denominator * b.denominator;
        lemma_value_determines(r1, r2, n, d);
    }
}

proof fn lemma_cancel(x: int, a: int, c: int, y: int, z: int, e: int, dd: int, n1: int)
    requires
        x * (a * c) == (y * z) * e,
        y * dd == n1 * a,
        a > 0,
    ensures
        x * (dd * c) == (n1 * z) * e,
{
    assert(x * (a * c) * dd == (y * z) * e * dd) by (nonlinear_arith)
        requires x * (a * c) == (y * z) * e;
    assert((y * z) * e * dd == (y * dd) * z * e) by (nonlinear_arith);
    assert((y * dd) * z * e == (n1 * a) * z * e) by (nonlinear_arith)
        requires y * dd == n1 * a;
    assert(x * (a * c) * dd == a * (x * (dd * c))) by (nonlinear_arith);
    assert((n1 * a) * z * e == a * ((n1 * z) * e)) by (nonlinear_arith);
    assert(x * (dd * c) == (n1 * z) * e) by (nonlinear_arith)
        requires a * (x * (dd * c)) == a * ((n1 * z) * e), a > 0;
}

proof fn lemma_cancel_right(x: int, a: int, b: int, y: int, w: int, e: int, g: int, m: int)
    requires
        x * (a * b) == (y * w) * e,
        w * g == m * b,
        b > 0,
    ensures
        x * (a * g) == (y * m) * e,
{
    assert(x * (a * b) * g == (y * w) * e * g) by (nonlinear_arith)
        requires x * (a * b) == (y * w) * e;
    assert((y * w) * e * g == y * (w * g) * e) by (nonlinear_arith);
    assert(y * (w * g) * e == y * (m * b) * e) by (nonlinear_arith)
        requires w * g == m * b;
    assert(x * (a * b) * g == b * (x * (a * g))) by (nonlinear_arith);
    assert(y * (m * b) * e == b * ((y * m) * e)) by (nonlinear_arith);
    assert(x * (a * g) == (y * m) * e) by (nonlinear_arith)
        requires b * (x * (a * g)) == b * ((y * m) * e), b > 0;
}

/// Multiplication associates: `(a * b) * c` and `a * (b * c)` are the
/// same quant, so a chain of rates can be applied in any grouping.
pub proof fn lemma_product_associates(
    a: Quant,
    b: Quant,
    c: Quant,
    ab: Quant,
    ab_c: Quant,
    bc: Quant,
    a_bc: Quant,
)
    requires
        a.normalized(),
        b.normalized(),
        c.normalized(),
        is_product(a, b, ab),
        is_product(ab, c, ab_c),
        is_product(b, c, bc),
        is_product(a, bc, a_bc),
    ensures
        ab_c == a_bc,
{
    if a.numerator != 0 && b.numerator != 0 && c.numerator != 0 {
        let n = a.sn() * b.sn() * c.sn();
        let d = a.denominator * b.denominator * c.denominator;
        let ad = a.denominator as int;
        let bd = b.denominator as int;
        let cd = c.denominator as int;
        assert(d > 0) by (nonlinear_arith)
            requires ad > 0, bd > 0, cd > 0, d == ad * bd * cd;
        // ab is a*b, and not zero, so (ab)*c is a*b*c
        assert(ab.sn() * (ad * bd) == (a.sn() * b.sn()) * ab.denominator);
        assert(a.sn() * b.sn() != 0) by (nonlinear_arith)
            requires a.sn() != 0, b.sn() != 0;
        assert(ab.numerator != 0) by (nonlinear_arith)
            requires ab.sn() * (ad * bd) == (a.sn() * b.sn()) * ab.denominator, a.sn() * b.sn() != 0,
                ab.denominator > 0, ab.sn() == (if ab.is_negative { -(ab.numerator as int) } else { ab.numerator as int });
        assert(bc.sn() * (bd * cd) == (b.sn() * c.sn()) * bc.denominator);
        assert(b.sn() * c.sn() != 0) by (nonlinear_arith)
            requires b.sn() != 0, c.sn() != 0;
        assert(bc.numerator != 0) by (nonlinear_arith)
            requires bc.sn() * (bd * cd) == (b.sn() * c.sn()) * bc.denominator, b.sn() * c.sn() != 0,
                bc.denominator > 0, bc.sn() == (if bc.is_negative { -(bc.numerator as int) } else { bc.numerator as int });
        let abd = ab.denominator as int;
        let bcd = bc.denominator as int;
        lemma_cancel(ab_c.sn(), abd, cd, ab.sn(), c.sn(), ab_c.denominator as int, ad * bd, a.sn() * b.sn());
        assert(ab_c.has_value(n, d));
        lemma_cancel_right(a_bc.sn(), ad, bcd, a.sn(), bc.sn(), a_bc.denominator as int, bd * cd, b.sn() * c.sn());
        assert(a.sn() * (b.sn() * c.sn()) == n) by (nonlinear_arith)
            requires n == a.sn() * b.sn() * c.sn();
        assert(ad * (bd * cd) == d) by (nonlinear_arith)
            requires d == ad * bd * cd;
        assert(a_bc.has_value(n, d));
        assert(ab_c.render_precision == a_bc.render_precision);
        lemma_value_determines(ab_c, a_bc, n, d);
    }
}

} // verus!
