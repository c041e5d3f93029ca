//! Exact rational numbers for money and exchange rates.

use vstd::prelude::*;
use vstd::arithmetic::div_mod::*;
use vstd::arithmetic::mul::*;
use crate::text::chars::{extend_chars, string_of, chars_of, index_of, find_char, lemma_index_of_bounds};
use crate::text::digits::{all_digits, digits_value, is_digit, is_digit_char, parse_digits};
use crate::util::numbers::{gcd, pow10, lemma_lowest_terms_unique, lemma_gcd_divides, lemma_reduced_coprime, lemma_pow10_u128_limit, checked_pow10};

verus! {

/// The message every arithmetic overflow is reported with, so that a value
/// that cannot be represented exactly is always a loud failure and never a
/// silently wrong number.
pub const OVERFLOW_MESSAGE: &'static str = "numeric overflow: a value is too large or too precise to compute exactly";

/// No report needs more decimal places than this, and asking for more only
/// risks enormous allocations when rendering.
pub const MAX_PLACES: u32 = 100;

/// A rational number held as a fraction of u128s, with a sign and the number
/// of decimal places it is shown with.
///
/// Every constructor and operation leaves it `normalized`: the fraction is
/// fully reduced, and zero is `0/1` and never negative. Because of that,
/// comparing the fields compares the numbers (`lemma_normalized_unique`).
#[derive(Clone, Copy, Debug)]
pub struct Quant {
    pub numerator: u128,
    pub denominator: u128,
    /// False whenever the numerator is zero
    pub is_negative: bool,
    /// Decimal places shown when rendered; the fraction itself is unaffected
    pub render_precision: u32,
}

impl Quant {
    /// The signed numerator: the value is `sn() / denominator`.
    pub open spec fn sn(self) -> int {
        if self.is_negative {
            -(self.numerator as int)
        } else {
            self.numerator as int
        }
    }

    pub open spec fn wf(self) -> bool {
        self.denominator > 0
    }

    pub open spec fn normalized(self) -> bool {
        &&& self.denominator > 0
        &&& self.numerator == 0 ==> self.denominator == 1 && !self.is_negative
        &&& self.numerator != 0 ==> gcd(self.numerator as nat, self.denominator as nat) == 1
    }

    /// This value times `d` equals `n`: the value is `n / d`.
    pub open spec fn has_value(self, n: int, d: int) -> bool {
        self.sn() * d == n * self.denominator
    }

    /// Both name the same number.
    pub open spec fn same_value(self, other: Quant) -> bool {
        self.sn() * other.denominator == other.sn() * self.denominator
    }

    /// The same fraction and sign; render precision is not compared.
    pub open spec fn same_fields(self, other: Quant) -> bool {
        &&& self.numerator == other.numerator
        &&& self.denominator == other.denominator
        &&& self.is_negative == other.is_negative
    }
}

/// Two normalized quants with the same value are written identically, so
/// comparing fields is comparing numbers.
pub proof fn lemma_normalized_unique(a: Quant, b: Quant)
    requires
        a.normalized(),
        b.normalized(),
        a.same_value(b),
    ensures
        a.same_fields(b),
{
    let da = a.denominator as int;
    let db = b.denominator as int;
    if a.numerator == 0 || b.numerator == 0 {
        assert(a.sn() == 0 && b.sn() == 0) by (nonlinear_arith)
            requires
                a.sn() * db == b.sn() * da,
                a.numerator == 0 ==> a.sn() == 0,
                b.numerator == 0 ==> b.sn() == 0,
                a.numerator == 0 || b.numerator == 0,
                da > 0,
                db > 0,
        ;
    } else {
        let na = a.numerator as int;
        let nb = b.numerator as int;
        assert(a.is_negative == b.is_negative) by (nonlinear_arith)
            requires
                a.sn() * db == b.sn() * da,
                a.sn() == (if a.is_negative { -na } else { na }),
                b.sn() == (if b.is_negative { -nb } else { nb }),
                na > 0,
                nb > 0,
                da > 0,
                db > 0,
        ;
        assert(na * db == nb * da) by (nonlinear_arith)
            requires
                a.sn() * db == b.sn() * da,
                a.sn() == (if a.is_negative { -na } else { na }),
                b.sn() == (if b.is_negative { -nb } else { nb }),
                a.is_negative == b.is_negative,
        ;
        lemma_lowest_terms_unique(
            a.numerator as nat,
            a.denominator as nat,
            b.numerator as nat,
            b.denominator as nat,
        );
    }
}

/// Euclid's algorithm for the greatest common divisor.
fn gcd_u128(a: u128, b: u128) -> (r: u128)
    ensures
        r == gcd(a as nat, b as nat),
{
    let ghost a0: u128 = a;
    let ghost b0: u128 = b;
    let mut a: u128 = a;
    let mut b: u128 = b;
    while b != 0
        invariant
            gcd(a as nat, b as nat) == gcd(a0 as nat, b0 as nat),
        decreases b,
    {
        let temp: u128 = b;
        b = a % b;
        a = temp;
    }
    a
}

/// The magnitude of a signed integer, exact even for `i128::MIN`.
pub fn unsigned_abs(x: i128) -> (r: u128)
    ensures
        r as int == (if x < 0 { -(x as int) } else { x as int }),
{
    if x < 0 {
        ((-(x + 1)) as u128) + 1
    } else {
        x as u128
    }
}

/// The quant in lowest terms with the given fields' value.
pub open spec fn reduced(numerator: u128, denominator: u128, is_negative: bool, render_precision: u32) -> Quant {
    if numerator == 0 {
        Quant { numerator: 0, denominator: 1, is_negative: false, render_precision }
    } else {
        let g = gcd(numerator as nat, denominator as nat);
        Quant {
            numerator: ((numerator as nat) / g) as u128,
            denominator: ((denominator as nat) / g) as u128,
            is_negative,
            render_precision,
        }
    }
}

/// Reduction keeps the value and leaves the fraction in lowest terms.
pub proof fn lemma_reduced(numerator: u128, denominator: u128, is_negative: bool, render_precision: u32)
    requires
        denominator > 0,
    ensures
        reduced(numerator, denominator, is_negative, render_precision).normalized(),
        reduced(numerator, denominator, is_negative, render_precision).same_value(
            Quant { numerator, denominator, is_negative, render_precision },
        ),
{
    if numerator != 0 {
        let n = numerator as nat;
        let d = denominator as nat;
        let g = gcd(n, d);
        lemma_gcd_divides(n, d);
        lemma_reduced_coprime(n, d);
        lemma_fundamental_div_mod(n as int, g as int);
        lemma_fundamental_div_mod(d as int, g as int);
        let r = reduced(numerator, denominator, is_negative, render_precision);
        assert(n / g > 0 && d / g > 0) by (nonlinear_arith)
            requires
                n == g * (n / g),
                d == g * (d / g),
                n > 0,
                d > 0,
                g > 0,
        ;
        assert((n / g) * d == n * (d / g)) by (nonlinear_arith)
            requires
                n == g * (n / g),
                d == g * (d / g),
        ;
        lemma_div_is_ordered_by_denominator(n as int, 1, g as int);
        lemma_div_is_ordered_by_denominator(d as int, 1, g as int);
        let raw = Quant { numerator, denominator, is_negative, render_precision };
        assert(r.sn() * (d as int) == raw.sn() * (r.denominator as int)) by (nonlinear_arith)
            requires
                (n / g) * d == n * (d / g),
                r.numerator == n / g,
                r.denominator == d / g,
                raw.numerator == n,
                r.is_negative == raw.is_negative,
                r.sn() == (if r.is_negative { -(r.numerator as int) } else { r.numerator as int }),
                raw.sn() == (if raw.is_negative { -(raw.numerator as int) } else { raw.numerator as int }),
        ;
    }
}

impl Quant {
    pub fn zero() -> (r: Self)
        ensures
            r.numerator == 0,
            r.denominator == 1,
            !r.is_negative,
            r.render_precision == 0,
    {
        Self { numerator: 0, denominator: 1, render_precision: 0, is_negative: false }
    }

    /// Restores the invariants: a reduced fraction, and zero is `0/1` and
    /// never negative.
    pub fn normalize(&mut self)
        ensures
            *final(self) == reduced(
                old(self).numerator,
                old(self).denominator,
                old(self).is_negative,
                old(self).render_precision,
            ),
    {
        if self.numerator == 0 {
            self.denominator = 1;
            self.is_negative = false;
            return;
        }
        let g: u128 = gcd_u128(self.numerator, self.denominator);
        proof {
            lemma_gcd_divides(self.numerator as nat, self.denominator as nat);
        }
        self.numerator = self.numerator / g;
        self.denominator = self.denominator / g;
    }

    /// `numerator / 10^exp`, shown with `exp` decimal places, as though a
    /// decimal point were written that many places from the right.
    pub fn new(numerator: i128, exp: u32) -> (r: Self)
        requires
            exp <= 38,
        ensures
            r.normalized(),
            r.has_value(numerator as int, pow10(exp as nat) as int),
            r.render_precision == exp,
    {
        proof {
            lemma_pow10_u128_limit();
            crate::util::numbers::lemma_pow10_monotone(exp as nat, 38);
        }
        let denominator: u128 = match checked_pow10(exp) {
            Some(d) => d,
            None => 1,
        };
        proof {
            crate::util::numbers::lemma_pow10_positive(exp as nat);
        }
        let mut out = Self {
            numerator: unsigned_abs(numerator),
            denominator,
            render_precision: exp,
            is_negative: numerator < 0,
        };
        let ghost raw = out;
        out.normalize();
        proof {
            lemma_reduced(raw.numerator, raw.denominator, raw.is_negative, raw.render_precision);
        }
        out
    }

    /// The fraction `numerator / denominator`, shown with no decimal places.
    pub fn from_frac(numerator: i128, denominator: i128) -> (r: Self)
        requires
            denominator != 0,
        ensures
            r.normalized(),
            r.has_value(numerator as int, denominator as int),
            r.render_precision == 0,
    {
        let mut out = Self {
            numerator: unsigned_abs(numerator),
            denominator: unsigned_abs(denominator),
            render_precision: 0,
            is_negative: (numerator < 0) != (denominator < 0),
        };
        let ghost raw = out;
        out.normalize();
        proof {
            lemma_reduced(raw.numerator, raw.denominator, raw.is_negative, raw.render_precision);
            let n = numerator as int;
            let d = denominator as int;
            assert(raw.sn() * d == n * (raw.denominator as int)) by (nonlinear_arith)
                requires
                    raw.sn() == (if raw.is_negative { -(raw.numerator as int) } else { raw.numerator as int }),
                    raw.numerator as int == (if n < 0 { -n } else { n }),
                    raw.denominator as int == (if d < 0 { -d } else { d }),
                    raw.is_negative == ((n < 0) != (d < 0)),
            ;
            assert(out.sn() * d == n * (out.denominator as int)) by (nonlinear_arith)
                requires
                    out.sn() * (raw.denominator as int) == raw.sn() * (out.denominator as int),
                    raw.sn() * d == n * (raw.denominator as int),
                    raw.denominator > 0,
                    d != 0,
                    raw.denominator as int == (if d < 0 { -d } else { d }),
            ;
        }
        out
    }

    pub fn from_i128(amount: i128) -> (r: Self)
        ensures
            r == quant_of_i128(amount),
            r.normalized(),
            r.has_value(amount as int, 1),
            r.denominator == 1,
            r.render_precision == 0,
    {
        let r = Self {
            numerator: unsigned_abs(amount),
            denominator: 1,
            render_precision: 0,
            is_negative: amount < 0,
        };
        proof {
            if r.numerator != 0 {
                lemma_gcd_one(r.numerator as nat);
            }
        }
        r
    }

    pub fn render_precision(&self) -> (r: u32)
        ensures
            r == self.render_precision,
    {
        self.render_precision
    }

    /// Raises the render precision to `precision` (at most `MAX_PLACES`), or
    /// lowers it too if `can_decrease`.
    pub fn set_render_precision(&mut self, precision: u32, can_decrease: bool)
        ensures
            final(self).same_fields(*old(self)),
            final(self).render_precision == (if old(self).render_precision < min_u32(precision, MAX_PLACES)
                || can_decrease { min_u32(precision, MAX_PLACES) } else { old(self).render_precision }),
    {
        let precision: u32 = if precision < MAX_PLACES { precision } else { MAX_PLACES };
        if self.render_precision < precision || can_decrease {
            self.render_precision = precision;
        }
    }

    pub fn is_zero(&self) -> (r: bool)
        ensures
            r == (self.numerator == 0),
    {
        self.numerator == 0
    }

    pub fn is_negative(&self) -> (r: bool)
        ensures
            r == self.is_negative,
    {
        self.is_negative
    }

    pub fn abs(&self) -> (r: Self)
        ensures
            r == (Quant { is_negative: false, ..*self }),
    {
        Self { is_negative: false, ..*self }
    }

    /// The reciprocal, keeping the sign.
    pub fn recip(&self) -> (r: Self)
        requires
            self.numerator != 0,
        ensures
            r == (Quant { numerator: self.denominator, denominator: self.numerator, ..*self }),
    {
        Self { numerator: self.denominator, denominator: self.numerator, ..*self }
    }
}

pub open spec fn min_u32(a: u32, b: u32) -> u32 {
    if a < b { a } else { b }
}

proof fn lemma_gcd_one(n: nat)
    ensures
        gcd(n, 1) == 1,
{
    vstd::arithmetic::div_mod::lemma_mod_self_0(1);
    assert(n % 1 == 0) by {
        vstd::arithmetic::div_mod::lemma_small_mod(0, 1);
        lemma_fundamental_div_mod(n as int, 1);
        vstd::arithmetic::div_mod::lemma_mod_bound(n as int, 1);
    }
    assert(gcd(1, 0) == 1);
}

pub open spec fn max_u32(a: u32, b: u32) -> u32 {
    if a < b { b } else { a }
}

/// The denominator that addition brings both terms to: their least common
/// multiple, as `(a / gcd) * b`.
pub open spec fn common_denominator(a: Quant, b: Quant) -> nat {
    (a.denominator as nat / gcd(a.denominator as nat, b.denominator as nat)) * (b.denominator as nat)
}

pub open spec fn scaled_numerator(a: Quant, l: nat) -> nat {
    (a.numerator as nat) * (l / (a.denominator as nat))
}

/// Addition of these two can be computed in u128s without overflowing.
pub open spec fn add_fits(a: Quant, b: Quant) -> bool {
    a.numerator == 0 || b.numerator == 0 || {
        let l = common_denominator(a, b);
        &&& l <= u128::MAX
        &&& scaled_numerator(a, l) <= u128::MAX
        &&& scaled_numerator(b, l) <= u128::MAX
        &&& a.is_negative == b.is_negative ==> scaled_numerator(a, l) + scaled_numerator(b, l)
            <= u128::MAX
    }
}

/// What `a + b` is: the exact sum in lowest terms, shown with the finer of
/// the two precisions. Adding zero gives the other operand unchanged.
pub open spec fn is_sum(a: Quant, b: Quant, r: Quant) -> bool {
    let rp = max_u32(a.render_precision, b.render_precision);
    &&& a.numerator == 0 ==> r == (Quant { render_precision: rp, ..b })
    &&& a.numerator != 0 && b.numerator == 0 ==> r == (Quant { render_precision: rp, ..a })
    &&& a.numerator != 0 && b.numerator != 0 ==> {
        &&& r.normalized()
        &&& r.has_value(
            a.sn() * b.denominator + b.sn() * a.denominator,
            a.denominator * b.denominator,
        )
        &&& r.render_precision == rp
    }
}

/// Multiplication of these two can be computed in u128s without overflowing.
pub open spec fn mul_fits(a: Quant, b: Quant) -> bool {
    a.numerator == 0 || b.numerator == 0 || {
        let ga = gcd(a.numerator as nat, b.denominator as nat);
        let gb = gcd(b.numerator as nat, a.denominator as nat);
        &&& (a.numerator as nat / ga) * (b.numerator as nat / gb) <= u128::MAX
        &&& (a.denominator as nat / gb) * (b.denominator as nat / ga) <= u128::MAX
    }
}

/// What `a * b` is: the exact product in lowest terms, shown with the finer
/// of the two precisions.
pub open spec fn is_product(a: Quant, b: Quant, r: Quant) -> bool {
    let rp = max_u32(a.render_precision, b.render_precision);
    &&& a.numerator == 0 || b.numerator == 0 ==> r == (Quant {
        numerator: 0,
        denominator: 1,
        is_negative: false,
        render_precision: rp,
    })
    &&& a.numerator != 0 && b.numerator != 0 ==> {
        &&& r.normalized()
        &&& r.has_value(a.sn() * b.sn(), a.denominator * b.denominator)
        &&& r.render_precision == rp
    }
}

pub open spec fn negated(a: Quant) -> Quant {
    Quant { is_negative: !a.is_negative && a.numerator != 0, ..a }
}

pub open spec fn quant_of_i128(x: i128) -> Quant {
    Quant {
        numerator: (if x < 0 { -(x as int) } else { x as int }) as u128,
        denominator: 1,
        is_negative: x < 0,
        render_precision: 0,
    }
}

proof fn lemma_sum_value(a: Quant, b: Quant, g: nat, l: nat, s: int)
    requires
        a.wf(),
        b.wf(),
        g == gcd(a.denominator as nat, b.denominator as nat),
        l == common_denominator(a, b),
        s == (if a.is_negative { -(scaled_numerator(a, l) as int) } else { scaled_numerator(a, l) as int })
            + (if b.is_negative { -(scaled_numerator(b, l) as int) } else { scaled_numerator(b, l) as int }),
    ensures
        l > 0,
        s * (a.denominator * b.denominator) == (a.sn() * b.denominator + b.sn() * a.denominator) * l,
{
    let da = a.denominator as nat;
    let db = b.denominator as nat;
    lemma_gcd_divides(da, db);
    lemma_fundamental_div_mod(da as int, g as int);
    lemma_fundamental_div_mod(db as int, g as int);
    let x = da / g;
    let y = db / g;
    assert(l == x * g * y && x > 0 && y > 0) by (nonlinear_arith)
        requires
            l == x * db,
            db == g * y,
            da == g * x,
            da > 0,
            db > 0,
            g > 0,
    ;
    assert(l == da * y && l == db * x) by (nonlinear_arith)
        requires
            l == x * g * y,
            db == g * y,
            da == g * x,
    ;
    lemma_div_multiples_vanish(y as int, da as int);
    lemma_div_multiples_vanish(x as int, db as int);
    assert(l / da == y && l / db == x);
    let sa = a.sn();
    let sb = b.sn();
    assert(s == sa * y + sb * x) by (nonlinear_arith)
        requires
            s == (if a.is_negative { -(scaled_numerator(a, l) as int) } else { scaled_numerator(a, l) as int })
                + (if b.is_negative { -(scaled_numerator(b, l) as int) } else { scaled_numerator(b, l) as int }),
            scaled_numerator(a, l) == (a.numerator as nat) * y,
            scaled_numerator(b, l) == (b.numerator as nat) * x,
            sa == (if a.is_negative { -(a.numerator as int) } else { a.numerator as int }),
            sb == (if b.is_negative { -(b.numerator as int) } else { b.numerator as int }),
    ;
    assert(sa * db + sb * da == g * s) by (nonlinear_arith)
        requires
            s == sa * y + sb * x,
            db == g * y,
            da == g * x,
    ;
    assert(da * db == g * l) by (nonlinear_arith)
        requires
            l == x * g * y,
            db == g * y,
            da == g * x,
    ;
    assert(s * (da * db) == (sa * db + sb * da) * l) by (nonlinear_arith)
        requires
            sa * db + sb * da == g * s,
            da * db == g * l,
    ;
}

proof fn lemma_value_chain(r: Quant, mid_n: int, mid_d: int, n: int, d: int)
    requires
        mid_d > 0,
        r.sn() * mid_d == mid_n * r.denominator,
        mid_n * d == n * mid_d,
    ensures
        r.sn() * d == n * r.denominator,
{
    assert(r.sn() * d == n * r.denominator) by (nonlinear_arith)
        requires
            mid_d > 0,
            r.sn() * mid_d == mid_n * r.denominator,
            mid_n * d == n * mid_d,
    ;
}

impl Quant {
    /// `self + rhs`, or None where the sum cannot be computed in u128s.
    pub fn checked_add(self, rhs: Self) -> (r: Option<Self>)
        requires
            self.wf(),
            rhs.wf(),
        ensures
            r is Some <==> add_fits(self, rhs),
            r matches Some(q) ==> is_sum(self, rhs, q),
    {
        let render_precision: u32 = if self.render_precision < rhs.render_precision {
            rhs.render_precision
        } else {
            self.render_precision
        };
        if self.numerator == 0 {
            return Some(Self { render_precision, ..rhs });
        }
        if rhs.numerator == 0 {
            return Some(Self { render_precision, ..self });
        }
        let g: u128 = gcd_u128(self.denominator, rhs.denominator);
        proof {
            lemma_gcd_divides(self.denominator as nat, rhs.denominator as nat);
        }
        let lcm: u128 = match (self.denominator / g).checked_mul(rhs.denominator) {
            Some(v) => v,
            None => return None,
        };
        let ghost l: nat = lcm as nat;
        let term_a: u128 = match self.numerator.checked_mul(lcm / self.denominator) {
            Some(v) => v,
            None => return None,
        };
        let term_b: u128 = match rhs.numerator.checked_mul(lcm / rhs.denominator) {
            Some(v) => v,
            None => return None,
        };
        let numerator: u128;
        let is_negative: bool;
        if self.is_negative == rhs.is_negative {
            numerator = match term_a.checked_add(term_b) {
                Some(v) => v,
                None => return None,
            };
            is_negative = self.is_negative;
        } else if term_a >= term_b {
            numerator = term_a - term_b;
            is_negative = self.is_negative;
        } else {
            numerator = term_b - term_a;
            is_negative = rhs.is_negative;
        }
        let mut out = Self { numerator, denominator: lcm, render_precision, is_negative };
        let ghost raw = out;
        out.normalize();
        proof {
            let gg: nat = g as nat;
            let s: int = (if self.is_negative { -(term_a as int) } else { term_a as int })
                + (if rhs.is_negative { -(term_b as int) } else { term_b as int });
            lemma_sum_value(self, rhs, gg, l, s);
            assert(raw.sn() == s);
            lemma_reduced(raw.numerator, raw.denominator, raw.is_negative, raw.render_precision);
            lemma_value_chain(
                out,
                s,
                lcm as int,
                self.sn() * rhs.denominator + rhs.sn() * self.denominator,
                self.denominator * rhs.denominator,
            );
        }
        Some(out)
    }

    /// `self * rhs`, or None where the product cannot be computed in u128s.
    /// Cross-reduces first, which keeps the intermediate values small.
    pub fn checked_mul(self, rhs: Self) -> (r: Option<Self>)
        requires
            self.wf(),
            rhs.wf(),
        ensures
            r is Some <==> mul_fits(self, rhs),
            r matches Some(q) ==> is_product(self, rhs, q),
    {
        let render_precision: u32 = if self.render_precision < rhs.render_precision {
            rhs.render_precision
        } else {
            self.render_precision
        };
        if self.numerator == 0 || rhs.numerator == 0 {
            return Some(Self { numerator: 0, denominator: 1, is_negative: false, render_precision });
        }
        let gcd_a: u128 = gcd_u128(self.numerator, rhs.denominator);
        let gcd_b: u128 = gcd_u128(rhs.numerator, self.denominator);
        proof {
            lemma_gcd_divides(self.numerator as nat, rhs.denominator as nat);
            lemma_gcd_divides(rhs.numerator as nat, self.denominator as nat);
        }
        let numerator: u128 = match (self.numerator / gcd_a).checked_mul(rhs.numerator / gcd_b) {
            Some(v) => v,
            None => return None,
        };
        let denominator: u128 = match (self.denominator / gcd_b).checked_mul(rhs.denominator / gcd_a) {
            Some(v) => v,
            None => return None,
        };
        let mut out = Self {
            numerator,
            denominator,
            is_negative: self.is_negative != rhs.is_negative,
            render_precision,
        };
        let ghost raw = out;
        proof {
            lemma_product_value(self, rhs, gcd_a as nat, gcd_b as nat, raw);
        }
        out.normalize();
        proof {
            lemma_reduced(raw.numerator, raw.denominator, raw.is_negative, raw.render_precision);
            lemma_value_chain(
                out,
                raw.sn(),
                raw.denominator as int,
                self.sn() * rhs.sn(),
                self.denominator * rhs.denominator,
            );
        }
        Some(out)
    }
}

proof fn lemma_product_value(a: Quant, b: Quant, ga: nat, gb: nat, raw: Quant)
    requires
        a.wf(),
        b.wf(),
        a.numerator != 0,
        b.numerator != 0,
        ga == gcd(a.numerator as nat, b.denominator as nat),
        gb == gcd(b.numerator as nat, a.denominator as nat),
        raw.numerator == (a.numerator as nat / ga) * (b.numerator as nat / gb),
        raw.denominator == (a.denominator as nat / gb) * (b.denominator as nat / ga),
        raw.is_negative == (a.is_negative != b.is_negative),
    ensures
        raw.denominator > 0,
        raw.sn() * (a.denominator * b.denominator) == (a.sn() * b.sn()) * raw.denominator,
{
    let na = a.numerator as nat;
    let nb = b.numerator as nat;
    let da = a.denominator as nat;
    let db = b.denominator as nat;
    lemma_gcd_divides(na, db);
    lemma_gcd_divides(nb, da);
    lemma_fundamental_div_mod(na as int, ga as int);
    lemma_fundamental_div_mod(db as int, ga as int);
    lemma_fundamental_div_mod(nb as int, gb as int);
    lemma_fundamental_div_mod(da as int, gb as int);
    let p = na / ga;
    let q = db / ga;
    let s = nb / gb;
    let t = da / gb;
    assert(t > 0 && q > 0) by (nonlinear_arith)
        requires
            da == gb * t,
            db == ga * q,
            da > 0,
            db > 0,
            ga > 0,
            gb > 0,
    ;
    assert(raw.denominator > 0) by (nonlinear_arith)
        requires
            raw.denominator == t * q,
            t > 0,
            q > 0,
    ;
    assert((p * s) * (da * db) == (na * nb) * (t * q)) by (nonlinear_arith)
        requires
            na == ga * p,
            db == ga * q,
            nb == gb * s,
            da == gb * t,
    ;
    assert(raw.sn() * (da * db) == (a.sn() * b.sn()) * raw.denominator) by (nonlinear_arith)
        requires
            (p * s) * (da * db) == (na * nb) * (t * q),
            raw.numerator == p * s,
            raw.denominator == t * q,
            raw.is_negative == (a.is_negative != b.is_negative),
            raw.sn() == (if raw.is_negative { -(raw.numerator as int) } else { raw.numerator as int }),
            a.sn() == (if a.is_negative { -(na as int) } else { na as int }),
            b.sn() == (if b.is_negative { -(nb as int) } else { nb as int }),
    ;
}

/// A normalized quant is determined by its value and render precision.
pub proof fn lemma_value_determines(r1: Quant, r2: Quant, n: int, d: int)
    requires
        d > 0,
        r1.normalized(),
        r2.normalized(),
        r1.has_value(n, d),
        r2.has_value(n, d),
        r1.render_precision == r2.render_precision,
    ensures
        r1 == r2,
{
    assert(r1.same_value(r2)) by (nonlinear_arith)
        requires
            d > 0,
            r1.sn() * d == n * r1.denominator,
            r2.sn() * d == n * r2.denominator,
    ;
    lemma_normalized_unique(r1, r2);
}

proof fn lemma_positive_product(a: Quant, b: Quant)
    requires
        a.wf(),
        b.wf(),
    ensures
        a.denominator * b.denominator > 0,
{
    lemma_mul_strictly_positive(a.denominator as int, b.denominator as int);
}

pub proof fn lemma_sum_unique(a: Quant, b: Quant, r1: Quant, r2: Quant)
    requires
        a.wf(),
        b.wf(),
        is_sum(a, b, r1),
        is_sum(a, b, r2),
    ensures
        r1 == r2,
{
    if a.numerator != 0 && b.numerator != 0 {
        lemma_positive_product(a, b);
        lemma_value_determines(
            r1,
            r2,
            a.sn() * b.denominator + b.sn() * a.denominator,
            a.denominator * b.denominator,
        );
    }
}

pub proof fn lemma_product_unique(a: Quant, b: Quant, r1: Quant, r2: Quant)
    requires
        a.wf(),
        b.wf(),
        is_product(a, b, r1),
        is_product(a, b, r2),
    ensures
        r1 == r2,
{
    if a.numerator != 0 && b.numerator != 0 {
        lemma_positive_product(a, b);
        lemma_value_determines(r1, r2, a.sn() * b.sn(), a.denominator * b.denominator);
    }
}

impl vstd::std_specs::ops::AddSpecImpl for Quant {
    open spec fn obeys_add_spec() -> bool {
        true
    }

    open spec fn add_req(self, rhs: Quant) -> bool {
        self.wf() && rhs.wf() && add_fits(self, rhs)
    }

    open spec fn add_spec(self, rhs: Quant) -> Quant {
        choose|r: Quant| is_sum(self, rhs, r)
    }
}

impl core::ops::Add for Quant {
    type Output = Quant;

    fn add(self, rhs: Quant) -> (r: Quant)
        ensures
            is_sum(self, rhs, r),
    {
        match self.checked_add(rhs) {
            Some(sum) => {
                proof {
                    let c = choose|r: Quant| is_sum(self, rhs, r);
                    lemma_sum_unique(self, rhs, sum, c);
                }
                sum
            },
            None => {
                proof {
                    assert(false);
                }
                Quant::zero()
            },
        }
    }
}

impl core::ops::AddAssign for Quant {
    fn add_assign(&mut self, rhs: Quant)
        requires
            old(self).wf(),
            rhs.wf(),
            add_fits(*old(self), rhs),
        ensures
            is_sum(*old(self), rhs, *final(self)),
    {
        *self = *self + rhs;
    }
}

pub open spec fn reciprocal(a: Quant) -> Quant {
    Quant { numerator: a.denominator, denominator: a.numerator, ..a }
}

impl vstd::std_specs::ops::NegSpecImpl for Quant {
    open spec fn obeys_neg_spec() -> bool {
        true
    }

    open spec fn neg_req(self) -> bool {
        true
    }

    open spec fn neg_spec(self) -> Quant {
        negated(self)
    }
}

impl core::ops::Neg for Quant {
    type Output = Quant;

    fn neg(self) -> (r: Quant) {
        Self { is_negative: !self.is_negative && self.numerator != 0, ..self }
    }
}

impl vstd::std_specs::ops::SubSpecImpl for Quant {
    open spec fn obeys_sub_spec() -> bool {
        true
    }

    open spec fn sub_req(self, rhs: Quant) -> bool {
        self.wf() && rhs.wf() && add_fits(self, negated(rhs))
    }

    open spec fn sub_spec(self, rhs: Quant) -> Quant {
        choose|r: Quant| is_sum(self, negated(rhs), r)
    }
}

impl core::ops::Sub for Quant {
    type Output = Quant;

    fn sub(self, rhs: Quant) -> (r: Quant)
        ensures
            is_sum(self, negated(rhs), r),
    {
        let r = self + core::ops::Neg::neg(rhs);
        proof {
            let c = choose|r: Quant| is_sum(self, negated(rhs), r);
            lemma_sum_unique(self, negated(rhs), r, c);
        }
        r
    }
}

impl core::ops::SubAssign for Quant {
    fn sub_assign(&mut self, rhs: Quant)
        requires
            old(self).wf(),
            rhs.wf(),
            add_fits(*old(self), negated(rhs)),
        ensures
            is_sum(*old(self), negated(rhs), *final(self)),
    {
        *self = *self - rhs;
    }
}

impl vstd::std_specs::ops::MulSpecImpl for Quant {
    open spec fn obeys_mul_spec() -> bool {
        true
    }

    open spec fn mul_req(self, rhs: Quant) -> bool {
        self.wf() && rhs.wf() && mul_fits(self, rhs)
    }

    open spec fn mul_spec(self, rhs: Quant) -> Quant {
        choose|r: Quant| is_product(self, rhs, r)
    }
}

impl core::ops::Mul for Quant {
    type Output = Quant;

    fn mul(self, rhs: Quant) -> (r: Quant)
        ensures
            is_product(self, rhs, r),
    {
        match self.checked_mul(rhs) {
            Some(product) => {
                proof {
                    let c = choose|r: Quant| is_product(self, rhs, r);
                    lemma_product_unique(self, rhs, product, c);
                }
                product
            },
            None => {
                proof {
                    assert(false);
                }
                Quant::zero()
            },
        }
    }
}

impl core::ops::MulAssign for Quant {
    fn mul_assign(&mut self, rhs: Quant)
        requires
            old(self).wf(),
            rhs.wf(),
            mul_fits(*old(self), rhs),
        ensures
            is_product(*old(self), rhs, *final(self)),
    {
        *self = *self * rhs;
    }
}

impl vstd::std_specs::ops::MulSpecImpl<i128> for Quant {
    open spec fn obeys_mul_spec() -> bool {
        true
    }

    open spec fn mul_req(self, rhs: i128) -> bool {
        self.wf() && mul_fits(self, quant_of_i128(rhs))
    }

    open spec fn mul_spec(self, rhs: i128) -> Quant {
        Quant {
            render_precision: self.render_precision,
            ..choose|r: Quant| is_product(self, quant_of_i128(rhs), r)
        }
    }
}

/// Scales by an integer, keeping this quant's render precision.
impl core::ops::Mul<i128> for Quant {
    type Output = Quant;

    fn mul(self, rhs: i128) -> (r: Quant) {
        let product = self * Quant::from_i128(rhs);
        proof {
            let c = choose|r: Quant| is_product(self, quant_of_i128(rhs), r);
            lemma_product_unique(self, quant_of_i128(rhs), product, c);
        }
        Self { render_precision: self.render_precision, ..product }
    }
}



impl vstd::std_specs::ops::DivSpecImpl for Quant {
    open spec fn obeys_div_spec() -> bool {
        true
    }

    open spec fn div_req(self, rhs: Quant) -> bool {
        self.wf() && rhs.wf() && rhs.numerator != 0 && mul_fits(self, reciprocal(rhs))
    }

    open spec fn div_spec(self, rhs: Quant) -> Quant {
        choose|r: Quant| is_product(self, reciprocal(rhs), r)
    }
}

/// Dividing by a fraction is multiplying by its reciprocal.
impl core::ops::Div for Quant {
    type Output = Quant;

    fn div(self, rhs: Quant) -> (r: Quant)
        ensures
            is_product(self, reciprocal(rhs), r),
    {
        let r = self * rhs.recip();
        proof {
            let c = choose|r: Quant| is_product(self, reciprocal(rhs), r);
            lemma_product_unique(self, reciprocal(rhs), r, c);
        }
        r
    }
}

impl core::ops::DivAssign for Quant {
    fn div_assign(&mut self, rhs: Quant)
        requires
            old(self).wf(),
            rhs.wf(),
            rhs.numerator != 0,
            mul_fits(*old(self), reciprocal(rhs)),
        ensures
            is_product(*old(self), reciprocal(rhs), *final(self)),
    {
        *self = *self / rhs;
    }
}

impl vstd::std_specs::ops::DivSpecImpl<i128> for Quant {
    open spec fn obeys_div_spec() -> bool {
        true
    }

    open spec fn div_req(self, rhs: i128) -> bool {
        self.wf() && rhs != 0 && mul_fits(self, reciprocal(quant_of_i128(rhs)))
    }

    open spec fn div_spec(self, rhs: i128) -> Quant {
        choose|r: Quant| is_product(self, reciprocal(quant_of_i128(rhs)), r)
    }
}

impl core::ops::Div<i128> for Quant {
    type Output = Quant;

    fn div(self, rhs: i128) -> (r: Quant) {
        let r = self / Quant::from_i128(rhs);
        proof {
            let c = choose|r: Quant| is_product(self, reciprocal(quant_of_i128(rhs)), r);
            lemma_product_unique(self, reciprocal(quant_of_i128(rhs)), r, c);
        }
        r
    }
}



impl Quant {
    pub fn negate(&mut self)
        ensures
            *final(self) == negated(*old(self)),
    {
        *self = core::ops::Neg::neg(*self);
    }
}

impl vstd::std_specs::ops::DivSpecImpl<Quant> for i128 {
    open spec fn obeys_div_spec() -> bool {
        true
    }

    open spec fn div_req(self, rhs: Quant) -> bool {
        rhs.wf() && rhs.numerator != 0 && mul_fits(quant_of_i128(self), reciprocal(rhs))
    }

    open spec fn div_spec(self, rhs: Quant) -> Quant {
        choose|r: Quant| is_product(quant_of_i128(self), reciprocal(rhs), r)
    }
}

impl core::ops::Div<Quant> for i128 {
    type Output = Quant;

    fn div(self, rhs: Quant) -> (r: Quant) {
        let r = Quant::from_i128(self) / rhs;
        proof {
            let c = choose|r: Quant| is_product(quant_of_i128(self), reciprocal(rhs), r);
            lemma_product_unique(quant_of_i128(self), reciprocal(rhs), r, c);
        }
        r
    }
}

impl vstd::std_specs::ops::MulSpecImpl<Quant> for i128 {
    open spec fn obeys_mul_spec() -> bool {
        true
    }

    open spec fn mul_req(self, rhs: Quant) -> bool {
        rhs.wf() && mul_fits(quant_of_i128(self), rhs)
    }

    open spec fn mul_spec(self, rhs: Quant) -> Quant {
        choose|r: Quant| is_product(quant_of_i128(self), rhs, r)
    }
}

impl core::ops::Mul<Quant> for i128 {
    type Output = Quant;

    fn mul(self, rhs: Quant) -> (r: Quant) {
        let product = Quant::from_i128(self) * rhs;
        proof {
            let c = choose|r: Quant| is_product(quant_of_i128(self), rhs, r);
            lemma_product_unique(quant_of_i128(self), rhs, product, c);
        }
        product
    }
}

pub open spec fn two_pow_128() -> int {
    0x1_0000_0000_0000_0000_0000_0000_0000_0000int
}

/// Full 256-bit product of two u128s as (high, low) halves, so that
/// fractions can be compared by cross-multiplication without overflow.
pub fn wide_mul(a: u128, b: u128) -> (r: (u128, u128))
    ensures
        r.0 * two_pow_128() + r.1 == a * b,
{
    let mask: u128 = 0xFFFF_FFFF_FFFF_FFFF;
    let a_hi: u128 = a >> 64u32;
    let a_lo: u128 = a & mask;
    let b_hi: u128 = b >> 64u32;
    let b_lo: u128 = b & mask;
    assert(a_hi == a / 0x1_0000_0000_0000_0000 && a_lo == a % 0x1_0000_0000_0000_0000) by (bit_vector)
        requires
            a_hi == a >> 64u32,
            a_lo == a & mask,
            mask == 0xFFFF_FFFF_FFFF_FFFF,
    ;
    assert(b_hi == b / 0x1_0000_0000_0000_0000 && b_lo == b % 0x1_0000_0000_0000_0000) by (bit_vector)
        requires
            b_hi == b >> 64u32,
            b_lo == b & mask,
            mask == 0xFFFF_FFFF_FFFF_FFFF,
    ;
    assert(a_hi < 0x1_0000_0000_0000_0000 && a_lo < 0x1_0000_0000_0000_0000 && b_hi < 0x1_0000_0000_0000_0000 && b_lo < 0x1_0000_0000_0000_0000) by (bit_vector)
        requires
            a_hi == a >> 64u32,
            a_lo == a & mask,
            b_hi == b >> 64u32,
            b_lo == b & mask,
            mask == 0xFFFF_FFFF_FFFF_FFFF,
    ;
    assert(a_lo * b_lo < 0x1_0000_0000_0000_0000_0000_0000_0000_0000int
        && a_hi * b_lo < 0x1_0000_0000_0000_0000_0000_0000_0000_0000int
        && a_lo * b_hi < 0x1_0000_0000_0000_0000_0000_0000_0000_0000int
        && a_hi * b_hi < 0x1_0000_0000_0000_0000_0000_0000_0000_0000int) by (nonlinear_arith)
        requires
            a_hi < 0x1_0000_0000_0000_0000int,
            a_lo < 0x1_0000_0000_0000_0000int,
            b_hi < 0x1_0000_0000_0000_0000int,
            b_lo < 0x1_0000_0000_0000_0000int,
            a_hi >= 0,
            a_lo >= 0,
            b_hi >= 0,
            b_lo >= 0,
    ;
    let lo_lo: u128 = a_lo * b_lo;
    let hi_lo: u128 = a_hi * b_lo;
    let lo_hi: u128 = a_lo * b_hi;
    let hi_hi: u128 = a_hi * b_hi;
    assert(lo_lo >> 64u32 < 0x1_0000_0000_0000_0000 && hi_lo & mask < 0x1_0000_0000_0000_0000
        && lo_hi & mask < 0x1_0000_0000_0000_0000 && hi_lo >> 64u32 < 0x1_0000_0000_0000_0000
        && lo_hi >> 64u32 < 0x1_0000_0000_0000_0000) by (bit_vector)
        requires
            mask == 0xFFFF_FFFF_FFFF_FFFF,
    ;
    let mid: u128 = (lo_lo >> 64u32) + (hi_lo & mask) + (lo_hi & mask);
    let lo: u128 = (lo_lo & mask) | (mid << 64u32);
    assert(lo == (lo_lo & mask) + (mid % 0x1_0000_0000_0000_0000) * 0x1_0000_0000_0000_0000) by (bit_vector)
        requires
            mask == 0xFFFF_FFFF_FFFF_FFFF,
            lo == (lo_lo & mask) | (mid << 64u32),
    ;
    assert(lo_lo == (lo_lo >> 64u32) * 0x1_0000_0000_0000_0000 + (lo_lo & mask)
        && hi_lo == (hi_lo >> 64u32) * 0x1_0000_0000_0000_0000 + (hi_lo & mask)
        && lo_hi == (lo_hi >> 64u32) * 0x1_0000_0000_0000_0000 + (lo_hi & mask)
        && mid == (mid >> 64u32) * 0x1_0000_0000_0000_0000 + mid % 0x1_0000_0000_0000_0000
        && mid >> 64u32 < 4) by (bit_vector)
        requires
            mask == 0xFFFF_FFFF_FFFF_FFFF,
            mid == (lo_lo >> 64u32) + (hi_lo & mask) + (lo_hi & mask),
            lo_lo >> 64u32 < 0x1_0000_0000_0000_0000,
            hi_lo & mask < 0x1_0000_0000_0000_0000,
            lo_hi & mask < 0x1_0000_0000_0000_0000,
    ;
    let ghost hi_int: int = hi_hi + (hi_lo >> 64u32) + (lo_hi >> 64u32) + (mid >> 64u32);
    assert(a * b == (a_hi * b_hi) * 0x1_0000_0000_0000_0000_0000_0000_0000_0000int
        + (a_hi * b_lo + a_lo * b_hi) * 0x1_0000_0000_0000_0000int + a_lo * b_lo) by (nonlinear_arith)
        requires
            a == a_hi * 0x1_0000_0000_0000_0000int + a_lo,
            b == b_hi * 0x1_0000_0000_0000_0000int + b_lo,
    ;
    assert(hi_int * 0x1_0000_0000_0000_0000_0000_0000_0000_0000int + lo == a * b);
    assert(hi_int < 0x1_0000_0000_0000_0000_0000_0000_0000_0000int) by (nonlinear_arith)
        requires
            hi_int * 0x1_0000_0000_0000_0000_0000_0000_0000_0000int + lo == a * b,
            a < 0x1_0000_0000_0000_0000_0000_0000_0000_0000int,
            b < 0x1_0000_0000_0000_0000_0000_0000_0000_0000int,
            a >= 0,
            b >= 0,
            lo >= 0,
    ;
    let hi: u128 = hi_hi + (hi_lo >> 64u32) + (lo_hi >> 64u32) + (mid >> 64u32);
    (hi, lo)
}

/// The magnitude of `a` is less than that of `b`: `|a| < |b|`.
pub open spec fn magnitude_lt(a: Quant, b: Quant) -> bool {
    (a.numerator as int) * (b.denominator as int) < (b.numerator as int) * (a.denominator as int)
}

pub open spec fn magnitude_eq(a: Quant, b: Quant) -> bool {
    (a.numerator as int) * (b.denominator as int) == (b.numerator as int) * (a.denominator as int)
}

/// `a < b` as numbers.
pub open spec fn value_lt(a: Quant, b: Quant) -> bool {
    a.sn() * b.denominator < b.sn() * a.denominator
}

/// Whether `a` sorts before `b` in the order `cmp` gives: negative before
/// non-negative by the sign flag, then by magnitude.
pub open spec fn sorts_before(a: Quant, b: Quant) -> bool {
    if a.is_negative != b.is_negative {
        a.is_negative
    } else if a.is_negative {
        magnitude_lt(b, a)
    } else {
        magnitude_lt(a, b)
    }
}

/// For quants whose sign flag is only set on non-zero values (every
/// normalized one), the sorting order is the order of the numbers.
pub proof fn lemma_sorts_by_value(a: Quant, b: Quant)
    requires
        a.wf(),
        b.wf(),
        a.is_negative ==> a.numerator != 0,
        b.is_negative ==> b.numerator != 0,
    ensures
        sorts_before(a, b) == value_lt(a, b),
        (!sorts_before(a, b) && !sorts_before(b, a)) == a.same_value(b),
{
    let na = a.numerator as int;
    let nb = b.numerator as int;
    let da = a.denominator as int;
    let db = b.denominator as int;
    assert(na * db >= 0 && nb * da >= 0) by (nonlinear_arith)
        requires
            na >= 0,
            nb >= 0,
            da > 0,
            db > 0,
    ;
    assert(a.is_negative ==> na * db > 0) by (nonlinear_arith)
        requires
            a.is_negative ==> na > 0,
            db > 0,
    ;
    assert(b.is_negative ==> nb * da > 0) by (nonlinear_arith)
        requires
            b.is_negative ==> nb > 0,
            da > 0,
    ;
    assert(a.sn() * db == (if a.is_negative { -(na * db) } else { na * db })) by (nonlinear_arith)
        requires
            a.sn() == (if a.is_negative { -na } else { na }),
    ;
    assert(b.sn() * da == (if b.is_negative { -(nb * da) } else { nb * da })) by (nonlinear_arith)
        requires
            b.sn() == (if b.is_negative { -nb } else { nb }),
    ;
}

/// Comparing (high, low) halves lexicographically compares the 256-bit
/// numbers they make up.
pub proof fn lemma_wide_order(h1: u128, l1: u128, h2: u128, l2: u128)
    ensures
        (h1 < h2 || (h1 == h2 && l1 < l2)) == (h1 * two_pow_128() + l1 < h2 * two_pow_128() + l2),
        (h1 == h2 && l1 == l2) == (h1 * two_pow_128() + l1 == h2 * two_pow_128() + l2),
{
}

/// Why text is not a number.
#[derive(Clone, Copy, Debug, PartialEq, Eq)]
pub enum NumberError {
    /// Not a plain decimal such as `-1234.50`, `.5` or `+3`
    Invalid,
    /// A plain decimal, but too large or too precise to hold exactly
    TooLarge,
}

/// A decimal split into its sign, whole digits and fraction digits.
pub open spec fn decimal_parts(s: Seq<char>) -> (bool, Seq<char>, Seq<char>) {
    let (is_negative, digits) = if s.len() > 0 && s[0] == '-' {
        (true, s.drop_first())
    } else if s.len() > 0 && s[0] == '+' {
        (false, s.drop_first())
    } else {
        (false, s)
    };
    let dot = index_of(digits, '.');
    let fraction = if dot < digits.len() {
        digits.subrange(dot + 1, digits.len() as int)
    } else {
        Seq::empty()
    };
    (is_negative, digits.subrange(0, dot), fraction)
}

/// `s` is a plain decimal: an optional sign, digits, and optionally a point
/// and more digits, with at least one digit in all.
pub open spec fn decimal_syntax(s: Seq<char>) -> bool {
    let (_, whole, fraction) = decimal_parts(s);
    &&& !(whole.len() == 0 && fraction.len() == 0)
    &&& all_digits(whole)
    &&& all_digits(fraction)
}

/// The decimal's magnitude as a fraction over `10^places`.
pub open spec fn decimal_scaled(s: Seq<char>) -> nat {
    let (_, whole, fraction) = decimal_parts(s);
    digits_value(whole) * pow10(fraction.len()) + digits_value(fraction)
}

/// The decimal can be held exactly: the scale `10^places` and the scaled
/// value both fit in a u128.
pub open spec fn decimal_fits(s: Seq<char>) -> bool {
    let (_, _, fraction) = decimal_parts(s);
    &&& fraction.len() <= 38
    &&& decimal_scaled(s) <= u128::MAX
}

impl Quant {
    /// Parses a plain decimal such as `-1234.50`, `.5` or `+3`. The render
    /// precision becomes the number of decimal places written.
    pub fn from_str(input: &str) -> (r: Result<Self, NumberError>)
        ensures
            r == Err::<Quant, NumberError>(NumberError::Invalid) <==> !decimal_syntax(input@),
            r == Err::<Quant, NumberError>(NumberError::TooLarge) <==> decimal_syntax(input@)
                && !decimal_fits(input@),
            r matches Ok(q) ==> {
                let (is_negative, _, fraction) = decimal_parts(input@);
                &&& q.normalized()
                &&& q.has_value(
                    if is_negative { -(decimal_scaled(input@) as int) } else { decimal_scaled(input@) as int },
                    pow10(fraction.len()) as int,
                )
                &&& q.render_precision == fraction.len()
            },
    {
        let chars = chars_of(input);
        let ghost s = chars@;
        let mut start: usize = 0;
        let mut is_negative = false;
        if chars.len() > 0 && chars[0] == '-' {
            is_negative = true;
            start = 1;
        } else if chars.len() > 0 && chars[0] == '+' {
            start = 1;
        }
        let ghost digits = s.subrange(start as int, s.len() as int);
        proof {
            if start == 1 {
                assert(digits =~= s.drop_first());
            } else {
                assert(digits =~= s);
            }
        }
        let dot = find_char(&chars, start, '.');
        proof {
            lemma_index_of_bounds(digits, '.');
        }
        let whole_end: usize = dot;
        let fraction_start: usize = if dot < chars.len() { dot + 1 } else { dot };
        let ghost (neg_s, whole_s, fraction_s) = decimal_parts(s);
        assert(whole_s =~= s.subrange(start as int, whole_end as int));
        assert(fraction_s =~= s.subrange(fraction_start as int, s.len() as int));
        // Check that every character is a digit
        let mut i: usize = start;
        #[verifier::loop_isolation(false)]
        while i < chars.len()
            invariant
                start <= i <= chars@.len(),
                chars@ == s,
                start <= whole_end <= fraction_start <= s.len(),
                whole_end < s.len() ==> fraction_start == whole_end + 1,
                whole_end == s.len() ==> fraction_start == whole_end,
                forall|j: int| start <= j < i && j != whole_end ==> is_digit(#[trigger] s[j]),
            decreases chars@.len() - i,
        {
            if i != whole_end && !is_digit_char(chars[i]) {
                proof {
                    if i < whole_end {
                        assert(whole_s[i - start] == s[i as int]);
                    } else {
                        assert(fraction_s[i - fraction_start] == s[i as int]);
                    }
                }
                return Err(NumberError::Invalid);
            }
            i = i + 1;
        }
        assert(all_digits(whole_s)) by {
            assert forall|j: int| 0 <= j < whole_s.len() implies is_digit(#[trigger] whole_s[j]) by {
                assert(whole_s[j] == s[j + start]);
            }
        }
        assert(all_digits(fraction_s)) by {
            assert forall|j: int| 0 <= j < fraction_s.len() implies is_digit(#[trigger] fraction_s[j]) by {
                assert(fraction_s[j] == s[j + fraction_start]);
            }
        }
        if whole_end == start && fraction_start == chars.len() {
            return Err(NumberError::Invalid);
        }
        let fraction_len: usize = chars.len() - fraction_start;
        if fraction_len > 38 {
            return Err(NumberError::TooLarge);
        }
        let precision: u32 = fraction_len as u32;
        proof {
            lemma_pow10_u128_limit();
            crate::util::numbers::lemma_pow10_monotone(precision as nat, 38);
            crate::util::numbers::lemma_pow10_positive(precision as nat);
        }
        let scale: u128 = match checked_pow10(precision) {
            Some(v) => v,
            None => return Err(NumberError::TooLarge),
        };
        let whole: u128 = match parse_digits(&chars, start, whole_end) {
            Some(v) => v,
            None => {
                proof {
                    assert(digits_value(whole_s) * pow10(fraction_s.len()) >= digits_value(whole_s))
                        by (nonlinear_arith)
                        requires
                            pow10(fraction_s.len()) >= 1,
                    ;
                }
                return Err(NumberError::TooLarge);
            },
        };
        let fraction: u128 = match parse_digits(&chars, fraction_start, chars.len()) {
            Some(v) => v,
            None => return Err(NumberError::TooLarge),
        };
        let numerator: u128 = match whole.checked_mul(scale) {
            Some(m) => match m.checked_add(fraction) {
                Some(v) => v,
                None => return Err(NumberError::TooLarge),
            },
            None => {
                proof {
                    assert(whole * scale + fraction >= whole * scale) by (nonlinear_arith)
                        requires
                            fraction >= 0,
                    ;
                }
                return Err(NumberError::TooLarge);
            },
        };
        let mut out = Self { numerator, denominator: scale, render_precision: precision, is_negative };
        let ghost raw = out;
        out.normalize();
        proof {
            lemma_reduced(raw.numerator, raw.denominator, raw.is_negative, raw.render_precision);
        }
        Ok(out)
    }
}

impl Default for Quant {
    fn default() -> (r: Quant)
        ensures
            r == (Quant { numerator: 0, denominator: 1, is_negative: false, render_precision: 0 }),
    {
        Quant::zero()
    }
}

impl NumberError {
    /// The message shown for `input` failing with this error.
    pub fn message(&self, input: &str) -> (r: String)
        ensures
            r@ == (match self {
                NumberError::Invalid => "Invalid number: "@,
                NumberError::TooLarge => "Number is too large or too precise: "@,
            }) + input@,
    {
        let mut out: Vec<char> = Vec::new();
        match self {
            NumberError::Invalid => extend_chars(&mut out, "Invalid number: "),
            NumberError::TooLarge => extend_chars(&mut out, "Number is too large or too precise: "),
        }
        extend_chars(&mut out, input);
        string_of(&out)
    }
}

} // verus!
