//! Decimal expansion of quants: rounding half to even at a number of places.

use vstd::prelude::*;
use vstd::arithmetic::div_mod::*;
use crate::util::numbers::{
    pow10, digits_number, small_digits, round_half_even, checked_pow10, lemma_pow10_positive,
    lemma_digits_number_bound, lemma_digits_number_update,
};
use crate::util::quant::{Quant, reduced, lemma_reduced, MAX_PLACES};
use crate::text::digits::{digit_char, decimal_chars, with_commas, digit_to_char, push_decimal, push_with_commas};
use crate::text::chars::string_of;

verus! {

/// One step of long division: for a remainder `r < d`, the digit and new
/// remainder of `10 * r / d`, computed without ever multiplying, so that it
/// works for any denominator a u128 can hold.
pub fn next_digit(r: u128, d: u128) -> (res: (u8, u128))
    requires
        r < d,
    ensures
        res.0 < 10,
        res.0 as int == (10 * r) / (d as int),
        res.1 as int == (10 * r) % (d as int),
{
    let mut digit: u8 = 0;
    let mut acc: u128 = 0;
    let mut k: u8 = 0;
    while k < 10
        invariant
            r < d,
            k <= 10,
            digit <= k,
            acc < d,
            k * r == digit * d + acc,
        decreases 10 - k,
    {
        // acc + r, reduced mod d, counting each time it wraps past d
        assert((k + 1) * r == k * r + r) by (nonlinear_arith);
        assert((digit + 1) * d == digit * d + d) by (nonlinear_arith);
        if acc >= d - r {
            acc = acc - (d - r);
            digit = digit + 1;
        } else {
            acc = acc + r;
        }
        k = k + 1;
    }
    assert(digit < 10) by (nonlinear_arith)
        requires
            10 * r == digit * d + acc,
            r < d,
            acc >= 0,
    ;
    proof {
        lemma_fundamental_div_mod_converse((10 * r) as int, d as int, digit as int, acc as int);
    }
    (digit, acc)
}

proof fn lemma_long_division_step(s: nat, d: nat, digit: nat, rem2: nat)
    requires
        d > 0,
        digit == (10 * (s % d)) / d,
        rem2 == (10 * (s % d)) % d,
    ensures
        (10 * s) / d == 10 * (s / d) + digit,
        (10 * s) % d == rem2,
{
    lemma_fundamental_div_mod(s as int, d as int);
    lemma_fundamental_div_mod((10 * (s % d)) as int, d as int);
    lemma_mod_pos_bound((10 * (s % d)) as int, d as int);
    let q = s / d;
    let r = s % d;
    assert(10 * s == (10 * q + digit) * d + rem2) by (nonlinear_arith)
        requires
            s == d * q + r,
            10 * r == d * digit + rem2,
    ;
    lemma_fundamental_div_mod_converse((10 * s) as int, d as int, (10 * q + digit) as int, rem2 as int);
}

impl Quant {
    /// Long division of the magnitude to exactly `places` decimal digits,
    /// rounded half to even: the integer part and the digits. None only if
    /// rounding up overflows the integer part.
    pub fn decimal_digits(&self, places: u32) -> (r: Option<(u128, Vec<u8>)>)
        requires
            self.wf(),
        ensures
            r is None <==> round_half_even(self.numerator as nat, self.denominator as nat, places as nat)
                / pow10(places as nat) > u128::MAX,
            r matches Some((whole, digits)) ==> {
                &&& digits@.len() == places
                &&& small_digits(digits@)
                &&& whole * pow10(places as nat) + digits_number(digits@) == round_half_even(
                    self.numerator as nat,
                    self.denominator as nat,
                    places as nat,
                )
            },
    {
        let ghost n = self.numerator as nat;
        let d: u128 = self.denominator;
        let mut whole: u128 = self.numerator / d;
        let mut remainder: u128 = self.numerator % d;
        let mut digits: Vec<u8> = Vec::new();
        let mut i: u32 = 0;
        proof {
            assert(pow10(0) == 1);
            assert(n * pow10(0) == n);
        }
        while i < places
            invariant
                i <= places,
                d == self.denominator,
                d > 0,
                n == self.numerator,
                digits@.len() == i,
                small_digits(digits@),
                whole == n / (d as nat),
                whole * pow10(i as nat) + digits_number(digits@) == (n * pow10(i as nat)) / (d as nat),
                remainder == (n * pow10(i as nat)) % (d as nat),
            decreases places - i,
        {
            proof {
                lemma_mod_pos_bound((n * pow10(i as nat)) as int, d as int);
            }
            let (digit, rest) = next_digit(remainder, d);
            let ghost old_digits = digits@;
            digits.push(digit);
            proof {
                let s = n * pow10(i as nat);
                lemma_long_division_step(s, d as nat, digit as nat, rest as nat);
                assert(digits@.drop_last() =~= old_digits);
                assert(n * pow10((i + 1) as nat) == 10 * s) by (nonlinear_arith)
                    requires
                        pow10((i + 1) as nat) == 10 * pow10(i as nat),
                        s == n * pow10(i as nat),
                ;
                assert(whole * pow10((i + 1) as nat) + digits_number(digits@) == 10 * (whole * pow10(
                    i as nat,
                ) + digits_number(old_digits)) + digit) by (nonlinear_arith)
                    requires
                        pow10((i + 1) as nat) == 10 * pow10(i as nat),
                        digits_number(digits@) == digits_number(old_digits) * 10 + digit,
                ;
                assert forall|j: int| 0 <= j < digits@.len() implies #[trigger] digits@[j] < 10 by {
                    if j < old_digits.len() {
                        assert(digits@[j] == old_digits[j]);
                    }
                }
            }
            remainder = rest;
            i = i + 1;
        }
        let ghost scaled = n * pow10(places as nat);
        let ghost q = scaled / (d as nat);
        proof {
            lemma_mod_pos_bound(scaled as int, d as int);
            lemma_digits_number_bound(digits@);
            lemma_pow10_positive(places as nat);
        }
        // Round half to even on whatever remains below the last digit
        let rest: u128 = d - remainder;
        let last_is_odd: bool = if digits.len() > 0 {
            digits[digits.len() - 1] % 2 == 1
        } else {
            whole % 2 == 1
        };
        proof {
            if digits@.len() > 0 {
                let v = digits_number(digits@.drop_last());
                assert(digits_number(digits@) == v * 10 + digits@.last());
                assert(pow10(places as nat) == 10 * pow10((places - 1) as nat));
                let y = whole * pow10((places - 1) as nat) + v;
                assert(q == 10 * y + digits@.last()) by (nonlinear_arith)
                    requires
                        q == whole * (10 * pow10((places - 1) as nat)) + v * 10 + digits@.last(),
                        y == whole * pow10((places - 1) as nat) + v,
                ;
                lemma_mod_multiples_vanish((5 * y) as int, digits@.last() as int, 2);
                assert(2 * (5 * y) + digits@.last() == q);
            } else {
                assert(pow10(0) == 1);
            }
        }
        if remainder > rest || (remainder == rest && last_is_odd) {
            let ghost before = digits@;
            let mut carry = true;
            let mut k: usize = digits.len();
            while k > 0 && carry
                invariant
                    k <= digits@.len(),
                    digits@.len() == before.len(),
                    small_digits(digits@),
                    forall|j: int| 0 <= j < k ==> digits@[j] == before[j],
                    digits_number(digits@) + (if carry { pow10((digits@.len() - k) as nat) } else { 0 })
                        == digits_number(before) + 1,
                decreases k,
            {
                k = k - 1;
                let ghost old = digits@;
                proof {
                    assert(pow10((digits@.len() - k) as nat) == 10 * pow10((digits@.len() - 1 - k) as nat));
                }
                let ghost w = pow10((digits@.len() - 1 - k) as nat);
                if digits[k] == 9 {
                    digits.set(k, 0);
                    proof {
                        lemma_digits_number_update(old, k as int, 0);
                        assert(digits@ == old.update(k as int, 0));
                        assert((0 - old[k as int] as int) * w == -9 * w) by (nonlinear_arith)
                            requires
                                old[k as int] == 9,
                        ;
                    }
                } else {
                    let next: u8 = digits[k] + 1;
                    digits.set(k, next);
                    carry = false;
                    proof {
                        lemma_digits_number_update(old, k as int, next);
                        assert(digits@ == old.update(k as int, next));
                        assert((next as int - old[k as int] as int) * w == w) by (nonlinear_arith)
                            requires
                                next == old[k as int] + 1,
                        ;
                    }
                }
                proof {
                    assert forall|j: int| 0 <= j < digits@.len() implies #[trigger] digits@[j] < 10 by {
                        if j != k {
                            assert(digits@[j] == old[j]);
                        }
                    }
                }
            }
            if carry {
                proof {
                    assert(k == 0);
                }
                whole = match whole.checked_add(1) {
                    Some(w) => w,
                    None => {
                        proof {
                            lemma_digits_number_bound(digits@);
                            assert((whole + 1) * pow10(places as nat) + digits_number(digits@)
                                == q + 1) by (nonlinear_arith)
                                requires
                                    digits_number(digits@) + pow10(places as nat) == digits_number(before) + 1,
                                    whole * pow10(places as nat) + digits_number(before) == q,
                            ;
                            vstd::arithmetic::div_mod::lemma_fundamental_div_mod_converse(
                                (q + 1) as int,
                                pow10(places as nat) as int,
                                (whole + 1) as int,
                                digits_number(digits@) as int,
                            );
                        }
                        return None;
                    },
                };
                proof {
                    assert(whole * pow10(places as nat) + digits_number(digits@) == q + 1)
                        by (nonlinear_arith)
                        requires
                            digits_number(digits@) + pow10(places as nat) == digits_number(before) + 1,
                            (whole - 1) * pow10(places as nat) + digits_number(before) == q,
                    ;
                }
            }
        }
        proof {
            lemma_digits_number_bound(digits@);
            vstd::arithmetic::div_mod::lemma_fundamental_div_mod_converse(
                round_half_even(n, d as nat, places as nat) as int,
                pow10(places as nat) as int,
                whole as int,
                digits_number(digits@) as int,
            );
        }
        Some((whole, digits))
    }
}

/// Rounding to `p` places can be held in u128s: the scale `10^p` and the
/// rounded numerator both fit.
pub open spec fn fits_at(n: nat, d: nat, p: nat) -> bool {
    pow10(p) <= u128::MAX && round_half_even(n, d, p) <= u128::MAX
}

/// The most places, at most `p`, at which rounding can be held in u128s.
pub open spec fn finest_fitting(n: nat, d: nat, p: nat) -> Option<nat>
    decreases p,
{
    if fits_at(n, d, p) {
        Some(p)
    } else if p == 0 {
        None
    } else {
        finest_fitting(n, d, (p - 1) as nat)
    }
}

/// `d` with every factor of two removed, and how many there were.
pub open spec fn strip_twos(d: nat) -> (nat, nat)
    decreases d,
{
    if d > 0 && d % 2 == 0 {
        let (rest, count) = strip_twos(d / 2);
        (rest, count + 1)
    } else {
        (d, 0)
    }
}

/// `d` with every factor of five removed, and how many there were.
pub open spec fn strip_fives(d: nat) -> (nat, nat)
    decreases d,
{
    if d > 0 && d % 5 == 0 {
        let (rest, count) = strip_fives(d / 5);
        (rest, count + 1)
    } else {
        (d, 0)
    }
}

/// A fraction over `d` has a terminating decimal expansion of at most
/// `places` digits: `d` is `2^a * 5^b` with `a` and `b` at most `places`.
pub open spec fn exact_at(d: nat, places: nat) -> bool {
    let (odd, twos) = strip_twos(d);
    let (rest, fives) = strip_fives(odd);
    rest == 1 && twos <= places && fives <= places
}

impl Quant {
    /// True iff this value has a terminating decimal expansion that fits in
    /// the given number of places, i.e. rounding to them would change nothing.
    pub fn is_exact_at(&self, places: u32) -> (r: bool)
        ensures
            r == exact_at(self.denominator as nat, places as nat),
    {
        let mut d: u128 = self.denominator;
        let mut twos: u128 = 0;
        while d > 0 && d % 2 == 0
            invariant
                strip_twos(self.denominator as nat).0 == strip_twos(d as nat).0,
                strip_twos(self.denominator as nat).1 == strip_twos(d as nat).1 + twos,
                twos + d <= self.denominator,
            decreases d,
        {
            d = d / 2;
            twos = twos + 1;
        }
        let mut fives: u128 = 0;
        let ghost odd = d as nat;
        while d > 0 && d % 5 == 0
            invariant
                strip_fives(odd).0 == strip_fives(d as nat).0,
                strip_fives(odd).1 == strip_fives(d as nat).1 + fives,
                fives + d <= odd,
                odd <= u128::MAX,
            decreases d,
        {
            d = d / 5;
            fives = fives + 1;
        }
        d == 1 && twos <= places as u128 && fives <= places as u128
    }

    /// The magnitude of this, rounded half to even at `places`, as a fraction
    /// over `10^places`. None if it cannot be represented at that precision.
    pub fn rounded_fraction(&self, places: u32) -> (r: Option<(u128, u128)>)
        requires
            self.wf(),
        ensures
            r is Some <==> fits_at(self.numerator as nat, self.denominator as nat, places as nat),
            r matches Some((numerator, denominator)) ==> {
                &&& numerator == round_half_even(self.numerator as nat, self.denominator as nat, places as nat)
                &&& denominator == pow10(places as nat)
            },
    {
        let ghost rounded = round_half_even(self.numerator as nat, self.denominator as nat, places as nat);
        let scale: u128 = match checked_pow10(places) {
            Some(v) => v,
            None => return None,
        };
        let (whole, digits) = match self.decimal_digits(places) {
            Some(v) => v,
            None => {
                proof {
                    lemma_pow10_positive(places as nat);
                    assert(rounded / pow10(places as nat) <= rounded) by {
                        vstd::arithmetic::div_mod::lemma_div_is_ordered_by_denominator(
                            rounded as int,
                            1,
                            pow10(places as nat) as int,
                        );
                    }
                }
                return None;
            },
        };
        let mut acc: u128 = whole;
        let mut i: usize = 0;
        proof {
            assert(digits@.take(0) =~= Seq::<u8>::empty());
            assert(pow10(0) == 1);
        }
        while i < digits.len()
            invariant
                i <= digits@.len(),
                digits@.len() == places,
                small_digits(digits@),
                whole * pow10(places as nat) + digits_number(digits@) == rounded,
                rounded == round_half_even(self.numerator as nat, self.denominator as nat, places as nat),
                acc == whole * pow10(i as nat) + digits_number(digits@.take(i as int)),
            decreases digits@.len() - i,
        {
            let digit: u8 = digits[i];
            proof {
                assert(digits@.take(i + 1).drop_last() =~= digits@.take(i as int));
                lemma_prefix_number_bound(whole as nat, digits@, (i + 1) as nat);
                assert(whole * pow10((i + 1) as nat) + digits_number(digits@.take(i + 1)) == acc * 10 + digit)
                    by (nonlinear_arith)
                    requires
                        pow10((i + 1) as nat) == 10 * pow10(i as nat),
                        digits_number(digits@.take(i + 1)) == digits_number(digits@.take(i as int)) * 10 + digit,
                        acc == whole * pow10(i as nat) + digits_number(digits@.take(i as int)),
                ;
            }
            let next: Option<u128> = match acc.checked_mul(10) {
                Some(m) => m.checked_add(digit as u128),
                None => None,
            };
            match next {
                Some(v) => {
                    acc = v;
                    i = i + 1;
                },
                None => {
                    assert(acc * 10 + digit > u128::MAX);
                    return None;
                },
            }
        }
        proof {
            assert(digits@.take(digits@.len() as int) =~= digits@);
        }
        Some((acc, scale))
    }

    /// Rounds the underlying fraction to the given number of decimal places
    /// (at most `MAX_PLACES`), half to even, and shows it with that many. A
    /// value too large to hold at that precision is rounded at the finest
    /// precision that fits.
    pub fn round(&mut self, decimal_places: u32)
        requires
            old(self).wf(),
            exact_at(old(self).denominator as nat, min_places(decimal_places) as nat)
                || finest_fitting(
                old(self).numerator as nat,
                old(self).denominator as nat,
                min_places(decimal_places) as nat,
            ) is Some,
        ensures
            exact_at(old(self).denominator as nat, min_places(decimal_places) as nat) ==> {
                &&& final(self).same_fields(*old(self))
                &&& final(self).render_precision == min_places(decimal_places)
            },
            !exact_at(old(self).denominator as nat, min_places(decimal_places) as nat) ==> {
                let p = finest_fitting(
                    old(self).numerator as nat,
                    old(self).denominator as nat,
                    min_places(decimal_places) as nat,
                )->0;
                let rounded = round_half_even(old(self).numerator as nat, old(self).denominator as nat, p);
                &&& *final(self) == reduced(
                    rounded as u128,
                    pow10(p) as u128,
                    old(self).is_negative,
                    min_places(decimal_places),
                )
                &&& final(self).normalized()
                &&& final(self).has_value(
                    if old(self).is_negative { -(rounded as int) } else { rounded as int },
                    pow10(p) as int,
                )
            },
    {
        let places: u32 = if decimal_places < MAX_PLACES { decimal_places } else { MAX_PLACES };
        if !self.is_exact_at(places) {
            let ghost n = self.numerator as nat;
            let ghost d = self.denominator as nat;
            let mut p: u32 = places;
            let mut found: (u128, u128) = (0, 1);
            loop
                invariant
                    p <= places,
                    self.wf(),
                    n == self.numerator,
                    d == self.denominator,
                    finest_fitting(n, d, places as nat) is Some,
                    finest_fitting(n, d, places as nat) == finest_fitting(n, d, p as nat),
                ensures
                    finest_fitting(n, d, places as nat) == Some(p as nat),
                    found.0 == round_half_even(n, d, p as nat),
                    found.1 == pow10(p as nat),
                decreases p,
            {
                match self.rounded_fraction(p) {
                    Some(f) => {
                        found = f;
                        break;
                    },
                    None => {
                        if p == 0 {
                            proof {
                                assert(finest_fitting(n, d, 0) is None);
                            }
                            break;
                        }
                        p = p - 1;
                    },
                }
            }
            proof {
                lemma_pow10_positive(p as nat);
            }
            let ghost raw = Quant { numerator: found.0, denominator: found.1, ..*self };
            self.numerator = found.0;
            self.denominator = found.1;
            self.render_precision = places;
            self.normalize();
            proof {
                lemma_reduced(raw.numerator, raw.denominator, raw.is_negative, places);
            }
        } else {
            self.render_precision = places;
        }
    }
}

pub open spec fn min_places(places: u32) -> u32 {
    if places < MAX_PLACES { places } else { MAX_PLACES }
}

/// What rounding `q` to `places` decimal places gives.
pub open spec fn rounded_quant(q: Quant, places: u32) -> Quant {
    let m = min_places(places);
    if exact_at(q.denominator as nat, m as nat) {
        Quant { render_precision: m, ..q }
    } else {
        let p = finest_fitting(q.numerator as nat, q.denominator as nat, m as nat)->0;
        reduced(
            round_half_even(q.numerator as nat, q.denominator as nat, p) as u128,
            pow10(p) as u128,
            q.is_negative,
            m,
        )
    }
}

/// Rounding half to even at `places` gives the whole number of
/// `10^-places` steps nearest to `n / d`, an even one when two are equally
/// near: `R / 10^p` is within half a step of `n / d`.
pub proof fn lemma_round_half_even_nearest(n: nat, d: nat, places: nat)
    requires
        d > 0,
    ensures
        ({
            let r = round_half_even(n, d, places) as int;
            let target = (n * pow10(places)) as int;
            let gap = if r * d >= target { r * d - target } else { target - r * d };
            &&& 2 * gap <= d
            &&& 2 * gap == d ==> r % 2 == 0
        }),
{
    let scaled = n * pow10(places);
    let q = scaled / d;
    let rem = scaled % d;
    lemma_fundamental_div_mod(scaled as int, d as int);
    lemma_mod_bound(scaled as int, d as int);
    assert(scaled == q * d + rem);
    assert((q + 1) * d == q * d + d) by (nonlinear_arith);
}

/// Rounding to `places` (at most `MAX_PLACES`) shows that many places. A
/// value already exact at that precision keeps its fraction; any other,
/// where rounding at that precision fits in 128 bits, becomes the nearest
/// multiple of `10^-p` (`R / 10^p`, with `R` within half a step of the
/// value), ties going to the even multiple, in lowest terms.
pub proof fn lemma_round_is_nearest(q: Quant, places: u32)
    requires
        q.wf(),
        exact_at(q.denominator as nat, min_places(places) as nat)
            || fits_at(q.numerator as nat, q.denominator as nat, min_places(places) as nat),
    ensures
        rounded_quant(q, places).render_precision == min_places(places),
        exact_at(q.denominator as nat, min_places(places) as nat) ==> rounded_quant(q, places).same_fields(q),
        !exact_at(q.denominator as nat, min_places(places) as nat) ==> ({
            let p = min_places(places) as nat;
            let n = q.numerator as nat;
            let d = q.denominator as nat;
            let r = round_half_even(n, d, p) as int;
            let gap = if r * d >= n * pow10(p) { r * d - n * pow10(p) } else { n * pow10(p) - r * d };
            &&& rounded_quant(q, places).normalized()
            &&& rounded_quant(q, places).has_value(if q.is_negative { -r } else { r }, pow10(p) as int)
            &&& 2 * gap <= d
            &&& 2 * gap == d ==> r % 2 == 0
        }),
{
    let m = min_places(places);
    if !exact_at(q.denominator as nat, m as nat) {
        let n = q.numerator as nat;
        let d = q.denominator as nat;
        assert(finest_fitting(n, d, m as nat) == Some(m as nat));
        lemma_pow10_positive(m as nat);
        let r = round_half_even(n, d, m as nat);
        lemma_reduced(r as u128, pow10(m as nat) as u128, q.is_negative, m);
        lemma_round_half_even_nearest(n, d, m as nat);
    }
}

/// The fewest places from `p` on at which `n / d` shows is the least one:
/// at every precision from `p` below it, the value would show as zero, and
/// it is 100 or shows the value.
pub proof fn lemma_visible_is_least(n: nat, d: nat, p: nat)
    ensures
        p <= visible_from(n, d, p),
        forall|j: nat| p <= j < visible_from(n, d, p) ==> invisible_at(n, d, j),
        visible_from(n, d, p) >= 100 || !invisible_at(n, d, visible_from(n, d, p)),
    decreases 100 - p,
{
    if !(p >= 100 || !invisible_at(n, d, p)) {
        lemma_visible_is_least(n, d, p + 1);
        assert forall|j: nat| p <= j < visible_from(n, d, p) implies invisible_at(n, d, j) by {
            if j > p {
                assert(p + 1 <= j);
            }
        }
    }
}

/// Every digit of zero, padded to any width, is a zero.
proof fn lemma_padded_zero(w: nat)
    ensures
        forall|i: int| 0 <= i < w ==> #[trigger] padded_digits(0, w)[i] == 0,
        padded_digits(0, w).len() == w,
    decreases w,
{
    if w > 0 {
        lemma_padded_zero((w - 1) as nat);
    }
}

/// Showing a value at `p` places reads the same as rounding it to `p`
/// places and showing the result: display rounds half to even just as
/// `round` does, wherever rounding at `p` places can be held in u128s.
pub proof fn lemma_display_matches_rounding(q: Quant, p: u32)
    requires
        q.wf(),
        p <= MAX_PLACES,
        exact_at(q.denominator as nat, p as nat) || fits_at(q.numerator as nat, q.denominator as nat, p as nat),
    ensures
        rounded_quant(q, p).render_precision == p,
        rendered(rounded_quant(q, p), p as nat, false) == rendered(Quant { render_precision: p, ..q }, p as nat, false),
{
    let shown = Quant { render_precision: p, ..q };
    let r = rounded_quant(q, p);
    assert(min_places(p) == p);
    if !exact_at(q.denominator as nat, p as nat) {
        let n = q.numerator as nat;
        let d = q.denominator as nat;
        let big = round_half_even(n, d, p as nat);
        let scale = pow10(p as nat);
        assert(finest_fitting(n, d, p as nat) == Some(p as nat));
        lemma_pow10_positive(p as nat);
        lemma_reduced(big as u128, scale as u128, q.is_negative, p);
        assert(round_half_even(r.numerator as nat, r.denominator as nat, p as nat) == big) by {
            if big == 0 {
                assert(r.numerator == 0 && r.denominator == 1);
                assert(0 * pow10(p as nat) == 0);
            } else {
                let raw = Quant { numerator: big as u128, denominator: scale as u128, is_negative: q.is_negative, render_precision: p };
                assert(r.sn() * (scale as int) == raw.sn() * (r.denominator as int));
                assert((r.numerator as int) * (scale as int) == (big as int) * (r.denominator as int)) by (nonlinear_arith)
                    requires
                        r.sn() * (scale as int) == raw.sn() * (r.denominator as int),
                        r.is_negative == raw.is_negative,
                        r.sn() == (if r.is_negative { -(r.numerator as int) } else { r.numerator as int }),
                        raw.sn() == (if raw.is_negative { -(raw.numerator as int) } else { raw.numerator as int }),
                        raw.numerator as int == big as int,
                ;
                lemma_fundamental_div_mod_converse(
                    ((r.numerator as nat) * scale) as int,
                    r.denominator as int,
                    big as int,
                    0,
                );
            }
        }
        assert(shown_parts(r, p as nat) == shown_parts(shown, p as nat));
        if big == 0 {
            lemma_padded_zero(p as nat);
            assert(big / scale == 0 && big % scale == 0) by (nonlinear_arith)
                requires
                    big == 0,
                    scale > 0,
            ;
            assert(!shows_nonzero(shown_parts(shown, p as nat).0, shown_parts(shown, p as nat).1));
        }
    }
}

/// A prefix of the digits, read as a number after the whole part, is no
/// larger than all of them.
proof fn lemma_prefix_number_bound(whole: nat, digits: Seq<u8>, i: nat)
    requires
        i <= digits.len(),
    ensures
        whole * pow10(i) + digits_number(digits.take(i as int)) <= whole * pow10(digits.len())
            + digits_number(digits),
    decreases digits.len(),
{
    if i < digits.len() {
        let shorter = digits.drop_last();
        assert(shorter.take(i as int) =~= digits.take(i as int));
        lemma_prefix_number_bound(whole, shorter, i);
        assert(whole * pow10(shorter.len()) + digits_number(shorter) <= whole * pow10(digits.len())
            + digits_number(digits)) by (nonlinear_arith)
            requires
                pow10(digits.len()) == 10 * pow10(shorter.len()),
                digits_number(digits) == digits_number(shorter) * 10 + digits.last(),
        ;
    } else {
        assert(digits.take(i as int) =~= digits);
    }
}

/// The `w` lowest decimal digits of `v`, zero-padded, most significant first.
pub open spec fn padded_digits(v: nat, w: nat) -> Seq<u8>
    decreases w,
{
    if w == 0 {
        Seq::empty()
    } else {
        padded_digits(v / 10, (w - 1) as nat).push((v % 10) as u8)
    }
}

/// Drops trailing zero digits beyond the first `keep`.
pub open spec fn trimmed(ds: Seq<u8>, keep: nat) -> Seq<u8>
    decreases ds.len(),
{
    if ds.len() > keep && ds.last() == 0 {
        trimmed(ds.drop_last(), keep)
    } else {
        ds
    }
}

/// The integer part and fraction digits shown for `q` at `places`: its
/// magnitude rounded half to even, or, if even the integer part cannot be
/// held, the truncated integer part alone.
pub open spec fn shown_parts(q: Quant, places: nat) -> (nat, Seq<u8>) {
    let rounded = round_half_even(q.numerator as nat, q.denominator as nat, places);
    let scale = pow10(places);
    if rounded / scale <= u128::MAX {
        (rounded / scale, padded_digits(rounded % scale, places))
    } else {
        ((q.numerator as nat) / (q.denominator as nat), Seq::empty())
    }
}

pub open spec fn digit_chars(ds: Seq<u8>) -> Seq<char> {
    ds.map_values(|d: u8| digit_char(d as nat))
}

/// How `q` reads at `places` decimal places: a minus sign unless it shows as
/// zero, the integer part with thousands separators, then a point and the
/// fraction digits if there are any. With `trim`, trailing zeros beyond the
/// render precision are dropped.
pub open spec fn rendered(q: Quant, places: nat, trim: bool) -> Seq<char> {
    let whole = shown_parts(q, places).0;
    let ds = shown_digits(q, places, trim);
    let sign = if q.is_negative && shows_nonzero(whole, ds) { seq!['-'] } else { Seq::empty() };
    sign + with_commas(decimal_chars(whole)) + fraction_chars(ds)
}

/// The fraction digits shown, after any trimming.
pub open spec fn shown_digits(q: Quant, places: nat, trim: bool) -> Seq<u8> {
    if trim {
        trimmed(shown_parts(q, places).1, q.render_precision as nat)
    } else {
        shown_parts(q, places).1
    }
}

pub open spec fn shows_nonzero(whole: nat, ds: Seq<u8>) -> bool {
    whole != 0 || exists|i: int| 0 <= i < ds.len() && ds[i] != 0
}

/// A point and the digits, or nothing if there are no digits.
pub open spec fn fraction_chars(ds: Seq<u8>) -> Seq<char> {
    if ds.len() == 0 {
        Seq::empty()
    } else {
        seq!['.'] + digit_chars(ds)
    }
}

proof fn lemma_padded_digits(ds: Seq<u8>)
    requires
        small_digits(ds),
    ensures
        padded_digits(digits_number(ds), ds.len()) == ds,
    decreases ds.len(),
{
    if ds.len() > 0 {
        let shorter = ds.drop_last();
        assert(small_digits(shorter)) by {
            assert forall|i: int| 0 <= i < shorter.len() implies #[trigger] shorter[i] < 10 by {
                assert(shorter[i] == ds[i]);
            }
        }
        lemma_padded_digits(shorter);
        let v = digits_number(ds);
        assert(ds.last() < 10);
        vstd::arithmetic::div_mod::lemma_fundamental_div_mod_converse(
            v as int,
            10,
            digits_number(shorter) as int,
            ds.last() as int,
        );
        assert(padded_digits(v, ds.len()) =~= ds);
    }
}

impl Quant {
    fn render(&self, places: u32, trim: bool) -> (r: String)
        requires
            self.wf(),
        ensures
            r@ == rendered(*self, places as nat, trim),
    {
        let ghost parts = shown_parts(*self, places as nat);
        let (whole, mut digits) = match self.decimal_digits(places) {
            Some(v) => {
                proof {
                    lemma_digits_number_bound(v.1@);
                    vstd::arithmetic::div_mod::lemma_fundamental_div_mod_converse(
                        round_half_even(self.numerator as nat, self.denominator as nat, places as nat) as int,
                        pow10(places as nat) as int,
                        v.0 as int,
                        digits_number(v.1@) as int,
                    );
                    lemma_padded_digits(v.1@);
                }
                v
            },
            None => (self.numerator / self.denominator, Vec::new()),
        };
        assert(whole == parts.0 && digits@ == parts.1);
        assert(small_digits(digits@));
        if trim {
            while digits.len() > self.render_precision as usize && digits[digits.len() - 1] == 0
                invariant
                    small_digits(digits@),
                    trimmed(parts.1, self.render_precision as nat) == trimmed(digits@, self.render_precision as nat),
                decreases digits@.len(),
            {
                let ghost before = digits@;
                digits.pop();
                assert(digits@ =~= before.drop_last());
                assert forall|j: int| 0 <= j < digits@.len() implies #[trigger] digits@[j] < 10 by {
                    assert(digits@[j] == before[j]);
                }
            }
        }
        let ghost ds = digits@;
        assert(ds == (if trim { trimmed(parts.1, self.render_precision as nat) } else { parts.1 }));
        let mut nonzero = whole != 0;
        let mut i: usize = 0;
        while i < digits.len()
            invariant
                i <= digits@.len(),
                nonzero == (whole != 0 || exists|j: int| 0 <= j < i && digits@[j] != 0),
            decreases digits@.len() - i,
        {
            if digits[i] != 0 {
                nonzero = true;
            }
            i = i + 1;
        }
        let mut out: Vec<char> = Vec::new();
        if self.is_negative && nonzero {
            out.push('-');
        }
        let ghost sign = out@;
        let mut int_chars: Vec<char> = Vec::new();
        push_decimal(&mut int_chars, whole);
        assert(int_chars@ =~= decimal_chars(whole as nat));
        push_with_commas(&mut out, &int_chars);
        if digits.len() > 0 {
            out.push('.');
            let mut k: usize = 0;
            while k < digits.len()
                invariant
                    k <= digits@.len(),
                    digits@ == ds,
                    small_digits(ds),
                    out@ == sign + with_commas(decimal_chars(whole as nat)) + seq!['.'] + digit_chars(ds).take(k as int),
                decreases digits@.len() - k,
            {
                assert(ds[k as int] < 10);
                let c = digit_to_char(digits[k]);
                out.push(c);
                assert(digit_chars(ds).take(k + 1) =~= digit_chars(ds).take(k as int).push(c));
                k = k + 1;
            }
        }
        proof {
            if ds.len() > 0 {
                assert(digit_chars(ds).take(ds.len() as int) =~= digit_chars(ds));
                assert(out@ == sign + with_commas(decimal_chars(whole as nat)) + (seq!['.'] + digit_chars(ds)));
            } else {
                assert(out@ == sign + with_commas(decimal_chars(whole as nat)) + Seq::<char>::empty());
            }
            assert(nonzero == (whole != 0 || exists|j: int| 0 <= j < ds.len() && ds[j] != 0));
            assert(sign == (if self.is_negative && nonzero { seq!['-'] } else { Seq::<char>::empty() }));
            assert(shows_nonzero(whole as nat, ds) == nonzero);
            assert(shown_digits(*self, places as nat, trim) == ds);
            assert(out@ =~= rendered(*self, places as nat, trim));
        }
        string_of(&out)
    }

    /// Renders with thousands separators at the render precision (at most
    /// `MAX_PLACES`), rounding half to even.
    pub fn to_string(&self) -> (r: String)
        requires
            self.wf(),
        ensures
            r@ == rendered(*self, min_places(self.render_precision) as nat, false),
    {
        let places: u32 = if self.render_precision < MAX_PLACES { self.render_precision } else { MAX_PLACES };
        self.render(places, false)
    }

    /// Renders at up to `places` decimal places (at most `MAX_PLACES`),
    /// dropping trailing zeros beyond the render precision.
    pub fn to_string_with_places(&self, places: u32) -> (r: String)
        requires
            self.wf(),
        ensures
            r@ == rendered(*self, min_places(places) as nat, true),
    {
        let places: u32 = if places < MAX_PLACES { places } else { MAX_PLACES };
        self.render(places, true)
    }
}

/// At `p` places a non-zero magnitude `n / d` would show as zero.
pub open spec fn invisible_at(n: nat, d: nat, p: nat) -> bool {
    pow10(p) <= u128::MAX && n * pow10(p) <= u128::MAX && n * pow10(p) < d
}

/// The fewest places, from `p` up to `MAX_PLACES`, at which `n / d` shows.
pub open spec fn visible_from(n: nat, d: nat, p: nat) -> nat
    decreases 100 - p,
{
    if p >= 100 || !invisible_at(n, d, p) {
        p
    } else {
        visible_from(n, d, p + 1)
    }
}

impl Quant {
    fn invisible_at(&self, p: u32) -> (r: bool)
        ensures
            r == invisible_at(self.numerator as nat, self.denominator as nat, p as nat),
    {
        match checked_pow10(p) {
            Some(scale) => match self.numerator.checked_mul(scale) {
                Some(scaled) => scaled < self.denominator,
                None => false,
            },
            None => false,
        }
    }

    /// Raises the precision enough for a non-zero value not to show as
    /// zero, with one extra digit for a better view of a tiny number. Meant
    /// for exchange rates.
    pub fn make_visible(&mut self)
        ensures
            final(self).same_fields(*old(self)),
            old(self).numerator == 0 ==> final(self).render_precision == old(self).render_precision,
            old(self).numerator != 0 ==> final(self).render_precision == (if invisible_at(
                old(self).numerator as nat,
                old(self).denominator as nat,
                old(self).render_precision as nat,
            ) {
                let v = visible_from(
                    old(self).numerator as nat,
                    old(self).denominator as nat,
                    old(self).render_precision as nat,
                );
                if v + 1 < 100 { v + 1 } else { 100 }
            } else {
                old(self).render_precision as nat
            }),
    {
        if self.numerator == 0 {
            return;
        }
        let ghost n = self.numerator as nat;
        let ghost d = self.denominator as nat;
        let mut precision: u32 = self.render_precision;
        if self.invisible_at(precision) {
            while precision < MAX_PLACES && self.invisible_at(precision)
                invariant
                    n == self.numerator,
                    d == self.denominator,
                    visible_from(n, d, precision as nat) == visible_from(n, d, old(self).render_precision as nat),
                decreases MAX_PLACES - precision,
            {
                precision = precision + 1;
            }
            // One extra digit gives a better view of a tiny number
            precision = if precision < MAX_PLACES - 1 { precision + 1 } else { MAX_PLACES };
        }
        self.render_precision = precision;
    }
}

} // verus!
