//! Elementary number theory over the naturals: greatest common divisors,
//! powers of ten, and the facts about them that exact fractions rest on.

use vstd::prelude::*;
use vstd::arithmetic::div_mod::*;
use vstd::arithmetic::mul::*;

verus! {

/// Euclid's greatest common divisor.
pub open spec fn gcd(a: nat, b: nat) -> nat
    decreases b,
{
    if b == 0 {
        a
    } else {
        gcd(b, a % b)
    }
}

/// `d` divides `n`.
pub open spec fn divides(d: nat, n: nat) -> bool {
    d > 0 && n % d == 0
}

pub open spec fn pow10(exp: nat) -> nat
    decreases exp,
{
    if exp == 0 {
        1
    } else {
        10 * pow10((exp - 1) as nat)
    }
}

pub proof fn lemma_pow10_positive(exp: nat)
    ensures
        pow10(exp) >= 1,
    decreases exp,
{
    if exp > 0 {
        lemma_pow10_positive((exp - 1) as nat);
    }
}

pub proof fn lemma_pow10_monotone(a: nat, b: nat)
    requires
        a <= b,
    ensures
        pow10(a) <= pow10(b),
    decreases b,
{
    if a < b {
        lemma_pow10_monotone(a, (b - 1) as nat);
        lemma_pow10_positive((b - 1) as nat);
    }
}

/// Divisibility survives sums and differences of multiples.
proof fn lemma_divides_linear(d: nat, x: nat, q: nat, y: nat)
    requires
        d > 0,
        x % d == 0,
        y % d == 0,
    ensures
        (x * q + y) % d == 0,
{
    lemma_fundamental_div_mod(x as int, d as int);
    lemma_fundamental_div_mod(y as int, d as int);
    let kx = x / d;
    let ky = y / d;
    assert(x * q + y == d * (kx * q + ky)) by (nonlinear_arith)
        requires
            x == d * kx,
            y == d * ky,
    ;
    lemma_mod_multiples_basic((kx * q + ky) as int, d as int);
    lemma_mul_is_commutative(d as int, (kx * q + ky) as int);
}

proof fn lemma_divides_remainder(d: nat, a: nat, b: nat)
    requires
        d > 0,
        b > 0,
        a % d == 0,
        b % d == 0,
    ensures
        (a % b) % d == 0,
{
    lemma_fundamental_div_mod(a as int, b as int);
    lemma_fundamental_div_mod(a as int, d as int);
    lemma_fundamental_div_mod(b as int, d as int);
    let q = a / b;
    let r = a % b;
    let ka = a / d;
    let kb = b / d;
    assert(r == d * (ka - kb * q)) by (nonlinear_arith)
        requires
            a == b * q + r,
            a == d * ka,
            b == d * kb,
    ;
    assert(ka - kb * q >= 0) by (nonlinear_arith)
        requires
            r == d * (ka - kb * q),
            r >= 0,
            d > 0,
    ;
    lemma_mod_multiples_basic(ka - kb * q, d as int);
    lemma_mul_is_commutative(d as int, ka - kb * q);
}

/// The greatest common divisor divides both arguments, and is positive
/// unless both are zero.
pub proof fn lemma_gcd_divides(a: nat, b: nat)
    requires
        a > 0 || b > 0,
    ensures
        gcd(a, b) > 0,
        a % gcd(a, b) == 0,
        b % gcd(a, b) == 0,
    decreases b,
{
    if b == 0 {
        lemma_mod_self_0(a as int);
        lemma_small_mod(0, a);
    } else {
        lemma_mod_pos_bound(a as int, b as int);
        lemma_gcd_divides(b, a % b);
        let g = gcd(a, b);
        lemma_fundamental_div_mod(a as int, b as int);
        lemma_divides_linear(g, b, a / b, a % b);
        assert(a == b * (a / b) + a % b);
    }
}

/// Every common divisor divides the greatest common divisor.
pub proof fn lemma_gcd_greatest(a: nat, b: nat, c: nat)
    requires
        c > 0,
        a % c == 0,
        b % c == 0,
    ensures
        gcd(a, b) % c == 0,
    decreases b,
{
    if b > 0 {
        lemma_mod_pos_bound(a as int, b as int);
        lemma_divides_remainder(c, a, b);
        lemma_gcd_greatest(b, a % b, c);
    }
}

proof fn lemma_mod_scaled(a: nat, b: nat, c: nat)
    requires
        b > 0,
        c > 0,
    ensures
        (a * c) % (b * c) == (a % b) * c,
{
    lemma_fundamental_div_mod(a as int, b as int);
    lemma_mod_pos_bound(a as int, b as int);
    let q = a / b;
    let r = a % b;
    assert(a * c == q * (b * c) + r * c && 0 <= r * c < b * c) by (nonlinear_arith)
        requires
            a == b * q + r,
            0 <= r < b,
            c > 0,
    ;
    lemma_fundamental_div_mod_converse_mod((a * c) as int, (b * c) as int, q as int, (r * c) as int);
}

/// Scaling both arguments scales the greatest common divisor.
pub proof fn lemma_gcd_scaled(a: nat, b: nat, c: nat)
    requires
        c > 0,
    ensures
        gcd(a * c, b * c) == gcd(a, b) * c,
    decreases b,
{
    if b == 0 {
        assert(b * c == 0);
    } else {
        assert(b * c > 0) by (nonlinear_arith)
            requires
                b > 0,
                c > 0,
        ;
        lemma_mod_pos_bound(a as int, b as int);
        lemma_mod_scaled(a, b, c);
        lemma_gcd_scaled(b, a % b, c);
    }
}

pub proof fn lemma_gcd_commutes(a: nat, b: nat)
    ensures
        gcd(a, b) == gcd(b, a),
{
    if a == 0 && b == 0 {
    } else if a == 0 {
        assert(gcd(0, b) == gcd(b, 0)) by {
            lemma_small_mod(0, b);
        }
    } else if b == 0 {
        lemma_small_mod(0, a);
    } else {
        lemma_gcd_divides(a, b);
        lemma_gcd_divides(b, a);
        lemma_gcd_greatest(a, b, gcd(b, a));
        lemma_gcd_greatest(b, a, gcd(a, b));
        lemma_mutual_divisors(gcd(a, b), gcd(b, a));
    }
}

proof fn lemma_mutual_divisors(x: nat, y: nat)
    requires
        x > 0,
        y > 0,
        x % y == 0,
        y % x == 0,
    ensures
        x == y,
{
    lemma_fundamental_div_mod(x as int, y as int);
    lemma_fundamental_div_mod(y as int, x as int);
    assert(x == y) by (nonlinear_arith)
        requires
            x == y * (x / y),
            y == x * (y / x),
            x > 0,
            y > 0,
    ;
}

/// Dividing both arguments by their greatest common divisor leaves them
/// coprime.
pub proof fn lemma_reduced_coprime(a: nat, b: nat)
    requires
        a > 0,
    ensures
        gcd(a / gcd(a, b), b / gcd(a, b)) == 1,
{
    let g = gcd(a, b);
    lemma_gcd_divides(a, b);
    lemma_fundamental_div_mod(a as int, g as int);
    lemma_fundamental_div_mod(b as int, g as int);
    lemma_gcd_scaled(a / g, b / g, g);
    assert(a == (a / g) * g && b == (b / g) * g) by {
        lemma_mul_is_commutative(g as int, (a / g) as int);
        lemma_mul_is_commutative(g as int, (b / g) as int);
    }
    assert(gcd(a / g, b / g) * g == g);
    assert(gcd(a / g, b / g) == 1) by (nonlinear_arith)
        requires
            gcd(a / g, b / g) * g == g,
            g > 0,
    ;
}

/// Euclid's lemma: a divisor of a product that shares no factor with one
/// side divides the other.
pub proof fn lemma_coprime_divides(a: nat, b: nat, c: nat)
    requires
        b > 0,
        c > 0,
        gcd(a, b) == 1,
        (a * c) % b == 0,
    ensures
        c % b == 0,
{
    lemma_gcd_scaled(a, b, c);
    lemma_mod_multiples_basic(c as int, b as int);
    lemma_mul_is_commutative(b as int, c as int);
    lemma_gcd_greatest(a * c, b * c, b);
}

/// Two fractions in lowest terms with positive denominators that name the
/// same number are written identically.
pub proof fn lemma_lowest_terms_unique(n1: nat, d1: nat, n2: nat, d2: nat)
    requires
        d1 > 0,
        d2 > 0,
        gcd(n1, d1) == 1,
        gcd(n2, d2) == 1,
        n1 * d2 == n2 * d1,
    ensures
        n1 == n2,
        d1 == d2,
{
    // d1 divides n1 * d2, and shares nothing with n1
    lemma_mod_multiples_basic(n2 as int, d1 as int);
    lemma_mul_is_commutative(d1 as int, n2 as int);
    lemma_coprime_divides(n1, d1, d2);
    lemma_mod_multiples_basic(n1 as int, d2 as int);
    lemma_mul_is_commutative(d2 as int, n1 as int);
    lemma_coprime_divides(n2, d2, d1);
    lemma_mutual_divisors(d1, d2);
    lemma_mul_equality_converse(d1 as int, n1 as int, n2 as int);
    lemma_mul_is_commutative(d1 as int, n1 as int);
    lemma_mul_is_commutative(d1 as int, n2 as int);
}

/// The largest power of ten a u128 holds is 10^38.
pub proof fn lemma_pow10_u128_limit()
    ensures
        pow10(38) <= u128::MAX,
        pow10(39) > u128::MAX,
{
    reveal_with_fuel(pow10, 40);
    assert(pow10(38) == 100000000000000000000000000000000000000nat);
    assert(pow10(39) == 1000000000000000000000000000000000000000nat);
}

/// Computes 10^exp, or None if it does not fit in a u128.
pub fn checked_pow10(exp: u32) -> (r: Option<u128>)
    ensures
        r is Some <==> pow10(exp as nat) <= u128::MAX,
        r matches Some(v) ==> v == pow10(exp as nat),
{
    let mut acc: u128 = 1;
    let mut i: u32 = 0;
    while i < exp
        invariant
            i <= exp,
            acc == pow10(i as nat),
        decreases exp - i,
    {
        match acc.checked_mul(10) {
            Some(next) => {
                acc = next;
                i = i + 1;
            },
            None => {
                proof {
                    lemma_pow10_monotone((i + 1) as nat, exp as nat);
                }
                return None;
            },
        }
    }
    Some(acc)
}

/// The number written by a sequence of decimal digits (each below ten),
/// most significant first.
pub open spec fn digits_number(s: Seq<u8>) -> nat
    decreases s.len(),
{
    if s.len() == 0 {
        0
    } else {
        digits_number(s.drop_last()) * 10 + s.last() as nat
    }
}

pub open spec fn small_digits(s: Seq<u8>) -> bool {
    forall|i: int| 0 <= i < s.len() ==> #[trigger] s[i] < 10
}

/// A number written with `s.len()` digits is below `10^len`.
pub proof fn lemma_digits_number_bound(s: Seq<u8>)
    requires
        small_digits(s),
    ensures
        digits_number(s) < pow10(s.len()),
    decreases s.len(),
{
    if s.len() > 0 {
        assert(small_digits(s.drop_last())) by {
            assert forall|i: int| 0 <= i < s.drop_last().len() implies #[trigger] s.drop_last()[i] < 10 by {
                assert(s.drop_last()[i] == s[i]);
            }
        }
        lemma_digits_number_bound(s.drop_last());
        assert(s.last() < 10);
        assert(digits_number(s) < pow10(s.len())) by (nonlinear_arith)
            requires
                digits_number(s) == digits_number(s.drop_last()) * 10 + s.last() as nat,
                digits_number(s.drop_last()) < pow10(s.drop_last().len()),
                pow10(s.len()) == 10 * pow10(s.drop_last().len()),
                s.last() < 10,
        ;
    }
}

/// Changing one digit changes the number by the difference at that place.
pub proof fn lemma_digits_number_update(s: Seq<u8>, pos: int, x: u8)
    requires
        0 <= pos < s.len(),
    ensures
        digits_number(s.update(pos, x)) == digits_number(s) + (x as int - s[pos] as int) * pow10(
            (s.len() - 1 - pos) as nat,
        ),
    decreases s.len(),
{
    let t = s.update(pos, x);
    if pos == s.len() - 1 {
        assert(t.drop_last() =~= s.drop_last());
        assert(t.last() == x);
        assert(pow10(0) == 1);
        assert(digits_number(t) == digits_number(t.drop_last()) * 10 + t.last() as nat);
        assert(digits_number(s) == digits_number(s.drop_last()) * 10 + s.last() as nat);
        assert((s.len() - 1 - pos) as nat == 0);
    } else {
        assert(t.drop_last() =~= s.drop_last().update(pos, x));
        lemma_digits_number_update(s.drop_last(), pos, x);
        let k = (s.len() - 2 - pos) as nat;
        assert(pow10((s.len() - 1 - pos) as nat) == 10 * pow10(k));
        assert(digits_number(t) == digits_number(s) + (x as int - s[pos] as int) * pow10(
            (s.len() - 1 - pos) as nat,
        )) by (nonlinear_arith)
            requires
                digits_number(t) == digits_number(t.drop_last()) * 10 + t.last() as nat,
                digits_number(s) == digits_number(s.drop_last()) * 10 + s.last() as nat,
                t.last() == s.last(),
                digits_number(t.drop_last()) == digits_number(s.drop_last()) + (x as int - s[pos] as int)
                    * pow10(k),
                pow10((s.len() - 1 - pos) as nat) == 10 * pow10(k),
        ;
    }
}

/// Round half to even of `n * 10^places / d`: the integer nearest to it,
/// and the even one of the two when it lies exactly halfway.
pub open spec fn round_half_even(n: nat, d: nat, places: nat) -> nat {
    let scaled = n * pow10(places);
    let q = scaled / d;
    let rem = scaled % d;
    if 2 * rem > d || (2 * rem == d && q % 2 == 1) {
        q + 1
    } else {
        q
    }
}

} // verus!
