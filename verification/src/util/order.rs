//! Equality and ordering of quants: numbers compare by value, and the render
//! precision never takes part.

use vstd::prelude::*;
use core::cmp::Ordering;
use vstd::std_specs::cmp::PartialEqSpecImpl;
use vstd::std_specs::cmp::PartialOrdSpecImpl;
use crate::util::quant::{Quant, sorts_before, quant_of_i128, wide_mul, lemma_wide_order, unsigned_abs};

verus! {

/// The order `cmp` gives.
pub open spec fn order_of(a: Quant, b: Quant) -> Ordering {
    if sorts_before(a, b) {
        Ordering::Less
    } else if sorts_before(b, a) {
        Ordering::Greater
    } else {
        Ordering::Equal
    }
}

impl Quant {
    /// Three-way comparison: negative before non-negative, then by exact
    /// magnitude, cross-multiplied in 256 bits so that nothing overflows.
    pub fn cmp(&self, other: &Self) -> (r: Ordering)
        ensures
            r == order_of(*self, *other),
    {
        if self.is_negative && !other.is_negative {
            return Ordering::Less;
        }
        if !self.is_negative && other.is_negative {
            return Ordering::Greater;
        }
        let (h1, l1) = wide_mul(self.numerator, other.denominator);
        let (h2, l2) = wide_mul(other.numerator, self.denominator);
        proof {
            lemma_wide_order(h1, l1, h2, l2);
            lemma_wide_order(h2, l2, h1, l1);
        }
        let smaller = h1 < h2 || (h1 == h2 && l1 < l2);
        let equal = h1 == h2 && l1 == l2;
        if equal {
            Ordering::Equal
        } else if smaller != self.is_negative {
            Ordering::Less
        } else {
            Ordering::Greater
        }
    }
}

impl PartialEq for Quant {
    fn eq(&self, other: &Self) -> (r: bool) {
        self.numerator == other.numerator && self.denominator == other.denominator
            && self.is_negative == other.is_negative
    }
}

impl PartialEqSpecImpl for Quant {
    open spec fn obeys_eq_spec() -> bool {
        true
    }

    open spec fn eq_spec(&self, other: &Quant) -> bool {
        self.same_fields(*other)
    }
}

impl Eq for Quant {
}

impl PartialEq<i128> for Quant {
    fn eq(&self, other: &i128) -> (r: bool) {
        self.denominator == 1 && self.numerator == unsigned_abs(*other) && self.is_negative == (*other
            < 0)
    }
}

impl PartialEqSpecImpl<i128> for Quant {
    open spec fn obeys_eq_spec() -> bool {
        true
    }

    open spec fn eq_spec(&self, other: &i128) -> bool {
        self.same_fields(quant_of_i128(*other))
    }
}

impl PartialEq<Quant> for i128 {
    fn eq(&self, other: &Quant) -> (r: bool) {
        other.denominator == 1 && other.numerator == unsigned_abs(*self) && other.is_negative == (*self
            < 0)
    }
}

impl PartialEqSpecImpl<Quant> for i128 {
    open spec fn obeys_eq_spec() -> bool {
        true
    }

    open spec fn eq_spec(&self, other: &Quant) -> bool {
        other.same_fields(quant_of_i128(*self))
    }
}

impl PartialOrd for Quant {
    fn partial_cmp(&self, other: &Self) -> (r: Option<Ordering>) {
        Some(self.cmp(other))
    }
}

impl PartialOrdSpecImpl for Quant {
    open spec fn obeys_partial_cmp_spec() -> bool {
        true
    }

    open spec fn partial_cmp_spec(&self, other: &Quant) -> Option<Ordering> {
        Some(order_of(*self, *other))
    }
}

impl PartialOrd<i128> for Quant {
    fn partial_cmp(&self, other: &i128) -> (r: Option<Ordering>) {
        Some(self.cmp(&Quant::from_i128(*other)))
    }
}

impl PartialOrdSpecImpl<i128> for Quant {
    open spec fn obeys_partial_cmp_spec() -> bool {
        true
    }

    open spec fn partial_cmp_spec(&self, other: &i128) -> Option<Ordering> {
        Some(order_of(*self, quant_of_i128(*other)))
    }
}

impl PartialOrd<Quant> for i128 {
    fn partial_cmp(&self, other: &Quant) -> (r: Option<Ordering>) {
        Some(Quant::from_i128(*self).cmp(other))
    }
}

impl PartialOrdSpecImpl<Quant> for i128 {
    open spec fn obeys_partial_cmp_spec() -> bool {
        true
    }

    open spec fn partial_cmp_spec(&self, other: &Quant) -> Option<Ordering> {
        Some(order_of(quant_of_i128(*self), *other))
    }
}

} // verus!
