//! Conflicts between the rates a ledger declares and the rates its entries
//! show.

use vstd::prelude::*;
use crate::util::quant::{Quant, is_product, is_sum, reciprocal, negated, quant_of_i128, mul_fits, add_fits};
use crate::util::decimal::{rendered, rounded_quant};
use crate::text::chars::{chars_of, string_of};
use crate::input::compose::lemma_round_possible;

verus! {

/// How far an observed rate may stray from the rate declared for the same
/// date, or a cycle of rates from multiplying out to 1, before it is flagged.
pub const RATE_TOLERANCE_PERCENT: i128 = 5;

/// An observed conversion that strays too far from a declared rate.
#[derive(Clone, Debug, PartialEq)]
pub struct RateConflict {
    pub base: String,
    pub quote: String,
    /// Declared units of quote per unit of base
    pub declared: Quant,
    /// Observed units of quote per unit of base
    pub observed: Quant,
}

/// How a rate is shown: at up to four decimal places, without trailing
/// zeros.
pub open spec fn rate_shown(rate: Quant) -> Seq<char> {
    rendered(Quant { render_precision: 0, ..rate }, 4, true)
}

/// The observed rate over the declared one.
pub open spec fn rate_ratio(observed: Quant, declared: Quant) -> Quant {
    choose|r: Quant| is_product(observed, reciprocal(declared), r)
}

/// How far the ratio is from 1, in either direction.
pub open spec fn rate_gap(observed: Quant, declared: Quant) -> Quant {
    let diff = choose|r: Quant| is_sum(rate_ratio(observed, declared), negated(quant_of_i128(1)), r);
    Quant { is_negative: false, ..diff }
}

/// The deviation of the observed rate from the declared one, in percent.
pub open spec fn deviation(observed: Quant, declared: Quant) -> Quant {
    let gap = rate_gap(observed, declared);
    Quant { render_precision: gap.render_precision, ..choose|r: Quant| is_product(gap, quant_of_i128(100), r) }
}

/// The deviation can be worked out without overflowing: the declared rate
/// is not zero, and each step fits in 128 bits.
pub open spec fn deviation_fits(observed: Quant, declared: Quant) -> bool {
    &&& observed.wf()
    &&& declared.wf()
    &&& declared.numerator != 0
    &&& mul_fits(observed, reciprocal(declared))
    &&& add_fits(rate_ratio(observed, declared), negated(quant_of_i128(1)))
    &&& mul_fits(rate_gap(observed, declared), quant_of_i128(100))
}

impl RateConflict {
    fn show(rate: Quant) -> (r: String)
        requires
            rate.wf(),
        ensures
            r@ == rate_shown(rate),
    {
        let mut rate = rate;
        rate.set_render_precision(0, true);
        rate.to_string_with_places(4)
    }

    pub fn declared_display(&self) -> (r: String)
        requires
            self.declared.wf(),
        ensures
            r@ == rate_shown(self.declared),
    {
        Self::show(self.declared)
    }

    pub fn observed_display(&self) -> (r: String)
        requires
            self.observed.wf(),
        ensures
            r@ == rate_shown(self.observed),
    {
        Self::show(self.observed)
    }

    /// How far the observed rate is from the declared one, in whole percent.
    pub fn deviation_display(&self) -> (r: String)
        requires
            deviation_fits(self.observed, self.declared),
        ensures
            r@ == rendered(rounded_quant(deviation(self.observed, self.declared), 0), 0, false) + seq!['%'],
    {
        let ratio = self.observed / self.declared;
        proof {
            crate::util::quant::lemma_product_unique(self.observed, reciprocal(self.declared), ratio,
                rate_ratio(self.observed, self.declared));
        }
        let one = Quant::from_i128(1);
        let diff = ratio - one;
        proof {
            crate::util::quant::lemma_sum_unique(ratio, negated(one), diff,
                choose|r: Quant| is_sum(ratio, negated(one), r));
        }
        let gap = diff.abs();
        let product = gap * Quant::from_i128(100);
        proof {
            crate::util::quant::lemma_product_unique(gap, quant_of_i128(100), product,
                choose|r: Quant| is_product(gap, quant_of_i128(100), r));
        }
        let mut percent = Quant { render_precision: gap.render_precision, ..product };
        assert(percent == deviation(self.observed, self.declared));
        proof {
            lemma_round_possible(percent.numerator as nat, percent.denominator as nat, 0);
        }
        percent.round(0);
        assert(percent == rounded_quant(deviation(self.observed, self.declared), 0));
        let mut v = chars_of(percent.to_string().as_str());
        v.push('%');
        string_of(&v)
    }
}

} // verus!
