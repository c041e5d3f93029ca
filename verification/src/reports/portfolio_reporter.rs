//! How the prices and rates of investment reports are written.

use vstd::prelude::*;
use crate::util::quant::Quant;
use crate::util::decimal::{rendered, min_places, invisible_at, visible_from};

verus! {

/// The places a rate is shown with: two, or, where two would show a
/// non-zero rate as zero, one more than the fewest that show it (at most
/// 100).
pub open spec fn rate_places(rate: Quant) -> nat {
    let n = rate.numerator as nat;
    let d = rate.denominator as nat;
    if n != 0 && invisible_at(n, d, 2) {
        let v = visible_from(n, d, 2);
        if v + 1 < 100 { v + 1 } else { 100 }
    } else {
        2
    }
}

/// A rate, shown with at least two decimal places and enough more that a
/// small rate does not show as zero
pub fn show_rate(rate: Quant) -> (r: String)
    requires
        rate.wf(),
    ensures
        r@ == rendered(
            Quant { render_precision: rate_places(rate) as u32, ..rate },
            min_places(rate_places(rate) as u32) as nat,
            false,
        ),
{
    let mut rate = rate;
    rate.set_render_precision(2, true);
    rate.make_visible();
    rate.to_string()
}

} // verus!
