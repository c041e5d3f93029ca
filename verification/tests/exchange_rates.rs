use ledr::gl::exchange_rates::RateConflict;
use ledr::util::quant::Quant;
use ledr::reports::portfolio_reporter::show_rate;

fn conflict(declared: Quant, observed: Quant) -> RateConflict {
    RateConflict { base: "USD".to_string(), quote: "CAD".to_string(), declared, observed }
}

#[test]
fn rates_show_up_to_four_places() {
    let c = conflict(Quant::from_str("1.35").unwrap(), Quant::from_frac(1, 3));
    assert_eq!(c.declared_display(), "1.35");
    assert_eq!(c.observed_display(), "0.3333");
    let c = conflict(Quant::from_str("1.50000").unwrap(), Quant::from_frac(2, 3));
    assert_eq!(c.declared_display(), "1.5");
    assert_eq!(c.observed_display(), "0.6667");
}

#[test]
fn deviation_is_whole_percent_either_way() {
    let c = conflict(Quant::from_str("1.35").unwrap(), Quant::from_str("1.5").unwrap());
    assert_eq!(c.deviation_display(), "11%");
    let c = conflict(Quant::from_str("1.5").unwrap(), Quant::from_str("1.2").unwrap());
    assert_eq!(c.deviation_display(), "20%");
    let c = conflict(Quant::from_str("2").unwrap(), Quant::from_str("2").unwrap());
    assert_eq!(c.deviation_display(), "0%");
    let c = conflict(Quant::from_str("1").unwrap(), Quant::from_str("1.005").unwrap());
    assert_eq!(c.deviation_display(), "0%");
    let c = conflict(Quant::from_str("1").unwrap(), Quant::from_str("1.015").unwrap());
    assert_eq!(c.deviation_display(), "2%");
}

#[test]
fn rates_show_enough_places_to_be_seen() {
    assert_eq!(show_rate(Quant::from_str("1.5").unwrap()), "1.50");
    assert_eq!(show_rate(Quant::from_str("1234.5").unwrap()), "1,234.50");
    assert_eq!(show_rate(Quant::from_str("0.001234").unwrap()), "0.0012");
    assert_eq!(show_rate(Quant::from_str("0").unwrap()), "0.00");
    assert_eq!(show_rate(Quant::from_str("2.345").unwrap()), "2.34");
}
