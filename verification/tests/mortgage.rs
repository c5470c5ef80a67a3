//! Tests for the fixed-point mortgage arithmetic. Money amounts and rates are
//! written in nano-units: billionths of a currency unit, or of a rate of 1.0.

use mortgage::currency::to_currency;
use mortgage::fixed::compound_factor;
use mortgage::interest::calculate_monthly_payment;
use mortgage::interest::monthly_interest_charge;
use mortgage::interest::to_annual_interest_rate;

#[test]
fn to_currency_returns_to_2_decimal_places_rounded_up() {
    // 1.1111 rounds up to 1.12 at the cent.
    assert_eq!(to_currency(1_111_100_000), 1_120_000_000);
}

#[test]
fn to_annual_interest_rate_converts_properly() {
    // A nominal 6% compounded monthly: close to the exact 0.06167781...,
    // with each of the twelve fixed-point products rounded down.
    assert_eq!(to_annual_interest_rate(60_000_000), Some(61_677_807));
}

#[test]
fn monthly_interest_charge_is_calculated_properly() {
    // One month's interest on 300000 at 6% a year is exactly 1500.
    assert_eq!(
        monthly_interest_charge(300_000_000_000_000, 60_000_000),
        1_500_000_000_000
    );
}

#[test]
fn to_currency_leaves_whole_cents_unchanged() {
    assert_eq!(to_currency(5_120_000_000), 5_120_000_000);
    assert_eq!(to_currency(0), 0);
}

#[test]
fn to_currency_is_idempotent_on_samples() {
    for value in [
        -9_876_543_210,
        -1,
        0,
        1,
        9_999_999,
        10_000_000,
        1_111_100_000,
        9_000_000_000_000_000_123,
    ] {
        assert_eq!(to_currency(to_currency(value)), to_currency(value));
    }
}

#[test]
fn to_currency_rounds_negative_amounts_toward_zero() {
    // -1.1111 rounds up (toward zero) to -1.11.
    assert_eq!(to_currency(-1_111_100_000), -1_110_000_000);
    assert_eq!(to_currency(-10_000_000), -10_000_000);
}

#[test]
fn to_annual_interest_rate_of_zero_is_zero() {
    assert_eq!(to_annual_interest_rate(0), Some(0));
}

#[test]
fn to_annual_interest_rate_answers_every_ordinary_rate() {
    // 100% a year, the bound up to which conversion is proven total:
    // (1 + 1/12)^12 - 1, a little over 1.61.
    assert_eq!(to_annual_interest_rate(1_000_000_000), Some(1_613_035_272));
}

#[test]
fn to_annual_interest_rate_overflows_on_absurd_rates() {
    assert_eq!(to_annual_interest_rate(u64::MAX), None);
}

#[test]
fn monthly_interest_charge_on_a_current_balance() {
    // 222765.16 outstanding at a nominal 2.99%: 555.05652... a month.
    assert_eq!(
        monthly_interest_charge(222_765_160_000_000, 29_900_000),
        555_056_523_666
    );
}

#[test]
fn monthly_interest_charge_of_zero_rate_is_zero() {
    assert_eq!(monthly_interest_charge(987_654_321_000, 0), 0);
    assert_eq!(monthly_interest_charge(u64::MAX, 0), 0);
}

#[test]
fn compound_factor_of_two_doubles() {
    // 2.0 compounded three times is 8.0.
    assert_eq!(compound_factor(2_000_000_000, 3), Some(8_000_000_000));
    // Anything compounded zero times is 1.0.
    assert_eq!(compound_factor(3_500_000_000, 0), Some(1_000_000_000));
}

#[test]
fn calculate_monthly_payment_matches_annuity_value() {
    // 301000 over 300 months at a nominal 2.99%: the annuity formula in
    // fixed point, about 1425.81 a month.
    assert_eq!(
        calculate_monthly_payment(301_000_000_000_000, 29_900_000, 300),
        Some(1_425_810_990_999)
    );
}

#[test]
fn calculate_monthly_payment_is_undefined_at_zero_rate() {
    // The annuity formula divides by (1+m)^n - 1, which a zero rate makes
    // zero, so no payment is produced.
    assert_eq!(calculate_monthly_payment(301_000_000_000_000, 0, 300), None);
}

#[test]
fn calculate_monthly_payment_is_undefined_over_zero_months() {
    assert_eq!(
        calculate_monthly_payment(301_000_000_000_000, 29_900_000, 0),
        None
    );
}

#[test]
fn calculate_monthly_payment_rate_below_a_twelfth_counts_as_zero() {
    // 11 nano of annual rate leaves no whole nano of monthly rate.
    assert_eq!(calculate_monthly_payment(301_000_000_000_000, 11, 300), None);
    assert_ne!(calculate_monthly_payment(301_000_000_000_000, 12, 300), None);
}
