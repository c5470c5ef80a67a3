//! Interest-rate conversion, the monthly interest charge, and the amortized
//! monthly payment.

use crate::fixed::SCALE;
use crate::fixed::compound_factor;
use crate::fixed::lemma_mul_within_cap;
use crate::fixed::lemma_pow_scaled_at_least_factor;
use crate::fixed::lemma_pow_scaled_at_least_one;
use crate::fixed::pow_scaled;
use crate::fixed::pow_scaled_overflows;
use vstd::arithmetic::div_mod::lemma_div_denominator;
use vstd::arithmetic::div_mod::lemma_div_is_ordered;
use vstd::arithmetic::div_mod::lemma_div_of0;
use vstd::arithmetic::mul::lemma_mul_inequality;
use vstd::arithmetic::mul::lemma_mul_is_commutative;
use vstd::prelude::*;

verus! {

/// The monthly rate that a nominal annual rate spreads over twelve months,
/// rounded down to the scale.
pub open spec fn monthly_rate(annual_rate: int) -> int {
    annual_rate / 12
}

/// The effective annual rate of a nominal rate `apr` compounded monthly:
/// (1 + apr/12)^12 - 1, evaluated in fixed point.
pub open spec fn effective_annual_rate(apr: int) -> int {
    pow_scaled(SCALE + monthly_rate(apr), 12) - SCALE
}

/// Converts a nominal annual rate compounded monthly into the effective
/// annual rate it amounts to. `None` exactly when the fixed-point compounding
/// overflows 128 bits or the result does not fit in a rate word; any rate a
/// loan could carry is answered with `Some`.
pub fn to_annual_interest_rate(apr: u64) -> (r: Option<u64>)
    ensures
        r is Some <==> (!pow_scaled_overflows(SCALE + monthly_rate(apr as int), 12)
            && effective_annual_rate(apr as int) <= u64::MAX),
        r matches Some(e) ==> e == effective_annual_rate(apr as int),
{
    let monthly: u64 = apr / 12;
    proof {
        lemma_div_is_ordered(apr as int, u64::MAX as int, 12);
    }
    let factor: u64 = SCALE + monthly;
    match compound_factor(factor, 12) {
        None => None,
        Some(g) => {
            proof {
                lemma_pow_scaled_at_least_one(factor as int, 12);
            }
            let e: u128 = g - (SCALE as u128);
            if e > (u64::MAX as u128) {
                None
            } else {
                Some(e as u64)
            }
        },
    }
}

/// A zero nominal rate converts to a zero effective rate.
pub proof fn lemma_effective_rate_of_zero()
    ensures
        effective_annual_rate(0) == 0,
{
    crate::fixed::lemma_pow_scaled_of_one(12);
}

/// Success is owed for every ordinary rate: a nominal rate of up to 100% a
/// year compounds without overflow to an effective rate that fits a rate
/// word, so `to_annual_interest_rate` answers it with `Some`.
pub proof fn lemma_effective_rate_defined(apr: int)
    requires
        0 <= apr <= SCALE,
    ensures
        !pow_scaled_overflows(SCALE + monthly_rate(apr), 12),
        0 <= effective_annual_rate(apr) <= u64::MAX,
{
    let factor: int = SCALE + monthly_rate(apr);
    lemma_div_is_ordered(apr, SCALE as int, 12);
    crate::fixed::lemma_pow_scaled_doubling_bound(factor, 12);
    crate::fixed::lemma_pow_scaled_at_least_one(factor, 12);
    vstd::arithmetic::power2::lemma2_to64();
}

/// One month's interest on `principal` at `annual_rate`: a twelfth of the
/// annual charge, rounded down to the scale.
pub open spec fn monthly_charge(principal: int, annual_rate: int) -> int {
    (principal * annual_rate) / (12 * (SCALE as int))
}

/// Computes the interest charged over one month on `principal` at
/// `annual_rate`. The precondition only keeps the charge inside a 64-bit
/// money word.
pub fn monthly_interest_charge(principal: u64, annual_rate: u64) -> (r: u64)
    requires
        monthly_charge(principal as int, annual_rate as int) <= u64::MAX,
    ensures
        r == monthly_charge(principal as int, annual_rate as int),
{
    proof {
        lemma_mul_inequality(principal as int, u64::MAX as int, annual_rate as int);
        lemma_mul_is_commutative(u64::MAX as int, annual_rate as int);
        lemma_mul_inequality(annual_rate as int, u64::MAX as int, u64::MAX as int);
    }
    let q: u128 = ((principal as u128) * (annual_rate as u128)) / (12 * (SCALE as u128));
    q as u64
}

/// A zero interest rate incurs no monthly interest charge, whatever the
/// principal.
pub proof fn lemma_monthly_charge_zero_rate(principal: int)
    ensures
        monthly_charge(principal, 0) == 0,
{
    assert(principal * 0 == 0);
    lemma_div_of0(12 * (SCALE as int));
}

/// The fixed monthly payment that repays `principal` over `months` months at
/// `annual_rate`, by the annuity formula evaluated in fixed point:
/// principal * m * (1+m)^months / ((1+m)^months - 1), where `m` is the
/// monthly rate.
pub open spec fn monthly_payment(principal: int, annual_rate: int, months: nat) -> int {
    let g = pow_scaled(SCALE + monthly_rate(annual_rate), months);
    (principal * monthly_rate(annual_rate) * g) / ((g - SCALE) * (SCALE as int))
}

/// Whether evaluating the annuity formula for these arguments overflows its
/// 128-bit intermediates or its 64-bit result.
pub open spec fn monthly_payment_overflows(principal: int, annual_rate: int, months: nat) -> bool {
    let g = pow_scaled(SCALE + monthly_rate(annual_rate), months);
    pow_scaled_overflows(SCALE + monthly_rate(annual_rate), months) || principal * monthly_rate(
        annual_rate,
    ) * g > u128::MAX || monthly_payment(principal, annual_rate, months) > u64::MAX
}

/// Computes the fixed monthly payment of an amortized loan. The annuity
/// formula divides by (1+m)^months - 1, which is zero when the monthly rate
/// rounds to zero or the term is empty, so exactly those inputs, and the ones
/// whose intermediates overflow, are answered with `None`.
pub fn calculate_monthly_payment(principal: u64, annual_rate: u64, months_left: u64) -> (r: Option<
    u64,
>)
    ensures
        r is Some <==> (monthly_rate(annual_rate as int) >= 1 && months_left >= 1
            && !monthly_payment_overflows(principal as int, annual_rate as int, months_left as nat)),
        r matches Some(v) ==> v == monthly_payment(
            principal as int,
            annual_rate as int,
            months_left as nat,
        ),
{
    let m: u64 = annual_rate / 12;
    if m == 0 || months_left == 0 {
        return None;
    }
    proof {
        lemma_div_is_ordered(annual_rate as int, u64::MAX as int, 12);
    }
    let factor: u64 = SCALE + m;
    match compound_factor(factor, months_left) {
        None => None,
        Some(g) => {
            proof {
                lemma_pow_scaled_at_least_factor(factor as int, months_left as nat);
                lemma_mul_inequality(principal as int, u64::MAX as int, m as int);
                lemma_mul_is_commutative(u64::MAX as int, m as int);
                lemma_mul_inequality(m as int, u64::MAX as int, u64::MAX as int);
            }
            let num: u128 = (principal as u128) * (m as u128);
            proof {
                lemma_mul_within_cap(num as int, g as int, u128::MAX as int);
            }
            if num > u128::MAX / g {
                return None;
            }
            let total: u128 = num * g;
            let q1: u128 = total / (g - (SCALE as u128));
            let q2: u128 = q1 / (SCALE as u128);
            proof {
                lemma_div_denominator(total as int, g - SCALE, SCALE as int);
            }
            if q2 > (u64::MAX as u128) {
                None
            } else {
                Some(q2 as u64)
            }
        },
    }
}

} // verus!
