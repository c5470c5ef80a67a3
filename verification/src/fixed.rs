//! Fixed-point arithmetic: repeated multiplication by a growth factor.

use vstd::prelude::*;
use vstd::arithmetic::div_mod::lemma_div_is_ordered;
use vstd::arithmetic::div_mod::lemma_div_multiples_vanish;
use vstd::arithmetic::div_mod::lemma_fundamental_div_mod;
use vstd::arithmetic::mul::lemma_mul_inequality;
use vstd::arithmetic::mul::lemma_mul_is_commutative;
use vstd::arithmetic::mul::lemma_mul_is_distributive_add_other_way;
use vstd::arithmetic::mul::lemma_mul_left_inequality;
use vstd::arithmetic::mul::lemma_mul_upper_bound;
use vstd::arithmetic::power2::lemma2_to64;
use vstd::arithmetic::power2::lemma_pow2_strictly_increases;
use vstd::arithmetic::power2::pow2;

verus! {

/// Fixed-point values count billionths: this constant represents 1.0.
pub const SCALE: u64 = 1_000_000_000;

/// One fixed-point multiplication: the product of `x` and `f`, scaled back
/// down, discarding the sub-nano remainder.
pub open spec fn scaled_mul(x: int, f: int) -> int {
    (x * f) / (SCALE as int)
}

/// `factor` compounded over `n` periods in fixed point: 1.0 multiplied by
/// `factor` `n` times, each product rounded down to the scale.
pub open spec fn pow_scaled(factor: int, n: nat) -> int
    decreases n,
{
    if n == 0 {
        SCALE as int
    } else {
        scaled_mul(pow_scaled(factor, (n - 1) as nat), factor)
    }
}

/// Whether evaluating `pow_scaled(factor, n)` with 128-bit intermediates
/// overflows: some earlier power, multiplied by `factor` once more, exceeds
/// `u128::MAX`.
pub open spec fn pow_scaled_overflows(factor: int, n: nat) -> bool
    decreases n,
{
    n > 0 && (pow_scaled_overflows(factor, (n - 1) as nat) || pow_scaled(
        factor,
        (n - 1) as nat,
    ) * factor > u128::MAX)
}

/// Once compounding overflows, compounding any longer overflows too.
proof fn lemma_pow_scaled_overflows_monotonic(factor: int, m: nat, n: nat)
    requires
        m <= n,
        pow_scaled_overflows(factor, m),
    ensures
        pow_scaled_overflows(factor, n),
    decreases n,
{
    if m < n {
        lemma_pow_scaled_overflows_monotonic(factor, m, (n - 1) as nat);
    }
}

/// A factor of at least 1.0 compounds to at least 1.0.
pub proof fn lemma_pow_scaled_at_least_one(factor: int, n: nat)
    requires
        factor >= SCALE,
    ensures
        pow_scaled(factor, n) >= SCALE,
    decreases n,
{
    if n > 0 {
        let prev: int = pow_scaled(factor, (n - 1) as nat);
        lemma_pow_scaled_at_least_one(factor, (n - 1) as nat);
        lemma_mul_inequality(SCALE as int, prev, factor);
        lemma_mul_left_inequality(SCALE as int, SCALE as int, factor);
        lemma_div_is_ordered((SCALE as int) * (SCALE as int), prev * factor, SCALE as int);
        lemma_div_multiples_vanish(SCALE as int, SCALE as int);
    }
}

/// A factor of at least 1.0, compounded at least once, reaches the factor
/// itself.
pub proof fn lemma_pow_scaled_at_least_factor(factor: int, n: nat)
    requires
        factor >= SCALE,
        n >= 1,
    ensures
        pow_scaled(factor, n) >= factor,
    decreases n,
{
    let prev: int = pow_scaled(factor, (n - 1) as nat);
    if n == 1 {
        lemma_mul_is_commutative(SCALE as int, factor);
        lemma_div_multiples_vanish(factor, SCALE as int);
    } else {
        lemma_pow_scaled_at_least_factor(factor, (n - 1) as nat);
        lemma_mul_inequality(factor, prev, factor);
        lemma_mul_left_inequality(factor, SCALE as int, factor);
        lemma_div_is_ordered(factor * (SCALE as int), prev * factor, SCALE as int);
        lemma_mul_is_commutative(factor, SCALE as int);
        lemma_div_multiples_vanish(factor, SCALE as int);
    }
}

/// Compounding a factor of exactly 1.0 leaves 1.0.
pub proof fn lemma_pow_scaled_of_one(n: nat)
    ensures
        pow_scaled(SCALE as int, n) == SCALE,
    decreases n,
{
    if n > 0 {
        lemma_pow_scaled_of_one((n - 1) as nat);
        lemma_div_multiples_vanish(SCALE as int, SCALE as int);
    }
}

/// A factor of at most 2.0 at most doubles each period, so compounding it
/// over up to a year of months stays far inside 128 bits.
pub proof fn lemma_pow_scaled_doubling_bound(factor: int, n: nat)
    requires
        SCALE <= factor <= 2 * SCALE,
        n <= 12,
    ensures
        pow_scaled(factor, n) <= (SCALE as int) * (pow2(n) as int),
        !pow_scaled_overflows(factor, n),
    decreases n,
{
    lemma2_to64();
    if n > 0 {
        lemma_pow_scaled_doubling_bound(factor, (n - 1) as nat);
        let prev: int = pow_scaled(factor, (n - 1) as nat);
        let cap: int = (SCALE as int) * (pow2((n - 1) as nat) as int);
        lemma_pow_scaled_at_least_one(factor, (n - 1) as nat);
        if n - 1 < 11 {
            lemma_pow2_strictly_increases((n - 1) as nat, 11);
        }
        assert(cap <= 2_048_000_000_000int) by (nonlinear_arith)
            requires
                cap == (SCALE as int) * (pow2((n - 1) as nat) as int),
                pow2((n - 1) as nat) <= 2048,
                SCALE == 1_000_000_000,
        ;
        lemma_mul_upper_bound(prev, cap, factor, 2 * (SCALE as int));
        assert(prev * factor <= 4_096_000_000_000_000_000_000int) by (nonlinear_arith)
            requires
                0 <= prev <= cap,
                cap <= 2_048_000_000_000int,
                0 <= factor <= 2_000_000_000int,
        ;
        assert(cap * (2 * (SCALE as int)) == (2 * cap) * (SCALE as int)) by (nonlinear_arith);
        lemma_div_is_ordered(prev * factor, (2 * cap) * (SCALE as int), SCALE as int);
        lemma_mul_is_commutative(2 * cap, SCALE as int);
        lemma_div_multiples_vanish(2 * cap, SCALE as int);
        assert(2 * cap == (SCALE as int) * (pow2(n) as int)) by {
            vstd::arithmetic::power2::lemma_pow2_unfold(n);
            assert((SCALE as int) * (2 * (pow2((n - 1) as nat) as int)) == 2 * ((SCALE as int) * (
            pow2((n - 1) as nat) as int))) by (nonlinear_arith);
        }
    }
}

/// Relates a product to a bound through division: for positive `f`, the
/// product `x * f` stays within `cap` exactly when `x` is at most `cap / f`.
pub proof fn lemma_mul_within_cap(x: int, f: int, cap: int)
    requires
        1 <= f,
        0 <= x,
        0 <= cap,
    ensures
        x * f <= cap <==> x <= cap / f,
{
    lemma_fundamental_div_mod(cap, f);
    if x <= cap / f {
        lemma_mul_inequality(x, cap / f, f);
        lemma_mul_is_commutative(cap / f, f);
    }
    if x > cap / f {
        lemma_mul_inequality(cap / f + 1, x, f);
        lemma_mul_is_distributive_add_other_way(f, cap / f, 1);
        lemma_mul_is_commutative(cap / f, f);
    }
}

/// Compounds `factor` over `periods` periods in fixed point, reporting `None`
/// exactly when a 128-bit intermediate would overflow.
pub fn compound_factor(factor: u64, periods: u64) -> (r: Option<u128>)
    requires
        factor >= SCALE,
    ensures
        r is Some <==> !pow_scaled_overflows(factor as int, periods as nat),
        r matches Some(g) ==> g == pow_scaled(factor as int, periods as nat),
{
    let mut x: u128 = SCALE as u128;
    let mut i: u64 = 0;
    while i < periods
        invariant
            SCALE <= factor,
            i <= periods,
            !pow_scaled_overflows(factor as int, i as nat),
            x == pow_scaled(factor as int, i as nat),
        decreases periods - i,
    {
        proof {
            lemma_mul_within_cap(x as int, factor as int, u128::MAX as int);
        }
        if x > u128::MAX / (factor as u128) {
            proof {
                lemma_pow_scaled_overflows_monotonic(
                    factor as int,
                    (i + 1) as nat,
                    periods as nat,
                );
            }
            return None;
        }
        x = (x * (factor as u128)) / (SCALE as u128);
        i = i + 1;
    }
    Some(x)
}

} // verus!
