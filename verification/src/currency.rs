//! Rounding money amounts up to whole cents.

use vstd::prelude::*;
use vstd::arithmetic::div_mod::lemma_div_multiples_vanish_fancy;
use vstd::arithmetic::div_mod::lemma_fundamental_div_mod;
use vstd::arithmetic::div_mod::lemma_fundamental_div_mod_converse_div;
use vstd::arithmetic::div_mod::lemma_mod_multiples_basic;

verus! {

/// Nano-units in one cent: amounts count billionths of a currency unit, and a
/// cent is a hundredth of one.
pub const CENT: i64 = 10_000_000;

/// `value` rounded up to a whole cent: the least multiple of `CENT` that is at
/// least `value`. A negative amount therefore rounds toward zero.
pub open spec fn round_up_to_cent(value: int) -> int {
    ((value + (CENT - 1)) / (CENT as int)) * (CENT as int)
}

/// Rounds a money amount up to a whole cent.
pub fn to_currency(value: i64) -> (r: i64)
    requires
        value <= i64::MAX - (CENT - 1),
    ensures
        r == round_up_to_cent(value as int),
        (r as int) % (CENT as int) == 0,
        value <= r < value + CENT,
{
    if value >= 0 {
        let cents: u64 = ((value as u64) + ((CENT as u64) - 1)) / (CENT as u64);
        let whole: u64 = cents * (CENT as u64);
        proof {
            lemma_fundamental_div_mod(value + (CENT - 1), CENT as int);
            lemma_mod_multiples_basic(cents as int, CENT as int);
        }
        whole as i64
    } else {
        let mag: u64 = (-(value as i128)) as u64;
        let floor_cents: u64 = mag / (CENT as u64);
        let whole: u64 = floor_cents * (CENT as u64);
        proof {
            lemma_fundamental_div_mod(mag as int, CENT as int);
            let b: int = mag as int % (CENT as int);
            lemma_fundamental_div_mod_converse_div(
                value + (CENT - 1),
                CENT as int,
                -(floor_cents as int),
                CENT - 1 - b,
            );
            lemma_mod_multiples_basic(-(floor_cents as int), CENT as int);
        }
        (-(whole as i128)) as i64
    }
}

/// Rounding up to a whole cent is idempotent: an amount that is already a
/// whole number of cents is left unchanged, so rounding twice gives the same
/// result as rounding once.
pub proof fn lemma_round_up_to_cent_idempotent(value: int)
    ensures
        round_up_to_cent(round_up_to_cent(value)) == round_up_to_cent(value),
{
    let q: int = (value + (CENT - 1)) / (CENT as int);
    lemma_div_multiples_vanish_fancy(q, CENT - 1, CENT as int);
    assert((q * (CENT as int) + (CENT - 1)) / (CENT as int) == q);
}

} // verus!
