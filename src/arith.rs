//! Fixed-point fractions (percent and parts per billion) as used by the
//! reward split. The rounding is done by sp-arithmetic; the contracts below
//! state its results exactly.
use sp_arithmetic::{Perbill, Percent, Rounding};
use vstd::prelude::*;

verus! {

/// Parts in one whole percent fraction.
pub const PERCENT_ONE: u8 = 100;

/// Parts in one whole parts-per-billion fraction.
pub const PERBILL_ONE: u32 = 1_000_000_000;

/// `n / d` rounded to the nearest integer, an exact half rounded down.
pub open spec fn div_nearest_down(n: nat, d: nat) -> nat
    recommends
        d > 0,
{
    n / d + if n % d > d / 2 { 1nat } else { 0nat }
}

/// `x` taken `part / whole` times, rounded to nearest with ties down.
pub open spec fn frac_of(x: nat, part: nat, whole: nat) -> nat
    recommends
        whole > 0,
{
    div_nearest_down(x * part, whole)
}

/// The parts-per-billion value of `p / q`, rounded down; a whole when the
/// ratio is undefined or above one.
pub open spec fn perbill_ratio(p: nat, q: nat) -> nat {
    if q == 0 || p > q {
        PERBILL_ONE as nat
    } else {
        (PERBILL_ONE as nat * p) / q
    }
}

/// The parts-per-billion value of `p / q`, rounded to nearest with ties
/// down; a whole when the ratio is undefined or above one.
pub open spec fn perbill_ratio_nearest(p: nat, q: nat) -> nat {
    if q == 0 || p > q {
        PERBILL_ONE as nat
    } else {
        div_nearest_down(PERBILL_ONE as nat * p, q)
    }
}

/// `x` held to the range of a balance.
pub open spec fn saturate(x: nat) -> nat {
    if x > u128::MAX {
        u128::MAX as nat
    } else {
        x
    }
}

/// Relies on `Percent::from_parts` and `Percent * u128` of sp-arithmetic:
/// the product is `x * pct / 100`, rounded to nearest with ties down.
#[verifier::external_body]
pub(crate) fn percent_mul(pct: u8, x: u128) -> (r: u128)
    requires
        pct <= PERCENT_ONE,
    ensures
        r == frac_of(x as nat, pct as nat, PERCENT_ONE as nat),
{
    Percent::from_parts(pct) * x
}

/// Relies on `Perbill::from_parts` and `Perbill * u128` of sp-arithmetic:
/// the product is `x * parts / 10^9`, rounded to nearest with ties down.
#[verifier::external_body]
pub(crate) fn perbill_mul(parts: u32, x: u128) -> (r: u128)
    requires
        parts <= PERBILL_ONE,
    ensures
        r == frac_of(x as nat, parts as nat, PERBILL_ONE as nat),
{
    Perbill::from_parts(parts) * x
}

/// Relies on `Perbill::from_parts` and `Perbill::mul_floor` of
/// sp-arithmetic: the product is `x * parts / 10^9`, rounded down.
#[verifier::external_body]
pub(crate) fn perbill_mul_floor(parts: u32, x: u128) -> (r: u128)
    requires
        parts <= PERBILL_ONE,
    ensures
        r == (x as nat * parts as nat) / PERBILL_ONE as nat,
{
    Perbill::from_parts(parts).mul_floor(x)
}

/// Relies on `Perbill::from_rational` of sp-arithmetic: `p / q` rounded
/// down, and one whole where `q` is zero or `p` exceeds `q`.
#[verifier::external_body]
pub(crate) fn perbill_from_rational(p: u128, q: u128) -> (r: u32)
    ensures
        r == perbill_ratio(p as nat, q as nat),
{
    Perbill::from_rational(p, q).deconstruct()
}

/// Relies on `Perbill::saturating_div` of sp-arithmetic with
/// `Rounding::NearestPrefDown`: `a / b` rounded to nearest with ties down,
/// and one whole where `b` is zero or `a` exceeds `b`.
#[verifier::external_body]
pub(crate) fn perbill_div(a: u32, b: u32) -> (r: u32)
    requires
        a <= PERBILL_ONE,
        b <= PERBILL_ONE,
    ensures
        r == perbill_ratio_nearest(a as nat, b as nat),
{
    Perbill::from_parts(a).saturating_div(Perbill::from_parts(b), Rounding::NearestPrefDown).deconstruct()
}

/// A percent as parts per billion, as `Perbill::from_percent` gives it.
pub fn percent_to_perbill(pct: u8) -> (r: u32)
    requires
        pct <= PERCENT_ONE,
    ensures
        r == pct as nat * 10_000_000,
{
    pct as u32 * 10_000_000
}

} // verus!
