//! Fixed-point amounts.
//!
//! A price or a quantity is a `u64` count of `10^-SCALE` units, so amounts
//! compare and add without rounding. Decimal text is read with rust_decimal
//! and then brought to that scale exactly, or refused.
use vstd::prelude::*;

verus! {

/// Decimal places of every amount.
pub const SCALE: u32 = 8;

/// Largest scale a decimal value can have.
pub const MAX_DECIMAL_SCALE: u32 = 28;

/// `10^e`.
pub open spec fn pow10(e: nat) -> nat
    decreases e,
{
    if e == 0 {
        1
    } else {
        10 * pow10((e - 1) as nat)
    }
}

/// The amount that the decimal `mantissa * 10^-scale` is, in units of
/// `10^-SCALE`, when it is non-negative, has no digits below `10^-SCALE`,
/// fits in a `u64`, and `scale` is a decimal scale.
pub open spec fn amount_value(mantissa: int, scale: nat) -> Option<u64> {
    if mantissa < 0 || scale > MAX_DECIMAL_SCALE {
        None
    } else if scale <= SCALE {
        let v = mantissa * pow10((SCALE - scale) as nat);
        if v <= u64::MAX { Some(v as u64) } else { None }
    } else {
        let d = pow10((scale - SCALE) as nat) as int;
        if mantissa % d == 0 && mantissa / d <= u64::MAX {
            Some((mantissa / d) as u64)
        } else {
            None
        }
    }
}

/// The (mantissa, scale) of the decimal that `rust_decimal` reads from text.
pub uninterp spec fn decimal_parts(s: Seq<char>) -> Option<(i128, u32)>;

/// Relies on `rust_decimal::Decimal::from_str` with `Decimal::mantissa` and
/// `Decimal::scale`: the text's value is `mantissa * 10^-scale`, and a
/// `Decimal`'s scale is at most 28.
#[verifier::external_body]
fn parse_decimal(s: &str) -> (r: Option<(i128, u32)>)
    ensures
        r == decimal_parts(s@),
        r matches Some((m, e)) ==> e <= MAX_DECIMAL_SCALE,
{
    match <rust_decimal::Decimal as std::str::FromStr>::from_str(s) {
        Ok(d) => Some((d.mantissa(), d.scale())),
        Err(_) => None,
    }
}

pub proof fn lemma_pow10_mono(a: nat, b: nat)
    requires
        a <= b,
    ensures
        1 <= pow10(a) <= pow10(b),
    decreases b,
{
    if a < b {
        lemma_pow10_mono(a, (b - 1) as nat);
    } else if a > 0 {
        lemma_pow10_mono((a - 1) as nat, (a - 1) as nat);
    }
}

/// `10^k` for `k <= 20`.
pub(crate) fn pow10_exec(k: u32) -> (r: u128)
    requires
        k <= 20,
    ensures
        r == pow10(k as nat),
{
    proof {
        reveal_with_fuel(pow10, 21);
        assert(pow10(20) == 100000000000000000000);
        lemma_pow10_mono(k as nat, 20);
    }
    let mut p: u128 = 1;
    let mut i: u32 = 0;
    while i < k
        invariant
            0 <= i <= k <= 20,
            p == pow10(i as nat),
            pow10(k as nat) <= 100000000000000000000,
        decreases k - i,
    {
        proof {
            lemma_pow10_mono((i + 1) as nat, k as nat);
        }
        p = p * 10;
        i = i + 1;
    }
    p
}

/// Brings the decimal `mantissa * 10^-scale` to an amount (see `amount_value`).
pub fn amount_from_parts(mantissa: i128, scale: u32) -> (r: Option<u64>)
    ensures
        r == amount_value(mantissa as int, scale as nat),
{
    if mantissa < 0 || scale > MAX_DECIMAL_SCALE {
        return None;
    }
    let m = mantissa as u128;
    if scale <= SCALE {
        let f = pow10_exec(SCALE - scale);
        proof {
            lemma_pow10_mono((SCALE - scale) as nat, 8);
            reveal_with_fuel(pow10, 9);
            assert(pow10(8) == 100000000);
        }
        if m > (u64::MAX as u128) / f {
            proof {
                assert(m * f > u64::MAX) by (nonlinear_arith)
                    requires m > (u64::MAX as u128) / f, f > 0;
            }
            None
        } else {
            proof {
                assert(m * f <= u64::MAX) by (nonlinear_arith)
                    requires m <= (u64::MAX as u128) / f, f > 0;
            }
            Some((m * f) as u64)
        }
    } else {
        let d = pow10_exec(scale - SCALE);
        proof {
            lemma_pow10_mono((scale - SCALE) as nat, 20);
        }
        if m % d == 0 && m / d <= u64::MAX as u128 {
            Some((m / d) as u64)
        } else {
            None
        }
    }
}

/// The amount that decimal text stands for, if any.
pub open spec fn amount_of_text(s: Seq<char>) -> Option<u64> {
    match decimal_parts(s) {
        Some((m, e)) => amount_value(m as int, e as nat),
        None => None,
    }
}

/// Reads decimal text as an amount: `None` when the text is no decimal
/// number or its value is no amount (see `amount_value`).
pub fn parse_amount(s: &str) -> (r: Option<u64>)
    ensures
        r == amount_of_text(s@),
{
    match parse_decimal(s) {
        Some((m, e)) => amount_from_parts(m, e),
        None => None,
    }
}

} // verus!
