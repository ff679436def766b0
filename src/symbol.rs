//! Trading symbols and the errors of the engine.
use vstd::prelude::*;
use vstd::string::StringExecFns;
use crate::amount::{lemma_pow10_mono, pow10, pow10_exec, SCALE};

verus! {

/// Lifecycle state of a symbol; only active symbols take orders.
#[derive(Clone, Copy, Debug, PartialEq, Eq, Structural)]
pub enum SymbolStatus {
    Active,
    Inactive,
    Delisted,
}

/// A tradable pair with its precision and bounds (amounts in `10^-SCALE` units).
#[derive(Debug)]
pub struct Symbol {
    pub name: String,
    pub base_currency: String,
    pub quote_currency: String,
    /// Decimal places of prices.
    pub price_precision: i32,
    /// Decimal places of quantities.
    pub quantity_precision: i32,
    pub min_price: u64,
    pub max_price: u64,
    pub min_quantity: u64,
    pub max_quantity: u64,
    pub status: SymbolStatus,
    pub created_at: u64,
    pub updated_at: u64,
}

/// `v` rounded to a multiple of `step`, halves to the even multiple.
pub open spec fn round_half_even(v: nat, step: nat) -> nat
    recommends
        step > 0,
{
    let q = v / step;
    let r = v % step;
    if 2 * r > step || (2 * r == step && q % 2 == 1) {
        (q + 1) * step
    } else {
        q * step
    }
}

/// An amount rounded to `precision` decimal places (a negative precision
/// rounds to tens, hundreds, ...), halves to even.
pub open spec fn rounded_to(v: u64, precision: i32) -> nat {
    if precision >= SCALE {
        v as nat
    } else {
        round_half_even(v as nat, pow10((SCALE - precision) as nat))
    }
}

/// Rounds `value` to `precision` decimal places; `None` when the result
/// does not fit in an amount.
fn round_by_precision(value: u64, precision: i32) -> (r: Option<u64>)
    ensures
        r matches Some(x) ==> x == rounded_to(value, precision),
        r is None <==> rounded_to(value, precision) > u64::MAX,
{
    if precision >= SCALE as i32 {
        return Some(value);
    }
    let k: i64 = SCALE as i64 - precision as i64;
    if k > 19 {
        proof {
            lemma_pow10_mono(20, k as nat);
            reveal_with_fuel(pow10, 21);
            assert(pow10(20) == 100000000000000000000);
            let step = pow10(k as nat);
            assert(value as nat / step == 0) by (nonlinear_arith)
                requires step >= 100000000000000000000, value <= u64::MAX;
            assert(value as nat % step == value) by (nonlinear_arith)
                requires step >= 100000000000000000000, value <= u64::MAX;
        }
        return Some(0);
    }
    let step = pow10_exec(k as u32);
    proof {
        lemma_pow10_mono(1, k as nat);
        lemma_pow10_mono(k as nat, 19);
        reveal_with_fuel(pow10, 20);
        assert(pow10(19) == 10000000000000000000);
    }
    let v = value as u128;
    let q = v / step;
    let rem = v % step;
    let up = 2 * rem > step || (2 * rem == step && q % 2 == 1);
    let q2 = if up { q + 1 } else { q };
    proof {
        assert(q <= v) by (nonlinear_arith)
            requires q == v / step, step >= 1;
        assert(q2 * step <= (u64::MAX as u128 + 1) * 10000000000000000000) by (nonlinear_arith)
            requires q2 <= q + 1, q <= v, v <= u64::MAX, step <= 10000000000000000000;
    }
    let x = q2 * step;
    if x > u64::MAX as u128 {
        None
    } else {
        Some(x as u64)
    }
}

impl Symbol {
    /// An active symbol created at logical time `now`.
    pub fn new(
        name: String,
        base_currency: String,
        quote_currency: String,
        price_precision: i32,
        quantity_precision: i32,
        min_price: u64,
        max_price: u64,
        min_quantity: u64,
        max_quantity: u64,
        now: u64,
    ) -> (r: Symbol)
        ensures
            r.name == name,
            r.base_currency == base_currency,
            r.quote_currency == quote_currency,
            r.price_precision == price_precision,
            r.quantity_precision == quantity_precision,
            r.min_price == min_price,
            r.max_price == max_price,
            r.min_quantity == min_quantity,
            r.max_quantity == max_quantity,
            r.status == SymbolStatus::Active,
            r.created_at == now,
            r.updated_at == now,
    {
        Symbol {
            name,
            base_currency,
            quote_currency,
            price_precision,
            quantity_precision,
            min_price,
            max_price,
            min_quantity,
            max_quantity,
            status: SymbolStatus::Active,
            created_at: now,
            updated_at: now,
        }
    }

    /// Whether `price` lies within `[min_price, max_price]`.
    pub fn validate_price(&self, price: u64) -> (r: bool)
        ensures
            r == (self.min_price <= price <= self.max_price),
    {
        price >= self.min_price && price <= self.max_price
    }

    /// A price rounded to the symbol's price precision, halves to even.
    pub fn round_price(&self, price: u64) -> (r: Option<u64>)
        ensures
            r matches Some(x) ==> x == rounded_to(price, self.price_precision),
            r is None <==> rounded_to(price, self.price_precision) > u64::MAX,
    {
        round_by_precision(price, self.price_precision)
    }

    /// A quantity rounded to the symbol's quantity precision, halves to even.
    pub fn round_quantity(&self, quantity: u64) -> (r: Option<u64>)
        ensures
            r matches Some(x) ==> x == rounded_to(quantity, self.quantity_precision),
            r is None <==> rounded_to(quantity, self.quantity_precision) > u64::MAX,
    {
        round_by_precision(quantity, self.quantity_precision)
    }

    /// Whether `quantity` lies within `[min_quantity, max_quantity]`.
    pub fn validate_quantity(&self, quantity: u64) -> (r: bool)
        ensures
            r == (self.min_quantity <= quantity <= self.max_quantity),
    {
        quantity >= self.min_quantity && quantity <= self.max_quantity
    }
}

/// Why a command was refused; each carries the symbol or order it names.
#[derive(Debug, PartialEq, Eq)]
pub enum EngineError {
    SymbolExists(String),
    SymbolNotFound(String),
    SymbolNotActive(String),
    InvalidPrice(String),
    InvalidQuantity(String),
    DuplicateOrder(String),
}

impl EngineError {
    /// A human-readable description.
    pub fn message(&self) -> (r: String) {
        match self {
            EngineError::SymbolExists(s) => String::from_str("symbol already exists: ").concat(s.as_str()),
            EngineError::SymbolNotFound(s) => String::from_str("symbol does not exist: ").concat(s.as_str()),
            EngineError::SymbolNotActive(s) => String::from_str("symbol is not active: ").concat(s.as_str()),
            EngineError::InvalidPrice(s) => String::from_str("invalid price for symbol ").concat(s.as_str()),
            EngineError::InvalidQuantity(s) => String::from_str("invalid quantity for symbol ").concat(s.as_str()),
            EngineError::DuplicateOrder(s) => String::from_str("order already resting: ").concat(s.as_str()),
        }
    }
}

} // verus!
