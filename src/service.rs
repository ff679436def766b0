//! The commands that client requests stand for. Requests carry amounts as
//! decimal text; a request whose amounts are not amounts is refused here,
//! before anything is proposed to the log.
use vstd::prelude::*;
use crate::amount::{amount_of_text, parse_amount};
use crate::log_store::{decimal, decimal_string};
use crate::match_engine::{MatchCmd, MatchCmdType};
use crate::order::{Order, OrderSide, OrderStatus, OrderType};
use crate::symbol::{Symbol, SymbolStatus};
use crate::symbol_manager::SymbolManager;

verus! {

/// Which amount of a request is not an amount.
#[derive(Clone, Copy, Debug, PartialEq, Eq, Structural)]
pub enum RequestError {
    /// The symbol is not registered here, or delisted.
    UnknownSymbol,
    /// The symbol is registered but does not take orders.
    SymbolNotActive,
    InvalidPrice,
    InvalidQuantity,
    InvalidMinPrice,
    InvalidMaxPrice,
    InvalidMinQuantity,
    InvalidMaxQuantity,
}

/// Whether orders on `name` are refused before they are proposed: the
/// symbol is unknown to `symbols` (or delisted), or not active.
pub open spec fn symbol_refusal(symbols: SymbolManager, name: Seq<char>) -> Option<RequestError> {
    if !symbols.has(name) || symbols.entry(name).matcher is None {
        Some(RequestError::UnknownSymbol)
    } else if symbols.entry(name).symbol.status != SymbolStatus::Active {
        Some(RequestError::SymbolNotActive)
    } else {
        None
    }
}

/// The command to place order `order_id` (its id is the decimal text of
/// the number), created at `now`. `symbols` is this node's registry: an
/// order on a symbol it does not trade is refused here, before anything is
/// proposed.
pub fn place_order(
    symbols: &SymbolManager,
    order_id: u64,
    symbol: String,
    order_type: OrderType,
    side: OrderSide,
    price: &str,
    quantity: &str,
    now: u64,
) -> (r: Result<MatchCmd, RequestError>)
    requires
        symbols.wf(),
    ensures
        symbol_refusal(*symbols, symbol@) matches Some(e) ==> r == Err::<MatchCmd, RequestError>(e),
        symbol_refusal(*symbols, symbol@) is None && amount_of_text(price@) is None
            ==> r == Err::<MatchCmd, RequestError>(RequestError::InvalidPrice),
        symbol_refusal(*symbols, symbol@) is None && amount_of_text(price@) is Some
            && amount_of_text(quantity@) is None
            ==> r == Err::<MatchCmd, RequestError>(RequestError::InvalidQuantity),
        r matches Ok(c) ==> c.cmd == MatchCmdType::PlaceOrder && c.symbol is None && (c.order matches Some(o)
            && o.id@ == decimal(order_id as nat) && o.symbol == symbol && o.order_type == order_type && o.side == side
            && Some(o.price) == amount_of_text(price@) && Some(o.quantity) == amount_of_text(quantity@)
            && o.filled_quantity == 0 && o.status == OrderStatus::New && o.created_at == now && o.updated_at == now),
        symbol_refusal(*symbols, symbol@) is None && amount_of_text(price@) is Some
            && amount_of_text(quantity@) is Some ==> r is Ok,
{
    match symbols.get_symbol_and_matcher(symbol.as_str()) {
        None => {
            return Err(RequestError::UnknownSymbol);
        },
        Some((s, _)) => {
            if s.status != SymbolStatus::Active {
                return Err(RequestError::SymbolNotActive);
            }
        },
    }
    let p = match parse_amount(price) {
        Some(p) => p,
        None => {
            return Err(RequestError::InvalidPrice);
        },
    };
    let q = match parse_amount(quantity) {
        Some(q) => q,
        None => {
            return Err(RequestError::InvalidQuantity);
        },
    };
    let order = Order::new(decimal_string(order_id), symbol, order_type, side, p, q, now);
    Ok(MatchCmd { cmd: MatchCmdType::PlaceOrder, order: Some(order), symbol: None })
}

/// The command to cancel order `order_id` of `symbol`.
pub fn cancel_order(symbol: String, order_id: u64) -> (r: MatchCmd)
    ensures
        r.cmd == MatchCmdType::CancelOrder,
        r.symbol is None,
        r.order matches Some(o) && o.id@ == decimal(order_id as nat) && o.symbol == symbol,
{
    let mut order = Order::default();
    order.id = decimal_string(order_id);
    order.symbol = symbol;
    MatchCmd { cmd: MatchCmdType::CancelOrder, order: Some(order), symbol: None }
}

/// The command to create an active symbol with these bounds, created at
/// `now`; the first bound that is not an amount is reported.
pub fn create_symbol(
    name: String,
    base: String,
    quote: String,
    price_precision: i32,
    quantity_precision: i32,
    min_price: &str,
    max_price: &str,
    min_quantity: &str,
    max_quantity: &str,
    now: u64,
) -> (r: Result<MatchCmd, RequestError>)
    ensures
        amount_of_text(min_price@) is None ==> r == Err::<MatchCmd, RequestError>(RequestError::InvalidMinPrice),
        amount_of_text(min_price@) is Some && amount_of_text(max_price@) is None
            ==> r == Err::<MatchCmd, RequestError>(RequestError::InvalidMaxPrice),
        amount_of_text(min_price@) is Some && amount_of_text(max_price@) is Some
            && amount_of_text(min_quantity@) is None
            ==> r == Err::<MatchCmd, RequestError>(RequestError::InvalidMinQuantity),
        amount_of_text(min_price@) is Some && amount_of_text(max_price@) is Some
            && amount_of_text(min_quantity@) is Some && amount_of_text(max_quantity@) is None
            ==> r == Err::<MatchCmd, RequestError>(RequestError::InvalidMaxQuantity),
        amount_of_text(min_price@) is Some && amount_of_text(max_price@) is Some
            && amount_of_text(min_quantity@) is Some && amount_of_text(max_quantity@) is Some ==> r is Ok,
        r matches Ok(c) ==> c.cmd == MatchCmdType::CreateSymbol && c.order is None && (c.symbol matches Some(s)
            && s.name == name && s.base_currency == base && s.quote_currency == quote
            && s.price_precision == price_precision && s.quantity_precision == quantity_precision
            && Some(s.min_price) == amount_of_text(min_price@) && Some(s.max_price) == amount_of_text(max_price@)
            && Some(s.min_quantity) == amount_of_text(min_quantity@)
            && Some(s.max_quantity) == amount_of_text(max_quantity@)
            && s.status == SymbolStatus::Active && s.created_at == now && s.updated_at == now),
{
    let a = match parse_amount(min_price) {
        Some(x) => x,
        None => {
            return Err(RequestError::InvalidMinPrice);
        },
    };
    let b = match parse_amount(max_price) {
        Some(x) => x,
        None => {
            return Err(RequestError::InvalidMaxPrice);
        },
    };
    let c = match parse_amount(min_quantity) {
        Some(x) => x,
        None => {
            return Err(RequestError::InvalidMinQuantity);
        },
    };
    let d = match parse_amount(max_quantity) {
        Some(x) => x,
        None => {
            return Err(RequestError::InvalidMaxQuantity);
        },
    };
    let s = Symbol::new(name, base, quote, price_precision, quantity_precision, a, b, c, d, now);
    Ok(MatchCmd { cmd: MatchCmdType::CreateSymbol, order: None, symbol: Some(s) })
}

/// The command to delist symbol `name`.
pub fn remove_symbol(name: String) -> (r: MatchCmd)
    ensures
        r.cmd == MatchCmdType::RemoveSymbol,
        r.order is None,
        r.symbol matches Some(s) && s.name == name,
{
    let s = Symbol::new(name, String::new(), String::new(), 0, 0, 0, 0, 0, 0, 0);
    MatchCmd { cmd: MatchCmdType::RemoveSymbol, order: None, symbol: Some(s) }
}

} // verus!
