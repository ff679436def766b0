use raft_match::log_store::decimal_string;
use raft_match::match_engine::MatchCmdType;
use raft_match::order::{OrderSide, OrderType};
use raft_match::service::{
    cancel_order, create_symbol, place_order, remove_symbol, RequestError,
};
use raft_match::symbol::Symbol;
use raft_match::symbol_manager::SymbolManager;

const U: u64 = 100_000_000;

fn sym(pp: i32, qp: i32) -> Symbol {
    Symbol::new("S".to_string(), "B".to_string(), "Q".to_string(), pp, qp, 0, u64::MAX, 0, u64::MAX, 0)
}

#[test]
fn place_request_becomes_command() {
    let mut reg = SymbolManager::new();
    reg.add_symbol(Symbol::new("BTCUSDT".to_string(), "B".to_string(), "Q".to_string(), 2, 5, 0, 10, 0, 10, 0))
        .unwrap();
    let c = place_order(&reg, 7, "BTCUSDT".to_string(), OrderType::Limit, OrderSide::Buy, "50000.00", "1.00000", 3)
        .unwrap();
    assert_eq!(c.cmd, MatchCmdType::PlaceOrder);
    let o = c.order.unwrap();
    assert_eq!(o.id, "7");
    assert_eq!(o.price, 50_000 * U);
    assert_eq!(o.quantity, U);
    assert_eq!(o.created_at, 3);
    let e = place_order(&reg, 7, "BTCUSDT".to_string(), OrderType::Limit, OrderSide::Buy, "x", "1", 3);
    assert_eq!(e.unwrap_err(), RequestError::InvalidPrice);
    let e = place_order(&reg, 7, "BTCUSDT".to_string(), OrderType::Limit, OrderSide::Buy, "1", "-1", 3);
    assert_eq!(e.unwrap_err(), RequestError::InvalidQuantity);
}

#[test]
fn unknown_symbol_refused_before_proposal() {
    let mut reg = SymbolManager::new();
    let e = place_order(&reg, 1, "ETHUSDT".to_string(), OrderType::Limit, OrderSide::Buy, "1", "1", 0);
    assert_eq!(e.unwrap_err(), RequestError::UnknownSymbol);
    reg.add_symbol(Symbol::new("ETHUSDT".to_string(), "E".to_string(), "Q".to_string(), 2, 5, 0, 10, 0, 10, 0))
        .unwrap();
    reg.deactivate_symbol("ETHUSDT").unwrap();
    let e = place_order(&reg, 1, "ETHUSDT".to_string(), OrderType::Limit, OrderSide::Buy, "1", "1", 0);
    assert_eq!(e.unwrap_err(), RequestError::SymbolNotActive);
    reg.delist_symbol("ETHUSDT").unwrap();
    let e = place_order(&reg, 1, "ETHUSDT".to_string(), OrderType::Limit, OrderSide::Buy, "1", "1", 0);
    assert_eq!(e.unwrap_err(), RequestError::UnknownSymbol);
}

#[test]
fn symbol_requests_become_commands() {
    let c = create_symbol(
        "BTCUSDT".to_string(), "BTC".to_string(), "USDT".to_string(), 2, 5, "0.01", "1000000", "0.00001", "100", 4,
    )
    .unwrap();
    let s = c.symbol.unwrap();
    assert_eq!(s.min_price, 1_000_000);
    assert_eq!(s.max_price, 1_000_000 * U);
    assert_eq!(s.min_quantity, 1_000);
    assert_eq!(s.max_quantity, 100 * U);
    let e = create_symbol(
        "BTCUSDT".to_string(), "BTC".to_string(), "USDT".to_string(), 2, 5, "0.01", "x", "0.00001", "100", 4,
    );
    assert_eq!(e.unwrap_err(), RequestError::InvalidMaxPrice);
    let e = create_symbol(
        "BTCUSDT".to_string(), "BTC".to_string(), "USDT".to_string(), 2, 5, "0.01", "1", "0.00001", "", 4,
    );
    assert_eq!(e.unwrap_err(), RequestError::InvalidMaxQuantity);
    let c = cancel_order("S".to_string(), 42);
    assert_eq!(c.cmd, MatchCmdType::CancelOrder);
    assert_eq!(c.order.unwrap().id, "42");
    let r = remove_symbol("S".to_string());
    assert_eq!(r.symbol.unwrap().name, "S");
    assert_eq!(decimal_string(1234567890), "1234567890");
}

#[test]
fn rounding_halves_to_even() {
    let s = sym(2, 10);
    assert_eq!(s.round_price(12_345_678_901), Some(12_346_000_000));
    assert_eq!(s.round_price(12_500_000), Some(12_000_000));
    assert_eq!(s.round_price(13_500_000), Some(14_000_000));
    assert_eq!(s.round_quantity(12_345_678_901), Some(12_345_678_901));
    let t = sym(-1, -12);
    assert_eq!(t.round_price(125 * U), Some(120 * U));
    assert_eq!(t.round_price(135 * U), Some(140 * U));
    assert_eq!(t.round_quantity(u64::MAX), Some(0));
    let big = sym(-11, 0);
    assert_eq!(big.round_price(u64::MAX), None);
    assert_eq!(big.round_quantity(u64::MAX), Some(18_446_744_073_700_000_000));
}
