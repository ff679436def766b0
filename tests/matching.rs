use raft_match::matcher::Matcher;
use raft_match::order::{Order, OrderSide, OrderStatus, OrderType};
use raft_match::order_processor::OrderProcessor;
use raft_match::symbol::{EngineError, Symbol, SymbolStatus};

const U: u64 = 100_000_000;

fn limit(id: &str, side: OrderSide, price: u64, qty: u64) -> Order {
    Order::new(id.to_string(), "BTCUSDT".to_string(), OrderType::Limit, side, price, qty, 1)
}

fn market(id: &str, side: OrderSide, qty: u64) -> Order {
    Order::new(id.to_string(), "BTCUSDT".to_string(), OrderType::Market, side, 0, qty, 1)
}

fn btcusdt() -> Symbol {
    Symbol::new(
        "BTCUSDT".to_string(),
        "BTC".to_string(),
        "USDT".to_string(),
        2,
        5,
        0,
        1_000_000 * U,
        0,
        1_000 * U,
        1,
    )
}

fn resting_total(m: &Matcher) -> u64 {
    m.orderbook.bids.iter().chain(m.orderbook.asks.iter()).map(|o| o.quantity - o.filled_quantity).sum()
}

#[test]
fn cross_on_open() {
    let mut p = OrderProcessor::new();
    p.add_symbol(btcusdt()).unwrap();
    let t = p.place_order(limit("B1", OrderSide::Buy, 50_000 * U, U), 2).unwrap();
    assert!(t.is_empty());
    let m = p.symbol_manager.get_matcher("BTCUSDT").unwrap();
    assert_eq!(m.orderbook.get_best_bid(), Some(50_000 * U));
    let t = p.place_order(limit("S1", OrderSide::Sell, 50_000 * U, 40_000_000), 3).unwrap();
    assert_eq!(t.len(), 1);
    assert_eq!(t[0].quantity, 40_000_000);
    assert_eq!(t[0].price, 50_000 * U);
    assert_eq!(t[0].buyer_order_id, "B1");
    assert_eq!(t[0].seller_order_id, "S1");
    let m = p.symbol_manager.get_matcher("BTCUSDT").unwrap();
    let b1 = m.orderbook.get_order("B1").unwrap();
    assert_eq!(b1.quantity - b1.filled_quantity, 60_000_000);
    assert_eq!(b1.status, OrderStatus::PartiallyFilled);
    assert_eq!(m.orderbook.get_best_bid(), Some(50_000 * U));
    assert!(m.orderbook.get_order("S1").is_none());
    assert!(m.orderbook.asks.is_empty());
}

#[test]
fn price_time_priority() {
    let mut m = Matcher::new("BTCUSDT".to_string());
    assert!(m.place_order(limit("B1", OrderSide::Buy, 100 * U, U), 1).is_empty());
    assert!(m.place_order(limit("B2", OrderSide::Buy, 100 * U, U), 2).is_empty());
    let t = m.place_order(market("S", OrderSide::Sell, 3 * U / 2), 3);
    assert_eq!(t.len(), 2);
    assert_eq!(t[0].buyer_order_id, "B1");
    assert_eq!(t[0].quantity, U);
    assert_eq!(t[1].buyer_order_id, "B2");
    assert_eq!(t[1].quantity, U / 2);
    assert_eq!(m.orderbook.bids.len(), 1);
    assert_eq!(m.orderbook.bids[0].id, "B2");
    assert_eq!(m.orderbook.bids[0].quantity - m.orderbook.bids[0].filled_quantity, U / 2);
    assert!(m.orderbook.asks.is_empty());
}

#[test]
fn cancel_after_trades() {
    let mut m = Matcher::new("BTCUSDT".to_string());
    m.place_order(limit("B1", OrderSide::Buy, 100 * U, U), 1);
    m.place_order(limit("B2", OrderSide::Buy, 100 * U, U), 2);
    m.place_order(market("S", OrderSide::Sell, 3 * U / 2), 3);
    let c = m.cancel_order("B2").unwrap();
    assert_eq!(c.id, "B2");
    assert!(m.orderbook.bids.is_empty());
    assert_eq!(m.orderbook.get_best_bid(), None);
    assert!(m.cancel_order("B2").is_none());
}

#[test]
fn unknown_symbol_rejected() {
    let mut p = OrderProcessor::new();
    let r = p.place_order(limit("B1", OrderSide::Buy, 100 * U, U), 1);
    assert_eq!(r.unwrap_err(), EngineError::SymbolNotFound("BTCUSDT".to_string()));
    assert!(p.symbol_manager.entries.is_empty());
}

#[test]
fn limit_does_not_cross_worse_prices() {
    let mut m = Matcher::new("X".to_string());
    m.place_order(limit("A1", OrderSide::Sell, 101 * U, U), 1);
    m.place_order(limit("A2", OrderSide::Sell, 103 * U, U), 2);
    let t = m.place_order(limit("B", OrderSide::Buy, 102 * U, 3 * U), 3);
    assert_eq!(t.len(), 1);
    assert_eq!(t[0].price, 101 * U);
    assert_eq!(t[0].seller_order_id, "A1");
    assert_eq!(m.orderbook.get_best_bid(), Some(102 * U));
    assert_eq!(m.orderbook.get_best_ask(), Some(103 * U));
    assert_eq!(m.orderbook.get_spread(), Some((U) as i128));
    assert_eq!(m.orderbook.bids[0].filled_quantity, U);
}

#[test]
fn market_remainder_is_discarded() {
    let mut m = Matcher::new("X".to_string());
    m.place_order(limit("A1", OrderSide::Sell, 101 * U, U), 1);
    let t = m.place_order(market("B", OrderSide::Buy, 5 * U), 2);
    assert_eq!(t.len(), 1);
    assert!(m.orderbook.bids.is_empty());
    assert!(m.orderbook.asks.is_empty());
}

#[test]
fn quantity_is_conserved() {
    let mut m = Matcher::new("X".to_string());
    let mut input = 0u64;
    let mut traded = 0u64;
    let orders = vec![
        limit("A1", OrderSide::Sell, 101 * U, 2 * U),
        limit("A2", OrderSide::Sell, 100 * U, U),
        limit("B1", OrderSide::Buy, 99 * U, U),
        limit("B2", OrderSide::Buy, 101 * U, 5 * U / 2),
        limit("A3", OrderSide::Sell, 98 * U, 3 * U),
    ];
    for (i, o) in orders.into_iter().enumerate() {
        input += o.quantity;
        let t = m.place_order(o, i as u64 + 1);
        traded += t.iter().map(|x| x.quantity).sum::<u64>();
    }
    assert_eq!(resting_total(&m) + 2 * traded, input);
    assert!(m.orderbook.is_well_formed());
}

#[test]
fn trades_at_maker_price_with_positive_quantity() {
    let mut m = Matcher::new("X".to_string());
    m.place_order(limit("A1", OrderSide::Sell, 100 * U, U), 1);
    m.place_order(limit("A2", OrderSide::Sell, 101 * U, U), 2);
    let t = m.place_order(limit("B", OrderSide::Buy, 105 * U, 2 * U), 3);
    assert_eq!(t.len(), 2);
    assert_eq!(t[0].price, 100 * U);
    assert_eq!(t[1].price, 101 * U);
    assert!(t.iter().all(|x| x.quantity > 0));
}

#[test]
fn trade_ids_follow_index_and_sequence() {
    let mut m = Matcher::new("X".to_string());
    m.place_order(limit("A1", OrderSide::Sell, 100 * U, U), 1);
    m.place_order(limit("A2", OrderSide::Sell, 100 * U, U), 2);
    let t = m.place_order(market("B", OrderSide::Buy, 2 * U), 7);
    assert_eq!(t[0].id, "00000000-0000-0007-0000-000000000000");
    assert_eq!(t[1].id, "00000000-0000-0007-0000-000000000001");
    assert_eq!(t[0].created_at, 7);
}

#[test]
fn book_stays_consistent() {
    let mut m = Matcher::new("X".to_string());
    m.place_order(limit("B1", OrderSide::Buy, 99 * U, U), 1);
    m.place_order(limit("B2", OrderSide::Buy, 100 * U, U), 2);
    m.place_order(limit("B3", OrderSide::Buy, 99 * U, U), 3);
    m.place_order(limit("A1", OrderSide::Sell, 102 * U, U), 4);
    assert!(m.orderbook.is_well_formed());
    let ids: Vec<&str> = m.orderbook.bids.iter().map(|o| o.id.as_str()).collect();
    assert_eq!(ids, vec!["B2", "B1", "B3"]);
    m.cancel_order("B1");
    assert!(m.orderbook.is_well_formed());
    let ids: Vec<&str> = m.orderbook.bids.iter().map(|o| o.id.as_str()).collect();
    assert_eq!(ids, vec!["B2", "B3"]);
}

#[test]
fn processor_validation_errors() {
    let mut p = OrderProcessor::new();
    let mut s = btcusdt();
    s.min_price = 10 * U;
    s.max_price = 20 * U;
    s.min_quantity = U / 10;
    s.max_quantity = 5 * U;
    p.add_symbol(s).unwrap();
    assert_eq!(p.add_symbol(btcusdt()).unwrap_err(), EngineError::SymbolExists("BTCUSDT".to_string()));
    assert_eq!(
        p.place_order(limit("B", OrderSide::Buy, 30 * U, U), 1).unwrap_err(),
        EngineError::InvalidPrice("BTCUSDT".to_string())
    );
    assert_eq!(
        p.place_order(limit("B", OrderSide::Buy, 15 * U, 6 * U), 1).unwrap_err(),
        EngineError::InvalidQuantity("BTCUSDT".to_string())
    );
    p.place_order(limit("B", OrderSide::Buy, 15 * U, U), 1).unwrap();
    assert_eq!(
        p.place_order(limit("B", OrderSide::Buy, 15 * U, U), 2).unwrap_err(),
        EngineError::DuplicateOrder("B".to_string())
    );
    p.symbol_manager.deactivate_symbol("BTCUSDT").unwrap();
    assert_eq!(
        p.place_order(limit("C", OrderSide::Buy, 15 * U, U), 3).unwrap_err(),
        EngineError::SymbolNotActive("BTCUSDT".to_string())
    );
    assert_eq!(p.cancel_order("BTCUSDT", "B").unwrap_err(), EngineError::SymbolNotActive("BTCUSDT".to_string()));
    p.del_symbol("BTCUSDT").unwrap();
    assert_eq!(p.symbol_manager.get_symbol("BTCUSDT").unwrap().status, SymbolStatus::Delisted);
    assert!(p.symbol_manager.get_matcher("BTCUSDT").is_none());
    assert_eq!(p.cancel_order("BTCUSDT", "B").unwrap_err(), EngineError::SymbolNotFound("BTCUSDT".to_string()));
    assert_eq!(p.del_symbol("ETHUSDT").unwrap_err(), EngineError::SymbolNotFound("ETHUSDT".to_string()));
    assert_eq!(EngineError::SymbolNotFound("X".to_string()).message(), "symbol does not exist: X");
}

#[test]
fn update_symbol_keeps_book() {
    let mut p = OrderProcessor::new();
    p.add_symbol(btcusdt()).unwrap();
    p.place_order(limit("B", OrderSide::Buy, 15 * U, U), 1).unwrap();
    let mut s = btcusdt();
    s.max_quantity = 2 * U;
    p.update_symbol(s).unwrap();
    assert_eq!(p.symbol_manager.get_symbol("BTCUSDT").unwrap().max_quantity, 2 * U);
    assert!(p.symbol_manager.get_matcher("BTCUSDT").unwrap().orderbook.get_order("B").is_some());
    let mut e = btcusdt();
    e.name = "ETHUSDT".to_string();
    assert_eq!(p.update_symbol(e).unwrap_err(), EngineError::SymbolNotFound("ETHUSDT".to_string()));
    assert_eq!(p.list_symbols().len(), 1);
}

#[test]
fn order_status_updates() {
    let mut o = limit("B", OrderSide::Buy, U, 2 * U);
    assert!(o.is_cancelable());
    o.filled_quantity = U;
    o.update_status(9);
    assert_eq!(o.status, OrderStatus::PartiallyFilled);
    assert_eq!(o.updated_at, 9);
    assert_eq!(o.remaining_quantity(), U);
    o.filled_quantity = 2 * U;
    o.update_status(10);
    assert_eq!(o.status, OrderStatus::Filled);
    assert!(o.is_filled());
    assert!(!o.is_cancelable());
    let d = Order::default();
    assert_eq!(d.quantity, 0);
    assert_eq!(d.order_type, OrderType::Market);
}

#[test]
fn cancelled_status_is_final() {
    let mut o = limit("B", OrderSide::Buy, U, 2 * U);
    o.filled_quantity = U;
    o.status = OrderStatus::Canceled;
    o.update_status(5);
    assert_eq!(o.status, OrderStatus::Canceled);
    assert_eq!(o.updated_at, 5);
    o.status = OrderStatus::Filled;
    o.update_status(6);
    assert_eq!(o.status, OrderStatus::Filled);
}

#[test]
fn resting_id_is_not_placed_twice() {
    let mut m = Matcher::new("X".to_string());
    m.place_order(limit("B1", OrderSide::Buy, 100 * U, U), 1);
    m.place_order(limit("A1", OrderSide::Sell, 105 * U, U), 2);
    let t = m.place_order(limit("B1", OrderSide::Sell, 90 * U, U), 3);
    assert!(t.is_empty());
    assert_eq!(m.orderbook.bids.len(), 1);
    assert_eq!(m.orderbook.asks.len(), 1);
}
