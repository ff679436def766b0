use raft_match::amount::{amount_from_parts, parse_amount};
use raft_match::log_store::{segment_start, segments_to_remove};
use raft_match::segment::Segment;
use raft_match::match_engine::{MatchCmd, MatchCmdType, MatchEngine, StateMachine, StateMatch};
use raft_match::order::{Order, OrderSide, OrderType};
use raft_match::symbol::Symbol;

const U: u64 = 100_000_000;

fn symbol(name: &str) -> Symbol {
    Symbol::new(name.to_string(), "B".to_string(), "Q".to_string(), 2, 5, 0, 1_000_000 * U, 0, 1_000 * U, 1)
}

fn place(id: &str, side: OrderSide, price: u64, qty: u64) -> Vec<u8> {
    MatchCmd {
        cmd: MatchCmdType::PlaceOrder,
        order: Some(Order::new(id.to_string(), "BTCUSDT".to_string(), OrderType::Limit, side, price, qty, 0)),
        symbol: None,
    }
    .encode()
}

fn create(name: &str) -> Vec<u8> {
    MatchCmd { cmd: MatchCmdType::CreateSymbol, order: None, symbol: Some(symbol(name)) }.encode()
}

fn log() -> Vec<Vec<u8>> {
    let mut v = vec![create("BTCUSDT"), create("ETHUSDT")];
    for i in 0..40u64 {
        let side = if i % 2 == 0 { OrderSide::Buy } else { OrderSide::Sell };
        let price = (100 + (i % 7)) * U;
        v.push(place(&format!("O{}", i), side, price, (1 + i % 3) * U));
    }
    let mut c = Order::default();
    c.id = "O4".to_string();
    c.symbol = "BTCUSDT".to_string();
    v.push(MatchCmd { cmd: MatchCmdType::CancelOrder, order: Some(c), symbol: None }.encode());
    v.push(MatchCmd { cmd: MatchCmdType::RemoveSymbol, order: None, symbol: Some(symbol("ETHUSDT")) }.encode());
    v
}

fn replay(entries: &[Vec<u8>]) -> MatchEngine {
    let mut e = MatchEngine::new();
    for (i, d) in entries.iter().enumerate() {
        e.on_message(i as u64 + 1, d);
    }
    e
}

#[test]
fn command_round_trip() {
    let bytes = place("B1", OrderSide::Buy, 5 * U, U);
    let c = MatchCmd::decode(&bytes).unwrap();
    assert_eq!(c.cmd, MatchCmdType::PlaceOrder);
    let o = c.order.unwrap();
    assert_eq!(o.id, "B1");
    assert_eq!(o.price, 5 * U);
    assert!(c.symbol.is_none());
    assert!(MatchCmd::decode(&bytes[..bytes.len() - 1]).is_none());
    let mut longer = bytes.clone();
    longer.push(0);
    assert!(MatchCmd::decode(&longer).is_none());
    assert!(MatchCmd::decode(&[9]).is_none());
}

#[test]
fn replay_is_deterministic() {
    let l = log();
    let a = replay(&l);
    let b = replay(&l);
    assert_eq!(a.snapshot(), b.snapshot());
    assert_eq!(a.index, l.len() as u64);
}

#[test]
fn snapshot_round_trip() {
    let l = log();
    let a = replay(&l);
    let bytes = a.snapshot();
    let mut b = MatchEngine::new();
    b.on_snapshot(&bytes);
    assert_eq!(b.snapshot(), bytes);
    assert_eq!(b.index, a.index);
    assert!(b.spot_processor.symbol_manager.is_well_formed());
    let more = place("N1", OrderSide::Buy, 103 * U, U);
    let mut a2 = a;
    a2.on_message(100, &more);
    b.on_message(100, &more);
    assert_eq!(a2.snapshot(), b.snapshot());
}

#[test]
fn bad_snapshot_is_ignored() {
    let mut e = replay(&log());
    let before = e.snapshot();
    e.on_snapshot(&before[..before.len() - 3]);
    assert_eq!(e.snapshot(), before);
    e.on_snapshot(&[1, 2, 3]);
    assert_eq!(e.snapshot(), before);
}

#[test]
fn undecodable_entry_is_a_no_op() {
    let mut e = replay(&log());
    let before = e.snapshot();
    e.on_message(500, &[7, 7, 7]);
    assert_eq!(e.index, 500);
    assert_eq!(&e.snapshot()[8..], &before[8..]);
}

#[test]
fn state_match_applies_entries() {
    let mut s = StateMatch::new();
    s.apply(1, &create("BTCUSDT"));
    s.apply(2, &place("B1", OrderSide::Buy, 5 * U, U));
    let snap = s.snapshot();
    let mut t = StateMatch::new();
    t.on_snapshot(2, 1, &snap);
    assert_eq!(t.snapshot(), snap);
    t.on_snapshot(3, 1, &[]);
    assert_eq!(t.snapshot(), snap);
}

#[test]
fn amounts_parse_exactly() {
    assert_eq!(parse_amount("50000.00"), Some(50_000 * U));
    assert_eq!(parse_amount("1.00000"), Some(U));
    assert_eq!(parse_amount("0.4"), Some(40_000_000));
    assert_eq!(parse_amount("0.00000001"), Some(1));
    assert_eq!(parse_amount("0.000000001"), None);
    assert_eq!(parse_amount("-1"), None);
    assert_eq!(parse_amount("abc"), None);
    assert_eq!(parse_amount("184467440737.09551615"), Some(u64::MAX));
    assert_eq!(parse_amount("184467440737.09551616"), None);
    assert_eq!(amount_from_parts(15, 1), Some(150_000_000));
    assert_eq!(amount_from_parts(1500000000, 10), Some(15_000_000));
    assert_eq!(amount_from_parts(1500000001, 10), None);
    assert_eq!(amount_from_parts(1, 29), None);
}

#[test]
fn snapshot_after_many_commands() {
    let mut e = MatchEngine::new();
    e.on_message(1, &create("BTCUSDT"));
    let mut segs: Vec<Segment> = Vec::new();
    let mut index = 1u64;
    for i in 0..10_000u64 {
        index += 1;
        let side = if i % 2 == 0 { OrderSide::Buy } else { OrderSide::Sell };
        let price = (100 + (i % 5)) * U;
        let cmd = place(&format!("P{}", i), side, price, (1 + i % 4) * U);
        e.on_message(index, &cmd);
        let start = segment_start(index);
        if segs.last().map(|s| s.start_index) != Some(start) {
            segs.push(Segment::new(start, &[]).unwrap());
        }
        segs.last_mut().unwrap().append(&vec![cmd]).unwrap();
    }
    assert_eq!(e.index, 10_001);
    let bytes = e.snapshot();
    let mut restored = MatchEngine::new();
    restored.on_snapshot(&bytes);
    assert_eq!(restored.snapshot(), bytes);
    assert_eq!(restored.index, 10_001);
    let gone = segments_to_remove(&segs, e.index);
    assert_eq!(gone, vec![0, 10000]);
}
