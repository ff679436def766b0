//! Byte encoding of orders, symbols, books and the symbol registry.
use vstd::prelude::*;
use crate::codec::{enc_str, enc_tag, enc_u64, get_str, get_tag, get_u64, holds_at, lemma_holds_part, lemma_holds_split,
    put_str, put_tag, put_u64};
use crate::matcher::Matcher;
use crate::order::{Order, OrderSide, OrderStatus, OrderType};
use crate::orderbook::{at_least_as_good, ladder_wf, OrderBook};
use crate::symbol::{Symbol, SymbolStatus};
use crate::symbol_manager::{SymbolEntry, SymbolManager};

verus! {

/// `b[a..c]` is `b[a..m]` followed by `b[m..c]`.
pub proof fn lemma_join(b: Seq<u8>, a: int, m: int, c: int)
    requires
        0 <= a <= m <= c <= b.len(),
    ensures
        b.subrange(a, c) == b.subrange(a, m) + b.subrange(m, c),
{
    assert(b.subrange(a, c) =~= b.subrange(a, m) + b.subrange(m, c));
}

/// Equal fields, strings compared by their characters.
pub open spec fn order_view_eq(a: Order, b: Order) -> bool {
    &&& a.id@ == b.id@
    &&& a.symbol@ == b.symbol@
    &&& a.order_type == b.order_type
    &&& a.side == b.side
    &&& a.price == b.price
    &&& a.quantity == b.quantity
    &&& a.filled_quantity == b.filled_quantity
    &&& a.status == b.status
    &&& a.created_at == b.created_at
    &&& a.updated_at == b.updated_at
}

/// Equal fields, strings compared by their characters.
pub open spec fn symbol_view_eq(a: Symbol, b: Symbol) -> bool {
    &&& a.name@ == b.name@
    &&& a.base_currency@ == b.base_currency@
    &&& a.quote_currency@ == b.quote_currency@
    &&& a.price_precision == b.price_precision
    &&& a.quantity_precision == b.quantity_precision
    &&& a.min_price == b.min_price
    &&& a.max_price == b.max_price
    &&& a.min_quantity == b.min_quantity
    &&& a.max_quantity == b.max_quantity
    &&& a.status == b.status
    &&& a.created_at == b.created_at
    &&& a.updated_at == b.updated_at
}

pub open spec fn ladder_view_eq(a: Seq<Order>, b: Seq<Order>) -> bool {
    a.len() == b.len() && forall|i: int| 0 <= i < a.len() ==> order_view_eq(#[trigger] a[i], b[i])
}

pub open spec fn book_view_eq(a: OrderBook, b: OrderBook) -> bool {
    a.symbol@ == b.symbol@ && ladder_view_eq(a.bids@, b.bids@) && ladder_view_eq(a.asks@, b.asks@)
}

pub open spec fn entry_view_eq(a: SymbolEntry, b: SymbolEntry) -> bool {
    symbol_view_eq(a.symbol, b.symbol) && match (a.matcher, b.matcher) {
        (None, None) => true,
        (Some(x), Some(y)) => book_view_eq(x.orderbook, y.orderbook),
        _ => false,
    }
}

pub open spec fn manager_view_eq(a: SymbolManager, b: SymbolManager) -> bool {
    a.entries@.len() == b.entries@.len() && forall|i: int| 0 <= i < a.entries@.len()
        ==> entry_view_eq(#[trigger] a.entries@[i], b.entries@[i])
}

proof fn lemma_ladder_wf_transfer(a: Seq<Order>, b: Seq<Order>, side: OrderSide)
    requires
        ladder_view_eq(a, b),
        ladder_wf(b, side),
    ensures
        ladder_wf(a, side),
{
    assert forall|i: int, j: int| 0 <= i < j < a.len() implies #[trigger] at_least_as_good(side, a[i].price, a[j].price) by {
        assert(order_view_eq(a[i], b[i]) && order_view_eq(a[j], b[j]));
        assert(at_least_as_good(side, b[i].price, b[j].price));
    }
    assert forall|i: int, j: int| 0 <= i < j < a.len() implies (#[trigger] a[i]).id@ != (#[trigger] a[j]).id@ by {
        assert(order_view_eq(a[i], b[i]) && order_view_eq(a[j], b[j]));
        assert(b[i].id@ != b[j].id@);
    }
    assert forall|i: int| 0 <= i < a.len() implies (#[trigger] a[i]).side == side && a[i].filled_quantity < a[i].quantity by {
        assert(order_view_eq(a[i], b[i]));
        assert(b[i].side == side);
    }
}

proof fn lemma_book_wf_transfer(a: OrderBook, b: OrderBook)
    requires
        book_view_eq(a, b),
        b.wf(),
    ensures
        a.wf(),
{
    lemma_ladder_wf_transfer(a.bids@, b.bids@, OrderSide::Buy);
    lemma_ladder_wf_transfer(a.asks@, b.asks@, OrderSide::Sell);
    assert forall|i: int, j: int| 0 <= i < a.bids@.len() && 0 <= j < a.asks@.len()
        implies (#[trigger] a.bids@[i]).id@ != (#[trigger] a.asks@[j]).id@ by {
        assert(order_view_eq(a.bids@[i], b.bids@[i]) && order_view_eq(a.asks@[j], b.asks@[j]));
        assert(b.bids@[i].id@ != b.asks@[j].id@);
    }
}

/// A registry that agrees with a well-formed one field by field is well formed.
pub proof fn lemma_manager_wf_transfer(a: SymbolManager, b: SymbolManager)
    requires
        manager_view_eq(a, b),
        b.wf(),
    ensures
        a.wf(),
{
    assert forall|i: int, j: int| 0 <= i < j < a.entries@.len()
        implies (#[trigger] a.entries@[i]).symbol.name@ != (#[trigger] a.entries@[j]).symbol.name@ by {
        assert(entry_view_eq(a.entries@[i], b.entries@[i]) && entry_view_eq(a.entries@[j], b.entries@[j]));
        assert(b.entries@[i].symbol.name@ != b.entries@[j].symbol.name@);
    }
    assert forall|i: int| 0 <= i < a.entries@.len()
        implies ((#[trigger] a.entries@[i]).matcher matches Some(m) ==> m.wf()) by {
        assert(entry_view_eq(a.entries@[i], b.entries@[i]));
        if let (Some(m), Some(n)) = (a.entries@[i].matcher, b.entries@[i].matcher) {
            lemma_book_wf_transfer(m.orderbook, n.orderbook);
        }
    }
}

pub open spec fn order_type_tag(t: OrderType) -> u8 {
    match t {
        OrderType::Market => 0,
        OrderType::Limit => 1,
    }
}

pub open spec fn side_tag(s: OrderSide) -> u8 {
    match s {
        OrderSide::Buy => 0,
        OrderSide::Sell => 1,
    }
}

pub open spec fn order_status_tag(s: OrderStatus) -> u8 {
    match s {
        OrderStatus::New => 0,
        OrderStatus::PartiallyFilled => 1,
        OrderStatus::Filled => 2,
        OrderStatus::Canceled => 3,
        OrderStatus::Rejected => 4,
    }
}

pub open spec fn symbol_status_tag(s: SymbolStatus) -> u8 {
    match s {
        SymbolStatus::Active => 0,
        SymbolStatus::Inactive => 1,
        SymbolStatus::Delisted => 2,
    }
}

fn order_type_code(t: OrderType) -> (r: u8)
    ensures
        r == order_type_tag(t),
{
    match t {
        OrderType::Market => 0,
        OrderType::Limit => 1,
    }
}

fn order_type_from(t: u8) -> (r: Option<OrderType>)
    ensures
        r matches Some(x) ==> order_type_tag(x) == t,
        forall|x: OrderType| #[trigger] order_type_tag(x) == t ==> r == Some(x),
{
    match t {
        0 => Some(OrderType::Market),
        1 => Some(OrderType::Limit),
        _ => None,
    }
}

fn side_code(s: OrderSide) -> (r: u8)
    ensures
        r == side_tag(s),
{
    match s {
        OrderSide::Buy => 0,
        OrderSide::Sell => 1,
    }
}

fn side_from(t: u8) -> (r: Option<OrderSide>)
    ensures
        r matches Some(x) ==> side_tag(x) == t,
        forall|x: OrderSide| #[trigger] side_tag(x) == t ==> r == Some(x),
{
    match t {
        0 => Some(OrderSide::Buy),
        1 => Some(OrderSide::Sell),
        _ => None,
    }
}

fn order_status_code(s: OrderStatus) -> (r: u8)
    ensures
        r == order_status_tag(s),
{
    match s {
        OrderStatus::New => 0,
        OrderStatus::PartiallyFilled => 1,
        OrderStatus::Filled => 2,
        OrderStatus::Canceled => 3,
        OrderStatus::Rejected => 4,
    }
}

fn order_status_from(t: u8) -> (r: Option<OrderStatus>)
    ensures
        r matches Some(x) ==> order_status_tag(x) == t,
        forall|x: OrderStatus| #[trigger] order_status_tag(x) == t ==> r == Some(x),
{
    match t {
        0 => Some(OrderStatus::New),
        1 => Some(OrderStatus::PartiallyFilled),
        2 => Some(OrderStatus::Filled),
        3 => Some(OrderStatus::Canceled),
        4 => Some(OrderStatus::Rejected),
        _ => None,
    }
}

fn symbol_status_code(s: SymbolStatus) -> (r: u8)
    ensures
        r == symbol_status_tag(s),
{
    match s {
        SymbolStatus::Active => 0,
        SymbolStatus::Inactive => 1,
        SymbolStatus::Delisted => 2,
    }
}

fn symbol_status_from(t: u8) -> (r: Option<SymbolStatus>)
    ensures
        r matches Some(x) ==> symbol_status_tag(x) == t,
        forall|x: SymbolStatus| #[trigger] symbol_status_tag(x) == t ==> r == Some(x),
{
    match t {
        0 => Some(SymbolStatus::Active),
        1 => Some(SymbolStatus::Inactive),
        2 => Some(SymbolStatus::Delisted),
        _ => None,
    }
}

/// A 32-bit signed integer: its two's-complement bits as an integer.
pub open spec fn enc_i32(x: i32) -> Seq<u8> {
    enc_u64((x as u32) as u64)
}

fn put_i32(out: &mut Vec<u8>, x: i32)
    ensures
        final(out)@ == old(out)@ + enc_i32(x),
{
    put_u64(out, x as u32 as u64);
}

fn get_i32(b: &[u8], pos: usize) -> (r: Option<(i32, usize)>)
    ensures
        r matches Some((x, p)) ==> pos <= p <= b@.len() && b@.subrange(pos as int, p as int) == enc_i32(x),
        forall|x: i32| #[trigger] holds_at(b@, pos as int, enc_i32(x)) ==> r == Some((x, (pos + 8) as usize)),
{
    let (v, p) = match get_u64(b, pos) {
        Some(x) => x,
        None => {
            return None;
        },
    };
    if v > 0xffff_ffff {
        return None;
    }
    let x = v as u32 as i32;
    proof {
        assert(((v as u32) as i32) as u32 == v as u32) by (bit_vector);
        assert forall|z: i32| #[trigger] holds_at(b@, pos as int, enc_i32(z)) implies x == z by {
            assert(v == (z as u32) as u64);
            assert((((z as u32) as u64) as u32) as i32 == z) by (bit_vector);
        }
    }
    Some((x, p))
}

/// An order: its fields in declaration order.
pub open spec fn enc_order(order: Order) -> Seq<u8> {
    enc_str(order.id@)
        + enc_str(order.symbol@)
        + enc_tag(order_type_tag(order.order_type))
        + enc_tag(side_tag(order.side))
        + enc_u64(order.price)
        + enc_u64(order.quantity)
        + enc_u64(order.filled_quantity)
        + enc_tag(order_status_tag(order.status))
        + enc_u64(order.created_at)
        + enc_u64(order.updated_at)
}

/// Appends the encoding of an order.
pub fn put_order(out: &mut Vec<u8>, order: &Order)
    ensures
        final(out)@ == old(out)@ + enc_order(*order),
{
    let ghost start = out@;
    put_str(out, &order.id);
    let ghost mut e = enc_str(order.id@);
    put_str(out, &order.symbol);
    proof {
        vstd::seq_lib::lemma_concat_associative(start, e, enc_str(order.symbol@));
        e = e + enc_str(order.symbol@);
    }
    put_tag(out, order_type_code(order.order_type));
    proof {
        vstd::seq_lib::lemma_concat_associative(start, e, enc_tag(order_type_tag(order.order_type)));
        e = e + enc_tag(order_type_tag(order.order_type));
    }
    put_tag(out, side_code(order.side));
    proof {
        vstd::seq_lib::lemma_concat_associative(start, e, enc_tag(side_tag(order.side)));
        e = e + enc_tag(side_tag(order.side));
    }
    put_u64(out, order.price);
    proof {
        vstd::seq_lib::lemma_concat_associative(start, e, enc_u64(order.price));
        e = e + enc_u64(order.price);
    }
    put_u64(out, order.quantity);
    proof {
        vstd::seq_lib::lemma_concat_associative(start, e, enc_u64(order.quantity));
        e = e + enc_u64(order.quantity);
    }
    put_u64(out, order.filled_quantity);
    proof {
        vstd::seq_lib::lemma_concat_associative(start, e, enc_u64(order.filled_quantity));
        e = e + enc_u64(order.filled_quantity);
    }
    put_tag(out, order_status_code(order.status));
    proof {
        vstd::seq_lib::lemma_concat_associative(start, e, enc_tag(order_status_tag(order.status)));
        e = e + enc_tag(order_status_tag(order.status));
    }
    put_u64(out, order.created_at);
    proof {
        vstd::seq_lib::lemma_concat_associative(start, e, enc_u64(order.created_at));
        e = e + enc_u64(order.created_at);
    }
    put_u64(out, order.updated_at);
    proof {
        vstd::seq_lib::lemma_concat_associative(start, e, enc_u64(order.updated_at));
        e = e + enc_u64(order.updated_at);
    }
}

/// Reads the order at `pos`; when the encoding of `target` stands there,
/// it is that order.
pub fn get_order(b: &[u8], pos: usize, target: Ghost<Option<Order>>) -> (r: Option<(Order, usize)>)
    requires
        target@ matches Some(x) ==> holds_at(b@, pos as int, enc_order(x)),
    ensures
        r matches Some((y, p)) ==> pos <= p <= b@.len() && b@.subrange(pos as int, p as int) == enc_order(y),
        target@ matches Some(x) ==> (r matches Some((y, p)) && order_view_eq(y, x) && p == pos + enc_order(x).len()),
{
    proof {
        if let Some(x) = target@ {
            lemma_holds_split(b@, pos as int, (enc_str(x.id@) + enc_str(x.symbol@) + enc_tag(order_type_tag(x.order_type)) + enc_tag(side_tag(x.side)) + enc_u64(x.price) + enc_u64(x.quantity) + enc_u64(x.filled_quantity) + enc_tag(order_status_tag(x.status)) + enc_u64(x.created_at)), enc_u64(x.updated_at));
            lemma_holds_split(b@, pos as int, (enc_str(x.id@) + enc_str(x.symbol@) + enc_tag(order_type_tag(x.order_type)) + enc_tag(side_tag(x.side)) + enc_u64(x.price) + enc_u64(x.quantity) + enc_u64(x.filled_quantity) + enc_tag(order_status_tag(x.status))), enc_u64(x.created_at));
            lemma_holds_split(b@, pos as int, (enc_str(x.id@) + enc_str(x.symbol@) + enc_tag(order_type_tag(x.order_type)) + enc_tag(side_tag(x.side)) + enc_u64(x.price) + enc_u64(x.quantity) + enc_u64(x.filled_quantity)), enc_tag(order_status_tag(x.status)));
            lemma_holds_split(b@, pos as int, (enc_str(x.id@) + enc_str(x.symbol@) + enc_tag(order_type_tag(x.order_type)) + enc_tag(side_tag(x.side)) + enc_u64(x.price) + enc_u64(x.quantity)), enc_u64(x.filled_quantity));
            lemma_holds_split(b@, pos as int, (enc_str(x.id@) + enc_str(x.symbol@) + enc_tag(order_type_tag(x.order_type)) + enc_tag(side_tag(x.side)) + enc_u64(x.price)), enc_u64(x.quantity));
            lemma_holds_split(b@, pos as int, (enc_str(x.id@) + enc_str(x.symbol@) + enc_tag(order_type_tag(x.order_type)) + enc_tag(side_tag(x.side))), enc_u64(x.price));
            lemma_holds_split(b@, pos as int, (enc_str(x.id@) + enc_str(x.symbol@) + enc_tag(order_type_tag(x.order_type))), enc_tag(side_tag(x.side)));
            lemma_holds_split(b@, pos as int, (enc_str(x.id@) + enc_str(x.symbol@)), enc_tag(order_type_tag(x.order_type)));
            lemma_holds_split(b@, pos as int, enc_str(x.id@), enc_str(x.symbol@));
        }
    }
    proof {
        if let Some(x) = target@ {
            assert(holds_at(b@, pos as int, enc_str(x.id@)));
        }
    }
    let (f0, p0) = match get_str(b, pos, Ghost(match target@ { Some(x) => Some(x.id@), None => None })) {
        Some(x) => x,
        None => {
            return None;
        },
    };
    proof {
        if let Some(x) = target@ {
            assert(holds_at(b@, p0 as int, enc_str(x.symbol@)));
        }
    }
    let (f1, p1) = match get_str(b, p0, Ghost(match target@ { Some(x) => Some(x.symbol@), None => None })) {
        Some(x) => x,
        None => {
            return None;
        },
    };
    proof {
        lemma_join(b@, pos as int, p0 as int, p1 as int);
    }
    proof {
        if let Some(x) = target@ {
            assert(holds_at(b@, p1 as int, enc_tag(order_type_tag(x.order_type))));
        }
    }
    let (t2, p2) = match get_tag(b, p1) {
        Some(x) => x,
        None => {
            return None;
        },
    };
    let f2 = match order_type_from(t2) {
        Some(x) => x,
        None => {
            return None;
        },
    };
    proof {
        lemma_join(b@, pos as int, p1 as int, p2 as int);
    }
    proof {
        if let Some(x) = target@ {
            assert(holds_at(b@, p2 as int, enc_tag(side_tag(x.side))));
        }
    }
    let (t3, p3) = match get_tag(b, p2) {
        Some(x) => x,
        None => {
            return None;
        },
    };
    let f3 = match side_from(t3) {
        Some(x) => x,
        None => {
            return None;
        },
    };
    proof {
        lemma_join(b@, pos as int, p2 as int, p3 as int);
    }
    proof {
        if let Some(x) = target@ {
            assert(holds_at(b@, p3 as int, enc_u64(x.price)));
        }
    }
    let (f4, p4) = match get_u64(b, p3) {
        Some(x) => x,
        None => {
            return None;
        },
    };
    proof {
        lemma_join(b@, pos as int, p3 as int, p4 as int);
    }
    proof {
        if let Some(x) = target@ {
            assert(holds_at(b@, p4 as int, enc_u64(x.quantity)));
        }
    }
    let (f5, p5) = match get_u64(b, p4) {
        Some(x) => x,
        None => {
            return None;
        },
    };
    proof {
        lemma_join(b@, pos as int, p4 as int, p5 as int);
    }
    proof {
        if let Some(x) = target@ {
            assert(holds_at(b@, p5 as int, enc_u64(x.filled_quantity)));
        }
    }
    let (f6, p6) = match get_u64(b, p5) {
        Some(x) => x,
        None => {
            return None;
        },
    };
    proof {
        lemma_join(b@, pos as int, p5 as int, p6 as int);
    }
    proof {
        if let Some(x) = target@ {
            assert(holds_at(b@, p6 as int, enc_tag(order_status_tag(x.status))));
        }
    }
    let (t7, p7) = match get_tag(b, p6) {
        Some(x) => x,
        None => {
            return None;
        },
    };
    let f7 = match order_status_from(t7) {
        Some(x) => x,
        None => {
            return None;
        },
    };
    proof {
        lemma_join(b@, pos as int, p6 as int, p7 as int);
    }
    proof {
        if let Some(x) = target@ {
            assert(holds_at(b@, p7 as int, enc_u64(x.created_at)));
        }
    }
    let (f8, p8) = match get_u64(b, p7) {
        Some(x) => x,
        None => {
            return None;
        },
    };
    proof {
        lemma_join(b@, pos as int, p7 as int, p8 as int);
    }
    proof {
        if let Some(x) = target@ {
            assert(holds_at(b@, p8 as int, enc_u64(x.updated_at)));
        }
    }
    let (f9, p9) = match get_u64(b, p8) {
        Some(x) => x,
        None => {
            return None;
        },
    };
    proof {
        lemma_join(b@, pos as int, p8 as int, p9 as int);
    }
    let y = Order { id: f0, symbol: f1, order_type: f2, side: f3, price: f4, quantity: f5, filled_quantity: f6, status: f7, created_at: f8, updated_at: f9 };
    Some((y, p9))
}

/// A symbol: its fields in declaration order.
pub open spec fn enc_symbol(symbol: Symbol) -> Seq<u8> {
    enc_str(symbol.name@)
        + enc_str(symbol.base_currency@)
        + enc_str(symbol.quote_currency@)
        + enc_i32(symbol.price_precision)
        + enc_i32(symbol.quantity_precision)
        + enc_u64(symbol.min_price)
        + enc_u64(symbol.max_price)
        + enc_u64(symbol.min_quantity)
        + enc_u64(symbol.max_quantity)
        + enc_tag(symbol_status_tag(symbol.status))
        + enc_u64(symbol.created_at)
        + enc_u64(symbol.updated_at)
}

/// Appends the encoding of a symbol.
pub fn put_symbol(out: &mut Vec<u8>, symbol: &Symbol)
    ensures
        final(out)@ == old(out)@ + enc_symbol(*symbol),
{
    let ghost start = out@;
    put_str(out, &symbol.name);
    let ghost mut e = enc_str(symbol.name@);
    put_str(out, &symbol.base_currency);
    proof {
        vstd::seq_lib::lemma_concat_associative(start, e, enc_str(symbol.base_currency@));
        e = e + enc_str(symbol.base_currency@);
    }
    put_str(out, &symbol.quote_currency);
    proof {
        vstd::seq_lib::lemma_concat_associative(start, e, enc_str(symbol.quote_currency@));
        e = e + enc_str(symbol.quote_currency@);
    }
    put_i32(out, symbol.price_precision);
    proof {
        vstd::seq_lib::lemma_concat_associative(start, e, enc_i32(symbol.price_precision));
        e = e + enc_i32(symbol.price_precision);
    }
    put_i32(out, symbol.quantity_precision);
    proof {
        vstd::seq_lib::lemma_concat_associative(start, e, enc_i32(symbol.quantity_precision));
        e = e + enc_i32(symbol.quantity_precision);
    }
    put_u64(out, symbol.min_price);
    proof {
        vstd::seq_lib::lemma_concat_associative(start, e, enc_u64(symbol.min_price));
        e = e + enc_u64(symbol.min_price);
    }
    put_u64(out, symbol.max_price);
    proof {
        vstd::seq_lib::lemma_concat_associative(start, e, enc_u64(symbol.max_price));
        e = e + enc_u64(symbol.max_price);
    }
    put_u64(out, symbol.min_quantity);
    proof {
        vstd::seq_lib::lemma_concat_associative(start, e, enc_u64(symbol.min_quantity));
        e = e + enc_u64(symbol.min_quantity);
    }
    put_u64(out, symbol.max_quantity);
    proof {
        vstd::seq_lib::lemma_concat_associative(start, e, enc_u64(symbol.max_quantity));
        e = e + enc_u64(symbol.max_quantity);
    }
    put_tag(out, symbol_status_code(symbol.status));
    proof {
        vstd::seq_lib::lemma_concat_associative(start, e, enc_tag(symbol_status_tag(symbol.status)));
        e = e + enc_tag(symbol_status_tag(symbol.status));
    }
    put_u64(out, symbol.created_at);
    proof {
        vstd::seq_lib::lemma_concat_associative(start, e, enc_u64(symbol.created_at));
        e = e + enc_u64(symbol.created_at);
    }
    put_u64(out, symbol.updated_at);
    proof {
        vstd::seq_lib::lemma_concat_associative(start, e, enc_u64(symbol.updated_at));
        e = e + enc_u64(symbol.updated_at);
    }
}

/// Reads the symbol at `pos`; when the encoding of `target` stands there,
/// it is that symbol.
pub fn get_symbol(b: &[u8], pos: usize, target: Ghost<Option<Symbol>>) -> (r: Option<(Symbol, usize)>)
    requires
        target@ matches Some(x) ==> holds_at(b@, pos as int, enc_symbol(x)),
    ensures
        r matches Some((y, p)) ==> pos <= p <= b@.len() && b@.subrange(pos as int, p as int) == enc_symbol(y),
        target@ matches Some(x) ==> (r matches Some((y, p)) && symbol_view_eq(y, x) && p == pos + enc_symbol(x).len()),
{
    proof {
        if let Some(x) = target@ {
            lemma_holds_split(b@, pos as int, (enc_str(x.name@) + enc_str(x.base_currency@) + enc_str(x.quote_currency@) + enc_i32(x.price_precision) + enc_i32(x.quantity_precision) + enc_u64(x.min_price) + enc_u64(x.max_price) + enc_u64(x.min_quantity) + enc_u64(x.max_quantity) + enc_tag(symbol_status_tag(x.status)) + enc_u64(x.created_at)), enc_u64(x.updated_at));
            lemma_holds_split(b@, pos as int, (enc_str(x.name@) + enc_str(x.base_currency@) + enc_str(x.quote_currency@) + enc_i32(x.price_precision) + enc_i32(x.quantity_precision) + enc_u64(x.min_price) + enc_u64(x.max_price) + enc_u64(x.min_quantity) + enc_u64(x.max_quantity) + enc_tag(symbol_status_tag(x.status))), enc_u64(x.created_at));
            lemma_holds_split(b@, pos as int, (enc_str(x.name@) + enc_str(x.base_currency@) + enc_str(x.quote_currency@) + enc_i32(x.price_precision) + enc_i32(x.quantity_precision) + enc_u64(x.min_price) + enc_u64(x.max_price) + enc_u64(x.min_quantity) + enc_u64(x.max_quantity)), enc_tag(symbol_status_tag(x.status)));
            lemma_holds_split(b@, pos as int, (enc_str(x.name@) + enc_str(x.base_currency@) + enc_str(x.quote_currency@) + enc_i32(x.price_precision) + enc_i32(x.quantity_precision) + enc_u64(x.min_price) + enc_u64(x.max_price) + enc_u64(x.min_quantity)), enc_u64(x.max_quantity));
            lemma_holds_split(b@, pos as int, (enc_str(x.name@) + enc_str(x.base_currency@) + enc_str(x.quote_currency@) + enc_i32(x.price_precision) + enc_i32(x.quantity_precision) + enc_u64(x.min_price) + enc_u64(x.max_price)), enc_u64(x.min_quantity));
            lemma_holds_split(b@, pos as int, (enc_str(x.name@) + enc_str(x.base_currency@) + enc_str(x.quote_currency@) + enc_i32(x.price_precision) + enc_i32(x.quantity_precision) + enc_u64(x.min_price)), enc_u64(x.max_price));
            lemma_holds_split(b@, pos as int, (enc_str(x.name@) + enc_str(x.base_currency@) + enc_str(x.quote_currency@) + enc_i32(x.price_precision) + enc_i32(x.quantity_precision)), enc_u64(x.min_price));
            lemma_holds_split(b@, pos as int, (enc_str(x.name@) + enc_str(x.base_currency@) + enc_str(x.quote_currency@) + enc_i32(x.price_precision)), enc_i32(x.quantity_precision));
            lemma_holds_split(b@, pos as int, (enc_str(x.name@) + enc_str(x.base_currency@) + enc_str(x.quote_currency@)), enc_i32(x.price_precision));
            lemma_holds_split(b@, pos as int, (enc_str(x.name@) + enc_str(x.base_currency@)), enc_str(x.quote_currency@));
            lemma_holds_split(b@, pos as int, enc_str(x.name@), enc_str(x.base_currency@));
        }
    }
    proof {
        if let Some(x) = target@ {
            assert(holds_at(b@, pos as int, enc_str(x.name@)));
        }
    }
    let (f0, p0) = match get_str(b, pos, Ghost(match target@ { Some(x) => Some(x.name@), None => None })) {
        Some(x) => x,
        None => {
            return None;
        },
    };
    proof {
        if let Some(x) = target@ {
            assert(holds_at(b@, p0 as int, enc_str(x.base_currency@)));
        }
    }
    let (f1, p1) = match get_str(b, p0, Ghost(match target@ { Some(x) => Some(x.base_currency@), None => None })) {
        Some(x) => x,
        None => {
            return None;
        },
    };
    proof {
        lemma_join(b@, pos as int, p0 as int, p1 as int);
    }
    proof {
        if let Some(x) = target@ {
            assert(holds_at(b@, p1 as int, enc_str(x.quote_currency@)));
        }
    }
    let (f2, p2) = match get_str(b, p1, Ghost(match target@ { Some(x) => Some(x.quote_currency@), None => None })) {
        Some(x) => x,
        None => {
            return None;
        },
    };
    proof {
        lemma_join(b@, pos as int, p1 as int, p2 as int);
    }
    proof {
        if let Some(x) = target@ {
            assert(holds_at(b@, p2 as int, enc_i32(x.price_precision)));
        }
    }
    let (f3, p3) = match get_i32(b, p2) {
        Some(x) => x,
        None => {
            return None;
        },
    };
    proof {
        lemma_join(b@, pos as int, p2 as int, p3 as int);
    }
    proof {
        if let Some(x) = target@ {
            assert(holds_at(b@, p3 as int, enc_i32(x.quantity_precision)));
        }
    }
    let (f4, p4) = match get_i32(b, p3) {
        Some(x) => x,
        None => {
            return None;
        },
    };
    proof {
        lemma_join(b@, pos as int, p3 as int, p4 as int);
    }
    proof {
        if let Some(x) = target@ {
            assert(holds_at(b@, p4 as int, enc_u64(x.min_price)));
        }
    }
    let (f5, p5) = match get_u64(b, p4) {
        Some(x) => x,
        None => {
            return None;
        },
    };
    proof {
        lemma_join(b@, pos as int, p4 as int, p5 as int);
    }
    proof {
        if let Some(x) = target@ {
            assert(holds_at(b@, p5 as int, enc_u64(x.max_price)));
        }
    }
    let (f6, p6) = match get_u64(b, p5) {
        Some(x) => x,
        None => {
            return None;
        },
    };
    proof {
        lemma_join(b@, pos as int, p5 as int, p6 as int);
    }
    proof {
        if let Some(x) = target@ {
            assert(holds_at(b@, p6 as int, enc_u64(x.min_quantity)));
        }
    }
    let (f7, p7) = match get_u64(b, p6) {
        Some(x) => x,
        None => {
            return None;
        },
    };
    proof {
        lemma_join(b@, pos as int, p6 as int, p7 as int);
    }
    proof {
        if let Some(x) = target@ {
            assert(holds_at(b@, p7 as int, enc_u64(x.max_quantity)));
        }
    }
    let (f8, p8) = match get_u64(b, p7) {
        Some(x) => x,
        None => {
            return None;
        },
    };
    proof {
        lemma_join(b@, pos as int, p7 as int, p8 as int);
    }
    proof {
        if let Some(x) = target@ {
            assert(holds_at(b@, p8 as int, enc_tag(symbol_status_tag(x.status))));
        }
    }
    let (t9, p9) = match get_tag(b, p8) {
        Some(x) => x,
        None => {
            return None;
        },
    };
    let f9 = match symbol_status_from(t9) {
        Some(x) => x,
        None => {
            return None;
        },
    };
    proof {
        lemma_join(b@, pos as int, p8 as int, p9 as int);
    }
    proof {
        if let Some(x) = target@ {
            assert(holds_at(b@, p9 as int, enc_u64(x.created_at)));
        }
    }
    let (f10, p10) = match get_u64(b, p9) {
        Some(x) => x,
        None => {
            return None;
        },
    };
    proof {
        lemma_join(b@, pos as int, p9 as int, p10 as int);
    }
    proof {
        if let Some(x) = target@ {
            assert(holds_at(b@, p10 as int, enc_u64(x.updated_at)));
        }
    }
    let (f11, p11) = match get_u64(b, p10) {
        Some(x) => x,
        None => {
            return None;
        },
    };
    proof {
        lemma_join(b@, pos as int, p10 as int, p11 as int);
    }
    let y = Symbol { name: f0, base_currency: f1, quote_currency: f2, price_precision: f3, quantity_precision: f4, min_price: f5, max_price: f6, min_quantity: f7, max_quantity: f8, status: f9, created_at: f10, updated_at: f11 };
    Some((y, p11))
}

/// The orders of a ladder, one after another.
pub open spec fn enc_order_list(s: Seq<Order>) -> Seq<u8>
    decreases s.len(),
{
    if s.len() == 0 {
        Seq::empty()
    } else {
        enc_order_list(s.drop_last()) + enc_order(s.last())
    }
}

/// A ladder: its length, then its orders.
pub open spec fn enc_orders(s: Seq<Order>) -> Seq<u8> {
    enc_u64(s.len() as u64) + enc_order_list(s)
}

/// A book: its symbol, its bids, its asks.
pub open spec fn enc_book(book: OrderBook) -> Seq<u8> {
    enc_str(book.symbol@) + enc_orders(book.bids@) + enc_orders(book.asks@)
}

/// A registry entry: its symbol, then tag 0, or tag 1 and the book.
pub open spec fn enc_entry(e: SymbolEntry) -> Seq<u8> {
    enc_symbol(e.symbol) + match e.matcher {
        None => enc_tag(0),
        Some(m) => enc_tag(1) + enc_book(m.orderbook),
    }
}

/// The entries of a registry, one after another.
pub open spec fn enc_entry_list(s: Seq<SymbolEntry>) -> Seq<u8>
    decreases s.len(),
{
    if s.len() == 0 {
        Seq::empty()
    } else {
        enc_entry_list(s.drop_last()) + enc_entry(s.last())
    }
}

/// A registry: its number of entries, then the entries in order.
pub open spec fn enc_manager(sm: SymbolManager) -> Seq<u8> {
    enc_u64(sm.entries@.len() as u64) + enc_entry_list(sm.entries@)
}

proof fn lemma_order_list_len(xs: Seq<Order>)
    ensures
        enc_order_list(xs).len() >= xs.len(),
    decreases xs.len(),
{
    if xs.len() > 0 {
        lemma_order_list_len(xs.drop_last());
    }
}

proof fn lemma_order_list_prefix(xs: Seq<Order>, k: int)
    requires
        0 <= k <= xs.len(),
    ensures
        enc_order_list(xs.subrange(0, k)).len() <= enc_order_list(xs).len(),
        enc_order_list(xs).subrange(0, enc_order_list(xs.subrange(0, k)).len() as int) == enc_order_list(xs.subrange(0, k)),
    decreases xs.len(),
{
    if k == xs.len() {
        assert(xs.subrange(0, k) =~= xs);
        assert(enc_order_list(xs).subrange(0, enc_order_list(xs).len() as int) =~= enc_order_list(xs));
    } else {
        lemma_order_list_prefix(xs.drop_last(), k);
        assert(xs.drop_last().subrange(0, k) =~= xs.subrange(0, k));
        let a = enc_order_list(xs.drop_last());
        let c = enc_order_list(xs.subrange(0, k));
        assert((a + enc_order(xs.last())).subrange(0, c.len() as int) =~= a.subrange(0, c.len() as int));
    }
}

proof fn lemma_entry_list_len(xs: Seq<SymbolEntry>)
    ensures
        enc_entry_list(xs).len() >= xs.len(),
    decreases xs.len(),
{
    if xs.len() > 0 {
        lemma_entry_list_len(xs.drop_last());
    }
}

proof fn lemma_prefix_append(a: Seq<u8>, c: Seq<u8>, x: Seq<u8>)
    requires
        c.len() <= a.len(),
        a.subrange(0, c.len() as int) == c,
    ensures
        c.len() <= (a + x).len(),
        (a + x).subrange(0, c.len() as int) == c,
{
    assert((a + x).subrange(0, c.len() as int) =~= a.subrange(0, c.len() as int));
}

proof fn lemma_entry_list_prefix(xs: Seq<SymbolEntry>, k: int)
    requires
        0 <= k <= xs.len(),
    ensures
        enc_entry_list(xs.subrange(0, k)).len() <= enc_entry_list(xs).len(),
        enc_entry_list(xs).subrange(0, enc_entry_list(xs.subrange(0, k)).len() as int) == enc_entry_list(xs.subrange(0, k)),
    decreases xs.len(),
{
    if k == xs.len() {
        assert(xs.subrange(0, k) =~= xs);
        assert(enc_entry_list(xs).subrange(0, enc_entry_list(xs).len() as int) =~= enc_entry_list(xs));
    } else {
        lemma_entry_list_prefix(xs.drop_last(), k);
        assert(xs.drop_last().subrange(0, k) =~= xs.subrange(0, k));
        lemma_prefix_append(enc_entry_list(xs.drop_last()), enc_entry_list(xs.subrange(0, k)), enc_entry(xs.last()));
    }
}

/// Appends the encoding of a ladder.
pub fn put_orders(out: &mut Vec<u8>, v: &Vec<Order>)
    ensures
        final(out)@ == old(out)@ + enc_orders(v@),
{
    let n = v.len();
    put_u64(out, n as u64);
    let ghost start = out@;
    let mut i: usize = 0;
    while i < n
        invariant
            n == v@.len(),
            0 <= i <= n,
            out@ == start + enc_order_list(v@.subrange(0, i as int)),
        decreases n - i,
    {
        put_order(out, &v[i]);
        proof {
            let p = v@.subrange(0, i + 1);
            assert(p.drop_last() =~= v@.subrange(0, i as int));
            vstd::seq_lib::lemma_concat_associative(start, enc_order_list(v@.subrange(0, i as int)), enc_order(v@[i as int]));
        }
        i += 1;
    }
    proof {
        assert(v@.subrange(0, n as int) =~= v@);
        vstd::seq_lib::lemma_concat_associative(old(out)@, enc_u64(n as u64), enc_order_list(v@));
    }
}

/// Reads the ladder at `pos`; when the encoding of `target` stands there,
/// it is that ladder.
pub fn get_orders(b: &[u8], pos: usize, target: Ghost<Option<Seq<Order>>>) -> (r: Option<(Vec<Order>, usize)>)
    requires
        target@ matches Some(xs) ==> holds_at(b@, pos as int, enc_orders(xs)),
    ensures
        r matches Some((v, p)) ==> pos <= p <= b@.len() && b@.subrange(pos as int, p as int) == enc_orders(v@),
        target@ matches Some(xs) ==> (r matches Some((v, p)) && ladder_view_eq(v@, xs) && p == pos + enc_orders(xs).len()),
{
    let blen = b.len();
    proof {
        if let Some(xs) = target@ {
            lemma_holds_split(b@, pos as int, enc_u64(xs.len() as u64), enc_order_list(xs));
            lemma_order_list_len(xs);
            assert(xs.len() <= blen);
        }
    }
    let (n, mut p) = match get_u64(b, pos) {
        Some(x) => x,
        None => {
            return None;
        },
    };
    let mut v: Vec<Order> = Vec::new();
    let mut i: u64 = 0;
    while i < n
        invariant
            pos + 8 <= p <= b@.len(),
            b@.subrange(pos as int, pos + 8) == enc_u64(n),
            v@.len() == i,
            0 <= i <= n,
            b@.subrange(pos + 8, p as int) == enc_order_list(v@),
            target@ matches Some(xs) ==> holds_at(b@, pos + 8, enc_order_list(xs)) && n == xs.len()
                && (forall|k: int| 0 <= k < i ==> order_view_eq(#[trigger] v@[k], xs[k]))
                && p == pos + 8 + enc_order_list(xs.subrange(0, i as int)).len(),
        decreases n - i,
    {
        proof {
            if let Some(xs) = target@ {
                lemma_order_list_prefix(xs, i + 1);
                lemma_holds_part(b@, pos + 8, enc_order_list(xs), 0, enc_order_list(xs.subrange(0, i + 1)).len() as int);
                assert(xs.subrange(0, i + 1).drop_last() =~= xs.subrange(0, i as int));
                lemma_holds_split(b@, pos + 8, enc_order_list(xs.subrange(0, i as int)), enc_order(xs[i as int]));
            }
        }
        let (o, q) = match get_order(b, p, Ghost(match target@ { Some(xs) => Some(xs[i as int]), None => None })) {
            Some(x) => x,
            None => {
                return None;
            },
        };
        let ghost v0 = v@;
        v.push(o);
        proof {
            assert(v@.drop_last() =~= v0);
            lemma_join(b@, pos + 8, p as int, q as int);
            if let Some(xs) = target@ {
                assert forall|k: int| 0 <= k < v@.len() implies order_view_eq(#[trigger] v@[k], xs[k]) by {
                    if k < i {
                        assert(v@[k] == v0[k]);
                    }
                }
            }
        }
        p = q;
        i += 1;
    }
    proof {
        lemma_join(b@, pos as int, pos + 8, p as int);
        if let Some(xs) = target@ {
            assert(xs.subrange(0, n as int) =~= xs);
        }
    }
    Some((v, p))
}

/// Appends the encoding of a book.
pub fn put_book(out: &mut Vec<u8>, book: &OrderBook)
    ensures
        final(out)@ == old(out)@ + enc_book(*book),
{
    let ghost start = out@;
    put_str(out, &book.symbol);
    put_orders(out, &book.bids);
    proof {
        vstd::seq_lib::lemma_concat_associative(start, enc_str(book.symbol@), enc_orders(book.bids@));
    }
    put_orders(out, &book.asks);
    proof {
        vstd::seq_lib::lemma_concat_associative(start, enc_str(book.symbol@) + enc_orders(book.bids@), enc_orders(book.asks@));
    }
}

/// Reads the book at `pos`; when the encoding of `target` stands there,
/// it is that book.
pub fn get_book(b: &[u8], pos: usize, target: Ghost<Option<OrderBook>>) -> (r: Option<(OrderBook, usize)>)
    requires
        target@ matches Some(x) ==> holds_at(b@, pos as int, enc_book(x)),
    ensures
        r matches Some((y, p)) ==> pos <= p <= b@.len() && b@.subrange(pos as int, p as int) == enc_book(y),
        target@ matches Some(x) ==> (r matches Some((y, p)) && book_view_eq(y, x) && p == pos + enc_book(x).len()),
{
    proof {
        if let Some(x) = target@ {
            lemma_holds_split(b@, pos as int, enc_str(x.symbol@) + enc_orders(x.bids@), enc_orders(x.asks@));
            lemma_holds_split(b@, pos as int, enc_str(x.symbol@), enc_orders(x.bids@));
        }
    }
    let (symbol, p0) = match get_str(b, pos, Ghost(match target@ { Some(x) => Some(x.symbol@), None => None })) {
        Some(x) => x,
        None => {
            return None;
        },
    };
    let (bids, p1) = match get_orders(b, p0, Ghost(match target@ { Some(x) => Some(x.bids@), None => None })) {
        Some(x) => x,
        None => {
            return None;
        },
    };
    proof {
        lemma_join(b@, pos as int, p0 as int, p1 as int);
    }
    let (asks, p2) = match get_orders(b, p1, Ghost(match target@ { Some(x) => Some(x.asks@), None => None })) {
        Some(x) => x,
        None => {
            return None;
        },
    };
    proof {
        lemma_join(b@, pos as int, p1 as int, p2 as int);
    }
    Some((OrderBook { symbol, bids, asks }, p2))
}

/// Appends the encoding of a registry entry.
pub fn put_entry(out: &mut Vec<u8>, e: &SymbolEntry)
    ensures
        final(out)@ == old(out)@ + enc_entry(*e),
{
    let ghost start = out@;
    put_symbol(out, &e.symbol);
    match &e.matcher {
        None => {
            put_tag(out, 0);
            proof {
                vstd::seq_lib::lemma_concat_associative(start, enc_symbol(e.symbol), enc_tag(0));
            }
        },
        Some(m) => {
            put_tag(out, 1);
            proof {
                vstd::seq_lib::lemma_concat_associative(start, enc_symbol(e.symbol), enc_tag(1));
            }
            put_book(out, &m.orderbook);
            proof {
                vstd::seq_lib::lemma_concat_associative(start, enc_symbol(e.symbol) + enc_tag(1), enc_book(m.orderbook));
                vstd::seq_lib::lemma_concat_associative(enc_symbol(e.symbol), enc_tag(1), enc_book(m.orderbook));
            }
        },
    }
}

/// Reads the registry entry at `pos`; when the encoding of `target` stands
/// there, it is that entry.
pub fn get_entry(b: &[u8], pos: usize, target: Ghost<Option<SymbolEntry>>) -> (r: Option<(SymbolEntry, usize)>)
    requires
        target@ matches Some(x) ==> holds_at(b@, pos as int, enc_entry(x)),
    ensures
        r matches Some((y, p)) ==> pos <= p <= b@.len() && b@.subrange(pos as int, p as int) == enc_entry(y),
        target@ matches Some(x) ==> (r matches Some((y, p)) && entry_view_eq(y, x) && p == pos + enc_entry(x).len()),
{
    proof {
        if let Some(x) = target@ {
            match x.matcher {
                None => {
                    lemma_holds_split(b@, pos as int, enc_symbol(x.symbol), enc_tag(0));
                },
                Some(m) => {
                    lemma_holds_split(b@, pos as int, enc_symbol(x.symbol), enc_tag(1) + enc_book(m.orderbook));
                    lemma_holds_split(b@, pos + enc_symbol(x.symbol).len(), enc_tag(1), enc_book(m.orderbook));
                },
            }
        }
    }
    let (symbol, p0) = match get_symbol(b, pos, Ghost(match target@ { Some(x) => Some(x.symbol), None => None })) {
        Some(x) => x,
        None => {
            return None;
        },
    };
    let (t, p1) = match get_tag(b, p0) {
        Some(x) => x,
        None => {
            return None;
        },
    };
    proof {
        lemma_join(b@, pos as int, p0 as int, p1 as int);
    }
    if t == 0 {
        Some((SymbolEntry { symbol, matcher: None }, p1))
    } else if t == 1 {
        let (book, p2) = match get_book(b, p1, Ghost(match target@ {
            Some(x) => match x.matcher {
                Some(m) => Some(m.orderbook),
                None => None,
            },
            None => None,
        })) {
            Some(x) => x,
            None => {
                return None;
            },
        };
        proof {
            lemma_join(b@, pos as int, p1 as int, p2 as int);
            vstd::seq_lib::lemma_concat_associative(enc_symbol(symbol), enc_tag(1), enc_book(book));
        }
        Some((SymbolEntry { symbol, matcher: Some(Matcher { orderbook: book }) }, p2))
    } else {
        None
    }
}

/// Appends the encoding of a registry.
pub fn put_manager(out: &mut Vec<u8>, sm: &SymbolManager)
    ensures
        final(out)@ == old(out)@ + enc_manager(*sm),
{
    let n = sm.entries.len();
    put_u64(out, n as u64);
    let ghost start = out@;
    let mut i: usize = 0;
    while i < n
        invariant
            n == sm.entries@.len(),
            0 <= i <= n,
            out@ == start + enc_entry_list(sm.entries@.subrange(0, i as int)),
        decreases n - i,
    {
        put_entry(out, &sm.entries[i]);
        proof {
            let p = sm.entries@.subrange(0, i + 1);
            assert(p.drop_last() =~= sm.entries@.subrange(0, i as int));
            vstd::seq_lib::lemma_concat_associative(start, enc_entry_list(sm.entries@.subrange(0, i as int)),
                enc_entry(sm.entries@[i as int]));
        }
        i += 1;
    }
    proof {
        assert(sm.entries@.subrange(0, n as int) =~= sm.entries@);
        vstd::seq_lib::lemma_concat_associative(old(out)@, enc_u64(n as u64), enc_entry_list(sm.entries@));
    }
}

/// Reads the registry at `pos` (not yet checked for well-formedness); when
/// the encoding of `target` stands there, it is that registry.
#[verifier::rlimit(50)]
pub fn get_manager(b: &[u8], pos: usize, target: Ghost<Option<SymbolManager>>) -> (r: Option<(SymbolManager, usize)>)
    requires
        target@ matches Some(x) ==> holds_at(b@, pos as int, enc_manager(x)),
    ensures
        r matches Some((y, p)) ==> pos <= p <= b@.len() && b@.subrange(pos as int, p as int) == enc_manager(y),
        target@ matches Some(x) ==> (r matches Some((y, p)) && manager_view_eq(y, x) && p == pos + enc_manager(x).len()),
{
    let blen = b.len();
    proof {
        if let Some(x) = target@ {
            lemma_holds_split(b@, pos as int, enc_u64(x.entries@.len() as u64), enc_entry_list(x.entries@));
            lemma_entry_list_len(x.entries@);
            assert(x.entries@.len() <= blen);
        }
    }
    let (n, mut p) = match get_u64(b, pos) {
        Some(x) => x,
        None => {
            return None;
        },
    };
    let mut v: Vec<SymbolEntry> = Vec::new();
    let mut i: u64 = 0;
    while i < n
        invariant
            pos + 8 <= p <= b@.len(),
            b@.subrange(pos as int, pos + 8) == enc_u64(n),
            v@.len() == i,
            0 <= i <= n,
            b@.subrange(pos + 8, p as int) == enc_entry_list(v@),
            target@ matches Some(x) ==> holds_at(b@, pos + 8, enc_entry_list(x.entries@)) && n == x.entries@.len()
                && v@.len() == i
                && (forall|k: int| 0 <= k < i ==> entry_view_eq(#[trigger] v@[k], x.entries@[k]))
                && p == pos + 8 + enc_entry_list(x.entries@.subrange(0, i as int)).len(),
        decreases n - i,
    {
        proof {
            if let Some(x) = target@ {
                let xs = x.entries@;
                lemma_entry_list_prefix(xs, i + 1);
                lemma_holds_part(b@, pos + 8, enc_entry_list(xs), 0, enc_entry_list(xs.subrange(0, i + 1)).len() as int);
                assert(xs.subrange(0, i + 1).drop_last() =~= xs.subrange(0, i as int));
                lemma_holds_split(b@, pos + 8, enc_entry_list(xs.subrange(0, i as int)), enc_entry(xs[i as int]));
            }
        }
        let (e, q) = match get_entry(b, p, Ghost(match target@ { Some(x) => Some(x.entries@[i as int]), None => None })) {
            Some(x) => x,
            None => {
                return None;
            },
        };
        let ghost v0 = v@;
        v.push(e);
        proof {
            assert(v@.drop_last() =~= v0);
            lemma_join(b@, pos + 8, p as int, q as int);
            if let Some(x) = target@ {
                assert forall|k: int| 0 <= k < v@.len() implies entry_view_eq(#[trigger] v@[k], x.entries@[k]) by {
                    if k < i {
                        assert(v@[k] == v0[k]);
                    }
                }
            }
        }
        p = q;
        i += 1;
    }
    proof {
        lemma_join(b@, pos as int, pos + 8, p as int);
        if let Some(x) = target@ {
            assert(x.entries@.subrange(0, n as int) =~= x.entries@);
        }
    }
    Some((SymbolManager { entries: v }, p))
}

} // verus!
