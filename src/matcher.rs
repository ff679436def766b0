//! Price-time priority matching against one order book.
use vstd::prelude::*;
use crate::order::{Order, OrderSide, OrderStatus, OrderType, Trade};
use crate::orderbook::{insert_point, OrderBook, at_least_as_good, ladder_has, ladder_total, ladder_wf, lemma_total_update, ranks_at_least};

verus! {

/// The lower-case hex digit of `d` (below 16).
pub open spec fn hex_char(d: u64) -> char {
    if d == 0 {
        '0'
    } else if d == 1 {
        '1'
    } else if d == 2 {
        '2'
    } else if d == 3 {
        '3'
    } else if d == 4 {
        '4'
    } else if d == 5 {
        '5'
    } else if d == 6 {
        '6'
    } else if d == 7 {
        '7'
    } else if d == 8 {
        '8'
    } else if d == 9 {
        '9'
    } else if d == 10 {
        'a'
    } else if d == 11 {
        'b'
    } else if d == 12 {
        'c'
    } else if d == 13 {
        'd'
    } else if d == 14 {
        'e'
    } else {
        'f'
    }
}

/// Hex digit `k` (0 to 31, most significant first) of the 128-bit value
/// `hi * 2^64 + lo`.
pub open spec fn id_nibble(hi: u64, lo: u64, k: int) -> u64 {
    if k < 16 {
        (hi >> ((4 * (15 - k)) as u64)) & 0xf
    } else {
        (lo >> ((4 * (31 - k)) as u64)) & 0xf
    }
}

/// Whether position `j` of a hyphenated id holds a hyphen (8-4-4-4-12).
pub open spec fn hyphen_at(j: int) -> bool {
    j == 8 || j == 13 || j == 18 || j == 23
}

/// The hex digit that position `j` of a hyphenated id shows.
pub open spec fn digit_at(j: int) -> int {
    if j < 8 {
        j
    } else if j < 13 {
        j - 1
    } else if j < 18 {
        j - 2
    } else if j < 23 {
        j - 3
    } else {
        j - 4
    }
}

/// The trade id of sequence number `seq` at log index `index`: the 128-bit
/// value `index * 2^64 + seq` as 32 lower-case hex digits, hyphenated 8-4-4-4-12.
pub open spec fn trade_id_text(index: u64, seq: u64) -> Seq<char> {
    Seq::new(36, |j: int| if hyphen_at(j) { '-' } else { hex_char(id_nibble(index, seq, digit_at(j))) })
}

/// Relies on `uuid::Uuid::from_u64_pair` (the value `high * 2^64 + low`)
/// and the `Display` of `Uuid` (hyphenated lower-case hex).
#[verifier::external_body]
fn trade_id(index: u64, seq: u64) -> (r: String)
    ensures
        r@ == trade_id_text(index, seq),
{
    uuid::Uuid::from_u64_pair(index, seq).to_string()
}

proof fn lemma_hex_char_injective(x: u64, y: u64)
    requires
        x <= 15,
        y <= 15,
        hex_char(x) == hex_char(y),
    ensures
        x == y,
{
    assert(hex_char(x) as u32 == hex_char(y) as u32);
}

proof fn lemma_nibble_eq(i1: u64, s1: u64, i2: u64, s2: u64, k: int)
    requires
        trade_id_text(i1, s1) == trade_id_text(i2, s2),
        0 <= k < 32,
    ensures
        id_nibble(i1, s1, k) == id_nibble(i2, s2, k),
{
    let j = if k < 8 { k } else if k < 12 { k + 1 } else if k < 16 { k + 2 } else if k < 20 { k + 3 } else { k + 4 };
    assert(!hyphen_at(j) && digit_at(j) == k);
    assert(0 <= j < 36);
    assert(trade_id_text(i1, s1)[j] == hex_char(id_nibble(i1, s1, digit_at(j))));
    assert(trade_id_text(i2, s2)[j] == hex_char(id_nibble(i2, s2, digit_at(j))));
    assert(hex_char(id_nibble(i1, s1, k)) == hex_char(id_nibble(i2, s2, k)));
    let a = if k < 16 { i1 } else { s1 };
    let b = if k < 16 { i2 } else { s2 };
    let sh = if k < 16 { (4 * (15 - k)) as u64 } else { (4 * (31 - k)) as u64 };
    assert((a >> sh) & 0xf <= 15 && (b >> sh) & 0xf <= 15) by (bit_vector);
    assert(id_nibble(i1, s1, k) == (a >> sh) & 0xf);
    assert(id_nibble(i2, s2, k) == (b >> sh) & 0xf);
    lemma_hex_char_injective(id_nibble(i1, s1, k), id_nibble(i2, s2, k));
}

/// Hex digit `k` (0 to 15, most significant first) of a 64-bit word.
pub open spec fn nib(x: u64, k: int) -> u64 {
    (x >> ((4 * (15 - k)) as u64)) & 0xf
}

/// A word is determined by its 16 hex digits.
proof fn lemma_u64_from_nibbles(a: u64, b: u64)
    requires
        forall|k: int| 0 <= k < 16 ==> #[trigger] nib(a, k) == nib(b, k),
    ensures
        a == b,
{
    assert(nib(a, 0) == nib(b, 0));
    assert(nib(a, 1) == nib(b, 1));
    assert(nib(a, 2) == nib(b, 2));
    assert(nib(a, 3) == nib(b, 3));
    assert(nib(a, 4) == nib(b, 4));
    assert(nib(a, 5) == nib(b, 5));
    assert(nib(a, 6) == nib(b, 6));
    assert(nib(a, 7) == nib(b, 7));
    assert(nib(a, 8) == nib(b, 8));
    assert(nib(a, 9) == nib(b, 9));
    assert(nib(a, 10) == nib(b, 10));
    assert(nib(a, 11) == nib(b, 11));
    assert(nib(a, 12) == nib(b, 12));
    assert(nib(a, 13) == nib(b, 13));
    assert(nib(a, 14) == nib(b, 14));
    assert(nib(a, 15) == nib(b, 15));
    assert(a == b) by (bit_vector)
        requires
            (a >> 60u64) & 0xf == (b >> 60u64) & 0xf,
            (a >> 56u64) & 0xf == (b >> 56u64) & 0xf,
            (a >> 52u64) & 0xf == (b >> 52u64) & 0xf,
            (a >> 48u64) & 0xf == (b >> 48u64) & 0xf,
            (a >> 44u64) & 0xf == (b >> 44u64) & 0xf,
            (a >> 40u64) & 0xf == (b >> 40u64) & 0xf,
            (a >> 36u64) & 0xf == (b >> 36u64) & 0xf,
            (a >> 32u64) & 0xf == (b >> 32u64) & 0xf,
            (a >> 28u64) & 0xf == (b >> 28u64) & 0xf,
            (a >> 24u64) & 0xf == (b >> 24u64) & 0xf,
            (a >> 20u64) & 0xf == (b >> 20u64) & 0xf,
            (a >> 16u64) & 0xf == (b >> 16u64) & 0xf,
            (a >> 12u64) & 0xf == (b >> 12u64) & 0xf,
            (a >> 8u64) & 0xf == (b >> 8u64) & 0xf,
            (a >> 4u64) & 0xf == (b >> 4u64) & 0xf,
            (a >> 0u64) & 0xf == (b >> 0u64) & 0xf,
    ;
}

/// Distinct (log index, sequence number) pairs give distinct trade ids.
pub proof fn lemma_trade_ids_distinct(i1: u64, s1: u64, i2: u64, s2: u64)
    requires
        trade_id_text(i1, s1) == trade_id_text(i2, s2),
    ensures
        i1 == i2 && s1 == s2,
{
    assert forall|k: int| 0 <= k < 16 implies #[trigger] nib(i1, k) == nib(i2, k) by {
        lemma_nibble_eq(i1, s1, i2, s2, k);
    }
    assert forall|k: int| 0 <= k < 16 implies #[trigger] nib(s1, k) == nib(s2, k) by {
        lemma_nibble_eq(i1, s1, i2, s2, k + 16);
    }
    lemma_u64_from_nibbles(i1, i2);
    lemma_u64_from_nibbles(s1, s2);
}

/// The side whose ladder a taker of `side` trades against.
pub open spec fn opposite(side: OrderSide) -> OrderSide {
    match side {
        OrderSide::Buy => OrderSide::Sell,
        OrderSide::Sell => OrderSide::Buy,
    }
}

/// Whether a resting price on `ladder_side` is acceptable under `limit`
/// (no limit: any price).
pub open spec fn accepts(ladder_side: OrderSide, limit: Option<u64>, price: u64) -> bool {
    match limit {
        None => true,
        Some(p) => at_least_as_good(ladder_side, price, p),
    }
}

/// Sum of the traded quantities.
pub open spec fn traded(t: Seq<Trade>) -> int
    decreases t.len(),
{
    if t.len() == 0 {
        0
    } else {
        traded(t.drop_last()) + t.last().quantity
    }
}

/// `b` is `a` with possibly more filled, a new status and update time.
pub open spec fn same_order(a: Order, b: Order) -> bool {
    &&& a.id == b.id
    &&& a.symbol == b.symbol
    &&& a.order_type == b.order_type
    &&& a.side == b.side
    &&& a.price == b.price
    &&& a.quantity == b.quantity
    &&& a.created_at == b.created_at
}

/// Status of an order that took part in at least one trade, starting
/// from `prior`: filled and cancelled stay as they are.
pub open spec fn traded_status(prior: OrderStatus, o: Order) -> OrderStatus {
    if prior == OrderStatus::Filled || prior == OrderStatus::Canceled {
        prior
    } else if o.filled_quantity >= o.quantity {
        OrderStatus::Filled
    } else {
        OrderStatus::PartiallyFilled
    }
}

/// Trade `k` of a crossing: `taker` against the maker `m` for `q`.
pub open spec fn trade_record(t: Trade, taker: Order, m: Order, index: u64, k: int) -> bool {
    &&& t.id@ == trade_id_text(index, k as u64)
    &&& t.symbol == taker.symbol
    &&& t.price == m.price
    &&& t.quantity > 0
    &&& t.created_at == index
    &&& taker.side == OrderSide::Buy ==> t.buyer_order_id == taker.id && t.seller_order_id == m.id
    &&& taker.side == OrderSide::Sell ==> t.buyer_order_id == m.id && t.seller_order_id == taker.id
}

/// What crossing `t0` against ladder `l0` under `limit` produces: taker
/// `t1`, ladder `l1` and the trades `tr`, in the order the makers rest.
/// Each trade but the last fills its maker; the last fills its maker or the
/// taker; matching stops when the taker is filled, the ladder is empty, or
/// its best price is not acceptable.
pub open spec fn crossing(
    l0: Seq<Order>,
    l1: Seq<Order>,
    t0: Order,
    t1: Order,
    limit: Option<u64>,
    index: u64,
    tr: Seq<Trade>,
) -> bool {
    let n = tr.len() as int;
    &&& n <= l0.len()
    &&& forall|k: int| 0 <= k < n ==> trade_record(#[trigger] tr[k], t0, l0[k], index, k)
    &&& forall|k: int| 0 <= k < n ==> accepts(opposite(t0.side), limit, (#[trigger] l0[k]).price)
    &&& forall|k: int| 0 <= k < n - 1 ==> (#[trigger] tr[k]).quantity == l0[k].remaining()
    &&& n > 0 ==> tr[n - 1].quantity == if t0.remaining() - traded(tr.drop_last()) < l0[n - 1].remaining() {
        t0.remaining() - traded(tr.drop_last())
    } else {
        l0[n - 1].remaining()
    }
    &&& same_order(t0, t1)
    &&& t1.filled_quantity <= t1.quantity
    &&& t1.filled_quantity == t0.filled_quantity + traded(tr)
    &&& t1.status == if n > 0 { traded_status(t0.status, t1) } else { t0.status }
    &&& t1.updated_at == if n > 0 { index } else { t0.updated_at }
    &&& if n > 0 && tr[n - 1].quantity < l0[n - 1].remaining() {
        let m = l1[0];
        &&& l1.len() == l0.len() - n + 1
        &&& l1.skip(1) == l0.skip(n)
        &&& same_order(l0[n - 1], m)
        &&& m.filled_quantity == l0[n - 1].filled_quantity + tr[n - 1].quantity
        &&& m.status == traded_status(l0[n - 1].status, m)
        &&& m.updated_at == index
    } else {
        l1 == l0.skip(n)
    }
    &&& t1.filled_quantity >= t1.quantity || l1.len() == 0
        || !accepts(opposite(t0.side), limit, l1[0].price)
}

proof fn lemma_skip_wf(s: Seq<Order>, side: OrderSide, m: int)
    requires
        ladder_wf(s, side),
        0 <= m <= s.len(),
    ensures
        ladder_wf(s.skip(m), side),
        forall|id: Seq<char>| ladder_has(s.skip(m), id) ==> ladder_has(s, id),
{
    let t = s.skip(m);
    assert forall|i: int, j: int| 0 <= i < j < t.len() implies #[trigger] at_least_as_good(side, t[i].price, t[j].price) by {
        assert(at_least_as_good(side, s[i + m].price, s[j + m].price));
    }
    assert forall|i: int, j: int| 0 <= i < j < t.len() implies (#[trigger] t[i]).id@ != (#[trigger] t[j]).id@ by {
        assert(s[i + m].id@ != s[j + m].id@);
    }
    assert forall|i: int| 0 <= i < t.len() implies (#[trigger] t[i]).side == side && t[i].filled_quantity < t[i].quantity by {
        assert(t[i] == s[i + m]);
    }
    assert forall|id: Seq<char>| ladder_has(t, id) implies ladder_has(s, id) by {
        let i = choose|i: int| 0 <= i < t.len() && (#[trigger] t[i]).id@ == id;
        assert(s[i + m].id@ == id);
    }
}

proof fn lemma_traded_push(t: Seq<Trade>, x: Trade)
    ensures
        traded(t.push(x)) == traded(t) + x.quantity,
{
    assert(t.push(x).drop_last() =~= t);
}

proof fn lemma_total_skip(s: Seq<Order>, m: int)
    requires
        0 <= m < s.len(),
    ensures
        ladder_total(s.skip(m)) == s[m].remaining() + ladder_total(s.skip(m + 1)),
{
    assert(s.skip(m).skip(1) =~= s.skip(m + 1));
}

/// Crosses `taker` against the head of `ladder` (the side opposite the
/// taker), best price first and in arrival order within a price.
fn fill_from(
    ladder: &mut Vec<Order>,
    taker: &mut Order,
    limit: Option<u64>,
    index: u64,
) -> (trades: Vec<Trade>)
    requires
        ladder_wf(old(ladder)@, opposite(old(taker).side)),
        old(taker).wf(),
    ensures
        crossing(old(ladder)@, final(ladder)@, *old(taker), *final(taker), limit, index, trades@),
        ladder_wf(final(ladder)@, opposite(old(taker).side)),
        forall|id: Seq<char>| ladder_has(final(ladder)@, id) ==> ladder_has(old(ladder)@, id),
        ladder_total(final(ladder)@) + traded(trades@) == ladder_total(old(ladder)@),
        final(taker).wf(),
{
    let ghost l0 = ladder@;
    let ghost t0 = *taker;
    let ghost side = opposite(t0.side);
    let mut trades: Vec<Trade> = Vec::new();
    let mut done = false;
    proof {
        assert(l0.skip(0) =~= l0);
    }
    while !done
        invariant
            ladder_wf(l0, side),
            t0.wf(),
            side == opposite(t0.side),
            taker.wf(),
            ladder_wf(ladder@, side),
            forall|id: Seq<char>| ladder_has(ladder@, id) ==> ladder_has(l0, id),
            ladder_total(ladder@) + traded(trades@) == ladder_total(l0),
            same_order(t0, *taker),
            taker.filled_quantity == t0.filled_quantity + traded(trades@),
            taker.status == if trades@.len() > 0 { traded_status(t0.status, *taker) } else { t0.status },
            taker.updated_at == if trades@.len() > 0 { index } else { t0.updated_at },
            trades@.len() <= l0.len(),
            forall|k: int| 0 <= k < trades@.len() ==> trade_record(#[trigger] trades@[k], t0, l0[k], index, k),
            forall|k: int| 0 <= k < trades@.len() ==> accepts(side, limit, (#[trigger] l0[k]).price),
            !done ==> ladder@ == l0.skip(trades@.len() as int),
            !done ==> forall|k: int| 0 <= k < trades@.len() ==> (#[trigger] trades@[k]).quantity == l0[k].remaining(),
            done ==> crossing(l0, ladder@, t0, *taker, limit, index, trades@),
        decreases l0.len() - trades@.len() + (if done { 0int } else { 1int }),
    {
        let ghost n = trades@.len() as int;
        if taker.filled_quantity >= taker.quantity || ladder.len() == 0 {
            done = true;
        } else {
            let head_price = ladder[0].price;
            let ok = match limit {
                None => true,
                Some(p) => ranks_at_least(side_of(taker.side), head_price, p),
            };
            if !ok {
                done = true;
            } else {
                proof {
                    assert(ladder@[0] == l0[n]);
                    lemma_total_skip(l0, n);
                }
                let mut maker = ladder.remove(0);
                let want = taker.quantity - taker.filled_quantity;
                let have = maker.quantity - maker.filled_quantity;
                let q = if want < have { want } else { have };
                let (buyer, seller) = match taker.side {
                    OrderSide::Buy => (taker.id.clone(), maker.id.clone()),
                    OrderSide::Sell => (maker.id.clone(), taker.id.clone()),
                };
                let seq = trades.len() as u64;
                let trade = Trade::new(trade_id(index, seq), taker.symbol.clone(), maker.price, q, buyer, seller, index);
                let ghost before = trades@;
                trades.push(trade);
                proof {
                    lemma_traded_push(before, trade);
                    assert(trades@.drop_last() =~= before);
                    assert(trade_record(trades@[n], t0, l0[n], index, n));
                }
                taker.filled_quantity = taker.filled_quantity + q;
                taker.update_status(index);
                if want < have {
                    maker.filled_quantity = maker.filled_quantity + q;
                    maker.update_status(index);
                    ladder.insert(0, maker);
                    done = true;
                    proof {
                        let l1 = ladder@;
                        assert(l1.skip(1) =~= l0.skip(n + 1));
                        assert(same_order(l0[n], l1[0]));
                        lemma_partial_head(l0, side, n, l1);
                        assert(l1.len() == l0.len() - n);
                        assert(crossing(l0, l1, t0, *taker, limit, index, trades@));
                    }
                } else {
                    proof {
                        lemma_skip_wf(l0, side, n + 1);
                        assert(ladder@ =~= l0.skip(n + 1));
                    }
                }
            }
        }
    }
    trades
}

/// Replacing the head of `l0.skip(n)` by the same order, filled further but
/// not completely, keeps the ladder well formed.
proof fn lemma_partial_head(l0: Seq<Order>, side: OrderSide, n: int, l1: Seq<Order>)
    requires
        ladder_wf(l0, side),
        0 <= n < l0.len(),
        l1.len() == l0.len() - n,
        l1.skip(1) == l0.skip(n + 1),
        same_order(l0[n], l1[0]),
        l1[0].filled_quantity < l1[0].quantity,
    ensures
        ladder_wf(l1, side),
        forall|id: Seq<char>| ladder_has(l1, id) ==> ladder_has(l0, id),
        ladder_total(l1) == ladder_total(l0.skip(n)) - l0[n].remaining() + l1[0].remaining(),
{
    lemma_skip_wf(l0, side, n);
    assert forall|i: int| 1 <= i < l1.len() implies #[trigger] l1[i] == l0[i + n] by {
        assert(l1[i] == l1.skip(1)[i - 1]);
    }
    lemma_total_update(l0.skip(n), 0, l1[0]);
    assert(l0.skip(n).update(0, l1[0]) =~= l1);
    assert forall|i: int, j: int| 0 <= i < j < l1.len()
        implies #[trigger] at_least_as_good(side, l1[i].price, l1[j].price) by {
        assert(at_least_as_good(side, l0[i + n].price, l0[j + n].price));
    }
    assert forall|i: int, j: int| 0 <= i < j < l1.len()
        implies (#[trigger] l1[i]).id@ != (#[trigger] l1[j]).id@ by {
        assert(l0[i + n].id@ != l0[j + n].id@);
    }
    assert forall|i: int| 0 <= i < l1.len()
        implies (#[trigger] l1[i]).side == side && l1[i].filled_quantity < l1[i].quantity by {
        if i > 0 {
            assert(l1[i] == l0[i + n]);
        }
    }
    assert forall|id: Seq<char>| ladder_has(l1, id) implies ladder_has(l0, id) by {
        let i = choose|i: int| 0 <= i < l1.len() && (#[trigger] l1[i]).id@ == id;
        assert(l0[i + n].id@ == id);
    }
}

/// The price bound a taker matches under: its own price if it is a limit
/// order, none for a market order.
pub open spec fn limit_of(o: Order) -> Option<u64> {
    match o.order_type {
        OrderType::Limit => Some(o.price),
        OrderType::Market => None,
    }
}

/// Quantity of a taker that neither trades nor rests: the unfilled rest of
/// a market order.
pub open spec fn discarded(o: Order, traded_qty: int) -> int {
    match o.order_type {
        OrderType::Market => o.remaining() - traded_qty,
        OrderType::Limit => 0,
    }
}

/// What placing `order` at log index `index` does to matcher `m0`, giving
/// `m1` and `trades`: the order crosses the opposite ladder (see
/// `crossing`); a limit remainder rests behind every order at an equal or
/// better price; every trade has a positive quantity at its maker's price;
/// and quantity is accounted for: what rested before plus the order equals
/// what rests after, plus both legs of every trade, plus a discarded market
/// remainder.
pub open spec fn placed(m0: Matcher, m1: Matcher, order: Order, index: u64, trades: Seq<Trade>) -> bool {
    &&& m1.wf()
    &&& m1.orderbook.symbol == m0.orderbook.symbol
    &&& exists|t1: Order| #![trigger same_order(order, t1)]
        same_order(order, t1) && crossing(
            m0.orderbook.side(opposite(order.side)),
            m1.orderbook.side(opposite(order.side)),
            order,
            t1,
            limit_of(order),
            index,
            trades,
        ) && if order.order_type == OrderType::Limit && t1.filled_quantity < t1.quantity {
            exists|k: int|
                insert_point(m0.orderbook.side(order.side), order.side, order.price, k)
                    && m1.orderbook.side(order.side) == m0.orderbook.side(order.side).insert(k, t1)
        } else {
            m1.orderbook.side(order.side) == m0.orderbook.side(order.side)
        }
    &&& forall|k: int| 0 <= k < trades.len() ==> (#[trigger] trades[k]).quantity > 0
        && trades[k].price == m0.orderbook.side(opposite(order.side))[k].price
    &&& m1.orderbook.total_remaining() + 2 * traded(trades) + discarded(order, traded(trades))
        == m0.orderbook.total_remaining() + order.remaining()
}

/// What cancelling `order_id` does to matcher `m0`, giving `m1` and `r`:
/// the order leaves its ladder and is returned, or, when no such order
/// rests, nothing changes.
pub open spec fn cancelled(m0: Matcher, m1: Matcher, order_id: Seq<char>, r: Option<Order>) -> bool {
    &&& m1.wf()
    &&& m1.orderbook.symbol == m0.orderbook.symbol
    &&& r.is_none() <==> !m0.orderbook.contains_id(order_id)
    &&& r.is_none() ==> m1.orderbook.bids@ == m0.orderbook.bids@ && m1.orderbook.asks@ == m0.orderbook.asks@
    &&& r matches Some(o) ==> o.id@ == order_id && exists|k: int|
        0 <= k < m0.orderbook.side(o.side).len() && m0.orderbook.side(o.side)[k] == o
            && m1.orderbook.side(o.side) == m0.orderbook.side(o.side).remove(k)
    &&& r matches Some(o) ==> o.side == OrderSide::Buy ==> m1.orderbook.asks@ == m0.orderbook.asks@
    &&& r matches Some(o) ==> o.side == OrderSide::Sell ==> m1.orderbook.bids@ == m0.orderbook.bids@
}

/// The matching engine of one symbol: its book and the matching rules.
#[derive(Debug)]
pub struct Matcher {
    pub orderbook: OrderBook,
}

impl Matcher {
    pub open spec fn wf(&self) -> bool {
        self.orderbook.wf()
    }

    /// A matcher over an empty book.
    pub fn new(symbol: String) -> (r: Matcher)
        ensures
            r.wf(),
            r.orderbook.symbol == symbol,
            r.orderbook.bids@.len() == 0,
            r.orderbook.asks@.len() == 0,
    {
        Matcher { orderbook: OrderBook::new(symbol) }
    }

    /// Matches `order` against the opposite side, best price first and in
    /// arrival order within a price; a limit order only at prices that
    /// reach its own. An unfilled limit remainder then rests in the book; an
    /// unfilled market remainder is discarded. `index` is the applying log
    /// index: it stamps the trades and names them. An order whose id already
    /// rests in the book is not placed: ids name one order each.
    pub fn place_order(&mut self, order: Order, index: u64) -> (trades: Vec<Trade>)
        requires
            old(self).wf(),
            order.wf(),
        ensures
            final(self).wf(),
            !old(self).orderbook.contains_id(order.id@) ==> placed(*old(self), *final(self), order, index, trades@),
            old(self).orderbook.contains_id(order.id@) ==> trades@.len() == 0 && *final(self) == *old(self),
    {
        if self.orderbook.get_order(order.id.as_str()).is_some() {
            return Vec::new();
        }
        let mut order = order;
        let ghost t0 = order;
        let trades = match order.order_type {
            OrderType::Market => self.match_market_order(&mut order, index),
            OrderType::Limit => self.match_limit_order(&mut order, index),
        };
        let ghost mid = self.orderbook;
        proof {
            assert(forall|k: int| 0 <= k < trades@.len() ==> trade_record(#[trigger] trades@[k], t0, old(self).orderbook.side(opposite(t0.side))[k], index, k));
        }
        if !order.is_filled() {
            match order.order_type {
                OrderType::Limit => {
                    proof {
                        assert(!ladder_has(mid.side(order.side), order.id@));
                    }
                    self.orderbook.add_order(order);
                },
                OrderType::Market => {},
            }
        }
        trades
    }

    /// Cancels the resting order with this id.
    pub fn cancel_order(&mut self, order_id: &str) -> (r: Option<Order>)
        requires
            old(self).wf(),
        ensures
            cancelled(*old(self), *final(self), order_id@, r),
    {
        self.orderbook.remove_order(order_id)
    }

    /// Matches `order` at any price on the opposite side.
    fn match_market_order(&mut self, order: &mut Order, index: u64) -> (trades: Vec<Trade>)
        requires
            old(self).wf(),
            old(order).wf(),
            !old(self).orderbook.contains_id(old(order).id@),
        ensures
            final(order).wf(),
            final(self).wf(),
            !final(self).orderbook.contains_id(old(order).id@),
            final(self).orderbook.symbol == old(self).orderbook.symbol,
            final(self).orderbook.side(old(order).side) == old(self).orderbook.side(old(order).side),
            crossing(
                old(self).orderbook.side(opposite(old(order).side)),
                final(self).orderbook.side(opposite(old(order).side)),
                *old(order),
                *final(order),
                None,
                index,
                trades@,
            ),
            ladder_total(final(self).orderbook.side(opposite(old(order).side))) + traded(trades@)
                == ladder_total(old(self).orderbook.side(opposite(old(order).side))),
    {
        self.fill_opposite(order, None, index)
    }

    /// Matches `order` only at prices that reach its own.
    fn match_limit_order(&mut self, order: &mut Order, index: u64) -> (trades: Vec<Trade>)
        requires
            old(self).wf(),
            old(order).wf(),
            !old(self).orderbook.contains_id(old(order).id@),
        ensures
            final(order).wf(),
            final(self).wf(),
            !final(self).orderbook.contains_id(old(order).id@),
            final(self).orderbook.symbol == old(self).orderbook.symbol,
            final(self).orderbook.side(old(order).side) == old(self).orderbook.side(old(order).side),
            crossing(
                old(self).orderbook.side(opposite(old(order).side)),
                final(self).orderbook.side(opposite(old(order).side)),
                *old(order),
                *final(order),
                Some(old(order).price),
                index,
                trades@,
            ),
            ladder_total(final(self).orderbook.side(opposite(old(order).side))) + traded(trades@)
                == ladder_total(old(self).orderbook.side(opposite(old(order).side))),
    {
        let limit = order.price;
        self.fill_opposite(order, Some(limit), index)
    }

    /// Runs `fill_from` on the ladder opposite the taker.
    fn fill_opposite(&mut self, order: &mut Order, limit: Option<u64>, index: u64) -> (trades: Vec<Trade>)
        requires
            old(self).wf(),
            old(order).wf(),
            !old(self).orderbook.contains_id(old(order).id@),
        ensures
            final(order).wf(),
            final(self).wf(),
            !final(self).orderbook.contains_id(old(order).id@),
            final(self).orderbook.symbol == old(self).orderbook.symbol,
            final(self).orderbook.side(old(order).side) == old(self).orderbook.side(old(order).side),
            crossing(
                old(self).orderbook.side(opposite(old(order).side)),
                final(self).orderbook.side(opposite(old(order).side)),
                *old(order),
                *final(order),
                limit,
                index,
                trades@,
            ),
            ladder_total(final(self).orderbook.side(opposite(old(order).side))) + traded(trades@)
                == ladder_total(old(self).orderbook.side(opposite(old(order).side))),
    {
        let trades = match order.side {
            OrderSide::Buy => fill_from(&mut self.orderbook.asks, order, limit, index),
            OrderSide::Sell => fill_from(&mut self.orderbook.bids, order, limit, index),
        };
        proof {
            let b = self.orderbook;
            let a = old(self).orderbook;
            assert forall|i: int, j: int|
                0 <= i < b.bids@.len() && 0 <= j < b.asks@.len()
                    implies (#[trigger] b.bids@[i]).id@ != (#[trigger] b.asks@[j]).id@ by {
                if old(order).side == OrderSide::Buy {
                    assert(ladder_has(b.asks@, b.asks@[j].id@));
                    let jj = choose|jj: int| 0 <= jj < a.asks@.len() && (#[trigger] a.asks@[jj]).id@ == b.asks@[j].id@;
                    assert(a.bids@[i].id@ != a.asks@[jj].id@);
                } else {
                    assert(ladder_has(b.bids@, b.bids@[i].id@));
                    let ii = choose|ii: int| 0 <= ii < a.bids@.len() && (#[trigger] a.bids@[ii]).id@ == b.bids@[i].id@;
                    assert(a.bids@[ii].id@ != a.asks@[j].id@);
                }
            }
        }
        trades
    }
}

/// Two trades that record the same crossing.
pub open spec fn same_trade(a: Trade, b: Trade) -> bool {
    &&& a.id@ == b.id@
    &&& a.symbol == b.symbol
    &&& a.price == b.price
    &&& a.quantity == b.quantity
    &&& a.buyer_order_id == b.buyer_order_id
    &&& a.seller_order_id == b.seller_order_id
    &&& a.created_at == b.created_at
}

proof fn lemma_traded_prefix_eq(a: Seq<Trade>, b: Seq<Trade>, k: int)
    requires
        0 <= k <= a.len(),
        k <= b.len(),
        forall|j: int| 0 <= j < k ==> (#[trigger] a[j]).quantity == b[j].quantity,
    ensures
        traded(a.subrange(0, k)) == traded(b.subrange(0, k)),
    decreases k,
{
    if k > 0 {
        lemma_traded_prefix_eq(a, b, k - 1);
        assert(a.subrange(0, k).drop_last() =~= a.subrange(0, k - 1));
        assert(b.subrange(0, k).drop_last() =~= b.subrange(0, k - 1));
    }
}

proof fn lemma_traded_prefix_step(a: Seq<Trade>, k: int)
    requires
        0 <= k < a.len(),
    ensures
        traded(a.subrange(0, k + 1)) == traded(a.subrange(0, k)) + a[k].quantity,
{
    assert(a.subrange(0, k + 1).drop_last() =~= a.subrange(0, k));
}

proof fn lemma_traded_prefix_le(a: Seq<Trade>, j: int, k: int)
    requires
        0 <= j <= k <= a.len(),
    ensures
        traded(a.subrange(0, j)) <= traded(a.subrange(0, k)),
    decreases k - j,
{
    if j < k {
        lemma_traded_prefix_le(a, j, k - 1);
        lemma_traded_prefix_step(a, k - 1);
    }
}

/// A crossing cannot make more trades than another crossing of the same
/// taker against the same ladder.
proof fn lemma_crossing_not_longer(
    l0: Seq<Order>, side: OrderSide, t0: Order, limit: Option<u64>, index: u64,
    l1: Seq<Order>, t1: Order, tr: Seq<Trade>,
    l2: Seq<Order>, t2: Order, tr2: Seq<Trade>,
)
    requires
        ladder_wf(l0, side),
        side == opposite(t0.side),
        t0.wf(),
        crossing(l0, l1, t0, t1, limit, index, tr),
        crossing(l0, l2, t0, t2, limit, index, tr2),
    ensures
        tr2.len() <= tr.len(),
{
    let n = tr.len() as int;
    let n2 = tr2.len() as int;
    if n2 > n {
        assert(tr =~= tr.subrange(0, n));
        if n > 0 {
            assert forall|j: int| 0 <= j < n - 1 implies (#[trigger] tr[j]).quantity == tr2[j].quantity by {}
            lemma_traded_prefix_eq(tr, tr2, n - 1);
            assert(tr.drop_last() =~= tr.subrange(0, n - 1));
            lemma_traded_prefix_step(tr, n - 1);
            lemma_traded_prefix_step(tr2, n - 1);
            assert(tr2[n - 1].quantity == l0[n - 1].remaining());
            assert(tr[n - 1].quantity <= l0[n - 1].remaining());
        } else {
            assert(tr2.subrange(0, 0) =~= Seq::<Trade>::empty());
        }
        // what run two traded in its first n trades is at least what run one traded
        assert(traded(tr2.subrange(0, n)) >= traded(tr));
        lemma_traded_prefix_step(tr2, n);
        lemma_traded_prefix_le(tr2, n + 1, n2);
        assert(tr2 =~= tr2.subrange(0, n2));
        assert(tr2[n].quantity > 0);
        if t1.filled_quantity >= t1.quantity {
            // run one filled the taker: run two cannot trade more
            assert(traded(tr2) > t0.remaining());
            assert(false);
        } else if n > 0 && tr[n - 1].quantity < l0[n - 1].remaining() {
            assert(traded(tr) == t0.remaining());
            assert(false);
        } else {
            assert(l1 == l0.skip(n));
            if l1.len() == 0 {
                assert(false);
            } else {
                assert(l1[0] == l0[n]);
                assert(accepts(side, limit, l0[n].price));
                assert(false);
            }
        }
    }
}

/// Matching is deterministic: two crossings of the same taker against the
/// same ladder under the same limit and log index make the same trades and
/// leave the same ladder and taker.
pub proof fn lemma_crossing_deterministic(
    l0: Seq<Order>, side: OrderSide, t0: Order, limit: Option<u64>, index: u64,
    l1: Seq<Order>, t1: Order, tr: Seq<Trade>,
    l2: Seq<Order>, t2: Order, tr2: Seq<Trade>,
)
    requires
        ladder_wf(l0, side),
        side == opposite(t0.side),
        t0.wf(),
        crossing(l0, l1, t0, t1, limit, index, tr),
        crossing(l0, l2, t0, t2, limit, index, tr2),
    ensures
        tr.len() == tr2.len(),
        forall|k: int| 0 <= k < tr.len() ==> same_trade(#[trigger] tr[k], tr2[k]),
        l1 == l2,
        t1 == t2,
{
    lemma_crossing_not_longer(l0, side, t0, limit, index, l1, t1, tr, l2, t2, tr2);
    lemma_crossing_not_longer(l0, side, t0, limit, index, l2, t2, tr2, l1, t1, tr);
    let n = tr.len() as int;
    if n > 0 {
        lemma_traded_prefix_eq(tr, tr2, n - 1);
        assert(tr.drop_last() =~= tr.subrange(0, n - 1));
        assert(tr2.drop_last() =~= tr2.subrange(0, n - 1));
        assert(tr[n - 1].quantity == tr2[n - 1].quantity);
    }
    assert forall|j: int| 0 <= j < n implies (#[trigger] tr[j]).quantity == tr2[j].quantity by {}
    lemma_traded_prefix_eq(tr, tr2, n);
    assert(tr =~= tr.subrange(0, n));
    assert(tr2 =~= tr2.subrange(0, n));
    assert(traded(tr) == traded(tr2));
    assert(t1 == t2);
    if n > 0 && tr[n - 1].quantity < l0[n - 1].remaining() {
        assert(l1[0] == l2[0]);
        assert(l1 =~= l2) by {
            assert forall|i: int| 0 <= i < l1.len() implies l1[i] == l2[i] by {
                if i > 0 {
                    assert(l1[i] == l1.skip(1)[i - 1]);
                    assert(l2[i] == l2.skip(1)[i - 1]);
                }
            }
        }
    }
}

proof fn lemma_insert_point_unique(s: Seq<Order>, side: OrderSide, price: u64, k1: int, k2: int)
    requires
        insert_point(s, side, price, k1),
        insert_point(s, side, price, k2),
    ensures
        k1 == k2,
{
    if k1 < k2 {
        assert(at_least_as_good(side, s[k1].price, price));
    } else if k2 < k1 {
        assert(at_least_as_good(side, s[k2].price, price));
    }
}

/// Placing is deterministic: two placements of the same order at the same
/// log index into the same matcher make the same trades and leave the same
/// book. This is what lets every replica apply the log alike.
pub proof fn lemma_placement_deterministic(
    m0: Matcher, order: Order, index: u64,
    m1: Matcher, tr1: Seq<Trade>,
    m2: Matcher, tr2: Seq<Trade>,
)
    requires
        m0.wf(),
        order.wf(),
        placed(m0, m1, order, index, tr1),
        placed(m0, m2, order, index, tr2),
    ensures
        tr1.len() == tr2.len(),
        forall|k: int| 0 <= k < tr1.len() ==> same_trade(#[trigger] tr1[k], tr2[k]),
        m1.orderbook.symbol == m2.orderbook.symbol,
        m1.orderbook.bids@ == m2.orderbook.bids@,
        m1.orderbook.asks@ == m2.orderbook.asks@,
{
    let side = opposite(order.side);
    let l0 = m0.orderbook.side(side);
    let t1 = choose|t1: Order| #![trigger same_order(order, t1)] same_order(order, t1) && crossing(
        l0, m1.orderbook.side(side), order, t1, limit_of(order), index, tr1)
        && if order.order_type == OrderType::Limit && t1.filled_quantity < t1.quantity {
            exists|k: int| insert_point(m0.orderbook.side(order.side), order.side, order.price, k)
                && m1.orderbook.side(order.side) == m0.orderbook.side(order.side).insert(k, t1)
        } else {
            m1.orderbook.side(order.side) == m0.orderbook.side(order.side)
        };
    let t2 = choose|t2: Order| #![trigger same_order(order, t2)] same_order(order, t2) && crossing(
        l0, m2.orderbook.side(side), order, t2, limit_of(order), index, tr2)
        && if order.order_type == OrderType::Limit && t2.filled_quantity < t2.quantity {
            exists|k: int| insert_point(m0.orderbook.side(order.side), order.side, order.price, k)
                && m2.orderbook.side(order.side) == m0.orderbook.side(order.side).insert(k, t2)
        } else {
            m2.orderbook.side(order.side) == m0.orderbook.side(order.side)
        };
    assert(ladder_wf(l0, side)) by {
        if order.side == OrderSide::Buy {
            assert(l0 == m0.orderbook.asks@);
        } else {
            assert(l0 == m0.orderbook.bids@);
        }
    }
    lemma_crossing_deterministic(l0, side, order, limit_of(order), index,
        m1.orderbook.side(side), t1, tr1, m2.orderbook.side(side), t2, tr2);
    if order.order_type == OrderType::Limit && t1.filled_quantity < t1.quantity {
        let own = m0.orderbook.side(order.side);
        let k1 = choose|k: int| insert_point(own, order.side, order.price, k)
            && m1.orderbook.side(order.side) == own.insert(k, t1);
        let k2 = choose|k: int| insert_point(own, order.side, order.price, k)
            && m2.orderbook.side(order.side) == own.insert(k, t2);
        lemma_insert_point_unique(own, order.side, order.price, k1, k2);
    }
    if order.side == OrderSide::Buy {
        assert(m1.orderbook.side(order.side) == m1.orderbook.bids@);
        assert(m2.orderbook.side(order.side) == m2.orderbook.bids@);
    } else {
        assert(m1.orderbook.side(order.side) == m1.orderbook.asks@);
        assert(m2.orderbook.side(order.side) == m2.orderbook.asks@);
    }
}

/// Sum of the traded quantities of several placements.
pub open spec fn traded_all(ts: Seq<Seq<Trade>>) -> int
    decreases ts.len(),
{
    if ts.len() == 0 {
        0
    } else {
        traded_all(ts.drop_last()) + traded(ts.last())
    }
}

/// Sum of the quantities that placements discard (market remainders).
pub open spec fn discarded_all(os: Seq<Order>, ts: Seq<Seq<Trade>>) -> int
    decreases os.len(),
{
    if os.len() == 0 || ts.len() == 0 {
        0
    } else {
        discarded_all(os.drop_last(), ts.drop_last()) + discarded(os.last(), traded(ts.last()))
    }
}

/// Sum of the unfilled quantities of the placed orders.
pub open spec fn placed_total(os: Seq<Order>) -> int
    decreases os.len(),
{
    if os.len() == 0 {
        0
    } else {
        placed_total(os.drop_last()) + os.last().remaining()
    }
}

/// Quantity is conserved over any sequence of placements: what rests at
/// the end, plus both legs of every trade, plus every discarded market
/// remainder, equals what rested at the start plus every placed quantity.
/// (Each trade reduces a taker and a maker alike, hence both legs.)
pub proof fn lemma_quantity_conserved(ms: Seq<Matcher>, os: Seq<Order>, idx: Seq<u64>, ts: Seq<Seq<Trade>>)
    requires
        ms.len() == os.len() + 1,
        idx.len() == os.len(),
        ts.len() == os.len(),
        forall|i: int| 0 <= i < os.len() ==> #[trigger] placed(ms[i], ms[i + 1], os[i], idx[i], ts[i]),
    ensures
        ms.last().orderbook.total_remaining() + 2 * traded_all(ts) + discarded_all(os, ts)
            == ms[0].orderbook.total_remaining() + placed_total(os),
    decreases os.len(),
{
    if os.len() > 0 {
        let n = os.len() - 1;
        assert forall|i: int| 0 <= i < os.drop_last().len() implies #[trigger] placed(
            ms.drop_last()[i], ms.drop_last()[i + 1], os.drop_last()[i], idx.drop_last()[i], ts.drop_last()[i]) by {
            assert(placed(ms[i], ms[i + 1], os[i], idx[i], ts[i]));
        }
        lemma_quantity_conserved(ms.drop_last(), os.drop_last(), idx.drop_last(), ts.drop_last());
        assert(placed(ms[n], ms[n + 1], os[n], idx[n], ts[n]));
    }
}

/// Exec form of `opposite`.
fn side_of(taker: OrderSide) -> (r: OrderSide)
    ensures
        r == opposite(taker),
{
    match taker {
        OrderSide::Buy => OrderSide::Sell,
        OrderSide::Sell => OrderSide::Buy,
    }
}

} // verus!
