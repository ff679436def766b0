//! The per-symbol order book.
//!
//! Each side is a ladder: the resting orders of that side, best price first,
//! and within one price in order of arrival. A price level is the maximal run
//! of orders at one price, so a level that is present is never empty.
use vstd::prelude::*;
use crate::order::{Order, OrderSide};

verus! {

/// Whether price `a` ranks at least as well as price `b` on a ladder of `side`
/// (higher is better for bids, lower for asks).
pub open spec fn at_least_as_good(side: OrderSide, a: u64, b: u64) -> bool {
    match side {
        OrderSide::Buy => a >= b,
        OrderSide::Sell => a <= b,
    }
}

/// Best price first. (Arrival order within a price is kept by the
/// operations: `add_order` inserts behind every order at an equal price.)
pub open spec fn ladder_sorted(s: Seq<Order>, side: OrderSide) -> bool {
    forall|i: int, j: int|
        0 <= i < j < s.len() ==> #[trigger] at_least_as_good(side, s[i].price, s[j].price)
}

/// Every order on the ladder belongs to `side` and still has quantity to fill.
pub open spec fn ladder_resting(s: Seq<Order>, side: OrderSide) -> bool {
    forall|i: int| 0 <= i < s.len() ==> (#[trigger] s[i]).side == side && s[i].filled_quantity < s[i].quantity
}

/// No two orders on the ladder share an id.
pub open spec fn ids_distinct(s: Seq<Order>) -> bool {
    forall|i: int, j: int| 0 <= i < j < s.len() ==> (#[trigger] s[i]).id@ != (#[trigger] s[j]).id@
}

/// Whether some order on the ladder has this id.
pub open spec fn ladder_has(s: Seq<Order>, id: Seq<char>) -> bool {
    exists|i: int| 0 <= i < s.len() && (#[trigger] s[i]).id@ == id
}

/// A well-formed ladder of `side`.
pub open spec fn ladder_wf(s: Seq<Order>, side: OrderSide) -> bool {
    ladder_sorted(s, side) && ladder_resting(s, side) && ids_distinct(s)
}

/// `k` is where an order at `price` joins the ladder: after every order at
/// an equal or better price, before every worse one.
pub open spec fn insert_point(s: Seq<Order>, side: OrderSide, price: u64, k: int) -> bool {
    &&& 0 <= k <= s.len()
    &&& forall|i: int| 0 <= i < k ==> #[trigger] at_least_as_good(side, s[i].price, price)
    &&& forall|i: int| k <= i < s.len() ==> !#[trigger] at_least_as_good(side, s[i].price, price)
}

/// Sum of the remaining quantities on a ladder.
pub open spec fn ladder_total(s: Seq<Order>) -> int
    decreases s.len(),
{
    if s.len() == 0 {
        0
    } else {
        s[0].remaining() + ladder_total(s.skip(1))
    }
}

/// The orders resting at `price`: one price level, in arrival order.
pub open spec fn level(s: Seq<Order>, price: u64) -> Seq<Order> {
    s.filter(|o: Order| o.price == price)
}

pub proof fn lemma_total_insert(s: Seq<Order>, k: int, o: Order)
    requires
        0 <= k <= s.len(),
    ensures
        ladder_total(s.insert(k, o)) == ladder_total(s) + o.remaining(),
    decreases s.len(),
{
    if k == 0 {
        assert(s.insert(0, o).skip(1) =~= s);
    } else {
        assert(s.insert(k, o).skip(1) =~= s.skip(1).insert(k - 1, o));
        lemma_total_insert(s.skip(1), k - 1, o);
    }
}

pub proof fn lemma_total_remove(s: Seq<Order>, k: int)
    requires
        0 <= k < s.len(),
    ensures
        ladder_total(s.remove(k)) == ladder_total(s) - s[k].remaining(),
    decreases s.len(),
{
    if k == 0 {
        assert(s.remove(0) =~= s.skip(1));
    } else {
        assert(s.remove(k).skip(1) =~= s.skip(1).remove(k - 1));
        lemma_total_remove(s.skip(1), k - 1);
    }
}

pub proof fn lemma_total_update(s: Seq<Order>, k: int, o: Order)
    requires
        0 <= k < s.len(),
    ensures
        ladder_total(s.update(k, o)) == ladder_total(s) - s[k].remaining() + o.remaining(),
{
    lemma_total_remove(s, k);
    lemma_total_insert(s.remove(k), k, o);
    assert(s.remove(k).insert(k, o) =~= s.update(k, o));
}

/// Every resting order stands at exactly one place of the book: one
/// position of the ladder of its own side, inside the level of its price,
/// and that level is therefore not empty.
pub proof fn lemma_book_index_consistent(book: OrderBook)
    requires
        book.wf(),
    ensures
        forall|i: int, j: int| 0 <= i < book.bids@.len() && 0 <= j < book.bids@.len()
            && (#[trigger] book.bids@[i]).id@ == (#[trigger] book.bids@[j]).id@ ==> i == j,
        forall|i: int, j: int| 0 <= i < book.asks@.len() && 0 <= j < book.asks@.len()
            && (#[trigger] book.asks@[i]).id@ == (#[trigger] book.asks@[j]).id@ ==> i == j,
        forall|i: int, j: int| 0 <= i < book.bids@.len() && 0 <= j < book.asks@.len()
            ==> (#[trigger] book.bids@[i]).id@ != (#[trigger] book.asks@[j]).id@,
        forall|i: int| 0 <= i < book.bids@.len() ==> (#[trigger] book.bids@[i]).side == OrderSide::Buy
            && level(book.bids@, book.bids@[i].price).contains(book.bids@[i]),
        forall|i: int| 0 <= i < book.asks@.len() ==> (#[trigger] book.asks@[i]).side == OrderSide::Sell
            && level(book.asks@, book.asks@[i].price).contains(book.asks@[i]),
{
    assert forall|i: int, j: int| 0 <= i < book.bids@.len() && 0 <= j < book.bids@.len()
        && (#[trigger] book.bids@[i]).id@ == (#[trigger] book.bids@[j]).id@ implies i == j by {
        if i < j {
            assert(book.bids@[i].id@ != book.bids@[j].id@);
        } else if j < i {
            assert(book.bids@[j].id@ != book.bids@[i].id@);
        }
    }
    assert forall|i: int, j: int| 0 <= i < book.asks@.len() && 0 <= j < book.asks@.len()
        && (#[trigger] book.asks@[i]).id@ == (#[trigger] book.asks@[j]).id@ implies i == j by {
        if i < j {
            assert(book.asks@[i].id@ != book.asks@[j].id@);
        } else if j < i {
            assert(book.asks@[j].id@ != book.asks@[i].id@);
        }
    }
    assert forall|i: int| 0 <= i < book.bids@.len() implies (#[trigger] book.bids@[i]).side == OrderSide::Buy
        && level(book.bids@, book.bids@[i].price).contains(book.bids@[i]) by {
        let p = book.bids@[i].price;
        book.bids@.lemma_filter_contains(|o: Order| o.price == p, i);
    }
    assert forall|i: int| 0 <= i < book.asks@.len() implies (#[trigger] book.asks@[i]).side == OrderSide::Sell
        && level(book.asks@, book.asks@[i].price).contains(book.asks@[i]) by {
        let p = book.asks@[i].price;
        book.asks@.lemma_filter_contains(|o: Order| o.price == p, i);
    }
}

/// Per-side book: the two ladders and the symbol they trade.
#[derive(Debug)]
pub struct OrderBook {
    pub symbol: String,
    /// Resting buy orders, highest price first.
    pub bids: Vec<Order>,
    /// Resting sell orders, lowest price first.
    pub asks: Vec<Order>,
}

impl OrderBook {
    /// Both ladders well formed and no id on both sides.
    pub open spec fn wf(&self) -> bool {
        &&& ladder_wf(self.bids@, OrderSide::Buy)
        &&& ladder_wf(self.asks@, OrderSide::Sell)
        &&& forall|i: int, j: int|
            0 <= i < self.bids@.len() && 0 <= j < self.asks@.len()
                ==> (#[trigger] self.bids@[i]).id@ != (#[trigger] self.asks@[j]).id@
    }

    /// The ladder of one side.
    pub open spec fn side(&self, side: OrderSide) -> Seq<Order> {
        match side {
            OrderSide::Buy => self.bids@,
            OrderSide::Sell => self.asks@,
        }
    }

    /// Whether an order with this id rests in the book.
    pub open spec fn contains_id(&self, id: Seq<char>) -> bool {
        ladder_has(self.bids@, id) || ladder_has(self.asks@, id)
    }

    /// Sum of the remaining quantities of every resting order.
    pub open spec fn total_remaining(&self) -> int {
        ladder_total(self.bids@) + ladder_total(self.asks@)
    }

    /// Checks `wf`: ladders sorted by price priority, resting orders of
    /// the right side only, and ids unique over the whole book.
    pub fn is_well_formed(&self) -> (r: bool)
        ensures
            r == self.wf(),
    {
        if !check_ladder(&self.bids, OrderSide::Buy) || !check_ladder(&self.asks, OrderSide::Sell) {
            return false;
        }
        let nb = self.bids.len();
        let na = self.asks.len();
        let mut i: usize = 0;
        while i < nb
            invariant
                nb == self.bids@.len(),
                na == self.asks@.len(),
                0 <= i <= nb,
                forall|a: int, b: int| 0 <= a < i && 0 <= b < na
                    ==> (#[trigger] self.bids@[a]).id@ != (#[trigger] self.asks@[b]).id@,
            decreases nb - i,
        {
            let mut j: usize = 0;
            while j < na
                invariant
                    nb == self.bids@.len(),
                    na == self.asks@.len(),
                    0 <= i < nb,
                    0 <= j <= na,
                    forall|b: int| 0 <= b < j ==> self.bids@[i as int].id@ != (#[trigger] self.asks@[b]).id@,
                decreases na - j,
            {
                if self.bids[i].id == self.asks[j].id {
                    return false;
                }
                j += 1;
            }
            proof {
                assert forall|a: int, b: int| 0 <= a < i + 1 && 0 <= b < na
                    implies (#[trigger] self.bids@[a]).id@ != (#[trigger] self.asks@[b]).id@ by {
                    if a == i {
                        assert(self.bids@[i as int].id@ != self.asks@[b].id@);
                    }
                }
            }
            i += 1;
        }
        true
    }

    /// Creates an empty book.
    pub fn new(symbol: String) -> (r: OrderBook)
        ensures
            r.wf(),
            r.symbol == symbol,
            r.bids@.len() == 0,
            r.asks@.len() == 0,
    {
        OrderBook { symbol, bids: Vec::new(), asks: Vec::new() }
    }

    /// Adds a resting order behind every order at an equal or better price.
    pub fn add_order(&mut self, order: Order)
        requires
            old(self).wf(),
            order.filled_quantity < order.quantity,
            !old(self).contains_id(order.id@),
        ensures
            final(self).wf(),
            final(self).symbol == old(self).symbol,
            exists|k: int|
                insert_point(old(self).side(order.side), order.side, order.price, k)
                    && final(self).side(order.side) == old(self).side(order.side).insert(k, order),
            order.side == OrderSide::Buy ==> final(self).asks@ == old(self).asks@,
            order.side == OrderSide::Sell ==> final(self).bids@ == old(self).bids@,
            final(self).total_remaining() == old(self).total_remaining() + order.remaining(),
    {
        let ghost o = order;
        match order.side {
            OrderSide::Buy => {
                let k = ladder_insert(&mut self.bids, order, OrderSide::Buy);
                proof {
                    lemma_total_insert(old(self).bids@, k as int, o);
                    assert(insert_point(old(self).side(o.side), o.side, o.price, k as int)
                        && self.side(o.side) == old(self).side(o.side).insert(k as int, o));
                    assert forall|i: int, j: int|
                        0 <= i < self.bids@.len() && 0 <= j < self.asks@.len()
                            implies (#[trigger] self.bids@[i]).id@ != (#[trigger] self.asks@[j]).id@ by {
                        if i < k {
                            assert(self.bids@[i] == old(self).bids@[i]);
                        } else if i > k {
                            assert(self.bids@[i] == old(self).bids@[i - 1]);
                        } else {
                            assert(old(self).asks@[j] == self.asks@[j]);
                        }
                    }
                }
            },
            OrderSide::Sell => {
                let k = ladder_insert(&mut self.asks, order, OrderSide::Sell);
                proof {
                    lemma_total_insert(old(self).asks@, k as int, o);
                    assert(insert_point(old(self).side(o.side), o.side, o.price, k as int)
                        && self.side(o.side) == old(self).side(o.side).insert(k as int, o));
                    assert forall|i: int, j: int|
                        0 <= i < self.bids@.len() && 0 <= j < self.asks@.len()
                            implies (#[trigger] self.bids@[i]).id@ != (#[trigger] self.asks@[j]).id@ by {
                        if j < k {
                            assert(self.asks@[j] == old(self).asks@[j]);
                        } else if j > k {
                            assert(self.asks@[j] == old(self).asks@[j - 1]);
                        } else {
                            assert(old(self).bids@[i] == self.bids@[i]);
                        }
                    }
                }
            },
        }
    }

    /// Removes the order with this id, wherever it rests; a level left
    /// empty disappears with it.
    pub fn remove_order(&mut self, order_id: &str) -> (r: Option<Order>)
        requires
            old(self).wf(),
        ensures
            final(self).wf(),
            final(self).symbol == old(self).symbol,
            r.is_none() <==> !old(self).contains_id(order_id@),
            r.is_none() ==> final(self).bids@ == old(self).bids@ && final(self).asks@ == old(self).asks@,
            r matches Some(o) ==> o.id@ == order_id@ && exists|k: int|
                0 <= k < old(self).side(o.side).len() && old(self).side(o.side)[k] == o
                    && final(self).side(o.side) == old(self).side(o.side).remove(k),
            r matches Some(o) ==> o.side == OrderSide::Buy ==> final(self).asks@ == old(self).asks@,
            r matches Some(o) ==> o.side == OrderSide::Sell ==> final(self).bids@ == old(self).bids@,
            r matches Some(o) ==> final(self).total_remaining() == old(self).total_remaining() - o.remaining(),
    {
        let key = order_id.to_owned();
        match ladder_find(&self.bids, &key) {
            Some(k) => {
                let o = self.bids.remove(k);
                proof {
                    assert(o.side == OrderSide::Buy);
                    assert(old(self).side(o.side)[k as int] == o);
                    assert(self.side(o.side) == old(self).side(o.side).remove(k as int));
                    lemma_total_remove(old(self).bids@, k as int);
                    lemma_remove_keeps(old(self).bids@, k as int, OrderSide::Buy);
                    assert forall|i: int, j: int|
                        0 <= i < self.bids@.len() && 0 <= j < self.asks@.len()
                            implies (#[trigger] self.bids@[i]).id@ != (#[trigger] self.asks@[j]).id@ by {
                        if i < k {
                            assert(self.bids@[i] == old(self).bids@[i]);
                        } else {
                            assert(self.bids@[i] == old(self).bids@[i + 1]);
                        }
                    }
                }
                return Some(o);
            },
            None => {},
        }
        match ladder_find(&self.asks, &key) {
            Some(k) => {
                let o = self.asks.remove(k);
                proof {
                    assert(o.side == OrderSide::Sell);
                    assert(old(self).side(o.side)[k as int] == o);
                    assert(self.side(o.side) == old(self).side(o.side).remove(k as int));
                    lemma_total_remove(old(self).asks@, k as int);
                    lemma_remove_keeps(old(self).asks@, k as int, OrderSide::Sell);
                    assert forall|i: int, j: int|
                        0 <= i < self.bids@.len() && 0 <= j < self.asks@.len()
                            implies (#[trigger] self.bids@[i]).id@ != (#[trigger] self.asks@[j]).id@ by {
                        if j < k {
                            assert(self.asks@[j] == old(self).asks@[j]);
                        } else {
                            assert(self.asks@[j] == old(self).asks@[j + 1]);
                        }
                    }
                }
                Some(o)
            },
            None => None,
        }
    }

    /// The resting order with this id, if any.
    pub fn get_order(&self, order_id: &str) -> (r: Option<&Order>)
        requires
            self.wf(),
        ensures
            r.is_none() <==> !self.contains_id(order_id@),
            r matches Some(o) ==> o.id@ == order_id@ && exists|k: int|
                0 <= k < self.side(o.side).len() && self.side(o.side)[k] == *o,
    {
        let key = order_id.to_owned();
        match ladder_find(&self.bids, &key) {
            Some(k) => {
                proof {
                    assert(self.bids@[k as int].side == OrderSide::Buy);
                    assert(self.side(self.bids@[k as int].side)[k as int] == self.bids@[k as int]);
                }
                return Some(&self.bids[k]);
            },
            None => {},
        }
        match ladder_find(&self.asks, &key) {
            Some(k) => {
                proof {
                    assert(self.asks@[k as int].side == OrderSide::Sell);
                    assert(self.side(self.asks@[k as int].side)[k as int] == self.asks@[k as int]);
                }
                Some(&self.asks[k])
            },
            None => None,
        }
    }

    /// The highest bid price.
    pub fn get_best_bid(&self) -> (r: Option<u64>)
        requires
            self.wf(),
        ensures
            r == (if self.bids@.len() > 0 { Some(self.bids@[0].price) } else { None::<u64> }),
            r matches Some(p) ==> forall|i: int| 0 <= i < self.bids@.len() ==> #[trigger] self.bids@[i].price <= p,
    {
        if self.bids.len() > 0 {
            proof {
                assert forall|i: int| 0 <= i < self.bids@.len() implies #[trigger] self.bids@[i].price <= self.bids@[0].price by {
                    if i > 0 {
                        assert(at_least_as_good(OrderSide::Buy, self.bids@[0].price, self.bids@[i].price));
                    }
                }
            }
            Some(self.bids[0].price)
        } else {
            None
        }
    }

    /// The lowest ask price.
    pub fn get_best_ask(&self) -> (r: Option<u64>)
        requires
            self.wf(),
        ensures
            r == (if self.asks@.len() > 0 { Some(self.asks@[0].price) } else { None::<u64> }),
            r matches Some(p) ==> forall|i: int| 0 <= i < self.asks@.len() ==> #[trigger] self.asks@[i].price >= p,
    {
        if self.asks.len() > 0 {
            proof {
                assert forall|i: int| 0 <= i < self.asks@.len() implies #[trigger] self.asks@[i].price >= self.asks@[0].price by {
                    if i > 0 {
                        assert(at_least_as_good(OrderSide::Sell, self.asks@[0].price, self.asks@[i].price));
                    }
                }
            }
            Some(self.asks[0].price)
        } else {
            None
        }
    }

    /// Best ask minus best bid, when both sides have orders.
    pub fn get_spread(&self) -> (r: Option<i128>)
        requires
            self.wf(),
        ensures
            r == (if self.bids@.len() > 0 && self.asks@.len() > 0 {
                Some((self.asks@[0].price - self.bids@[0].price) as i128)
            } else {
                None::<i128>
            }),
    {
        match (self.get_best_ask(), self.get_best_bid()) {
            (Some(ask), Some(bid)) => Some(ask as i128 - bid as i128),
            _ => None,
        }
    }
}

/// Whether `s` is a well-formed ladder of `side`.
pub fn check_ladder(s: &Vec<Order>, side: OrderSide) -> (r: bool)
    ensures
        r == ladder_wf(s@, side),
{
    let n = s.len();
    let mut i: usize = 0;
    while i < n
        invariant
            n == s@.len(),
            0 <= i <= n,
            forall|a: int| 0 <= a < i ==> (#[trigger] s@[a]).side == side && s@[a].filled_quantity < s@[a].quantity,
            forall|a: int, b: int| 0 <= a < i && a < b < n ==> #[trigger] at_least_as_good(side, s@[a].price, s@[b].price),
            forall|a: int, b: int| 0 <= a < i && a < b < n ==> (#[trigger] s@[a]).id@ != (#[trigger] s@[b]).id@,
        decreases n - i,
    {
        if !(s[i].side == side && s[i].filled_quantity < s[i].quantity) {
            return false;
        }
        let mut j: usize = i + 1;
        while j < n
            invariant
                n == s@.len(),
                0 <= i < n,
                i < j <= n,
                forall|b: int| i < b < j ==> #[trigger] at_least_as_good(side, s@[i as int].price, s@[b].price),
                forall|b: int| i < b < j ==> s@[i as int].id@ != (#[trigger] s@[b]).id@,
            decreases n - j,
        {
            if !ranks_at_least(side, s[i].price, s[j].price) {
                return false;
            }
            if s[i].id == s[j].id {
                return false;
            }
            j += 1;
        }
        proof {
            assert forall|a: int, b: int| 0 <= a < i + 1 && a < b < n
                implies #[trigger] at_least_as_good(side, s@[a].price, s@[b].price) by {
                if a == i {
                    assert(at_least_as_good(side, s@[i as int].price, s@[b].price));
                }
            }
            assert forall|a: int, b: int| 0 <= a < i + 1 && a < b < n
                implies (#[trigger] s@[a]).id@ != (#[trigger] s@[b]).id@ by {
                if a == i {
                    assert(s@[i as int].id@ != s@[b].id@);
                }
            }
        }
        i += 1;
    }
    true
}

/// Exec form of `at_least_as_good`.
pub fn ranks_at_least(side: OrderSide, a: u64, b: u64) -> (r: bool)
    ensures
        r == at_least_as_good(side, a, b),
{
    match side {
        OrderSide::Buy => a >= b,
        OrderSide::Sell => a <= b,
    }
}

proof fn lemma_remove_keeps(s: Seq<Order>, k: int, side: OrderSide)
    requires
        ladder_wf(s, side),
        0 <= k < s.len(),
    ensures
        ladder_wf(s.remove(k), side),
        forall|i: int| 0 <= i < s.len() && i != k ==> (#[trigger] s[i]).id@ != s[k].id@,
{
    let t = s.remove(k);
    assert forall|i: int, j: int| 0 <= i < j < t.len() implies #[trigger] at_least_as_good(side, t[i].price, t[j].price) by {
        let oi = if i < k { i } else { i + 1 };
        let oj = if j < k { j } else { j + 1 };
        assert(at_least_as_good(side, s[oi].price, s[oj].price));
    }
    assert forall|i: int, j: int| 0 <= i < j < t.len() implies (#[trigger] t[i]).id@ != (#[trigger] t[j]).id@ by {
        let oi = if i < k { i } else { i + 1 };
        let oj = if j < k { j } else { j + 1 };
        assert(s[oi].id@ != s[oj].id@);
    }
    assert forall|i: int| 0 <= i < s.len() && i != k implies (#[trigger] s[i]).id@ != s[k].id@ by {
        if i < k {
            assert(s[i].id@ != s[k].id@);
        } else {
            assert(s[k].id@ != s[i].id@);
        }
    }
}

/// Inserts `order` at its insertion point and returns that position.
fn ladder_insert(ladder: &mut Vec<Order>, order: Order, side: OrderSide) -> (k: usize)
    requires
        ladder_wf(old(ladder)@, side),
        order.side == side,
        order.filled_quantity < order.quantity,
        !ladder_has(old(ladder)@, order.id@),
    ensures
        ladder_wf(final(ladder)@, side),
        insert_point(old(ladder)@, side, order.price, k as int),
        final(ladder)@ == old(ladder)@.insert(k as int, order),
{
    let mut k: usize = 0;
    let n = ladder.len();
    while k < n
        invariant
            n == ladder@.len(),
            0 <= k <= n,
            forall|i: int| 0 <= i < k ==> #[trigger] at_least_as_good(side, ladder@[i].price, order.price),
        ensures
            0 <= k <= n,
            forall|i: int| 0 <= i < k ==> #[trigger] at_least_as_good(side, ladder@[i].price, order.price),
            k == n || !at_least_as_good(side, ladder@[k as int].price, order.price),
        decreases n - k,
    {
        if !ranks_at_least(side, ladder[k].price, order.price) {
            break;
        }
        k += 1;
    }
    let ghost s = ladder@;
    proof {
        assert forall|i: int| k <= i < s.len() implies !#[trigger] at_least_as_good(side, s[i].price, order.price) by {
            if i > k {
                assert(at_least_as_good(side, s[k as int].price, s[i].price));
            }
        }
    }
    ladder.insert(k, order);
    proof {
        let t = ladder@;
        assert forall|i: int, j: int| 0 <= i < j < t.len() implies #[trigger] at_least_as_good(side, t[i].price, t[j].price) by {
            if j < k {
                assert(t[i] == s[i]);
                assert(t[j] == s[j]);
                assert(at_least_as_good(side, s[i].price, s[j].price));
            } else if j == k {
                assert(t[i] == s[i]);
                assert(t[j] == order);
                assert(at_least_as_good(side, s[i].price, order.price));
            } else if i == k {
                assert(t[i] == order);
                assert(t[j] == s[j - 1]);
                assert(!at_least_as_good(side, s[j - 1].price, order.price));
            } else if i < k {
                assert(t[i] == s[i]);
                assert(t[j] == s[j - 1]);
                assert(at_least_as_good(side, s[i].price, s[j - 1].price));
            } else {
                assert(t[i] == s[i - 1]);
                assert(t[j] == s[j - 1]);
                assert(at_least_as_good(side, s[i - 1].price, s[j - 1].price));
            }
        }
        assert forall|i: int, j: int| 0 <= i < j < t.len() implies (#[trigger] t[i]).id@ != (#[trigger] t[j]).id@ by {
            if j < k {
                assert(s[i].id@ != s[j].id@);
            } else if j == k {
                assert(t[i] == s[i]);
            } else if i == k {
                assert(t[j] == s[j - 1]);
            } else if i < k {
                assert(s[i].id@ != s[j - 1].id@);
            } else {
                assert(s[i - 1].id@ != s[j - 1].id@);
            }
        }
        assert forall|i: int| 0 <= i < t.len() implies (#[trigger] t[i]).side == side && t[i].filled_quantity < t[i].quantity by {
            if i < k {
                assert(t[i] == s[i]);
            } else if i > k {
                assert(t[i] == s[i - 1]);
            }
        }
    }
    k
}

/// Position of the order with this id on the ladder.
fn ladder_find(ladder: &Vec<Order>, id: &String) -> (r: Option<usize>)
    requires
        ids_distinct(ladder@),
    ensures
        r.is_none() <==> !ladder_has(ladder@, id@),
        r matches Some(k) ==> k < ladder@.len() && ladder@[k as int].id@ == id@,
{
    let n = ladder.len();
    let mut k: usize = 0;
    while k < n
        invariant
            n == ladder@.len(),
            0 <= k <= n,
            forall|i: int| 0 <= i < k ==> (#[trigger] ladder@[i]).id@ != id@,
        decreases n - k,
    {
        if ladder[k].id == *id {
            return Some(k);
        }
        k += 1;
    }
    None
}

} // verus!
