//! Validation and routing of orders to the matcher of their symbol.
use vstd::prelude::*;
use crate::matcher::{cancelled, placed, Matcher};
use crate::order::{Order, Trade};
use crate::symbol::{EngineError, Symbol, SymbolStatus};
use crate::symbol_manager::{SymbolEntry, SymbolManager};

verus! {

/// Places and cancels orders on the books of registered symbols.
#[derive(Debug)]
pub struct OrderProcessor {
    pub symbol_manager: SymbolManager,
}

/// Why `order` cannot be placed in `sm`, checked in this order: unknown
/// (or delisted) symbol, symbol not active, price out of bounds, quantity
/// out of bounds (or more filled than ordered), an order of the same id
/// already resting.
pub open spec fn place_error(sm: SymbolManager, order: Order) -> Option<EngineError> {
    let e = sm.entry(order.symbol@);
    if !sm.has(order.symbol@) || e.matcher is None {
        Some(EngineError::SymbolNotFound(order.symbol))
    } else if e.symbol.status != SymbolStatus::Active {
        Some(EngineError::SymbolNotActive(order.symbol))
    } else if !(e.symbol.min_price <= order.price <= e.symbol.max_price) {
        Some(EngineError::InvalidPrice(e.symbol.name))
    } else if !(e.symbol.min_quantity <= order.quantity <= e.symbol.max_quantity)
        || order.filled_quantity > order.quantity {
        Some(EngineError::InvalidQuantity(e.symbol.name))
    } else if e.matcher.unwrap().orderbook.contains_id(order.id@) {
        Some(EngineError::DuplicateOrder(order.id))
    } else {
        None
    }
}

/// Whether orders of symbol `name` can be cancelled in `sm`: the symbol is
/// registered, not delisted, and active.
pub open spec fn cancel_allowed(sm: SymbolManager, name: Seq<char>) -> bool {
    sm.has(name) && sm.entry(name).matcher is Some && sm.entry(name).symbol.status == SymbolStatus::Active
}

/// `sm1` is `sm0` with the matcher of entry `k` replaced by `m1`.
pub open spec fn matcher_replaced(sm0: SymbolManager, sm1: SymbolManager, k: int, m1: Matcher) -> bool {
    sm1.entries@ == sm0.entries@.update(k, SymbolEntry { symbol: sm0.entries@[k].symbol, matcher: Some(m1) })
}

/// The outcome of placing `order` at log index `index` in `sm0`, giving
/// `sm1` and `r`: refused with `place_error` and nothing changed, or matched
/// by the symbol's matcher (see `placed`).
pub open spec fn place_result(sm0: SymbolManager, sm1: SymbolManager, order: Order, index: u64, r: Result<Vec<Trade>, EngineError>) -> bool {
    match place_error(sm0, order) {
        Some(e) => r == Err::<Vec<Trade>, EngineError>(e) && sm1 == sm0,
        None => r matches Ok(trades) && exists|m1: Matcher| #![trigger matcher_replaced(sm0, sm1, sm0.index_of(order.symbol@), m1)]
            matcher_replaced(sm0, sm1, sm0.index_of(order.symbol@), m1)
            && placed(sm0.entry(order.symbol@).matcher.unwrap(), m1, order, index, trades@),
    }
}

/// The outcome of cancelling `order_id` on symbol `symbol_id` in `sm0`,
/// giving `sm1` and `r` (see `cancelled`).
pub open spec fn cancel_result(sm0: SymbolManager, sm1: SymbolManager, symbol_id: Seq<char>, order_id: Seq<char>, r: Result<Option<Order>, EngineError>) -> bool {
    &&& !sm0.has(symbol_id) || sm0.entry(symbol_id).matcher is None
        ==> (r matches Err(EngineError::SymbolNotFound(s)) && s@ == symbol_id)
        && sm1 == sm0
    &&& sm0.has(symbol_id) && sm0.entry(symbol_id).matcher is Some
        && sm0.entry(symbol_id).symbol.status != SymbolStatus::Active
        ==> (r matches Err(EngineError::SymbolNotActive(s)) && s@ == symbol_id)
        && sm1 == sm0
    &&& cancel_allowed(sm0, symbol_id) ==> (r matches Ok(c) && exists|m1: Matcher| #![trigger matcher_replaced(sm0, sm1, sm0.index_of(symbol_id), m1)]
        matcher_replaced(sm0, sm1,
            sm0.index_of(symbol_id), m1)
        && cancelled(sm0.entry(symbol_id).matcher.unwrap(), m1, order_id, c))
}

/// The outcome of registering `symbol` in `sm0`, giving `sm1` and `r`.
pub open spec fn add_result(sm0: SymbolManager, sm1: SymbolManager, symbol: Symbol, r: Result<(), EngineError>) -> bool {
    &&& sm0.has(symbol.name@) ==> r == Err::<(), EngineError>(EngineError::SymbolExists(symbol.name))
        && sm1.entries@ == sm0.entries@
    &&& !sm0.has(symbol.name@) ==> r is Ok
        && sm1.entries@.drop_last() == sm0.entries@
        && sm1.entries@.len() == sm0.entries@.len() + 1
        && sm1.entries@.last().symbol == symbol
        && (sm1.entries@.last().matcher matches Some(m)
        && m.orderbook.symbol == symbol.name && m.orderbook.bids@.len() == 0
        && m.orderbook.asks@.len() == 0)
}

/// The outcome of reconfiguring `symbol` in `sm0`, giving `sm1` and `r`.
pub open spec fn update_result(sm0: SymbolManager, sm1: SymbolManager, symbol: Symbol, r: Result<(), EngineError>) -> bool {
    &&& !sm0.has(symbol.name@) ==> r == Err::<(), EngineError>(EngineError::SymbolNotFound(symbol.name))
        && sm1.entries@ == sm0.entries@
    &&& sm0.has(symbol.name@) ==> r is Ok && sm1.entries@
        == sm0.entries@.update(
        sm0.index_of(symbol.name@),
        SymbolEntry { symbol: symbol, matcher: sm0.entry(symbol.name@).matcher },
    )
}

/// The outcome of delisting symbol `name` in `sm0`, giving `sm1` and `r`.
pub open spec fn delist_result(sm0: SymbolManager, sm1: SymbolManager, name: Seq<char>, r: Result<(), EngineError>) -> bool {
    &&& !sm0.has(name) ==> (r matches Err(EngineError::SymbolNotFound(s)) && s@ == name)
        && sm1.entries@ == sm0.entries@
    &&& sm0.has(name) ==> r is Ok && sm1.entries@
        == sm0.entries@.update(
        sm0.index_of(name),
        SymbolEntry {
            symbol: Symbol { status: SymbolStatus::Delisted, ..sm0.entry(name).symbol },
            matcher: None,
        },
    )
}

impl OrderProcessor {
    pub open spec fn wf(&self) -> bool {
        self.symbol_manager.wf()
    }

    /// A processor with no symbols.
    pub fn new() -> (r: OrderProcessor)
        ensures
            r.wf(),
            r.symbol_manager.entries@.len() == 0,
    {
        OrderProcessor { symbol_manager: SymbolManager::new() }
    }

    /// Validates `order` against its symbol and matches it (see `placed`);
    /// a refused order changes nothing.
    pub fn place_order(&mut self, order: Order, index: u64) -> (r: Result<Vec<Trade>, EngineError>)
        requires
            old(self).wf(),
        ensures
            final(self).wf(),
            place_result(old(self).symbol_manager, final(self).symbol_manager, order, index, r),
    {
        let k = match self.symbol_manager.find(order.symbol.as_str()) {
            Some(k) => k,
            None => {
                return Err(EngineError::SymbolNotFound(order.symbol));
            },
        };
        let symbol: &Symbol = &self.symbol_manager.entries[k].symbol;
        let matcher: &Matcher = match &self.symbol_manager.entries[k].matcher {
            Some(m) => m,
            None => {
                return Err(EngineError::SymbolNotFound(order.symbol));
            },
        };
        if symbol.status != SymbolStatus::Active {
            return Err(EngineError::SymbolNotActive(order.symbol));
        }
        if !symbol.validate_price(order.price) {
            return Err(EngineError::InvalidPrice(symbol.name.clone()));
        }
        if !symbol.validate_quantity(order.quantity) || order.filled_quantity > order.quantity {
            return Err(EngineError::InvalidQuantity(symbol.name.clone()));
        }
        if matcher.orderbook.get_order(order.id.as_str()).is_some() {
            return Err(EngineError::DuplicateOrder(order.id));
        }
        let ghost sm0 = self.symbol_manager;
        let SymbolEntry { symbol, matcher } = self.symbol_manager.entries.remove(k);
        match matcher {
            Some(m) => {
                let mut m = m;
                let trades = m.place_order(order, index);
                let ghost m1 = m;
                self.symbol_manager.entries.insert(k, SymbolEntry { symbol, matcher: Some(m) });
                proof {
                    assert(self.symbol_manager.entries@ =~= sm0.entries@.update(k as int,
                        SymbolEntry { symbol: sm0.entries@[k as int].symbol, matcher: Some(m1) }));
                    assert(matcher_replaced(sm0, self.symbol_manager, k as int, m1));
                    assert forall|i: int, j: int| 0 <= i < j < self.symbol_manager.entries@.len()
                        implies (#[trigger] self.symbol_manager.entries@[i]).symbol.name@
                            != (#[trigger] self.symbol_manager.entries@[j]).symbol.name@ by {
                        assert(sm0.entries@[i].symbol.name@ != sm0.entries@[j].symbol.name@);
                    }
                }
                Ok(trades)
            },
            None => {
                self.symbol_manager.entries.insert(k, SymbolEntry { symbol, matcher: None });
                proof {
                    assert(self.symbol_manager.entries@ =~= sm0.entries@);
                }
                Err(EngineError::SymbolNotFound(order.symbol))
            },
        }
    }

    /// Cancels order `order_id` on symbol `symbol_id` (see `cancelled`);
    /// `Ok(None)` when no such order rests.
    pub fn cancel_order(&mut self, symbol_id: &str, order_id: &str) -> (r: Result<Option<Order>, EngineError>)
        requires
            old(self).wf(),
        ensures
            final(self).wf(),
            cancel_result(old(self).symbol_manager, final(self).symbol_manager, symbol_id@, order_id@, r),
    {
        let k = match self.symbol_manager.find(symbol_id) {
            Some(k) => k,
            None => {
                return Err(EngineError::SymbolNotFound(symbol_id.to_owned()));
            },
        };
        let symbol: &Symbol = &self.symbol_manager.entries[k].symbol;
        match &self.symbol_manager.entries[k].matcher {
            Some(_) => {},
            None => {
                return Err(EngineError::SymbolNotFound(symbol.name.clone()));
            },
        }
        if symbol.status != SymbolStatus::Active {
            return Err(EngineError::SymbolNotActive(symbol.name.clone()));
        }
        let ghost sm0 = self.symbol_manager;
        let SymbolEntry { symbol, matcher } = self.symbol_manager.entries.remove(k);
        match matcher {
            Some(m) => {
                let mut m = m;
                let c = m.cancel_order(order_id);
                let ghost m1 = m;
                self.symbol_manager.entries.insert(k, SymbolEntry { symbol, matcher: Some(m) });
                proof {
                    assert(self.symbol_manager.entries@ =~= sm0.entries@.update(k as int,
                        SymbolEntry { symbol: sm0.entries@[k as int].symbol, matcher: Some(m1) }));
                    assert(matcher_replaced(sm0, self.symbol_manager, k as int, m1));
                    assert forall|i: int, j: int| 0 <= i < j < self.symbol_manager.entries@.len()
                        implies (#[trigger] self.symbol_manager.entries@[i]).symbol.name@
                            != (#[trigger] self.symbol_manager.entries@[j]).symbol.name@ by {
                        assert(sm0.entries@[i].symbol.name@ != sm0.entries@[j].symbol.name@);
                    }
                }
                Ok(c)
            },
            None => {
                let name = symbol.name.clone();
                self.symbol_manager.entries.insert(k, SymbolEntry { symbol, matcher: None });
                proof {
                    assert(self.symbol_manager.entries@ =~= sm0.entries@);
                }
                Err(EngineError::SymbolNotFound(name))
            },
        }
    }

    /// Registers a symbol (see `SymbolManager::add_symbol`).
    pub fn add_symbol(&mut self, symbol: Symbol) -> (r: Result<(), EngineError>)
        requires
            old(self).wf(),
        ensures
            final(self).wf(),
            add_result(old(self).symbol_manager, final(self).symbol_manager, symbol, r),
    {
        self.symbol_manager.add_symbol(symbol)
    }

    /// Replaces a symbol's configuration (see `SymbolManager::update_symbol`).
    pub fn update_symbol(&mut self, symbol: Symbol) -> (r: Result<(), EngineError>)
        requires
            old(self).wf(),
        ensures
            final(self).wf(),
            update_result(old(self).symbol_manager, final(self).symbol_manager, symbol, r),
    {
        self.symbol_manager.update_symbol(symbol)
    }

    /// Delists a symbol (see `SymbolManager::delist_symbol`).
    pub fn del_symbol(&mut self, symbol: &str) -> (r: Result<(), EngineError>)
        requires
            old(self).wf(),
        ensures
            final(self).wf(),
            delist_result(old(self).symbol_manager, final(self).symbol_manager, symbol@, r),
    {
        self.symbol_manager.delist_symbol(symbol)
    }

    /// Every registered symbol, in the order of registration.
    pub fn list_symbols(&self) -> (r: Vec<&Symbol>)
        ensures
            r@.len() == self.symbol_manager.entries@.len(),
            forall|i: int| 0 <= i < r@.len() ==> *(#[trigger] r@[i]) == self.symbol_manager.entries@[i].symbol,
    {
        self.symbol_manager.list_symbols()
    }
}

} // verus!
