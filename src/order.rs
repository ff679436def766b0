//! Orders, trades and their lifecycle.
//!
//! Prices and quantities are fixed-point amounts: unsigned counts of
//! `10^-SCALE` units (see `amount`), so they compare and add exactly.
use vstd::prelude::*;

verus! {

/// How an order is executed.
#[derive(Clone, Copy, Debug, PartialEq, Eq, Structural)]
pub enum OrderType {
    /// Executes immediately against the best prices; any remainder is discarded.
    Market,
    /// Executes only at its own price or better; any remainder rests in the book.
    Limit,
}

/// Which side of the book an order belongs to.
#[derive(Clone, Copy, Debug, PartialEq, Eq, Structural)]
pub enum OrderSide {
    Buy,
    Sell,
}

/// Lifecycle state of an order.
#[derive(Clone, Copy, Debug, PartialEq, Eq, Structural)]
pub enum OrderStatus {
    New,
    PartiallyFilled,
    Filled,
    Canceled,
    Rejected,
}

/// A trading order.
#[derive(Debug)]
pub struct Order {
    pub id: String,
    pub symbol: String,
    pub order_type: OrderType,
    pub side: OrderSide,
    /// Limit price (ignored when matching a market order).
    pub price: u64,
    pub quantity: u64,
    pub filled_quantity: u64,
    pub status: OrderStatus,
    /// Logical creation time (the log index that introduced the order).
    pub created_at: u64,
    /// Logical time of the last change.
    pub updated_at: u64,
}

/// A crossing between a taker and a resting maker order.
#[derive(Debug)]
pub struct Trade {
    pub id: String,
    pub symbol: String,
    /// The maker's resting price.
    pub price: u64,
    pub quantity: u64,
    pub buyer_order_id: String,
    pub seller_order_id: String,
    /// Logical time of the trade (the applying log index).
    pub created_at: u64,
}

impl Order {
    /// Quantity still to be filled.
    pub open spec fn remaining(&self) -> int {
        self.quantity - self.filled_quantity
    }

    /// `0 <= filled_quantity <= quantity`.
    pub open spec fn wf(&self) -> bool {
        self.filled_quantity <= self.quantity
    }

    /// The status that the fill level implies, starting from `prior`; a
    /// filled or cancelled order keeps its status.
    pub open spec fn status_after_fill(&self, prior: OrderStatus) -> OrderStatus {
        if prior == OrderStatus::Filled || prior == OrderStatus::Canceled {
            prior
        } else if self.filled_quantity >= self.quantity {
            OrderStatus::Filled
        } else if self.filled_quantity > 0 {
            OrderStatus::PartiallyFilled
        } else {
            prior
        }
    }

    /// Creates a new, unfilled order created at logical time `now`.
    pub fn new(
        id: String,
        symbol: String,
        order_type: OrderType,
        side: OrderSide,
        price: u64,
        quantity: u64,
        now: u64,
    ) -> (r: Order)
        ensures
            r.id == id,
            r.symbol == symbol,
            r.order_type == order_type,
            r.side == side,
            r.price == price,
            r.quantity == quantity,
            r.filled_quantity == 0,
            r.status == OrderStatus::New,
            r.created_at == now,
            r.updated_at == now,
    {
        Order {
            id,
            symbol,
            order_type,
            side,
            price,
            quantity,
            filled_quantity: 0,
            status: OrderStatus::New,
            created_at: now,
            updated_at: now,
        }
    }

    /// An empty market buy order with no id, symbol, price or quantity.
    pub fn default() -> (r: Order)
        ensures
            r.id@ == Seq::<char>::empty(),
            r.symbol@ == Seq::<char>::empty(),
            r.order_type == OrderType::Market,
            r.side == OrderSide::Buy,
            r.price == 0,
            r.quantity == 0,
            r.filled_quantity == 0,
            r.status == OrderStatus::New,
            r.created_at == 0,
            r.updated_at == 0,
    {
        Order {
            id: String::new(),
            symbol: String::new(),
            order_type: OrderType::Market,
            side: OrderSide::Buy,
            price: 0,
            quantity: 0,
            filled_quantity: 0,
            status: OrderStatus::New,
            created_at: 0,
            updated_at: 0,
        }
    }

    /// Quantity still to be filled.
    pub fn remaining_quantity(&self) -> (r: u64)
        requires
            self.wf(),
        ensures
            r == self.remaining(),
    {
        self.quantity - self.filled_quantity
    }

    /// Whether the whole quantity has been filled.
    pub fn is_filled(&self) -> (r: bool)
        ensures
            r == (self.filled_quantity >= self.quantity),
    {
        self.filled_quantity >= self.quantity
    }

    /// Whether the order may still be cancelled.
    pub fn is_cancelable(&self) -> (r: bool)
        ensures
            r == (self.status == OrderStatus::New || self.status == OrderStatus::PartiallyFilled),
    {
        match self.status {
            OrderStatus::New | OrderStatus::PartiallyFilled => true,
            _ => false,
        }
    }

    /// Derives the status from the fill level and stamps the update time;
    /// `Filled` and `Canceled` are final and stay as they are.
    pub fn update_status(&mut self, now: u64)
        ensures
            final(self).status == old(self).status_after_fill(old(self).status),
            final(self).updated_at == now,
            final(self).id == old(self).id,
            final(self).symbol == old(self).symbol,
            final(self).order_type == old(self).order_type,
            final(self).side == old(self).side,
            final(self).price == old(self).price,
            final(self).quantity == old(self).quantity,
            final(self).filled_quantity == old(self).filled_quantity,
            final(self).created_at == old(self).created_at,
    {
        if self.status == OrderStatus::Filled || self.status == OrderStatus::Canceled {
        } else if self.is_filled() {
            self.status = OrderStatus::Filled;
        } else if self.filled_quantity > 0 {
            self.status = OrderStatus::PartiallyFilled;
        }
        self.updated_at = now;
    }
}

impl Trade {
    /// Creates a trade record.
    pub fn new(
        id: String,
        symbol: String,
        price: u64,
        quantity: u64,
        buyer_order_id: String,
        seller_order_id: String,
        now: u64,
    ) -> (r: Trade)
        ensures
            r.id == id,
            r.symbol == symbol,
            r.price == price,
            r.quantity == quantity,
            r.buyer_order_id == buyer_order_id,
            r.seller_order_id == seller_order_id,
            r.created_at == now,
    {
        Trade { id, symbol, price, quantity, buyer_order_id, seller_order_id, created_at: now }
    }

    /// Notional value of the trade, `price * quantity`, in `10^-(2*SCALE)` units.
    pub fn total_amount(&self) -> (r: u128)
        ensures
            r == self.price * self.quantity,
    {
        proof {
            vstd::arithmetic::mul::lemma_mul_upper_bound(
                self.price as int, u64::MAX as int, self.quantity as int, u64::MAX as int);
        }
        (self.price as u128) * (self.quantity as u128)
    }
}

} // verus!
