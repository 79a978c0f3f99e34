use vstd::prelude::*;

verus! {

/// The side of the book an order belongs to.
#[derive(Clone, Copy, Debug, PartialEq, Eq, Structural)]
pub enum Side {
    Buy,
    Sell,
}

/// Whether an order is bounded by its price or takes any available price.
#[derive(Clone, Copy, Debug, PartialEq, Eq, Structural)]
pub enum OrderType {
    Limit,
    Market,
}

/// Life-cycle state of an order.
#[derive(Clone, Copy, Debug, PartialEq, Eq, Structural)]
pub enum OrderStatus {
    Open,
    Filled,
    Cancelled,
    Partial,
}

/// An instruction to trade. Identifiers are 128-bit values (the bits of a
/// UUID); timestamps are milliseconds since the Unix epoch.
#[derive(Debug)]
pub struct Order {
    pub id: u128,
    pub user_id: String,
    pub market: String,
    pub side: Side,
    pub order_type: OrderType,
    pub price: u64,
    pub quantity: u64,
    pub filled_quantity: u64,
    pub status: OrderStatus,
    pub created_at: i64,
    pub updated_at: i64,
}

impl Order {
    /// Quantity still open for matching.
    pub open spec fn remaining(self) -> int {
        self.quantity - self.filled_quantity
    }

    /// A field-by-field copy.
    pub fn duplicate(&self) -> (r: Order)
        ensures
            r == *self,
    {
        let user_id = self.user_id.clone();
        let market = self.market.clone();
        proof {
            assert(user_id == self.user_id);
            assert(market == self.market);
        }
        Order {
            id: self.id,
            user_id,
            market,
            side: self.side,
            order_type: self.order_type,
            price: self.price,
            quantity: self.quantity,
            filled_quantity: self.filled_quantity,
            status: self.status,
            created_at: self.created_at,
            updated_at: self.updated_at,
        }
    }
}

/// An immutable record of one match between a resting (maker) order and an
/// incoming (taker) order.
#[derive(Debug)]
pub struct Trade {
    pub id: u128,
    pub market: String,
    pub maker_order_id: u128,
    pub taker_order_id: u128,
    pub maker_user_id: String,
    pub taker_user_id: String,
    pub price: u64,
    pub quantity: u64,
    pub side: Side,
    pub timestamp: i64,
}

impl Trade {
    /// A field-by-field copy.
    pub fn duplicate(&self) -> (r: Trade)
        ensures
            r == *self,
    {
        let market = self.market.clone();
        let maker_user_id = self.maker_user_id.clone();
        let taker_user_id = self.taker_user_id.clone();
        Trade {
            id: self.id,
            market,
            maker_order_id: self.maker_order_id,
            taker_order_id: self.taker_order_id,
            maker_user_id,
            taker_user_id,
            price: self.price,
            quantity: self.quantity,
            side: self.side,
            timestamp: self.timestamp,
        }
    }
}

/// The outcome of submitting an order: the order after matching and the
/// trades it produced, in execution order.
#[derive(Debug)]
pub struct MatchResult {
    pub order: Order,
    pub trades: Vec<Trade>,
    pub status: OrderStatus,
}

/// Aggregate of the resting orders at one price.
#[derive(Clone, Copy, Debug, PartialEq, Eq, Structural)]
pub struct PriceLevel {
    pub price: u64,
    pub total_quantity: u64,
    pub order_count: usize,
}

/// Bids by descending price and asks by ascending price.
#[derive(Debug)]
pub struct OrderBookSnapshot {
    pub bids: Vec<PriceLevel>,
    pub asks: Vec<PriceLevel>,
}

/// Funds of a user in one asset.
#[derive(Clone, Copy, Debug, PartialEq, Eq, Structural)]
pub struct Balance {
    pub available: u64,
    pub locked: u64,
}

} // verus!
