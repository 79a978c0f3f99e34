use vstd::prelude::*;

use crate::types::{Order, OrderStatus, OrderType, Side};

verus! {

/// An order placement as a client sends it; `side` is `"buy"` or `"sell"`.
pub struct PlaceOrderRequest {
    pub user_id: String,
    pub market: String,
    pub side: String,
    pub price: u64,
    pub quantity: u64,
}

/// Why an order placement is refused before it reaches the engine.
#[derive(Clone, Copy, Debug, PartialEq, Eq, Structural)]
pub enum OrderError {
    /// The side is neither `"buy"` nor `"sell"`.
    InvalidSide,
    /// The price or the quantity is zero.
    InvalidPriceOrQuantity,
}

/// The side that a client's side word names.
pub open spec fn side_named(s: Seq<char>) -> Option<Side> {
    if s == "buy"@ {
        Some(Side::Buy)
    } else if s == "sell"@ {
        Some(Side::Sell)
    } else {
        None
    }
}

/// Reads a client's side word.
pub fn parse_side(s: &str) -> (r: Option<Side>)
    ensures
        r == side_named(s@),
{
    let word = s.to_owned();
    let buy = "buy".to_owned();
    let sell = "sell".to_owned();
    proof {
        reveal_strlit("buy");
        reveal_strlit("sell");
    }
    if word == buy {
        Some(Side::Buy)
    } else if word == sell {
        Some(Side::Sell)
    } else {
        None
    }
}

/// A fresh open limit order with identifier `id`, created at `now`; refused
/// when the price or the quantity is zero.
pub fn new_limit_order(
    id: u128,
    user_id: String,
    market: String,
    side: Side,
    price: u64,
    quantity: u64,
    now: i64,
) -> (r: Result<Order, OrderError>)
    ensures
        r == new_limit_order_spec(id, user_id, market, side, price, quantity, now),
{
    if price == 0 || quantity == 0 {
        return Err(OrderError::InvalidPriceOrQuantity);
    }
    Ok(
        Order {
            id,
            user_id,
            market,
            side,
            order_type: OrderType::Limit,
            price,
            quantity,
            filled_quantity: 0,
            status: OrderStatus::Open,
            created_at: now,
            updated_at: now,
        },
    )
}

impl PlaceOrderRequest {
    /// The limit order this request asks for, with identifier `id` and
    /// creation time `now`, or why it is refused.
    pub fn to_order(self, id: u128, now: i64) -> (r: Result<Order, OrderError>)
        ensures
            side_named(self.side@) is None ==> r == Err::<Order, OrderError>(OrderError::InvalidSide),
            side_named(self.side@) is Some ==> r == new_limit_order_spec(
                id,
                self.user_id,
                self.market,
                side_named(self.side@)->0,
                self.price,
                self.quantity,
                now,
            ),
    {
        match parse_side(self.side.as_str()) {
            None => Err(OrderError::InvalidSide),
            Some(side) => new_limit_order(id, self.user_id, self.market, side, self.price, self.quantity, now),
        }
    }
}

/// What `new_limit_order` returns.
pub open spec fn new_limit_order_spec(
    id: u128,
    user_id: String,
    market: String,
    side: Side,
    price: u64,
    quantity: u64,
    now: i64,
) -> Result<Order, OrderError> {
    if price == 0 || quantity == 0 {
        Err(OrderError::InvalidPriceOrQuantity)
    } else {
        Ok(
            Order {
                id,
                user_id,
                market,
                side,
                order_type: OrderType::Limit,
                price,
                quantity,
                filled_quantity: 0,
                status: OrderStatus::Open,
                created_at: now,
                updated_at: now,
            },
        )
    }
}

} // verus!
