use vstd::prelude::*;

use crate::types::{OrderStatus, OrderType, Side};

verus! {

/// The stored text of a side.
pub open spec fn side_text(s: Side) -> Seq<char> {
    match s {
        Side::Buy => "Buy"@,
        Side::Sell => "Sell"@,
    }
}

/// The stored text of an order type.
pub open spec fn order_type_text(t: OrderType) -> Seq<char> {
    match t {
        OrderType::Limit => "Limit"@,
        OrderType::Market => "Market"@,
    }
}

/// The stored text of an order status.
pub open spec fn status_text(s: OrderStatus) -> Seq<char> {
    match s {
        OrderStatus::Open => "Open"@,
        OrderStatus::Filled => "Filled"@,
        OrderStatus::Cancelled => "Cancelled"@,
        OrderStatus::Partial => "Partial"@,
    }
}

pub fn side_label(s: Side) -> (r: &'static str)
    ensures
        r@ == side_text(s),
{
    proof {
        reveal_strlit("Buy");
        reveal_strlit("Sell");
    }
    match s {
        Side::Buy => "Buy",
        Side::Sell => "Sell",
    }
}

pub fn order_type_label(t: OrderType) -> (r: &'static str)
    ensures
        r@ == order_type_text(t),
{
    proof {
        reveal_strlit("Limit");
        reveal_strlit("Market");
    }
    match t {
        OrderType::Limit => "Limit",
        OrderType::Market => "Market",
    }
}

pub fn status_label(s: OrderStatus) -> (r: &'static str)
    ensures
        r@ == status_text(s),
{
    proof {
        reveal_strlit("Open");
        reveal_strlit("Filled");
        reveal_strlit("Cancelled");
        reveal_strlit("Partial");
    }
    match s {
        OrderStatus::Open => "Open",
        OrderStatus::Filled => "Filled",
        OrderStatus::Cancelled => "Cancelled",
        OrderStatus::Partial => "Partial",
    }
}

/// Reads a stored side; `None` for any other text.
pub fn parse_side_label(s: &str) -> (r: Option<Side>)
    ensures
        r is Some <==> (s@ == side_text(Side::Buy) || s@ == side_text(Side::Sell)),
        r is Some ==> side_text(r->0) == s@,
{
    let word = s.to_owned();
    if word == "Buy".to_owned() {
        proof {
            reveal_strlit("Buy");
        }
        Some(Side::Buy)
    } else if word == "Sell".to_owned() {
        proof {
            reveal_strlit("Sell");
        }
        Some(Side::Sell)
    } else {
        proof {
            reveal_strlit("Buy");
            reveal_strlit("Sell");
        }
        None
    }
}

/// Reads a stored order type; `None` for any other text.
pub fn parse_order_type_label(s: &str) -> (r: Option<OrderType>)
    ensures
        r is Some <==> (s@ == order_type_text(OrderType::Limit) || s@ == order_type_text(OrderType::Market)),
        r is Some ==> order_type_text(r->0) == s@,
{
    let word = s.to_owned();
    proof {
        reveal_strlit("Limit");
        reveal_strlit("Market");
    }
    if word == "Limit".to_owned() {
        Some(OrderType::Limit)
    } else if word == "Market".to_owned() {
        Some(OrderType::Market)
    } else {
        None
    }
}

/// Reads a stored order status; `None` for any other text.
pub fn parse_status_label(s: &str) -> (r: Option<OrderStatus>)
    ensures
        r is Some <==> (s@ == status_text(OrderStatus::Open) || s@ == status_text(OrderStatus::Filled) || s@
            == status_text(OrderStatus::Cancelled) || s@ == status_text(OrderStatus::Partial)),
        r is Some ==> status_text(r->0) == s@,
{
    let word = s.to_owned();
    proof {
        reveal_strlit("Open");
        reveal_strlit("Filled");
        reveal_strlit("Cancelled");
        reveal_strlit("Partial");
    }
    if word == "Open".to_owned() {
        Some(OrderStatus::Open)
    } else if word == "Filled".to_owned() {
        Some(OrderStatus::Filled)
    } else if word == "Cancelled".to_owned() {
        Some(OrderStatus::Cancelled)
    } else if word == "Partial".to_owned() {
        Some(OrderStatus::Partial)
    } else {
        None
    }
}

} // verus!
