use trading_engine::requests::{new_limit_order, parse_side, OrderError, PlaceOrderRequest};
use trading_engine::types::{OrderStatus, OrderType, Side};

#[test]
fn side_words() {
    assert_eq!(parse_side("buy"), Some(Side::Buy));
    assert_eq!(parse_side("sell"), Some(Side::Sell));
    assert_eq!(parse_side("Buy"), None);
    assert_eq!(parse_side(""), None);
}

#[test]
fn zero_price_or_quantity_is_refused() {
    let e = new_limit_order(1, "u".to_string(), "m".to_string(), Side::Buy, 0, 5, 7).unwrap_err();
    assert_eq!(e, OrderError::InvalidPriceOrQuantity);
    let e = new_limit_order(1, "u".to_string(), "m".to_string(), Side::Buy, 5, 0, 7).unwrap_err();
    assert_eq!(e, OrderError::InvalidPriceOrQuantity);
}

#[test]
fn valid_limit_order_is_built() {
    let o = new_limit_order(9, "u".to_string(), "m".to_string(), Side::Sell, 5, 6, 7).unwrap();
    assert_eq!(o.id, 9);
    assert_eq!(o.user_id, "u");
    assert_eq!(o.market, "m");
    assert_eq!(o.side, Side::Sell);
    assert_eq!(o.order_type, OrderType::Limit);
    assert_eq!(o.price, 5);
    assert_eq!(o.quantity, 6);
    assert_eq!(o.filled_quantity, 0);
    assert_eq!(o.status, OrderStatus::Open);
    assert_eq!(o.created_at, 7);
    assert_eq!(o.updated_at, 7);
}

#[test]
fn request_with_unknown_side_is_refused() {
    let req = PlaceOrderRequest {
        user_id: "u".to_string(),
        market: "m".to_string(),
        side: "hold".to_string(),
        price: 10,
        quantity: 1,
    };
    assert_eq!(req.to_order(1, 0).unwrap_err(), OrderError::InvalidSide);
}

#[test]
fn request_becomes_limit_order() {
    let req = PlaceOrderRequest {
        user_id: "u".to_string(),
        market: "m".to_string(),
        side: "buy".to_string(),
        price: 10,
        quantity: 3,
    };
    let o = req.to_order(4, 11).unwrap();
    assert_eq!(o.id, 4);
    assert_eq!(o.side, Side::Buy);
    assert_eq!(o.price, 10);
    assert_eq!(o.quantity, 3);
    assert_eq!(o.created_at, 11);
}
