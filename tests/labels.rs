use trading_engine::labels::{
    order_type_label, parse_order_type_label, parse_side_label, parse_status_label, side_label, status_label,
};
use trading_engine::types::{OrderStatus, OrderType, Side};

#[test]
fn labels_are_the_variant_names() {
    assert_eq!(side_label(Side::Buy), "Buy");
    assert_eq!(side_label(Side::Sell), "Sell");
    assert_eq!(order_type_label(OrderType::Limit), "Limit");
    assert_eq!(order_type_label(OrderType::Market), "Market");
    assert_eq!(status_label(OrderStatus::Open), "Open");
    assert_eq!(status_label(OrderStatus::Filled), "Filled");
    assert_eq!(status_label(OrderStatus::Cancelled), "Cancelled");
    assert_eq!(status_label(OrderStatus::Partial), "Partial");
}

#[test]
fn labels_read_back() {
    for s in [Side::Buy, Side::Sell] {
        assert_eq!(parse_side_label(side_label(s)), Some(s));
    }
    for t in [OrderType::Limit, OrderType::Market] {
        assert_eq!(parse_order_type_label(order_type_label(t)), Some(t));
    }
    for st in [OrderStatus::Open, OrderStatus::Filled, OrderStatus::Cancelled, OrderStatus::Partial] {
        assert_eq!(parse_status_label(status_label(st)), Some(st));
    }
}

#[test]
fn unknown_labels_are_refused() {
    assert_eq!(parse_side_label("buy"), None);
    assert_eq!(parse_order_type_label("Stop"), None);
    assert_eq!(parse_status_label(""), None);
}
