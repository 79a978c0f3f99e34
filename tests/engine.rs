use trading_engine::engine::MatchingEngine;
use trading_engine::types::{MatchResult, Order, OrderStatus, OrderType, Side};

fn order(id: u128, user: &str, side: Side, order_type: OrderType, price: u64, quantity: u64) -> Order {
    Order {
        id,
        user_id: user.to_string(),
        market: "SOL-USDC".to_string(),
        side,
        order_type,
        price,
        quantity,
        filled_quantity: 0,
        status: OrderStatus::Open,
        created_at: 0,
        updated_at: 0,
    }
}

fn limit(id: u128, side: Side, price: u64, quantity: u64) -> Order {
    order(id, "alice", side, OrderType::Limit, price, quantity)
}

fn market(id: u128, side: Side, quantity: u64) -> Order {
    order(id, "bob", side, OrderType::Market, 0, quantity)
}

fn submit(engine: &mut MatchingEngine, o: Order) -> MatchResult {
    engine.process_order(o)
}

#[test]
fn limit_order_into_empty_book_rests() {
    let mut engine = MatchingEngine::new("SOL-USDC".to_string());
    let r = submit(&mut engine, limit(1, Side::Buy, 100, 10));
    assert!(r.trades.is_empty());
    assert_eq!(r.order.filled_quantity, 0);
    assert_eq!(r.order.status, OrderStatus::Open);
    let snap = engine.get_order_book_snapshot(10);
    assert_eq!(snap.bids.len(), 1);
    assert_eq!(snap.bids[0].price, 100);
    assert_eq!(snap.bids[0].total_quantity, 10);
    assert_eq!(snap.bids[0].order_count, 1);
    assert!(snap.asks.is_empty());
    assert!(engine.contains_order(1));
}

#[test]
fn partial_fill_rests_remainder() {
    let mut engine = MatchingEngine::new("SOL-USDC".to_string());
    submit(&mut engine, limit(1, Side::Sell, 100, 5));
    let r = submit(&mut engine, limit(2, Side::Buy, 100, 10));
    assert_eq!(r.trades.len(), 1);
    assert_eq!(r.trades[0].price, 100);
    assert_eq!(r.trades[0].quantity, 5);
    assert_eq!(r.trades[0].maker_order_id, 1);
    assert_eq!(r.trades[0].taker_order_id, 2);
    assert_eq!(r.trades[0].side, Side::Buy);
    assert_eq!(r.order.filled_quantity, 5);
    assert_eq!(r.order.status, OrderStatus::Open);
    let snap = engine.get_order_book_snapshot(10);
    assert!(snap.asks.is_empty());
    assert_eq!(snap.bids.len(), 1);
    assert_eq!(snap.bids[0].price, 100);
    assert_eq!(snap.bids[0].total_quantity, 5);
    assert!(!engine.contains_order(1));
    assert!(engine.contains_order(2));
}

#[test]
fn market_order_takes_level_in_arrival_order() {
    let mut engine = MatchingEngine::new("SOL-USDC".to_string());
    submit(&mut engine, limit(10, Side::Sell, 100, 3));
    submit(&mut engine, limit(11, Side::Sell, 100, 3));
    let r = submit(&mut engine, market(12, Side::Buy, 4));
    assert_eq!(r.trades.len(), 2);
    assert_eq!(r.trades[0].maker_order_id, 10);
    assert_eq!(r.trades[0].quantity, 3);
    assert_eq!(r.trades[1].maker_order_id, 11);
    assert_eq!(r.trades[1].quantity, 1);
    assert_eq!(r.order.status, OrderStatus::Filled);
    assert!(!engine.contains_order(10));
    assert!(engine.contains_order(11));
    let snap = engine.get_order_book_snapshot(10);
    assert_eq!(snap.asks.len(), 1);
    assert_eq!(snap.asks[0].order_count, 1);
    assert_eq!(snap.asks[0].total_quantity, 2);
    let rest = engine.cancel_order(11).unwrap();
    assert_eq!(rest.filled_quantity, 1);
}

#[test]
fn market_order_into_empty_book_is_cancelled() {
    let mut engine = MatchingEngine::new("SOL-USDC".to_string());
    let r = submit(&mut engine, market(1, Side::Buy, 10));
    assert!(r.trades.is_empty());
    assert_eq!(r.order.status, OrderStatus::Cancelled);
    assert_eq!(r.status, OrderStatus::Cancelled);
    assert_eq!(r.order.filled_quantity, 0);
    assert!(!engine.contains_order(1));
    let snap = engine.get_order_book_snapshot(10);
    assert!(snap.bids.is_empty());
    assert!(snap.asks.is_empty());
}

#[test]
fn market_order_partially_filled_is_cancelled() {
    let mut engine = MatchingEngine::new("SOL-USDC".to_string());
    submit(&mut engine, limit(1, Side::Buy, 90, 4));
    let r = submit(&mut engine, market(2, Side::Sell, 10));
    assert_eq!(r.trades.len(), 1);
    assert_eq!(r.trades[0].price, 90);
    assert_eq!(r.order.filled_quantity, 4);
    assert_eq!(r.order.status, OrderStatus::Cancelled);
    assert!(!engine.contains_order(2));
}

#[test]
fn cancel_twice_returns_nothing_the_second_time() {
    let mut engine = MatchingEngine::new("SOL-USDC".to_string());
    submit(&mut engine, limit(7, Side::Buy, 50, 8));
    let first = engine.cancel_order(7).unwrap();
    assert_eq!(first.id, 7);
    assert_eq!(first.status, OrderStatus::Cancelled);
    assert_eq!(first.quantity, 8);
    let snap = engine.get_order_book_snapshot(10);
    assert!(snap.bids.is_empty());
    assert!(engine.cancel_order(7).is_none());
    let snap = engine.get_order_book_snapshot(10);
    assert!(snap.bids.is_empty());
}

#[test]
fn cancel_unknown_id_changes_nothing() {
    let mut engine = MatchingEngine::new("SOL-USDC".to_string());
    submit(&mut engine, limit(1, Side::Sell, 120, 2));
    assert!(engine.cancel_order(99).is_none());
    let snap = engine.get_order_book_snapshot(10);
    assert_eq!(snap.asks.len(), 1);
    assert_eq!(snap.asks[0].total_quantity, 2);
}

#[test]
fn cancel_keeps_other_orders_of_the_level() {
    let mut engine = MatchingEngine::new("SOL-USDC".to_string());
    submit(&mut engine, limit(1, Side::Sell, 100, 2));
    submit(&mut engine, limit(2, Side::Sell, 100, 5));
    let c = engine.cancel_order(1).unwrap();
    assert_eq!(c.id, 1);
    let snap = engine.get_order_book_snapshot(10);
    assert_eq!(snap.asks.len(), 1);
    assert_eq!(snap.asks[0].order_count, 1);
    assert_eq!(snap.asks[0].total_quantity, 5);
}

#[test]
fn earlier_order_at_a_price_trades_first() {
    let mut engine = MatchingEngine::new("SOL-USDC".to_string());
    submit(&mut engine, limit(1, Side::Sell, 100, 2));
    submit(&mut engine, limit(2, Side::Sell, 101, 2));
    submit(&mut engine, limit(3, Side::Sell, 100, 2));
    let r = submit(&mut engine, limit(4, Side::Buy, 101, 5));
    let makers: Vec<u128> = r.trades.iter().map(|t| t.maker_order_id).collect();
    assert_eq!(makers, vec![1, 3, 2]);
    assert_eq!(r.trades[2].quantity, 1);
    assert_eq!(r.order.status, OrderStatus::Filled);
}

#[test]
fn buy_never_trades_above_its_limit() {
    let mut engine = MatchingEngine::new("SOL-USDC".to_string());
    submit(&mut engine, limit(1, Side::Sell, 100, 3));
    submit(&mut engine, limit(2, Side::Sell, 105, 3));
    let r = submit(&mut engine, limit(3, Side::Buy, 102, 10));
    assert_eq!(r.trades.len(), 1);
    assert!(r.trades.iter().all(|t| t.price <= 102));
    assert_eq!(r.order.filled_quantity, 3);
    let snap = engine.get_order_book_snapshot(10);
    assert_eq!(snap.bids[0].price, 102);
    assert_eq!(snap.bids[0].total_quantity, 7);
    assert_eq!(snap.asks[0].price, 105);
}

#[test]
fn sell_never_trades_below_its_limit() {
    let mut engine = MatchingEngine::new("SOL-USDC".to_string());
    submit(&mut engine, limit(1, Side::Buy, 100, 3));
    submit(&mut engine, limit(2, Side::Buy, 95, 3));
    let r = submit(&mut engine, limit(3, Side::Sell, 98, 10));
    assert_eq!(r.trades.len(), 1);
    assert_eq!(r.trades[0].price, 100);
    assert_eq!(r.order.filled_quantity, 3);
    let snap = engine.get_order_book_snapshot(10);
    assert_eq!(snap.asks[0].price, 98);
    assert_eq!(snap.bids[0].price, 95);
}

#[test]
fn market_order_walks_levels_best_price_first() {
    let mut engine = MatchingEngine::new("SOL-USDC".to_string());
    submit(&mut engine, limit(1, Side::Buy, 97, 1));
    submit(&mut engine, limit(2, Side::Buy, 99, 1));
    submit(&mut engine, limit(3, Side::Buy, 98, 1));
    let r = submit(&mut engine, market(4, Side::Sell, 3));
    let prices: Vec<u64> = r.trades.iter().map(|t| t.price).collect();
    assert_eq!(prices, vec![99, 98, 97]);
}

#[test]
fn trade_price_is_the_makers_price() {
    let mut engine = MatchingEngine::new("SOL-USDC".to_string());
    submit(&mut engine, limit(1, Side::Sell, 90, 4));
    let r = submit(&mut engine, limit(2, Side::Buy, 110, 4));
    assert_eq!(r.trades.len(), 1);
    assert_eq!(r.trades[0].price, 90);
    assert_eq!(r.trades[0].maker_user_id, "alice");
    assert_eq!(r.trades[0].taker_user_id, "alice");
    assert_eq!(r.trades[0].market, "SOL-USDC");
}

#[test]
fn filled_quantities_add_up_to_the_trades() {
    let mut engine = MatchingEngine::new("SOL-USDC".to_string());
    submit(&mut engine, limit(1, Side::Sell, 100, 2));
    submit(&mut engine, limit(2, Side::Sell, 101, 3));
    submit(&mut engine, limit(3, Side::Sell, 102, 4));
    let r = submit(&mut engine, order(4, "carol", Side::Buy, OrderType::Limit, 102, 6));
    let total: u64 = r.trades.iter().map(|t| t.quantity).sum();
    assert_eq!(total, 6);
    assert_eq!(r.order.filled_quantity, 6);
    assert!(r.trades.iter().all(|t| t.quantity > 0));
    let left = engine.cancel_order(3).unwrap();
    assert_eq!(left.filled_quantity, 1);
}

#[test]
fn emptied_levels_leave_the_book() {
    let mut engine = MatchingEngine::new("SOL-USDC".to_string());
    submit(&mut engine, limit(1, Side::Sell, 100, 2));
    submit(&mut engine, limit(2, Side::Sell, 101, 2));
    submit(&mut engine, limit(3, Side::Buy, 100, 2));
    let snap = engine.get_order_book_snapshot(10);
    assert_eq!(snap.asks.len(), 1);
    assert_eq!(snap.asks[0].price, 101);
    assert!(snap.bids.is_empty());
    assert!(snap.asks.iter().all(|l| l.order_count > 0));
}

#[test]
fn snapshot_is_truncated_and_ordered() {
    let mut engine = MatchingEngine::new("SOL-USDC".to_string());
    let mut id: u128 = 1;
    for p in [95u64, 99, 97, 96, 98] {
        submit(&mut engine, limit(id, Side::Buy, p, 1));
        id += 1;
    }
    for p in [105u64, 101, 103, 102, 104] {
        submit(&mut engine, limit(id, Side::Sell, p, 2));
        id += 1;
    }
    submit(&mut engine, limit(id, Side::Sell, 101, 3));
    let snap = engine.get_order_book_snapshot(3);
    let bids: Vec<u64> = snap.bids.iter().map(|l| l.price).collect();
    let asks: Vec<u64> = snap.asks.iter().map(|l| l.price).collect();
    assert_eq!(bids, vec![99, 98, 97]);
    assert_eq!(asks, vec![101, 102, 103]);
    assert_eq!(snap.asks[0].total_quantity, 5);
    assert_eq!(snap.asks[0].order_count, 2);
    let empty = engine.get_order_book_snapshot(0);
    assert!(empty.bids.is_empty());
    assert!(empty.asks.is_empty());
    let all = engine.get_order_book_snapshot(100);
    assert_eq!(all.bids.len(), 5);
    assert_eq!(all.asks.len(), 5);
}

#[test]
fn history_keeps_the_newest_thousand_trades() {
    let mut engine = MatchingEngine::new("SOL-USDC".to_string());
    let n: u64 = 1005;
    for k in 0..n {
        submit(&mut engine, limit(k as u128 + 1, Side::Sell, 100, 1));
    }
    for k in 0..n {
        let r = submit(&mut engine, market(10_000 + k as u128, Side::Buy, 1));
        assert_eq!(r.trades.len(), 1);
    }
    let recent = engine.get_recent_trades(1000);
    assert_eq!(recent.len(), 1000);
    assert_eq!(recent[0].taker_order_id, 10_000 + 1004);
    assert_eq!(recent[999].taker_order_id, 10_000 + 5);
    assert_eq!(recent[0].maker_order_id, 1005);
    let all = engine.get_recent_trades(5000);
    assert_eq!(all.len(), 1000);
}

#[test]
fn recent_trades_newest_first_up_to_limit() {
    let mut engine = MatchingEngine::new("SOL-USDC".to_string());
    submit(&mut engine, limit(1, Side::Sell, 100, 1));
    submit(&mut engine, limit(2, Side::Sell, 101, 1));
    submit(&mut engine, limit(3, Side::Sell, 102, 1));
    submit(&mut engine, market(4, Side::Buy, 3));
    let two = engine.get_recent_trades(2);
    assert_eq!(two.len(), 2);
    assert_eq!(two[0].price, 102);
    assert_eq!(two[1].price, 101);
    assert!(engine.get_recent_trades(0).is_empty());
    assert_eq!(engine.get_recent_trades(10).len(), 3);
    assert_ne!(two[0].id, two[1].id);
}

#[test]
fn fully_filled_limit_order_is_filled_and_absent() {
    let mut engine = MatchingEngine::new("SOL-USDC".to_string());
    submit(&mut engine, limit(1, Side::Buy, 100, 5));
    let r = submit(&mut engine, limit(2, Side::Sell, 100, 5));
    assert_eq!(r.order.status, OrderStatus::Filled);
    assert_eq!(r.status, OrderStatus::Filled);
    assert!(!engine.contains_order(2));
    assert!(!engine.contains_order(1));
    assert!(engine.cancel_order(2).is_none());
}

#[test]
fn orders_of_one_user_match_each_other() {
    let mut engine = MatchingEngine::new("SOL-USDC".to_string());
    submit(&mut engine, limit(1, Side::Sell, 100, 2));
    let r = submit(&mut engine, limit(2, Side::Buy, 100, 2));
    assert_eq!(r.trades.len(), 1);
    assert_eq!(r.trades[0].maker_user_id, r.trades[0].taker_user_id);
    assert_eq!(r.order.status, OrderStatus::Filled);
}

#[test]
fn timestamps_are_set_on_submission_and_cancel() {
    let mut engine = MatchingEngine::new("SOL-USDC".to_string());
    let r = submit(&mut engine, limit(1, Side::Buy, 100, 2));
    assert!(r.order.updated_at > 0);
    assert_eq!(r.order.created_at, 0);
    let c = engine.cancel_order(1).unwrap();
    assert!(c.updated_at >= r.order.updated_at);
}
