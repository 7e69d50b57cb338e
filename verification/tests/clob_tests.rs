//! Tests for the order book.

use dark_hypercore::{Order, Side, CLOB};

fn create_buy_order(id: u64, price: u64, quantity: u64) -> Order {
    Order::new(id, 100, Side::Buy, price, quantity, 0)
}

fn create_sell_order(id: u64, price: u64, quantity: u64) -> Order {
    Order::new(id, 100, Side::Sell, price, quantity, 0)
}

#[test]
fn test_clob_new() {
    let clob = CLOB::new();

    assert!(clob.is_empty());
    assert_eq!(clob.order_count(), 0);
    assert_eq!(clob.bid_count(), 0);
    assert_eq!(clob.ask_count(), 0);
    assert!(clob.best_bid().is_none());
    assert!(clob.best_ask().is_none());
}

#[test]
fn test_clob_with_capacity() {
    let clob = CLOB::with_capacity(10_000);

    assert!(clob.capacity() >= 10_000);
    assert!(clob.is_empty());
}

#[test]
fn test_clob_add_buy_order() {
    let mut clob = CLOB::with_capacity(100);

    let order = create_buy_order(1, 5_000_000_000_000, 100_000_000);
    let key = clob.add_order(order);

    assert_eq!(clob.order_count(), 1);
    assert_eq!(clob.bid_count(), 1);
    assert_eq!(clob.ask_count(), 0);
    assert_eq!(clob.best_bid(), Some(5_000_000_000_000));
    assert!(clob.best_ask().is_none());
    assert!(clob.orders().contains(key));
}

#[test]
fn test_clob_add_sell_order() {
    let mut clob = CLOB::with_capacity(100);

    let order = create_sell_order(1, 5_100_000_000_000, 100_000_000);
    clob.add_order(order);

    assert_eq!(clob.order_count(), 1);
    assert_eq!(clob.bid_count(), 0);
    assert_eq!(clob.ask_count(), 1);
    assert!(clob.best_bid().is_none());
    assert_eq!(clob.best_ask(), Some(5_100_000_000_000));
}

#[test]
fn test_clob_spread() {
    let mut clob = CLOB::with_capacity(100);

    // No spread without both sides
    assert!(clob.spread().is_none());

    clob.add_order(create_buy_order(1, 5_000_000_000_000, 100_000_000));
    assert!(clob.spread().is_none());

    clob.add_order(create_sell_order(2, 5_100_000_000_000, 100_000_000));
    assert_eq!(clob.spread(), Some(100_000_000_000)); // $1000 spread
}

#[test]
fn test_clob_bid_price_priority() {
    let mut clob = CLOB::with_capacity(100);

    // Add bids at different prices (not in order)
    clob.add_order(create_buy_order(1, 4_900_000_000_000, 100_000_000)); // 49000
    clob.add_order(create_buy_order(2, 5_100_000_000_000, 100_000_000)); // 51000
    clob.add_order(create_buy_order(3, 5_000_000_000_000, 100_000_000)); // 50000

    // Best bid should be highest price
    assert_eq!(clob.best_bid(), Some(5_100_000_000_000));
    assert_eq!(clob.bid_levels(), 3);
}

#[test]
fn test_clob_ask_price_priority() {
    let mut clob = CLOB::with_capacity(100);

    // Add asks at different prices (not in order)
    clob.add_order(create_sell_order(1, 5_200_000_000_000, 100_000_000)); // 52000
    clob.add_order(create_sell_order(2, 5_000_000_000_000, 100_000_000)); // 50000
    clob.add_order(create_sell_order(3, 5_100_000_000_000, 100_000_000)); // 51000

    // Best ask should be lowest price
    assert_eq!(clob.best_ask(), Some(5_000_000_000_000));
    assert_eq!(clob.ask_levels(), 3);
}

#[test]
fn test_clob_cancel_order() {
    let mut clob = CLOB::with_capacity(100);

    clob.add_order(create_buy_order(42, 5_000_000_000_000, 100_000_000));
    assert_eq!(clob.order_count(), 1);

    let cancelled = clob.cancel_order(42);
    assert!(cancelled.is_some());
    assert_eq!(cancelled.unwrap().id, 42);
    assert_eq!(clob.order_count(), 0);
    assert!(clob.best_bid().is_none());
}

#[test]
fn test_clob_cancel_nonexistent() {
    let mut clob = CLOB::with_capacity(100);

    let cancelled = clob.cancel_order(999);
    assert!(cancelled.is_none());
}

#[test]
fn test_clob_contains_order() {
    let mut clob = CLOB::with_capacity(100);

    assert!(!clob.contains_order(42));

    clob.add_order(create_buy_order(42, 5_000_000_000_000, 100_000_000));
    assert!(clob.contains_order(42));

    clob.cancel_order(42);
    assert!(!clob.contains_order(42));
}

#[test]
fn test_clob_multiple_orders_same_price() {
    let mut clob = CLOB::with_capacity(100);

    // Add multiple orders at the same price
    clob.add_order(create_buy_order(1, 5_000_000_000_000, 100_000_000));
    clob.add_order(create_buy_order(2, 5_000_000_000_000, 200_000_000));
    clob.add_order(create_buy_order(3, 5_000_000_000_000, 300_000_000));

    assert_eq!(clob.order_count(), 3);
    assert_eq!(clob.bid_levels(), 1); // All at same price level

    // Check total quantity at price level
    let level = clob.best_bid_level().unwrap();
    assert_eq!(level.total_quantity, 600_000_000);
    assert_eq!(level.order_count, 3);
}

#[test]
fn test_clob_auto_order_id() {
    let mut clob = CLOB::with_capacity(100);

    // Create order with id=0 (auto-assign)
    let mut order = create_buy_order(0, 5_000_000_000_000, 100_000_000);
    order.id = 0;

    clob.add_order(order);

    // Should have been assigned ID 1
    assert!(clob.contains_order(1));
    assert_eq!(clob.peek_next_order_id(), 2);
}

#[test]
fn test_clob_clear() {
    let mut clob = CLOB::with_capacity(100);

    clob.add_order(create_buy_order(1, 5_000_000_000_000, 100_000_000));
    clob.add_order(create_sell_order(2, 5_100_000_000_000, 100_000_000));

    assert_eq!(clob.order_count(), 2);

    clob.clear();

    assert!(clob.is_empty());
    assert_eq!(clob.bid_count(), 0);
    assert_eq!(clob.ask_count(), 0);
    assert!(clob.best_bid().is_none());
    assert!(clob.best_ask().is_none());
}

#[test]
fn test_clob_remove_empty_level() {
    let mut clob = CLOB::with_capacity(100);

    clob.add_order(create_buy_order(1, 5_000_000_000_000, 100_000_000));
    clob.add_order(create_buy_order(2, 4_900_000_000_000, 100_000_000));

    assert_eq!(clob.bid_levels(), 2);

    // Cancel order at best bid price
    clob.cancel_order(1);

    // Price level should be removed
    assert_eq!(clob.bid_levels(), 1);
    assert_eq!(clob.best_bid(), Some(4_900_000_000_000));
}

#[test]
fn test_clob_get_order() {
    let mut clob = CLOB::with_capacity(100);

    let order = create_buy_order(42, 5_000_000_000_000, 100_000_000);
    let key = clob.add_order(order);

    let retrieved = clob.get_order(key);
    assert!(retrieved.is_some());
    assert_eq!(retrieved.unwrap().id, 42);

    // Non-existent key
    assert!(clob.get_order(999).is_none());
}

#[test]
fn test_clob_get_key() {
    let mut clob = CLOB::with_capacity(100);

    let order = create_buy_order(42, 5_000_000_000_000, 100_000_000);
    let key = clob.add_order(order);

    assert_eq!(clob.get_key(42), Some(key));
    assert!(clob.get_key(999).is_none());
}

#[test]
fn test_clob_cancel_idempotent() {
    // cancelling an id twice leaves the book exactly as after the first
    // cancel; the second cancel reports nothing removed
    let mut clob = CLOB::with_capacity(100);
    clob.add_order(create_buy_order(1, 5_000_000_000_000, 100_000_000));
    clob.add_order(create_buy_order(2, 4_900_000_000_000, 50_000_000));

    let first = clob.cancel_order(1);
    assert!(first.is_some());
    let root_after_first = clob.compute_state_root();
    let count_after_first = clob.order_count();

    let second = clob.cancel_order(1);
    assert!(second.is_none());
    assert_eq!(clob.compute_state_root(), root_after_first);
    assert_eq!(clob.order_count(), count_after_first);
}

#[test]
fn test_clob_ids_stable_across_cancels() {
    // cancelling one order leaves every other order's id and record alone
    let mut clob = CLOB::with_capacity(100);
    clob.add_order(create_buy_order(1, 5_000_000_000_000, 100_000_000));
    clob.add_order(create_buy_order(2, 4_900_000_000_000, 50_000_000));
    clob.add_order(create_sell_order(3, 5_100_000_000_000, 25_000_000));

    clob.cancel_order(2);

    let key1 = clob.get_key(1).unwrap();
    let o1 = clob.get_order(key1).unwrap();
    assert_eq!(o1.id, 1);
    assert_eq!(o1.price, 5_000_000_000_000);
    assert_eq!(o1.remaining, 100_000_000);
    let key3 = clob.get_key(3).unwrap();
    let o3 = clob.get_order(key3).unwrap();
    assert_eq!(o3.id, 3);
    assert_eq!(o3.remaining, 25_000_000);
    assert!(!clob.contains_order(2));
}

#[test]
fn test_clob_state_root_ignores_arena_history() {
    // two books with the same resting orders have the same root, no
    // matter how their arenas were churned to get there
    let mut a = CLOB::with_capacity(100);
    a.add_order(create_buy_order(1, 5_000_000_000_000, 100_000_000));
    a.add_order(create_sell_order(2, 5_100_000_000_000, 50_000_000));

    let mut b = CLOB::with_capacity(4);
    b.add_order(create_buy_order(9, 4_000_000_000_000, 1));
    b.cancel_order(9);
    b.add_order(create_buy_order(1, 5_000_000_000_000, 100_000_000));
    b.add_order(create_sell_order(2, 5_100_000_000_000, 50_000_000));

    assert_eq!(a.compute_state_root(), b.compute_state_root());

    // and a different book differs
    let mut c = CLOB::with_capacity(100);
    c.add_order(create_buy_order(1, 5_000_000_000_000, 100_000_001));
    c.add_order(create_sell_order(2, 5_100_000_000_000, 50_000_000));
    assert_ne!(a.compute_state_root(), c.compute_state_root());
}
