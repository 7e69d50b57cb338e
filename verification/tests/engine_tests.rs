//! End-to-end matching engine scenarios.

use dark_hypercore::{MatchingEngine, Order, Side, CLOB};

fn sell(id: u64, user: u64, price: u64, qty: u64, ts: u64) -> Order {
    Order::new(id, user, Side::Sell, price, qty, ts)
}

fn buy(id: u64, user: u64, price: u64, qty: u64, ts: u64) -> Order {
    Order::new(id, user, Side::Buy, price, qty, ts)
}

#[test]
fn scenario_full_match_single_level() {
    // Seed empty book, rest one sell, match an equal buy: one trade at the
    // maker's price, both orders gone
    let mut clob = CLOB::with_capacity(16);
    let mut engine = MatchingEngine::new();

    clob.add_order(sell(1, 100, 5_000_000_000_000, 100_000_000, 0));
    let result = engine.match_order(&mut clob, buy(2, 200, 5_000_000_000_000, 100_000_000, 1), 1);

    assert!(result.fully_filled);
    assert_eq!(result.executed_quantity, 100_000_000);
    assert_eq!(result.trades.len(), 1);
    let t = &result.trades[0];
    assert_eq!(t.id, 1);
    assert_eq!(t.maker_order_id, 1);
    assert_eq!(t.taker_order_id, 2);
    assert_eq!(t.maker_user_id, 100);
    assert_eq!(t.taker_user_id, 200);
    assert_eq!(t.price, 5_000_000_000_000);
    assert_eq!(t.quantity, 100_000_000);
    assert_eq!(t.timestamp, 1);
    assert_eq!(clob.order_count(), 0);
    assert!(clob.best_bid().is_none());
    assert!(clob.best_ask().is_none());
}

#[test]
fn scenario_partial_fill_residual_rests() {
    // A smaller buy leaves the sell resting with the difference
    let mut clob = CLOB::with_capacity(16);
    let mut engine = MatchingEngine::new();

    clob.add_order(sell(1, 100, 5_000_000_000_000, 100_000_000, 0));
    let result = engine.match_order(&mut clob, buy(2, 200, 5_000_000_000_000, 30_000_000, 1), 1);

    assert!(result.fully_filled);
    assert_eq!(result.trades.len(), 1);
    assert_eq!(result.trades[0].quantity, 30_000_000);
    assert_eq!(result.trades[0].price, 5_000_000_000_000);
    assert!(clob.contains_order(1));
    let key = clob.get_key(1).unwrap();
    assert_eq!(clob.get_order(key).unwrap().remaining, 70_000_000);
    assert_eq!(clob.best_ask(), Some(5_000_000_000_000));
    assert_eq!(clob.ask_count(), 1);
}

#[test]
fn scenario_sweep_multiple_levels() {
    // A buy crossing three ask levels sweeps them best price first
    let mut clob = CLOB::with_capacity(16);
    let mut engine = MatchingEngine::new();

    clob.add_order(sell(1, 100, 5_000_000_000_000, 10_000_000, 0));
    clob.add_order(sell(2, 100, 5_001_000_000_000, 10_000_000, 0));
    clob.add_order(sell(3, 100, 5_002_000_000_000, 10_000_000, 0));

    let result = engine.match_order(&mut clob, buy(10, 200, 5_002_000_000_000, 25_000_000, 1), 1);

    assert!(result.fully_filled);
    assert_eq!(result.trades.len(), 3);
    assert_eq!(result.trades[0].price, 5_000_000_000_000);
    assert_eq!(result.trades[0].quantity, 10_000_000);
    assert_eq!(result.trades[1].price, 5_001_000_000_000);
    assert_eq!(result.trades[1].quantity, 10_000_000);
    assert_eq!(result.trades[2].price, 5_002_000_000_000);
    assert_eq!(result.trades[2].quantity, 5_000_000);
    assert_eq!(result.trades[0].id, 1);
    assert_eq!(result.trades[1].id, 2);
    assert_eq!(result.trades[2].id, 3);
    assert!(clob.contains_order(3));
    let key = clob.get_key(3).unwrap();
    assert_eq!(clob.get_order(key).unwrap().remaining, 5_000_000);
    assert!(!clob.contains_order(1));
    assert!(!clob.contains_order(2));
}

#[test]
fn scenario_fifo_within_level() {
    // Two sells at one price: the older fills first, the newer keeps the
    // residual
    let p = 5_000_000_000_000;
    let mut clob = CLOB::with_capacity(16);
    let mut engine = MatchingEngine::new();

    clob.add_order(sell(1, 100, p, 10_000_000, 0));
    clob.add_order(sell(2, 101, p, 10_000_000, 1));

    let result = engine.match_order(&mut clob, buy(10, 200, p, 12_000_000, 2), 2);

    assert!(result.fully_filled);
    assert_eq!(result.trades.len(), 2);
    assert_eq!(result.trades[0].maker_order_id, 1);
    assert_eq!(result.trades[0].quantity, 10_000_000);
    assert_eq!(result.trades[1].maker_order_id, 2);
    assert_eq!(result.trades[1].quantity, 2_000_000);
    assert!(!clob.contains_order(1));
    assert!(clob.contains_order(2));
    let key = clob.get_key(2).unwrap();
    assert_eq!(clob.get_order(key).unwrap().remaining, 8_000_000);
}

#[test]
fn scenario_no_match_rests_on_book() {
    // A buy below the best ask rests; the book shows both sides and the
    // spread
    let mut clob = CLOB::with_capacity(16);
    let mut engine = MatchingEngine::new();

    clob.add_order(sell(1, 100, 5_100_000_000_000, 100_000_000, 0));
    let result = engine.match_order(&mut clob, buy(2, 200, 5_000_000_000_000, 100_000_000, 1), 1);

    assert!(result.trades.is_empty());
    assert!(!result.fully_filled);
    assert!(result.resting_handle.is_some());
    assert_eq!(clob.best_bid(), Some(5_000_000_000_000));
    assert_eq!(clob.best_ask(), Some(5_100_000_000_000));
    assert_eq!(clob.spread(), Some(100_000_000_000));
    assert_eq!(clob.order_count(), 2);
}

#[test]
fn scenario_zero_quantity_order() {
    // A zero-quantity order trades nothing, rests nowhere, and counts as
    // fully filled
    let mut clob = CLOB::with_capacity(16);
    let mut engine = MatchingEngine::new();

    clob.add_order(sell(1, 100, 5_000_000_000_000, 100_000_000, 0));
    let root_before = clob.compute_state_root();
    let result = engine.match_order(&mut clob, buy(2, 200, 5_000_000_000_000, 0, 1), 1);

    assert!(result.trades.is_empty());
    assert!(result.fully_filled);
    assert_eq!(result.executed_quantity, 0);
    assert!(result.resting_handle.is_none());
    assert_eq!(clob.compute_state_root(), root_before);
}

#[test]
fn scenario_sell_sweeps_bids() {
    // The symmetric case: a sell sweeps bids from the highest price down
    let mut clob = CLOB::with_capacity(16);
    let mut engine = MatchingEngine::new();

    clob.add_order(buy(1, 100, 5_002_000_000_000, 10_000_000, 0));
    clob.add_order(buy(2, 100, 5_001_000_000_000, 10_000_000, 0));
    clob.add_order(buy(3, 100, 5_000_000_000_000, 10_000_000, 0));

    let result = engine.match_order(&mut clob, sell(10, 200, 5_000_000_000_000, 25_000_000, 1), 1);

    assert!(result.fully_filled);
    assert_eq!(result.trades.len(), 3);
    // prices non-increasing for a sell
    assert_eq!(result.trades[0].price, 5_002_000_000_000);
    assert_eq!(result.trades[1].price, 5_001_000_000_000);
    assert_eq!(result.trades[2].price, 5_000_000_000_000);
    assert_eq!(result.trades[2].quantity, 5_000_000);
}

#[test]
fn scenario_balance_of_quantities() {
    // executed quantity equals the sum of trade quantities, and fills are
    // mirrored on makers and taker alike
    let mut clob = CLOB::with_capacity(16);
    let mut engine = MatchingEngine::new();

    clob.add_order(sell(1, 100, 5_000_000_000_000, 7_000_000, 0));
    clob.add_order(sell(2, 100, 5_000_500_000_000, 9_000_000, 0));

    let result = engine.match_order(&mut clob, buy(10, 200, 5_001_000_000_000, 20_000_000, 1), 1);

    let total: u64 = result.trades.iter().map(|t| t.quantity).sum();
    assert_eq!(result.executed_quantity, total);
    assert_eq!(total, 16_000_000);
    assert!(!result.fully_filled);
    // the taker's residual rests with the unexecuted difference
    let key = result.resting_handle.unwrap();
    assert_eq!(clob.get_order(key).unwrap().remaining, 4_000_000);
}

#[test]
fn scenario_self_trade_allowed() {
    // the same user on both sides matches normally
    let mut clob = CLOB::with_capacity(16);
    let mut engine = MatchingEngine::new();

    clob.add_order(sell(1, 100, 5_000_000_000_000, 10_000_000, 0));
    let result = engine.match_order(&mut clob, buy(2, 100, 5_000_000_000_000, 10_000_000, 1), 1);

    assert_eq!(result.trades.len(), 1);
    assert_eq!(result.trades[0].maker_user_id, 100);
    assert_eq!(result.trades[0].taker_user_id, 100);
}

#[test]
fn scenario_no_crossed_book_after_operations() {
    // after a run of mixed operations, best_ask > best_bid whenever both
    // sides rest
    let mut clob = CLOB::with_capacity(64);
    let mut engine = MatchingEngine::new();

    let prices = [
        5_000_000_000_000u64,
        5_001_000_000_000,
        4_999_000_000_000,
        5_002_000_000_000,
        4_998_000_000_000,
    ];
    let mut id = 1u64;
    for (i, p) in prices.iter().enumerate() {
        let side = if i % 2 == 0 { Side::Buy } else { Side::Sell };
        let o = Order::new(id, 7, side, *p, 5_000_000, i as u64);
        engine.match_order(&mut clob, o, i as u64);
        id += 1;
        if let (Some(bid), Some(ask)) = (clob.best_bid(), clob.best_ask()) {
            assert!(ask > bid, "crossed book: bid {} ask {}", bid, ask);
        }
    }
    clob.cancel_order(2);
    if let (Some(bid), Some(ask)) = (clob.best_bid(), clob.best_ask()) {
        assert!(ask > bid);
    }
}
