//! Determinism: identical command sequences give identical state roots.

use dark_hypercore::codec::encode_trade;
use dark_hypercore::{MatchingEngine, Order, Side, CLOB};
use rand::{Rng, SeedableRng};
use rand_chacha::ChaCha8Rng;

/// Generate deterministic orders for stress testing.
///
/// Uses a seeded RNG for reproducibility. Same seed = same orders.
fn generate_deterministic_orders(count: usize, seed: u64) -> Vec<Order> {
    let mut rng = ChaCha8Rng::seed_from_u64(seed);
    let mut orders = Vec::with_capacity(count);

    // Base price: 50000.00000000 (in fixed-point, 10^8 scale)
    let base_price: u64 = 5_000_000_000_000;

    for i in 0..count {
        let is_buy = rng.gen_bool(0.5);

        // Price variation: +/-1000.00000000 (in fixed-point)
        let price_offset: i64 = rng.gen_range(-100_000_000_000i64..=100_000_000_000i64);
        let price = (base_price as i64 + price_offset) as u64;

        // Quantity: 0.001 to 1.0 (in fixed-point)
        let quantity: u64 = rng.gen_range(100_000..=100_000_000);

        let user_id: u64 = rng.gen_range(1..=10_000);

        let order = Order::new(
            (i + 1) as u64,
            user_id,
            if is_buy { Side::Buy } else { Side::Sell },
            price,
            quantity,
            i as u64,
        );

        orders.push(order);
    }

    orders
}

/// Run a deterministic order sequence and return the final state root.
fn run_deterministic_sequence(seed: u64, count: usize) -> [u8; 32] {
    let orders = generate_deterministic_orders(count, seed);

    let mut clob = CLOB::with_capacity(count * 2);
    let mut engine = MatchingEngine::new();

    for order in orders {
        engine.match_order(&mut clob, order, 0);
    }

    clob.compute_state_root()
}

/// Verify determinism: Same sequence produces identical state root.
///
/// This is critical for consensus - all nodes must produce the same
/// final state given the same input sequence.
#[test]
fn verify_determinism() {
    const TEST_COUNT: usize = 10_000;
    const SEED: u64 = 12345;

    // Run sequence twice
    let root1 = run_deterministic_sequence(SEED, TEST_COUNT);
    let root2 = run_deterministic_sequence(SEED, TEST_COUNT);

    // Verify identical
    assert_eq!(root1, root2, "State roots must match for determinism");

    // Also verify different seeds produce different roots
    let root3 = run_deterministic_sequence(SEED + 1, TEST_COUNT);
    assert_ne!(root1, root3, "Different seeds should produce different roots");
}

/// Trade streams are identical byte for byte across two runs.
#[test]
fn verify_trade_stream_determinism() {
    let run = || -> Vec<u8> {
        let orders = generate_deterministic_orders(2_000, 777);
        let mut clob = CLOB::with_capacity(4_096);
        let mut engine = MatchingEngine::new();
        let mut bytes = Vec::new();
        for order in orders {
            let result = engine.match_order(&mut clob, order, 0);
            for t in &result.trades {
                bytes.extend_from_slice(&encode_trade(t));
            }
        }
        bytes
    };
    assert_eq!(run(), run());
}
