//! Tests for trade records.

use dark_hypercore::codec::{decode_trade, encode_trade};
use dark_hypercore::Trade;

#[test]
fn test_trade_new() {
    let trade = Trade::new(1, 100, 200, 10, 20, 5_000_000_000_000, 50_000_000, 1703577600000);

    assert_eq!(trade.id, 1);
    assert_eq!(trade.maker_order_id, 100);
    assert_eq!(trade.taker_order_id, 200);
    assert_eq!(trade.maker_user_id, 10);
    assert_eq!(trade.taker_user_id, 20);
    assert_eq!(trade.price, 5_000_000_000_000);
    assert_eq!(trade.quantity, 50_000_000);
    assert_eq!(trade.timestamp, 1703577600000);
}

#[test]
fn test_trade_notional() {
    let trade = Trade::new(1, 100, 200, 10, 20, 5_000_000_000_000, 100_000_000, 0);

    // Notional = 50000 * 1 = 50000
    // In raw form: 5_000_000_000_000 * 100_000_000 = 500_000_000_000_000_000_000
    let expected = 5_000_000_000_000u128 * 100_000_000u128;
    assert_eq!(trade.notional_raw(), expected);
}

#[test]
fn test_trade_ssz_roundtrip() {
    let trade = Trade::new(1, 100, 200, 10, 20, 5_000_000_000_000, 50_000_000, 1703577600000);

    // Serialize
    let serialized = encode_trade(&trade);

    // Deserialize
    let deserialized: Trade = decode_trade(&serialized).expect("Failed to deserialize");

    // Verify roundtrip
    assert_eq!(trade, deserialized);
}

#[test]
fn test_trade_deterministic_serialization() {
    let trade = Trade::new(1, 100, 200, 10, 20, 5_000_000_000_000, 50_000_000, 1703577600000);

    let bytes1 = encode_trade(&trade);
    let bytes2 = encode_trade(&trade);

    assert_eq!(bytes1, bytes2, "serialization must be deterministic");
}

#[test]
fn test_trade_ssz_size() {
    let trade = Trade::new(1, 100, 200, 10, 20, 5_000_000_000_000, 50_000_000, 0);
    let bytes = encode_trade(&trade);

    // Expected size: 8 fields * 8 bytes = 64 bytes
    assert_eq!(bytes.len(), 64, "Trade should serialize to 64 bytes");
}

#[test]
fn test_decode_trade_rejects_wrong_length() {
    assert!(decode_trade(&[0u8; 63]).is_none());
    assert!(decode_trade(&[0u8; 65]).is_none());
}
