//! Tests for sides, order types and order records.

use dark_hypercore::{Order, OrderType, Side};
use dark_hypercore::codec::{decode_order, encode_order};

#[test]
fn test_side_conversion() {
    assert_eq!(Side::Buy.to_u8(), 0);
    assert_eq!(Side::Sell.to_u8(), 1);
    assert_eq!(Side::from_u8(0), Some(Side::Buy));
    assert_eq!(Side::from_u8(1), Some(Side::Sell));
    assert_eq!(Side::from_u8(2), None);
}

#[test]
fn test_side_opposite() {
    assert_eq!(Side::Buy.opposite(), Side::Sell);
    assert_eq!(Side::Sell.opposite(), Side::Buy);
}

#[test]
fn test_order_type_conversion() {
    assert_eq!(OrderType::Limit.to_u8(), 0);
    assert_eq!(OrderType::from_u8(0), Some(OrderType::Limit));
    assert_eq!(OrderType::from_u8(1), None);
}

#[test]
fn test_order_new() {
    let order = Order::new(1, 100, Side::Buy, 5_000_000_000_000, 100_000_000, 1703577600000);

    assert_eq!(order.id, 1);
    assert_eq!(order.user_id, 100);
    assert_eq!(order.side(), Side::Buy);
    assert_eq!(order.price, 5_000_000_000_000);
    assert_eq!(order.quantity, 100_000_000);
    assert_eq!(order.remaining, 100_000_000);
    assert_eq!(order.order_type(), OrderType::Limit);
    assert!(!order.is_filled());
}

#[test]
fn test_order_fill() {
    let mut order = Order::new(1, 100, Side::Buy, 5_000_000_000_000, 100_000_000, 0);

    // Partial fill
    let filled = order.fill(30_000_000);
    assert_eq!(filled, 30_000_000);
    assert_eq!(order.remaining, 70_000_000);
    assert_eq!(order.filled_quantity(), 30_000_000);
    assert!(!order.is_filled());

    // Fill the rest
    let filled = order.fill(70_000_000);
    assert_eq!(filled, 70_000_000);
    assert_eq!(order.remaining, 0);
    assert!(order.is_filled());
}

#[test]
fn test_order_overfill() {
    let mut order = Order::new(1, 100, Side::Buy, 5_000_000_000_000, 100_000_000, 0);

    // Try to fill more than available
    let filled = order.fill(200_000_000);
    assert_eq!(filled, 100_000_000); // Only fills what's available
    assert_eq!(order.remaining, 0);
    assert!(order.is_filled());
}

#[test]
fn test_order_ssz_roundtrip() {
    let order = Order::new(1, 100, Side::Buy, 5_000_000_000_000, 100_000_000, 1703577600000);

    // Serialize
    let serialized = encode_order(&order);

    // Deserialize
    let deserialized: Order = decode_order(&serialized).expect("Failed to deserialize");

    // Verify roundtrip
    assert_eq!(order, deserialized);
}

#[test]
fn test_order_deterministic_serialization() {
    // Same order should always produce identical bytes
    let order = Order::new(1, 100, Side::Buy, 5_000_000_000_000, 100_000_000, 1703577600000);

    let bytes1 = encode_order(&order);
    let bytes2 = encode_order(&order);

    assert_eq!(bytes1, bytes2, "serialization must be deterministic");
}

#[test]
fn test_order_ssz_size() {
    let order = Order::new(1, 100, Side::Buy, 5_000_000_000_000, 100_000_000, 0);
    let bytes = encode_order(&order);

    // Expected size: 8+8+1+8+8+8+8+1 = 50 bytes
    assert_eq!(bytes.len(), 50, "Order should serialize to 50 bytes");
}

#[test]
fn test_order_wire_layout() {
    // the 50-byte record is little-endian field concatenation
    let order = Order::new(0x0102030405060708, 0x1112131415161718, Side::Sell, 1, 2, 3);
    let bytes = encode_order(&order);
    assert_eq!(&bytes[0..8], &[0x08, 0x07, 0x06, 0x05, 0x04, 0x03, 0x02, 0x01]);
    assert_eq!(&bytes[8..16], &[0x18, 0x17, 0x16, 0x15, 0x14, 0x13, 0x12, 0x11]);
    assert_eq!(bytes[16], 1); // Sell
    assert_eq!(&bytes[17..25], &[1, 0, 0, 0, 0, 0, 0, 0]);
    assert_eq!(&bytes[25..33], &[2, 0, 0, 0, 0, 0, 0, 0]);
    assert_eq!(&bytes[33..41], &[2, 0, 0, 0, 0, 0, 0, 0]); // remaining == quantity
    assert_eq!(&bytes[41..49], &[3, 0, 0, 0, 0, 0, 0, 0]);
    assert_eq!(bytes[49], 0); // Limit
}

#[test]
fn test_decode_order_rejects_wrong_length() {
    assert!(decode_order(&[0u8; 49]).is_none());
    assert!(decode_order(&[0u8; 51]).is_none());
    assert!(decode_order(&[]).is_none());
}
