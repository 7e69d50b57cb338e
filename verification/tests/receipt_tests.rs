//! Tests for execution receipts, the SHA-256 digest and hex rendering.

use dark_hypercore::codec::{decode_receipt, encode_receipt};
use dark_hypercore::ExecutionReceipt;

#[test]
fn test_receipt_new() {
    let state_root = [1u8; 32];
    let receipt = ExecutionReceipt::new(1, 1000, 500, state_root, 1703577600000);

    assert_eq!(receipt.batch_id, 1);
    assert_eq!(receipt.orders_processed, 1000);
    assert_eq!(receipt.trades_executed, 500);
    assert_eq!(receipt.state_root, state_root);
    assert_eq!(receipt.timestamp, 1703577600000);
}

#[test]
fn test_receipt_computed_root() {
    let receipt = ExecutionReceipt::with_computed_root(1, 100, 50, b"test state data", 0);

    // Verify the hash was computed
    assert_ne!(receipt.state_root, [0u8; 32]);

    // Verify it's deterministic
    let expected_hash = ExecutionReceipt::compute_hash(b"test state data");
    assert_eq!(receipt.state_root, expected_hash);
}

#[test]
fn test_receipt_hash_determinism() {
    // Same input should always produce same hash
    let hash1 = ExecutionReceipt::compute_hash(b"test data");
    let hash2 = ExecutionReceipt::compute_hash(b"test data");
    assert_eq!(hash1, hash2);

    // Different input should produce different hash
    let hash3 = ExecutionReceipt::compute_hash(b"different data");
    assert_ne!(hash1, hash3);
}

#[test]
fn test_receipt_hash_known_vector() {
    // the digest really is SHA-256: check the well-known digest of "abc"
    let hash = ExecutionReceipt::compute_hash(b"abc");
    let expected: [u8; 32] = [
        0xba, 0x78, 0x16, 0xbf, 0x8f, 0x01, 0xcf, 0xea, 0x41, 0x41, 0x40, 0xde, 0x5d, 0xae, 0x22,
        0x23, 0xb0, 0x03, 0x61, 0xa3, 0x96, 0x17, 0x7a, 0x9c, 0xb4, 0x10, 0xff, 0x61, 0xf2, 0x00,
        0x15, 0xad,
    ];
    assert_eq!(hash, expected);
}

#[test]
fn test_receipt_state_root_hex() {
    let state_root = [0xAB; 32];
    let receipt = ExecutionReceipt::new(1, 0, 0, state_root, 0);

    let hex = receipt.state_root_hex();
    assert_eq!(hex.len(), 64); // 32 bytes * 2 hex chars
    assert!(hex.chars().all(|c| c.is_ascii_hexdigit()));
    assert_eq!(hex, "ab".repeat(32));
}

#[test]
fn test_receipt_is_empty() {
    let empty = ExecutionReceipt::new(1, 0, 0, [0u8; 32], 0);
    assert!(empty.is_empty());

    let not_empty = ExecutionReceipt::new(1, 1, 0, [0u8; 32], 0);
    assert!(!not_empty.is_empty());
}

#[test]
fn test_receipt_ssz_roundtrip() {
    let receipt = ExecutionReceipt::new(1, 1000, 500, [0xAB; 32], 1703577600000);

    // Serialize
    let serialized = encode_receipt(&receipt);

    // Deserialize
    let deserialized: ExecutionReceipt = decode_receipt(&serialized).expect(
        "Failed to deserialize",
    );

    // Verify roundtrip
    assert_eq!(receipt, deserialized);
}

#[test]
fn test_receipt_deterministic_serialization() {
    let receipt = ExecutionReceipt::new(1, 1000, 500, [0xAB; 32], 1703577600000);

    let bytes1 = encode_receipt(&receipt);
    let bytes2 = encode_receipt(&receipt);

    assert_eq!(bytes1, bytes2, "serialization must be deterministic");
}

#[test]
fn test_receipt_ssz_size() {
    let receipt = ExecutionReceipt::new(1, 0, 0, [0u8; 32], 0);
    let bytes = encode_receipt(&receipt);

    // Expected size: 8 + 8 + 8 + 32 + 8 = 64 bytes
    assert_eq!(bytes.len(), 64, "ExecutionReceipt should serialize to 64 bytes");
}

#[test]
fn test_receipt_state_root_is_32_bytes() {
    let receipt = ExecutionReceipt::default();
    assert_eq!(receipt.state_root.len(), 32, "State root must be exactly 32 bytes");
}
