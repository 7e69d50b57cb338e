//! Tests for order nodes.

use dark_hypercore::{Order, OrderNode, Side};

fn create_test_order(id: u64, price: u64, quantity: u64) -> Order {
    Order::new(id, 100, Side::Buy, price, quantity, 0)
}

#[test]
fn test_order_node_new() {
    let order = create_test_order(1, 5_000_000_000_000, 100_000_000);
    let node = OrderNode::new(order.clone());

    assert_eq!(node.order, order);
    assert!(node.next.is_none());
    assert!(node.prev.is_none());
    assert!(node.is_unlinked());
}

#[test]
fn test_order_node_accessors() {
    let order = create_test_order(42, 5_000_000_000_000, 100_000_000);
    let node = OrderNode::new(order);

    assert_eq!(node.order_id(), 42);
    assert_eq!(node.price(), 5_000_000_000_000);
    assert_eq!(node.remaining(), 100_000_000);
    assert!(!node.is_filled());
}

#[test]
fn test_order_node_fill() {
    let order = create_test_order(1, 5_000_000_000_000, 100_000_000);
    let mut node = OrderNode::new(order);

    // Partial fill
    let filled = node.fill(30_000_000);
    assert_eq!(filled, 30_000_000);
    assert_eq!(node.remaining(), 70_000_000);
    assert!(!node.is_filled());

    // Complete fill
    let filled = node.fill(70_000_000);
    assert_eq!(filled, 70_000_000);
    assert_eq!(node.remaining(), 0);
    assert!(node.is_filled());
}

#[test]
fn test_order_node_linking() {
    let order = create_test_order(1, 5_000_000_000_000, 100_000_000);
    let mut node = OrderNode::new(order);

    assert!(node.is_unlinked());

    // Link to other nodes
    node.next = Some(2);
    assert!(!node.is_unlinked());

    node.prev = Some(0);
    assert!(!node.is_unlinked());

    // Only one link
    node.next = None;
    assert!(!node.is_unlinked());
}
