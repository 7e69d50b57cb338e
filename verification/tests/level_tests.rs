//! Tests for price levels and their FIFO queues.

use dark_hypercore::{Order, OrderNode, PriceLevel, Side};
use slab::Slab;

fn create_test_node(slab: &mut Slab<OrderNode>, id: u64, quantity: u64) -> usize {
    let order = Order::new(id, 100, Side::Buy, 5_000_000_000_000, quantity, 0);
    slab.insert(OrderNode::new(order))
}

#[test]
fn test_price_level_new() {
    let level = PriceLevel::new(5_000_000_000_000);

    assert_eq!(level.price, 5_000_000_000_000);
    assert_eq!(level.total_quantity, 0);
    assert!(level.head.is_none());
    assert!(level.tail.is_none());
    assert_eq!(level.order_count, 0);
    assert!(level.is_empty());
}

#[test]
fn test_price_level_push_single() {
    let mut slab = Slab::with_capacity(10);
    let mut level = PriceLevel::new(5_000_000_000_000);

    let key = create_test_node(&mut slab, 1, 100_000_000);
    level.push_back(key, &mut slab);

    assert_eq!(level.order_count, 1);
    assert_eq!(level.total_quantity, 100_000_000);
    assert_eq!(level.head, Some(key));
    assert_eq!(level.tail, Some(key));
    assert!(!level.is_empty());

    // Node should have no links (it's the only one)
    let node = slab.get(key).unwrap();
    assert!(node.prev.is_none());
    assert!(node.next.is_none());
}

#[test]
fn test_price_level_push_multiple() {
    let mut slab = Slab::with_capacity(10);
    let mut level = PriceLevel::new(5_000_000_000_000);

    let key1 = create_test_node(&mut slab, 1, 100_000_000);
    let key2 = create_test_node(&mut slab, 2, 200_000_000);
    let key3 = create_test_node(&mut slab, 3, 300_000_000);

    level.push_back(key1, &mut slab);
    level.push_back(key2, &mut slab);
    level.push_back(key3, &mut slab);

    assert_eq!(level.order_count, 3);
    assert_eq!(level.total_quantity, 600_000_000);
    assert_eq!(level.head, Some(key1));
    assert_eq!(level.tail, Some(key3));

    // Verify linked list structure: key1 <-> key2 <-> key3
    let node1 = slab.get(key1).unwrap();
    assert!(node1.prev.is_none());
    assert_eq!(node1.next, Some(key2));

    let node2 = slab.get(key2).unwrap();
    assert_eq!(node2.prev, Some(key1));
    assert_eq!(node2.next, Some(key3));

    let node3 = slab.get(key3).unwrap();
    assert_eq!(node3.prev, Some(key2));
    assert!(node3.next.is_none());
}

#[test]
fn test_price_level_remove_middle() {
    let mut slab = Slab::with_capacity(10);
    let mut level = PriceLevel::new(5_000_000_000_000);

    let key1 = create_test_node(&mut slab, 1, 100_000_000);
    let key2 = create_test_node(&mut slab, 2, 200_000_000);
    let key3 = create_test_node(&mut slab, 3, 300_000_000);

    level.push_back(key1, &mut slab);
    level.push_back(key2, &mut slab);
    level.push_back(key3, &mut slab);

    // Remove middle node
    let removed_qty = level.remove(key2, &mut slab);

    assert_eq!(removed_qty, 200_000_000);
    assert_eq!(level.order_count, 2);
    assert_eq!(level.total_quantity, 400_000_000);
    assert_eq!(level.head, Some(key1));
    assert_eq!(level.tail, Some(key3));

    // Verify new linked list: key1 <-> key3
    let node1 = slab.get(key1).unwrap();
    assert!(node1.prev.is_none());
    assert_eq!(node1.next, Some(key3));

    let node3 = slab.get(key3).unwrap();
    assert_eq!(node3.prev, Some(key1));
    assert!(node3.next.is_none());
}

#[test]
fn test_price_level_remove_head() {
    let mut slab = Slab::with_capacity(10);
    let mut level = PriceLevel::new(5_000_000_000_000);

    let key1 = create_test_node(&mut slab, 1, 100_000_000);
    let key2 = create_test_node(&mut slab, 2, 200_000_000);

    level.push_back(key1, &mut slab);
    level.push_back(key2, &mut slab);

    // Remove head
    level.remove(key1, &mut slab);

    assert_eq!(level.order_count, 1);
    assert_eq!(level.head, Some(key2));
    assert_eq!(level.tail, Some(key2));

    // key2 should now be unlinked (only element)
    let node2 = slab.get(key2).unwrap();
    assert!(node2.prev.is_none());
    assert!(node2.next.is_none());
}

#[test]
fn test_price_level_remove_tail() {
    let mut slab = Slab::with_capacity(10);
    let mut level = PriceLevel::new(5_000_000_000_000);

    let key1 = create_test_node(&mut slab, 1, 100_000_000);
    let key2 = create_test_node(&mut slab, 2, 200_000_000);

    level.push_back(key1, &mut slab);
    level.push_back(key2, &mut slab);

    // Remove tail
    level.remove(key2, &mut slab);

    assert_eq!(level.order_count, 1);
    assert_eq!(level.head, Some(key1));
    assert_eq!(level.tail, Some(key1));
}

#[test]
fn test_price_level_remove_only() {
    let mut slab = Slab::with_capacity(10);
    let mut level = PriceLevel::new(5_000_000_000_000);

    let key = create_test_node(&mut slab, 1, 100_000_000);
    level.push_back(key, &mut slab);

    level.remove(key, &mut slab);

    assert!(level.is_empty());
    assert_eq!(level.order_count, 0);
    assert_eq!(level.total_quantity, 0);
    assert!(level.head.is_none());
    assert!(level.tail.is_none());
}

#[test]
fn test_price_level_reduce_quantity() {
    let mut level = PriceLevel::new(5_000_000_000_000);
    level.total_quantity = 1_000_000_000;

    level.reduce_quantity(300_000_000);
    assert_eq!(level.total_quantity, 700_000_000);

    // Saturating subtraction prevents underflow
    level.reduce_quantity(1_000_000_000);
    assert_eq!(level.total_quantity, 0);
}

#[test]
fn test_price_level_peek_head() {
    let mut slab = Slab::with_capacity(10);
    let mut level = PriceLevel::new(5_000_000_000_000);

    assert!(level.peek_head().is_none());

    let key = create_test_node(&mut slab, 1, 100_000_000);
    level.push_back(key, &mut slab);

    assert_eq!(level.peek_head(), Some(key));
}
