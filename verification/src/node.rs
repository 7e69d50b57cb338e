//! Order nodes and the slab arena that stores them.
//!
//! `OrderNode` wraps an `Order` with doubly-linked list pointers so that a
//! node can be spliced out of its price level in O(1). The pointers are slab
//! keys (`usize`), not references.
//!
//! The arena itself is `slab::Slab<OrderNode>`. Verus sees it through the
//! uninterpreted contents map `slab_contents` and the wrapper functions
//! below, whose contracts state what the slab's documented behaviour is:
//! `insert` stores the value under a fresh key, `remove` takes it out again,
//! keys may be reused after removal.

use vstd::prelude::*;
use slab::Slab;
use crate::order::Order;

verus! {

/// Order node stored in the slab: the order plus its queue links.
///
/// `prev` points at the older neighbour (towards the head of the FIFO
/// queue at this node's price), `next` at the newer one.
#[derive(Debug, Clone, Copy)]
pub struct OrderNode {
    /// The actual order data
    pub order: Order,
    /// Next order in the price level queue (slab key); None at the tail
    pub next: Option<usize>,
    /// Previous order in the price level queue (slab key); None at the head
    pub prev: Option<usize>,
}

impl OrderNode {
    /// Create a new order node (not yet linked)
    pub fn new(order: Order) -> (r: OrderNode)
        ensures
            r == (OrderNode { order, next: None, prev: None }),
    {
        OrderNode { order, next: None, prev: None }
    }

    /// Check if this node is unlinked (not part of any price level)
    pub fn is_unlinked(&self) -> (r: bool)
        ensures
            r == (self.next is None && self.prev is None),
    {
        self.next.is_none() && self.prev.is_none()
    }

    /// Get the order ID
    pub fn order_id(&self) -> (r: u64)
        ensures
            r == self.order.id,
    {
        self.order.id
    }

    /// Get the order price
    pub fn price(&self) -> (r: u64)
        ensures
            r == self.order.price,
    {
        self.order.price
    }

    /// Get the remaining quantity
    pub fn remaining(&self) -> (r: u64)
        ensures
            r == self.order.remaining,
    {
        self.order.remaining
    }

    /// Fill a portion of this order; returns the actual quantity filled.
    pub fn fill(&mut self, quantity: u64) -> (r: u64)
        ensures
            r == if quantity <= old(self).order.remaining {
                quantity
            } else {
                old(self).order.remaining
            },
            *final(self) == (OrderNode {
                order: Order {
                    remaining: (old(self).order.remaining - r) as u64,
                    ..old(self).order
                },
                ..*old(self)
            }),
    {
        self.order.fill(quantity)
    }

    /// Check if the order is fully filled
    pub fn is_filled(&self) -> (r: bool)
        ensures
            r == (self.order.remaining == 0),
    {
        self.order.is_filled()
    }
}

#[verifier::external_type_specification]
#[verifier::external_body]
#[verifier::reject_recursive_types(T)]
pub struct ExSlab<T>(Slab<T>);

/// The occupied entries of the arena: slab key to stored node.
pub uninterp spec fn slab_contents(s: Slab<OrderNode>) -> Map<usize, OrderNode>;

/// Relies on slab::Slab::new: the new slab holds no values.
#[verifier::external_body]
pub(crate) fn slab_new() -> (r: Slab<OrderNode>)
    ensures
        slab_contents(r).dom() == Set::<usize>::empty(),
{
    Slab::new()
}

/// Relies on slab::Slab::with_capacity: the new slab holds no values
/// (capacity is an allocation detail the contracts do not track).
#[verifier::external_body]
pub(crate) fn slab_with_capacity(capacity: usize) -> (r: Slab<OrderNode>)
    ensures
        slab_contents(r).dom() == Set::<usize>::empty(),
{
    Slab::with_capacity(capacity)
}

/// Relies on slab::Slab::capacity: at least as many slots as stored values.
#[verifier::external_body]
pub(crate) fn slab_capacity(s: &Slab<OrderNode>) -> (r: usize)
    ensures
        slab_contents(*s).dom().finite() ==> r >= slab_contents(*s).dom().len(),
{
    s.capacity()
}

/// Relies on slab::Slab::len: the number of stored values.
#[verifier::external_body]
pub(crate) fn slab_len(s: &Slab<OrderNode>) -> (r: usize)
    ensures
        slab_contents(*s).dom().finite() ==> r == slab_contents(*s).dom().len(),
{
    s.len()
}

/// Relies on slab::Slab::insert: stores the value under a vacant key and
/// returns that key.
#[verifier::external_body]
pub(crate) fn slab_insert(s: &mut Slab<OrderNode>, val: OrderNode) -> (key: usize)
    ensures
        !slab_contents(*old(s)).contains_key(key),
        slab_contents(*final(s)) == slab_contents(*old(s)).insert(key, val),
{
    s.insert(val)
}

/// Relies on slab::Slab::remove: takes the value at an occupied key out;
/// the key becomes vacant. Panics on a vacant key, so one is excluded here.
#[verifier::external_body]
pub(crate) fn slab_remove(s: &mut Slab<OrderNode>, key: usize) -> (r: OrderNode)
    requires
        slab_contents(*old(s)).contains_key(key),
    ensures
        r == slab_contents(*old(s))[key],
        slab_contents(*final(s)) == slab_contents(*old(s)).remove(key),
{
    s.remove(key)
}

/// Relies on slab::Slab::get: Some of the stored value at an occupied key,
/// None at a vacant one.
#[verifier::external_body]
pub(crate) fn slab_get<'a>(s: &'a Slab<OrderNode>, key: usize) -> (r: Option<&'a OrderNode>)
    ensures
        match r {
            Some(node) => slab_contents(*s).contains_key(key) && *node == slab_contents(*s)[key],
            None => !slab_contents(*s).contains_key(key),
        },
{
    s.get(key)
}

/// Relies on slab::Slab::get_mut: overwrites the value at an occupied key.
/// get_mut returns None only at a vacant key, which is excluded here.
#[verifier::external_body]
pub(crate) fn slab_set(s: &mut Slab<OrderNode>, key: usize, val: OrderNode)
    requires
        slab_contents(*old(s)).contains_key(key),
    ensures
        slab_contents(*final(s)) == slab_contents(*old(s)).insert(key, val),
{
    *s.get_mut(key).unwrap() = val;
}

/// Relies on slab::Slab::clear: drops all stored values.
#[verifier::external_body]
pub(crate) fn slab_clear(s: &mut Slab<OrderNode>)
    ensures
        slab_contents(*final(s)).dom() == Set::<usize>::empty(),
{
    s.clear()
}

} // verus!
