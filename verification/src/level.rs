//! Price level: the FIFO queue of all resting orders at one price.
//!
//! Orders at a level form a doubly-linked list through the `prev`/`next`
//! slab keys of their nodes: `head` is the oldest order (matched first),
//! new orders are appended at `tail`. The ghost field `queue` holds the
//! keys in FIFO order; the well-formedness predicate `wf` ties it to the
//! pointers, the count and the quantity total.

use vstd::prelude::*;
use slab::Slab;
use crate::node::{slab_contents, slab_get, slab_set, OrderNode};

verus! {

/// The sum of the remaining quantities of the nodes on `q`.
pub open spec fn queue_total(q: Seq<usize>, m: Map<usize, OrderNode>) -> int
    decreases q.len(),
{
    if q.len() == 0 {
        0
    } else {
        queue_total(q.drop_last(), m) + m[q.last()].order.remaining
    }
}

pub proof fn lemma_queue_total_nonneg(q: Seq<usize>, m: Map<usize, OrderNode>)
    ensures
        queue_total(q, m) >= 0,
    decreases q.len(),
{
    if q.len() > 0 {
        lemma_queue_total_nonneg(q.drop_last(), m);
    }
}

/// Two slab states that agree on the remaining quantity of every queued
/// node give the queue the same total.
pub proof fn lemma_queue_total_congruence(
    q: Seq<usize>,
    m1: Map<usize, OrderNode>,
    m2: Map<usize, OrderNode>,
)
    requires
        forall|i: int|
            0 <= i < q.len() ==> m1[#[trigger] q[i]].order.remaining
                == m2[q[i]].order.remaining,
    ensures
        queue_total(q, m1) == queue_total(q, m2),
    decreases q.len(),
{
    if q.len() > 0 {
        assert(forall|i: int| 0 <= i < q.len() - 1 ==> q.drop_last()[i] == q[i]);
        lemma_queue_total_congruence(q.drop_last(), m1, m2);
        assert(q.last() == q[q.len() - 1]);
    }
}

/// Removing the node at one position takes exactly its remaining quantity
/// out of the total.
pub proof fn lemma_queue_total_remove(q: Seq<usize>, m: Map<usize, OrderNode>, i: int)
    requires
        0 <= i < q.len(),
    ensures
        queue_total(q.remove(i), m) == queue_total(q, m) - m[q[i]].order.remaining,
    decreases q.len(),
{
    if i == q.len() - 1 {
        assert(q.remove(i) =~= q.drop_last());
    } else {
        assert(q.remove(i).drop_last() =~= q.drop_last().remove(i));
        lemma_queue_total_remove(q.drop_last(), m, i);
        assert(q.remove(i).last() == q.last());
    }
}

/// Overwriting one queued node changes the total by the difference of the
/// remaining quantities, provided the queue has no duplicate keys.
pub proof fn lemma_queue_total_update(
    q: Seq<usize>,
    m: Map<usize, OrderNode>,
    i: int,
    v: OrderNode,
)
    requires
        0 <= i < q.len(),
        forall|a: int, b: int| 0 <= a < b < q.len() ==> q[a] != q[b],
    ensures
        queue_total(q, m.insert(q[i], v)) == queue_total(q, m) - m[q[i]].order.remaining
            + v.order.remaining,
{
    let m2 = m.insert(q[i], v);
    lemma_queue_total_remove(q, m2, i);
    lemma_queue_total_remove(q, m, i);
    assert(forall|j: int|
        0 <= j < q.remove(i).len() ==> m[#[trigger] q.remove(i)[j]].order.remaining
            == m2[q.remove(i)[j]].order.remaining);
    lemma_queue_total_congruence(q.remove(i), m, m2);
}

/// The node at position `i` of the queue `q` is stored, carries this
/// level's price, has quantity left, and its links point at its neighbours.
pub open spec fn links_ok(q: Seq<usize>, m: Map<usize, OrderNode>, price: u64, i: int) -> bool {
    &&& m.contains_key(q[i])
    &&& m[q[i]].order.price == price
    &&& m[q[i]].order.remaining > 0
    &&& m[q[i]].order.remaining <= m[q[i]].order.quantity
    &&& m[q[i]].prev == (if i == 0 {
        None::<usize>
    } else {
        Some(q[i - 1])
    })
    &&& m[q[i]].next == (if i + 1 == q.len() {
        None::<usize>
    } else {
        Some(q[i + 1])
    })
}

/// A price level containing the orders at a single price.
///
/// The nodes live in the slab; this struct holds the queue metadata, and,
/// as ghost state, the slab keys of its orders in FIFO order.
#[derive(Clone, Copy)]
pub struct PriceLevel {
    /// Price for this level (fixed-point, scaled by 10^8)
    pub price: u64,
    /// Total remaining quantity at this level
    pub total_quantity: u64,
    /// Head of the order queue (oldest order, slab key)
    pub head: Option<usize>,
    /// Tail of the order queue (newest order, slab key)
    pub tail: Option<usize>,
    /// Number of orders at this price level
    pub order_count: usize,
    /// The slab keys of this level's orders, oldest first
    pub queue: Ghost<Seq<usize>>,
}

impl PriceLevel {
    /// The queue is mirrored faithfully by the linked nodes in slab state
    /// `m`, and the cached count and total match it.
    pub open spec fn wf(self, m: Map<usize, OrderNode>) -> bool {
        let q = self.queue@;
        &&& self.order_count == q.len()
        &&& self.head == (if q.len() == 0 {
            None::<usize>
        } else {
            Some(q[0])
        })
        &&& self.tail == (if q.len() == 0 {
            None::<usize>
        } else {
            Some(q[q.len() - 1])
        })
        &&& (forall|i: int, j: int| 0 <= i < j < q.len() ==> q[i] != q[j])
        &&& (forall|i: int| 0 <= i < q.len() ==> #[trigger] links_ok(q, m, self.price, i))
        &&& queue_total(q, m) <= u64::MAX
        &&& self.total_quantity == queue_total(q, m)
    }

    /// Create a new empty price level
    pub fn new(price: u64) -> (r: PriceLevel)
        ensures
            r == (PriceLevel {
                price,
                total_quantity: 0,
                head: None,
                tail: None,
                order_count: 0,
                queue: Ghost(Seq::<usize>::empty()),
            }),
            forall|m: Map<usize, OrderNode>| r.wf(m),
    {
        let r = PriceLevel {
            price,
            total_quantity: 0,
            head: None,
            tail: None,
            order_count: 0,
            queue: Ghost(Seq::<usize>::empty()),
        };
        r
    }

    /// Check if the price level is empty
    pub fn is_empty(&self) -> (r: bool)
        ensures
            r == (self.order_count == 0),
    {
        self.order_count == 0
    }

    /// Get the head order's slab key: the first order to match at this level.
    pub fn peek_head(&self) -> (r: Option<usize>)
        ensures
            r == self.head,
    {
        self.head
    }

    /// Append an order to the tail of the queue.
    ///
    /// FIFO discipline: the node becomes the newest order of the level;
    /// the nodes already queued keep their order and their order records.
    pub fn push_back(&mut self, key: usize, slab: &mut Slab<OrderNode>)
        requires
            old(self).wf(slab_contents(*old(slab))),
            slab_contents(*old(slab)).contains_key(key),
            !old(self).queue@.contains(key),
            slab_contents(*old(slab))[key].order.price == old(self).price,
            slab_contents(*old(slab))[key].order.remaining > 0,
            slab_contents(*old(slab))[key].order.remaining <= slab_contents(*old(slab))[key].order.quantity,
            old(self).total_quantity + slab_contents(*old(slab))[key].order.remaining <= u64::MAX,
            old(self).order_count < usize::MAX,
        ensures
            final(self).wf(slab_contents(*final(slab))),
            final(self).queue@ == old(self).queue@.push(key),
            final(self).price == old(self).price,
            final(self).order_count == old(self).order_count + 1,
            final(self).total_quantity == old(self).total_quantity + slab_contents(*old(slab))[
                key].order.remaining,
            final(self).head == (if old(self).queue@.len() == 0 {
                Some(key)
            } else {
                old(self).head
            }),
            final(self).tail == Some(key),
            slab_contents(*final(slab)).dom() == slab_contents(*old(slab)).dom(),
            forall|k: usize|
                slab_contents(*old(slab)).contains_key(k)
                    ==> slab_contents(*final(slab))[k].order == slab_contents(*old(slab))[
                    k].order,
            forall|k: usize|
                slab_contents(*old(slab)).contains_key(k) && k != key && Some(k) != old(self).tail
                    ==> slab_contents(*final(slab))[k] == slab_contents(*old(slab))[k],
    {
        let ghost q0 = self.queue@;
        let ghost m0 = slab_contents(*slab);
        let node = *slab_get(slab, key).unwrap();
        let qty = node.order.remaining;
        let old_tail = self.tail;

        slab_set(slab, key, OrderNode { order: node.order, prev: old_tail, next: None });
        if let Some(tail_key) = old_tail {
            proof {
                assert(q0.len() > 0);
                assert(links_ok(q0, m0, self.price, q0.len() - 1));
                assert(tail_key == q0[q0.len() - 1]);
            }
            let t = *slab_get(slab, tail_key).unwrap();
            slab_set(slab, tail_key, OrderNode { next: Some(key), ..t });
        } else {
            self.head = Some(key);
        }
        self.tail = Some(key);
        self.order_count = self.order_count + 1;
        self.total_quantity = self.total_quantity + qty;
        proof {
            self.queue@ = q0.push(key);
        }
        proof {
            let m1 = slab_contents(*slab);
            let q1 = self.queue@;
            assert(forall|i: int| 0 <= i < q0.len() ==> q1[i] == q0[i]);
            assert(forall|i: int|
                0 <= i < q0.len() ==> m1[#[trigger] q0[i]].order.remaining == m0[
                    q0[i]].order.remaining);
            lemma_queue_total_congruence(q0, m0, m1);
            assert(q1.drop_last() =~= q0);
            assert(forall|i: int| 0 <= i < q0.len() - 1 ==> links_ok(q0, m0, self.price, i)
                ==> links_ok(q1, m1, self.price, i));
            assert forall|i: int| 0 <= i < q1.len() implies #[trigger] links_ok(
                q1,
                m1,
                self.price,
                i,
            ) by {
                if i < q0.len() - 1 {
                    assert(links_ok(q0, m0, self.price, i));
                } else if i == q0.len() - 1 {
                    assert(links_ok(q0, m0, self.price, i));
                }
            }
        }
    }

    /// Remove an order from the queue by slab key, splicing its neighbours
    /// together. The node stays in the slab with cleared links; the level's
    /// count and total drop by one order and its remaining quantity.
    ///
    /// Returns the remaining quantity of the removed order.
    pub fn remove(&mut self, key: usize, slab: &mut Slab<OrderNode>) -> (r: u64)
        requires
            old(self).wf(slab_contents(*old(slab))),
            old(self).queue@.contains(key),
        ensures
            final(self).wf(slab_contents(*final(slab))),
            r == slab_contents(*old(slab))[key].order.remaining,
            exists|i: int|
                {
                    &&& 0 <= i < old(self).queue@.len()
                    &&& old(self).queue@[i] == key
                    &&& final(self).queue@ == old(self).queue@.remove(i)
                },
            final(self).price == old(self).price,
            final(self).order_count == old(self).order_count - 1,
            final(self).total_quantity == old(self).total_quantity - r,
            slab_contents(*final(slab)).dom() == slab_contents(*old(slab)).dom(),
            forall|k: usize|
                slab_contents(*old(slab)).contains_key(k)
                    ==> slab_contents(*final(slab))[k].order == slab_contents(*old(slab))[
                    k].order,
            forall|k: usize|
                slab_contents(*old(slab)).contains_key(k) && !old(self).queue@.contains(k)
                    ==> slab_contents(*final(slab))[k] == slab_contents(*old(slab))[k],
            slab_contents(*final(slab))[key].prev is None,
            slab_contents(*final(slab))[key].next is None,
    {
        let ghost q0 = self.queue@;
        let ghost m0 = slab_contents(*slab);
        let ghost qi = choose|i: int| 0 <= i < q0.len() && q0[i] == key;
        proof {
            assert(links_ok(q0, m0, self.price, qi));
        }
        let node = *slab_get(slab, key).unwrap();
        let qty = node.order.remaining;

        match node.prev {
            Some(p) => {
                proof {
                    assert(qi > 0 && p == q0[qi - 1]);
                    assert(links_ok(q0, m0, self.price, qi - 1));
                }
                let pn = *slab_get(slab, p).unwrap();
                slab_set(slab, p, OrderNode { next: node.next, ..pn });
            },
            None => {
                self.head = node.next;
            },
        }
        match node.next {
            Some(nk) => {
                proof {
                    assert(links_ok(q0, m0, self.price, qi + 1));
                }
                let nn = *slab_get(slab, nk).unwrap();
                slab_set(slab, nk, OrderNode { prev: node.prev, ..nn });
            },
            None => {
                self.tail = node.prev;
            },
        }
        let cur = *slab_get(slab, key).unwrap();
        slab_set(slab, key, OrderNode { prev: None, next: None, ..cur });
        proof {
            lemma_queue_total_remove(q0, m0, qi);
            lemma_queue_total_nonneg(q0.remove(qi), m0);
        }
        self.order_count = self.order_count - 1;
        self.total_quantity = self.total_quantity - qty;
        proof {
            self.queue@ = q0.remove(qi);
        }
        proof {
            let m1 = slab_contents(*slab);
            let q1 = self.queue@;
            assert(forall|j: int| 0 <= j < q1.len() ==> q1[j] == (if j < qi {
                q0[j]
            } else {
                q0[j + 1]
            }));
            assert(forall|i: int|
                0 <= i < q0.len() ==> m1[#[trigger] q0[i]].order.remaining == m0[
                    q0[i]].order.remaining);
            lemma_queue_total_congruence(q1, m0, m1);
            assert forall|j: int| 0 <= j < q1.len() implies #[trigger] links_ok(
                q1,
                m1,
                self.price,
                j,
            ) by {
                if j < qi - 1 || j > qi {
                    let i0: int = if j < qi {
                        j
                    } else {
                        j + 1
                    };
                    assert(links_ok(q0, m0, self.price, i0));
                    if i0 > 0 {
                        assert(links_ok(q0, m0, self.price, i0 - 1));
                    }
                    if i0 + 1 < q0.len() {
                        assert(links_ok(q0, m0, self.price, i0 + 1));
                    }
                    assert(m1[q1[j]] == m0[q0[i0]]);
                } else {
                    // j sits at the splice: the removed node's old
                    // predecessor (j == qi - 1) or successor (j == qi)
                    assert(links_ok(q0, m0, self.price, qi));
                    if j == qi - 1 {
                        assert(links_ok(q0, m0, self.price, qi - 1));
                        if qi + 1 < q0.len() {
                            assert(links_ok(q0, m0, self.price, qi + 1));
                        }
                        if qi - 2 >= 0 {
                            assert(links_ok(q0, m0, self.price, qi - 2));
                        }
                    } else {
                        assert(j == qi);
                        assert(links_ok(q0, m0, self.price, qi + 1));
                        if qi - 1 >= 0 {
                            assert(links_ok(q0, m0, self.price, qi - 1));
                        }
                        if qi + 2 < q0.len() {
                            assert(links_ok(q0, m0, self.price, qi + 2));
                        }
                    }
                }
            }
        }
        qty
    }

    /// Update the total quantity after a partial fill; saturates at zero.
    pub fn reduce_quantity(&mut self, filled_quantity: u64)
        ensures
            *final(self) == (PriceLevel {
                total_quantity: if filled_quantity <= old(self).total_quantity {
                    (old(self).total_quantity - filled_quantity) as u64
                } else {
                    0
                },
                ..*old(self)
            }),
    {
        if filled_quantity <= self.total_quantity {
            self.total_quantity = self.total_quantity - filled_quantity;
        } else {
            self.total_quantity = 0;
        }
    }
}

} // verus!
