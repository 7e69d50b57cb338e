//! Central limit order book.
//!
//! The book keeps its order nodes in a slab arena, the price levels of each
//! side in a vector sorted by price (bids descending, asks ascending), and
//! an id-to-key index for O(1) cancels. The well-formedness predicate `wf`
//! ties all of it together: every node sits in exactly one level queue of
//! its side, the index is a bijection onto the stored nodes, the cached
//! counts and totals match the queues.
//!
//! Contracts speak about three views of the book: `bids_view`/`asks_view`,
//! the per-level order sequences in price-then-time priority, and
//! `orders_view`, the map from order id to resting order.

use vstd::prelude::*;
use std::collections::HashMap;
use slab::Slab;
use crate::level::{
    links_ok, lemma_queue_total_congruence, lemma_queue_total_nonneg, lemma_queue_total_remove,
    lemma_queue_total_update, queue_total, PriceLevel,
};
use crate::node::{
    slab_clear, slab_contents, slab_get, slab_insert, slab_len, slab_new, slab_remove,
    slab_set, slab_with_capacity, slab_capacity, OrderNode,
};
use crate::order::{Order, Side};

verus! {

broadcast use vstd::std_specs::hash::group_hash_axioms;

/// The logical content of one price level: its price and its orders,
/// oldest first.
#[verifier::ext_equal]
pub struct LevelView {
    /// The level's price
    pub price: u64,
    /// The orders resting at that price, in FIFO order
    pub orders: Seq<Order>,
}

/// What a price level holds, as a value: price plus the orders read off
/// the slab in queue order.
pub open spec fn level_view(l: PriceLevel, m: Map<usize, OrderNode>) -> LevelView {
    LevelView { price: l.price, orders: l.queue@.map_values(|k: usize| m[k].order) }
}

/// One side of the book as a sequence of level contents, best price first.
pub open spec fn side_view(ls: Seq<PriceLevel>, m: Map<usize, OrderNode>) -> Seq<LevelView> {
    ls.map_values(|l: PriceLevel| level_view(l, m))
}

/// The number of orders over all levels of a side.
pub open spec fn levels_count(ls: Seq<PriceLevel>) -> int
    decreases ls.len(),
{
    if ls.len() == 0 {
        0
    } else {
        levels_count(ls.drop_last()) + ls.last().queue@.len()
    }
}

/// The total remaining quantity over all levels of a side.
pub open spec fn levels_total(ls: Seq<PriceLevel>, m: Map<usize, OrderNode>) -> int
    decreases ls.len(),
{
    if ls.len() == 0 {
        0
    } else {
        levels_total(ls.drop_last(), m) + queue_total(ls.last().queue@, m)
    }
}

/// Some level of the side has `key` in its queue.
pub open spec fn side_has_key(ls: Seq<PriceLevel>, key: usize) -> bool {
    exists|i: int| 0 <= i < ls.len() && (#[trigger] ls[i]).queue@.contains(key)
}

/// The levels of one book side are well-formed: each level's queue is
/// mirrored by the slab, no level is empty, prices are strictly sorted
/// (descending for bids, ascending for asks), and every queued node
/// carries the side's byte.
pub open spec fn side_wf(
    ls: Seq<PriceLevel>,
    m: Map<usize, OrderNode>,
    side_raw: u8,
    descending: bool,
) -> bool {
    &&& (forall|i: int| 0 <= i < ls.len() ==> (#[trigger] ls[i]).wf(m))
    &&& (forall|i: int| 0 <= i < ls.len() ==> (#[trigger] ls[i]).queue@.len() > 0)
    &&& (forall|i: int, j: int|
        0 <= i < j < ls.len() ==> (if descending {
            (#[trigger] ls[i]).price > (#[trigger] ls[j]).price
        } else {
            ls[i].price < ls[j].price
        }))
    &&& (forall|i: int, j: int|
        0 <= i < ls.len() && 0 <= j < ls[i].queue@.len() ==> m[#[trigger] ls[i].queue@[j]].order.side_raw
            == side_raw)
}

/// Appending one order to a side: if a level with the order's price exists
/// the order joins that level's tail; otherwise a new singleton level
/// appears (its position follows from the side's price sorting).
pub open spec fn side_view_add(
    pre: Seq<LevelView>,
    post: Seq<LevelView>,
    o: Order,
) -> bool {
    if exists|i: int| 0 <= i < pre.len() && (#[trigger] pre[i]).price == o.price {
        let i = choose|i: int| 0 <= i < pre.len() && (#[trigger] pre[i]).price == o.price;
        post =~~= pre.update(i, LevelView { price: o.price, orders: pre[i].orders.push(o) })
    } else {
        exists|i: int|
            0 <= i <= pre.len() && post =~~= pre.insert(
                i,
                LevelView { price: o.price, orders: seq![o] },
            )
    }
}

/// Taking one order out of a side: it leaves its level's queue; a level
/// emptied by that disappears.
pub open spec fn side_view_remove(
    pre: Seq<LevelView>,
    post: Seq<LevelView>,
    o: Order,
) -> bool {
    exists|li: int, pos: int|
        {
            &&& 0 <= li < pre.len()
            &&& 0 <= pos < pre[li].orders.len()
            &&& pre[li].orders[pos] == o
            &&& post =~~= (if pre[li].orders.len() == 1 {
                pre.remove(li)
            } else {
                pre.update(
                    li,
                    LevelView { price: pre[li].price, orders: pre[li].orders.remove(pos) },
                )
            })
        }
}

/// The canonical bytes of one level: its orders' records, oldest first.
pub open spec fn level_bytes(lv: LevelView) -> Seq<u8>
    decreases lv.orders.len(),
{
    if lv.orders.len() == 0 {
        Seq::<u8>::empty()
    } else {
        level_bytes(LevelView { price: lv.price, orders: lv.orders.drop_last() })
            + crate::codec::spec_encode_order(lv.orders.last())
    }
}

/// The canonical bytes of one side: its levels' bytes, best price first.
pub open spec fn side_bytes(s: Seq<LevelView>) -> Seq<u8>
    decreases s.len(),
{
    if s.len() == 0 {
        Seq::<u8>::empty()
    } else {
        side_bytes(s.drop_last()) + level_bytes(s.last())
    }
}

/// No order id occurs at two positions of the side's views.
pub open spec fn ids_distinct(s: Seq<LevelView>) -> bool {
    forall|a: int, b: int, c: int, d: int|
        0 <= a < s.len() && 0 <= b < s[a].orders.len() && 0 <= c < s.len() && 0 <= d
            < s[c].orders.len() && (a != c || b != d) ==> (#[trigger] s[a].orders[b]).id != (
        #[trigger] s[c].orders[d]).id
}

pub proof fn lemma_levels_total_nonneg(ls: Seq<PriceLevel>, m: Map<usize, OrderNode>)
    ensures
        levels_total(ls, m) >= 0,
    decreases ls.len(),
{
    if ls.len() > 0 {
        lemma_levels_total_nonneg(ls.drop_last(), m);
        lemma_queue_total_nonneg(ls.last().queue@, m);
    }
}

/// Two slab states that agree on every queued node's remaining quantity
/// give a side the same total.
pub proof fn lemma_levels_total_congruence(
    ls: Seq<PriceLevel>,
    m1: Map<usize, OrderNode>,
    m2: Map<usize, OrderNode>,
)
    requires
        forall|i: int, j: int|
            0 <= i < ls.len() && 0 <= j < ls[i].queue@.len() ==> m1[#[trigger] ls[i].queue@[j]].order.remaining
                == m2[ls[i].queue@[j]].order.remaining,
    ensures
        levels_total(ls, m1) == levels_total(ls, m2),
    decreases ls.len(),
{
    if ls.len() > 0 {
        assert(forall|i: int| 0 <= i < ls.len() - 1 ==> ls.drop_last()[i] == ls[i]);
        lemma_levels_total_congruence(ls.drop_last(), m1, m2);
        assert(forall|j: int|
            0 <= j < ls.last().queue@.len() ==> m1[#[trigger] ls.last().queue@[j]].order.remaining
                == m2[ls.last().queue@[j]].order.remaining) by {
            assert(ls.last() == ls[ls.len() - 1]);
        }
        lemma_queue_total_congruence(ls.last().queue@, m1, m2);
    }
}

/// Replacing the level at one position changes count and total by the
/// difference between the new and the old level.
pub proof fn lemma_levels_update(ls: Seq<PriceLevel>, m: Map<usize, OrderNode>, i: int, l2: PriceLevel)
    requires
        0 <= i < ls.len(),
    ensures
        levels_count(ls.update(i, l2)) == levels_count(ls) - ls[i].queue@.len()
            + l2.queue@.len(),
        levels_total(ls.update(i, l2), m) == levels_total(ls, m) - queue_total(ls[i].queue@, m)
            + queue_total(l2.queue@, m),
    decreases ls.len(),
{
    if i == ls.len() - 1 {
        assert(ls.update(i, l2).drop_last() =~= ls.drop_last());
        assert(ls.update(i, l2).last() == l2);
    } else {
        assert(ls.update(i, l2).drop_last() =~= ls.drop_last().update(i, l2));
        lemma_levels_update(ls.drop_last(), m, i, l2);
        assert(ls.update(i, l2).last() == ls.last());
    }
}

/// Inserting a level at a position adds its count and total.
pub proof fn lemma_levels_insert(ls: Seq<PriceLevel>, m: Map<usize, OrderNode>, i: int, l: PriceLevel)
    requires
        0 <= i <= ls.len(),
    ensures
        levels_count(ls.insert(i, l)) == levels_count(ls) + l.queue@.len(),
        levels_total(ls.insert(i, l), m) == levels_total(ls, m) + queue_total(l.queue@, m),
    decreases ls.len(),
{
    if i == ls.len() {
        assert(ls.insert(i, l).drop_last() =~= ls);
        assert(ls.insert(i, l).last() == l);
    } else {
        assert(ls.insert(i, l).drop_last() =~= ls.drop_last().insert(i, l));
        lemma_levels_insert(ls.drop_last(), m, i, l);
        assert(ls.insert(i, l).last() == ls.last());
    }
}

/// Removing the level at a position subtracts its count and total.
pub proof fn lemma_levels_remove(ls: Seq<PriceLevel>, m: Map<usize, OrderNode>, i: int)
    requires
        0 <= i < ls.len(),
    ensures
        levels_count(ls.remove(i)) == levels_count(ls) - ls[i].queue@.len(),
        levels_total(ls.remove(i), m) == levels_total(ls, m) - queue_total(ls[i].queue@, m),
    decreases ls.len(),
{
    if i == ls.len() - 1 {
        assert(ls.remove(i) =~= ls.drop_last());
    } else {
        assert(ls.remove(i).drop_last() =~= ls.drop_last().remove(i));
        lemma_levels_remove(ls.drop_last(), m, i);
        assert(ls.remove(i).last() == ls.last());
    }
}

/// One level's total never exceeds the side's total.
pub proof fn lemma_level_total_le(ls: Seq<PriceLevel>, m: Map<usize, OrderNode>, i: int)
    requires
        0 <= i < ls.len(),
    ensures
        queue_total(ls[i].queue@, m) <= levels_total(ls, m),
{
    lemma_levels_remove(ls, m, i);
    lemma_levels_total_nonneg(ls.remove(i), m);
}

/// One level's order count never exceeds the side's count.
pub proof fn lemma_level_count_le(ls: Seq<PriceLevel>, i: int)
    requires
        0 <= i < ls.len(),
    ensures
        ls[i].queue@.len() <= levels_count(ls),
        levels_count(ls) >= 0,
    decreases ls.len(),
{
    lemma_levels_count_nonneg(ls);
    lemma_levels_remove(ls, Map::empty(), i);
    lemma_levels_count_nonneg(ls.remove(i));
}

pub proof fn lemma_levels_count_nonneg(ls: Seq<PriceLevel>)
    ensures
        levels_count(ls) >= 0,
    decreases ls.len(),
{
    if ls.len() > 0 {
        lemma_levels_count_nonneg(ls.drop_last());
    }
}

/// A level untouched by a slab change keeps its well-formedness and its
/// view.
pub proof fn lemma_level_unchanged(
    l: PriceLevel,
    m1: Map<usize, OrderNode>,
    m2: Map<usize, OrderNode>,
)
    requires
        l.wf(m1),
        forall|i: int|
            0 <= i < l.queue@.len() ==> m2.contains_key(#[trigger] l.queue@[i]) && m2[l.queue@[i]]
                == m1[l.queue@[i]],
    ensures
        l.wf(m2),
        level_view(l, m2) == level_view(l, m1),
{
    assert forall|i: int| 0 <= i < l.queue@.len() implies #[trigger] links_ok(
        l.queue@,
        m2,
        l.price,
        i,
    ) by {
        assert(links_ok(l.queue@, m1, l.price, i));
    }
    assert(forall|i: int|
        0 <= i < l.queue@.len() ==> m1[#[trigger] l.queue@[i]].order.remaining == m2[
            l.queue@[i]].order.remaining);
    lemma_queue_total_congruence(l.queue@, m1, m2);
    assert(level_view(l, m2).orders =~= level_view(l, m1).orders);
    assert(level_view(l, m2) =~= level_view(l, m1));
}

/// Keys queued on well-formed sides belong to the slab, so a key outside
/// the slab sits in no queue.
pub proof fn lemma_fresh_key_not_queued(
    ls: Seq<PriceLevel>,
    m: Map<usize, OrderNode>,
    side_raw: u8,
    descending: bool,
    key: usize,
)
    requires
        side_wf(ls, m, side_raw, descending),
        !m.contains_key(key),
    ensures
        forall|i: int| 0 <= i < ls.len() ==> !(#[trigger] ls[i]).queue@.contains(key),
        !side_has_key(ls, key),
{
    assert forall|i: int| 0 <= i < ls.len() implies !(#[trigger] ls[i]).queue@.contains(key) by {
        if ls[i].queue@.contains(key) {
            let j = choose|j: int| 0 <= j < ls[i].queue@.len() && ls[i].queue@[j] == key;
            assert(links_ok(ls[i].queue@, m, ls[i].price, j));
        }
    }
}

/// Within a well-formed side, a key queued at one level is queued at no
/// other: the node's stored price pins the level.
pub proof fn lemma_side_queues_disjoint(
    ls: Seq<PriceLevel>,
    m: Map<usize, OrderNode>,
    side_raw: u8,
    descending: bool,
    i: int,
    j: int,
    key: usize,
)
    requires
        side_wf(ls, m, side_raw, descending),
        0 <= i < ls.len(),
        0 <= j < ls.len(),
        i != j,
        ls[i].queue@.contains(key),
    ensures
        !ls[j].queue@.contains(key),
{
    let pi = choose|p: int| 0 <= p < ls[i].queue@.len() && ls[i].queue@[p] == key;
    assert(links_ok(ls[i].queue@, m, ls[i].price, pi));
    if ls[j].queue@.contains(key) {
        let pj = choose|p: int| 0 <= p < ls[j].queue@.len() && ls[j].queue@[p] == key;
        assert(links_ok(ls[j].queue@, m, ls[j].price, pj));
        if i < j {
            assert(ls[i].price != ls[j].price);
        } else {
            assert(ls[j].price != ls[i].price);
        }
    }
}

/// A key queued on the bid side is queued nowhere on the ask side: the
/// node's stored side byte differs.
pub proof fn lemma_cross_side_disjoint(
    bids: Seq<PriceLevel>,
    asks: Seq<PriceLevel>,
    m: Map<usize, OrderNode>,
    i: int,
    j: int,
    key: usize,
)
    requires
        side_wf(bids, m, 0, true),
        side_wf(asks, m, 1, false),
        0 <= i < bids.len(),
        0 <= j < asks.len(),
        bids[i].queue@.contains(key),
    ensures
        !asks[j].queue@.contains(key),
{
    let pi = choose|p: int| 0 <= p < bids[i].queue@.len() && bids[i].queue@[p] == key;
    assert(m[bids[i].queue@[pi]].order.side_raw == 0);
    if asks[j].queue@.contains(key) {
        let pj = choose|p: int| 0 <= p < asks[j].queue@.len() && asks[j].queue@[p] == key;
        assert(m[asks[j].queue@[pj]].order.side_raw == 1);
    }
}

/// The id the book stores an order under: the next auto id if the caller
/// passed 0, else the caller's id.
pub open spec fn spec_assigned_id(o: Order, next: u64) -> u64 {
    if o.id == 0 {
        next
    } else {
        o.id
    }
}

/// The record the book stores: the order with its assigned id.
pub open spec fn spec_stored_order(o: Order, next: u64) -> Order {
    Order { id: spec_assigned_id(o, next), ..o }
}

/// The first position whose level is not strictly better than `price`:
/// with `descending` (bids) better means higher, else (asks) lower.
fn find_level(levels: &Vec<PriceLevel>, price: u64, descending: bool) -> (i: usize)
    ensures
        i <= levels@.len(),
        forall|j: int|
            0 <= j < i ==> (if descending {
                (#[trigger] levels@[j]).price > price
            } else {
                levels@[j].price < price
            }),
        i < levels@.len() ==> (if descending {
            levels@[i as int].price <= price
        } else {
            levels@[i as int].price >= price
        }),
{
    let mut i: usize = 0;
    if descending {
        while i < levels.len() && levels[i].price > price
            invariant
                i <= levels@.len(),
                forall|j: int| 0 <= j < i ==> (#[trigger] levels@[j]).price > price,
            decreases levels@.len() - i,
        {
            i = i + 1;
        }
    } else {
        while i < levels.len() && levels[i].price < price
            invariant
                i <= levels@.len(),
                forall|j: int| 0 <= j < i ==> (#[trigger] levels@[j]).price < price,
            decreases levels@.len() - i,
        {
            i = i + 1;
        }
    }
    i
}

/// Append the already-stored node `key` to its side: at the tail of the
/// level with its price, or in a fresh level inserted in price order.
#[verifier::rlimit(100)]
#[verifier::spinoff_prover]
fn side_insert(
    levels: &mut Vec<PriceLevel>,
    slab: &mut Slab<OrderNode>,
    key: usize,
    descending: bool,
    side_raw: u8,
)
    requires
        side_wf(old(levels)@, slab_contents(*old(slab)), side_raw, descending),
        slab_contents(*old(slab)).contains_key(key),
        forall|i: int| 0 <= i < old(levels)@.len() ==> !(#[trigger] old(levels)@[i]).queue@.contains(key),
        slab_contents(*old(slab))[key].order.side_raw == side_raw,
        slab_contents(*old(slab))[key].order.remaining > 0,
        slab_contents(*old(slab))[key].order.remaining <= slab_contents(*old(slab))[
            key].order.quantity,
        levels_total(old(levels)@, slab_contents(*old(slab))) + slab_contents(*old(slab))[
            key].order.remaining <= u64::MAX,
        levels_count(old(levels)@) < usize::MAX,
    ensures
        side_wf(final(levels)@, slab_contents(*final(slab)), side_raw, descending),
        side_view_add(
            side_view(old(levels)@, slab_contents(*old(slab))),
            side_view(final(levels)@, slab_contents(*final(slab))),
            slab_contents(*old(slab))[key].order,
        ),
        levels_count(final(levels)@) == levels_count(old(levels)@) + 1,
        levels_total(final(levels)@, slab_contents(*final(slab))) == levels_total(
            old(levels)@,
            slab_contents(*old(slab)),
        ) + slab_contents(*old(slab))[key].order.remaining,
        slab_contents(*final(slab)).dom() == slab_contents(*old(slab)).dom(),
        forall|k: usize|
            slab_contents(*old(slab)).contains_key(k) ==> slab_contents(*final(slab))[k].order
                == slab_contents(*old(slab))[k].order,
        forall|k: usize|
            slab_contents(*old(slab)).contains_key(k) && k != key && !side_has_key(
                old(levels)@,
                k,
            ) ==> slab_contents(*final(slab))[k] == slab_contents(*old(slab))[k],
        side_has_key(final(levels)@, key),
        forall|k: usize| side_has_key(old(levels)@, k) ==> side_has_key(final(levels)@, k),
        forall|k: usize|
            side_has_key(final(levels)@, k) ==> side_has_key(old(levels)@, k) || k == key,
        final(levels)@.len() > 0,
        final(levels)@[0].price == (if old(levels)@.len() == 0 {
            slab_contents(*old(slab))[key].order.price
        } else if (if descending {
            slab_contents(*old(slab))[key].order.price > old(levels)@[0].price
        } else {
            slab_contents(*old(slab))[key].order.price < old(levels)@[0].price
        }) {
            slab_contents(*old(slab))[key].order.price
        } else {
            old(levels)@[0].price
        }),
{
    let ghost m0 = slab_contents(*slab);
    let ghost ls0 = levels@;
    let ghost o = slab_contents(*slab)[key].order;
    let node = *slab_get(slab, key).unwrap();
    let price = node.order.price;
    let i = find_level(levels, price, descending);
    proof {
        assert(forall|a: int, b: int|
            0 <= a < b < ls0.len() ==> (if descending {
                (#[trigger] ls0[a]).price > (#[trigger] ls0[b]).price
            } else {
                ls0[a].price < ls0[b].price
            }));
    }
    if i < levels.len() && levels[i].price == price {
        // a level at this price already exists: join its tail
        proof {
            assert(ls0[i as int].wf(m0));
            lemma_level_total_le(ls0, m0, i as int);
            lemma_levels_total_nonneg(ls0.remove(i as int), m0);
            lemma_levels_remove(ls0, m0, i as int);
            lemma_level_count_le(ls0, i as int);
        }
        self_push(levels, slab, i, key);
        proof {
            let m2 = slab_contents(*slab);
            let ls2 = levels@;
            let li = i as int;
            let lvl2 = ls2[li];
            let lvl0 = ls0[li];
            assert(ls2 =~= ls0.update(li, lvl2));
            // untouched levels keep wf and view
            assert forall|j: int| 0 <= j < ls0.len() && j != li implies (#[trigger] ls0[j]).wf(m2)
                && level_view(ls0[j], m2) == level_view(ls0[j], m0) by {
                assert forall|p: int| 0 <= p < ls0[j].queue@.len() implies m2.contains_key(
                    #[trigger] ls0[j].queue@[p],
                ) && m2[ls0[j].queue@[p]] == m0[ls0[j].queue@[p]] by {
                    let k = ls0[j].queue@[p];
                    assert(links_ok(ls0[j].queue@, m0, ls0[j].price, p));
                    assert(ls0[j].queue@.contains(k));
                    lemma_side_queues_disjoint(ls0, m0, side_raw, descending, j, li, k);
                    assert(k != key);
                    if lvl0.queue@.len() > 0 && Some(k) == lvl0.tail {
                        assert(lvl0.queue@.contains(lvl0.queue@[lvl0.queue@.len() - 1]));
                        assert(false);
                    }
                }
                lemma_level_unchanged(ls0[j], m0, m2);
            }
            // side_wf of the result
            assert(forall|j: int| 0 <= j < ls2.len() ==> (#[trigger] ls2[j]).wf(m2));
            assert(lvl2.queue@ == lvl0.queue@.push(key));
            assert forall|a: int, b: int|
                0 <= a < ls2.len() && 0 <= b < ls2[a].queue@.len() implies m2[#[trigger] ls2[a].queue@[b]].order.side_raw
                == side_raw by {
                if a == li && b == lvl0.queue@.len() {
                    assert(m2[key].order == m0[key].order);
                } else {
                    assert(ls0[a].queue@.contains(ls0[a].queue@[b]));
                    assert(links_ok(ls0[a].queue@, m0, ls0[a].price, b));
                    assert(m2[ls2[a].queue@[b]].order == m0[ls0[a].queue@[b]].order);
                }
            }
            // counts and totals
            lemma_levels_update(ls0, m2, li, lvl2);
            assert forall|a: int, b: int|
                0 <= a < ls0.len() && 0 <= b < ls0[a].queue@.len() implies m0[#[trigger] ls0[a].queue@[b]].order.remaining
                    == m2[ls0[a].queue@[b]].order.remaining by {
                assert(ls0[a].wf(m0));
                assert(links_ok(ls0[a].queue@, m0, ls0[a].price, b));
            }
            lemma_levels_total_congruence(ls0, m0, m2);
            lemma_queue_total_congruence(lvl0.queue@, m0, m2);
            // the view transition
            let pre = side_view(ls0, m0);
            let post = side_view(ls2, m2);
            assert(pre[li].price == o.price);
            assert forall|j: int| 0 <= j < pre.len() && j != li implies (#[trigger] pre[j]).price
                != o.price by {
                if j < li {
                    assert(if descending {
                        ls0[j].price > ls0[li].price
                    } else {
                        ls0[j].price < ls0[li].price
                    });
                } else {
                    assert(if descending {
                        ls0[li].price > ls0[j].price
                    } else {
                        ls0[li].price < ls0[j].price
                    });
                }
            }
            let ci = choose|ci: int| 0 <= ci < pre.len() && (#[trigger] pre[ci]).price == o.price;
            assert(ci == li);
            assert(level_view(lvl2, m2).orders =~= level_view(lvl0, m0).orders.push(o)) by {
                assert(forall|p: int|
                    0 <= p < lvl0.queue@.len() ==> #[trigger] lvl2.queue@[p] == lvl0.queue@[p]);
                assert forall|p: int| 0 <= p < lvl0.queue@.len() implies m2[#[trigger] lvl0.queue@[p]].order
                    == m0[lvl0.queue@[p]].order by {
                    assert(links_ok(lvl0.queue@, m0, lvl0.price, p));
                }
                assert(m2[key].order == o);
            }
            assert(post =~~= pre.update(li, LevelView { price: o.price, orders: pre[li].orders.push(o) }));
            // membership bookkeeping
            assert(side_has_key(ls2, key)) by {
                assert(ls2[li].queue@.contains(key)) by {
                    assert(ls2[li].queue@[lvl0.queue@.len() as int] == key);
                }
            }
            assert forall|k: usize| side_has_key(ls0, k) implies side_has_key(ls2, k) by {
                let j = choose|j: int| 0 <= j < ls0.len() && (#[trigger] ls0[j]).queue@.contains(k);
                if j == li {
                    let p = choose|p: int| 0 <= p < lvl0.queue@.len() && lvl0.queue@[p] == k;
                    assert(ls2[li].queue@[p] == k);
                    assert(ls2[li].queue@.contains(k));
                } else {
                    assert(ls2[j].queue@.contains(k));
                }
            }
            assert forall|k: usize| side_has_key(ls2, k) implies side_has_key(ls0, k) || k == key by {
                let j = choose|j: int| 0 <= j < ls2.len() && (#[trigger] ls2[j]).queue@.contains(k);
                if j == li {
                    let p = choose|p: int| 0 <= p < ls2[li].queue@.len() && ls2[li].queue@[p] == k;
                    if p < lvl0.queue@.len() {
                        assert(ls0[li].queue@.contains(k)) by {
                            assert(ls0[li].queue@[p] == k);
                        }
                    } else {
                        assert(k == key);
                    }
                } else {
                    assert(ls0[j].queue@.contains(k));
                }
            }
        }
    } else {
        // no level at this price yet: create one at the sorted position
        let mut lvl = PriceLevel::new(price);
        proof {
            lemma_levels_total_nonneg(ls0, m0);
            lemma_levels_count_nonneg(ls0);
        }
        lvl.push_back(key, slab);
        levels.insert(i, lvl);
        proof {
            let m2 = slab_contents(*slab);
            let ls2 = levels@;
            let li = i as int;
            let lvl2 = ls2[li];
            assert(ls2 =~= ls0.insert(li, lvl2));
            assert(lvl2.queue@ =~= seq![key]);
            // the only touched slab key is `key` itself (the new level had
            // no tail), so every old level keeps wf and view
            assert forall|j: int| 0 <= j < ls0.len() implies (#[trigger] ls0[j]).wf(m2)
                && level_view(ls0[j], m2) == level_view(ls0[j], m0) by {
                assert forall|p: int| 0 <= p < ls0[j].queue@.len() implies m2.contains_key(
                    #[trigger] ls0[j].queue@[p],
                ) && m2[ls0[j].queue@[p]] == m0[ls0[j].queue@[p]] by {
                    let k = ls0[j].queue@[p];
                    assert(links_ok(ls0[j].queue@, m0, ls0[j].price, p));
                    assert(ls0[j].queue@.contains(k));
                    assert(k != key);
                }
                lemma_level_unchanged(ls0[j], m0, m2);
            }
            assert forall|j: int| 0 <= j < ls2.len() implies (#[trigger] ls2[j]).wf(m2) by {
                if j < li {
                    assert(ls2[j] == ls0[j]);
                } else if j == li {
                } else {
                    assert(ls2[j] == ls0[j - 1]);
                }
            }
            // sortedness around the insertion point
            assert forall|a: int, b: int| 0 <= a < b < ls2.len() implies (if descending {
                (#[trigger] ls2[a]).price > (#[trigger] ls2[b]).price
            } else {
                ls2[a].price < ls2[b].price
            }) by {
                let pa = if a < li {
                    ls0[a].price
                } else if a == li {
                    price
                } else {
                    ls0[a - 1].price
                };
                if a < li {
                    assert(ls2[a] == ls0[a]);
                }
                if b < li {
                    assert(ls2[b] == ls0[b]);
                }
                if a > li {
                    assert(ls2[a] == ls0[a - 1]);
                }
                if b > li {
                    assert(ls2[b] == ls0[b - 1]);
                }
                if b == li && a < li {
                    assert(if descending {
                        ls0[a].price > price
                    } else {
                        ls0[a].price < price
                    });
                }
                if a == li && b > li {
                    assert(ls0[b - 1].price != price);
                    assert(if descending {
                        ls0[b - 1].price <= price
                    } else {
                        ls0[b - 1].price >= price
                    });
                }
            }
            assert forall|a: int, b: int|
                0 <= a < ls2.len() && 0 <= b < ls2[a].queue@.len() implies m2[#[trigger] ls2[a].queue@[b]].order.side_raw
                == side_raw by {
                if a == li {
                    assert(ls2[a].queue@[b] == key);
                    assert(m2[key].order == m0[key].order);
                } else {
                    let a0: int = if a < li {
                        a
                    } else {
                        a - 1
                    };
                    assert(ls2[a] == ls0[a0]);
                    assert(ls0[a0].queue@.contains(ls0[a0].queue@[b]));
                    assert(links_ok(ls0[a0].queue@, m0, ls0[a0].price, b));
                    assert(m2[ls0[a0].queue@[b]].order == m0[ls0[a0].queue@[b]].order);
                }
            }
            // counts and totals
            lemma_levels_insert(ls0, m2, li, lvl2);
            assert forall|a: int, b: int|
                0 <= a < ls0.len() && 0 <= b < ls0[a].queue@.len() implies m0[#[trigger] ls0[a].queue@[b]].order.remaining
                    == m2[ls0[a].queue@[b]].order.remaining by {
                assert(ls0[a].wf(m0));
                assert(links_ok(ls0[a].queue@, m0, ls0[a].price, b));
            }
            lemma_levels_total_congruence(ls0, m0, m2);
            assert(queue_total(lvl2.queue@, m2) == o.remaining) by {
                assert(lvl2.queue@.drop_last() =~= Seq::<usize>::empty());
                assert(lvl2.queue@.last() == key);
                assert(m2[key].order == o);
            }
            // the view transition: a fresh singleton level at position li
            let pre = side_view(ls0, m0);
            let post = side_view(ls2, m2);
            assert forall|j: int| 0 <= j < pre.len() implies (#[trigger] pre[j]).price != o.price by {
                assert(pre[j].price == ls0[j].price);
                if j < li {
                    assert(if descending {
                        ls0[j].price > price
                    } else {
                        ls0[j].price < price
                    });
                } else {
                    assert(ls0[j].price != price);
                    assert(if descending {
                        ls0[j].price <= price
                    } else {
                        ls0[j].price >= price
                    });
                }
            }
            assert(level_view(lvl2, m2).orders =~= seq![o]);
            assert(post =~~= pre.insert(li, LevelView { price: o.price, orders: seq![o] }));
            assert(side_view_add(pre, post, o));
            // membership bookkeeping
            assert(side_has_key(ls2, key)) by {
                assert(ls2[li].queue@.contains(key));
            }
            assert forall|k: usize| side_has_key(ls0, k) implies side_has_key(ls2, k) by {
                let j = choose|j: int| 0 <= j < ls0.len() && (#[trigger] ls0[j]).queue@.contains(k);
                if j < li {
                    assert(ls2[j].queue@.contains(k));
                } else {
                    assert(ls2[j + 1].queue@.contains(k));
                }
            }
            assert forall|k: usize| side_has_key(ls2, k) implies side_has_key(ls0, k) || k == key by {
                let j = choose|j: int| 0 <= j < ls2.len() && (#[trigger] ls2[j]).queue@.contains(k);
                if j == li {
                    assert(k == key);
                } else {
                    let j0: int = if j < li {
                        j
                    } else {
                        j - 1
                    };
                    assert(ls0[j0].queue@.contains(k));
                }
            }
        }
    }
}

/// Storing a fresh node in the arena leaves every existing level of a side
/// untouched: well-formedness, views and totals carry over, and the fresh
/// key sits in no queue.
pub proof fn lemma_arena_insert_fresh(
    ls: Seq<PriceLevel>,
    m0: Map<usize, OrderNode>,
    key: usize,
    node: OrderNode,
    side_raw: u8,
    descending: bool,
)
    requires
        side_wf(ls, m0, side_raw, descending),
        !m0.contains_key(key),
    ensures
        side_wf(ls, m0.insert(key, node), side_raw, descending),
        side_view(ls, m0.insert(key, node)) == side_view(ls, m0),
        levels_total(ls, m0.insert(key, node)) == levels_total(ls, m0),
        forall|i: int| 0 <= i < ls.len() ==> !(#[trigger] ls[i]).queue@.contains(key),
        !side_has_key(ls, key),
{
    let m1 = m0.insert(key, node);
    lemma_fresh_key_not_queued(ls, m0, side_raw, descending, key);
    assert forall|i: int| 0 <= i < ls.len() implies (#[trigger] ls[i]).wf(m1) && level_view(
        ls[i],
        m1,
    ) == level_view(ls[i], m0) by {
        assert forall|p: int| 0 <= p < ls[i].queue@.len() implies m1.contains_key(
            #[trigger] ls[i].queue@[p],
        ) && m1[ls[i].queue@[p]] == m0[ls[i].queue@[p]] by {
            assert(links_ok(ls[i].queue@, m0, ls[i].price, p));
            assert(ls[i].queue@[p] != key);
        }
        lemma_level_unchanged(ls[i], m0, m1);
    }
    assert forall|i: int, j: int|
        0 <= i < ls.len() && 0 <= j < ls[i].queue@.len() implies m1[#[trigger] ls[i].queue@[j]].order.side_raw
        == side_raw by {
        assert(links_ok(ls[i].queue@, m0, ls[i].price, j));
        assert(ls[i].queue@[j] != key);
    }
    assert forall|i: int, j: int|
        0 <= i < ls.len() && 0 <= j < ls[i].queue@.len() implies m0[#[trigger] ls[i].queue@[j]].order.remaining
        == m1[ls[i].queue@[j]].order.remaining by {
        assert(links_ok(ls[i].queue@, m0, ls[i].price, j));
        assert(ls[i].queue@[j] != key);
    }
    lemma_levels_total_congruence(ls, m0, m1);
    assert(side_view(ls, m1) =~= side_view(ls, m0));
}

/// Append `key`'s node at the tail of the level at position `i`.
fn self_push(levels: &mut Vec<PriceLevel>, slab: &mut Slab<OrderNode>, i: usize, key: usize)
    requires
        i < old(levels)@.len(),
        old(levels)@[i as int].wf(slab_contents(*old(slab))),
        slab_contents(*old(slab)).contains_key(key),
        !old(levels)@[i as int].queue@.contains(key),
        slab_contents(*old(slab))[key].order.price == old(levels)@[i as int].price,
        slab_contents(*old(slab))[key].order.remaining > 0,
        slab_contents(*old(slab))[key].order.remaining <= slab_contents(*old(slab))[
            key].order.quantity,
        old(levels)@[i as int].total_quantity + slab_contents(*old(slab))[key].order.remaining
            <= u64::MAX,
        old(levels)@[i as int].order_count < usize::MAX,
    ensures
        final(levels)@.len() == old(levels)@.len(),
        final(levels)@ == old(levels)@.update(
            i as int,
            final(levels)@[i as int],
        ),
        final(levels)@[i as int].wf(slab_contents(*final(slab))),
        final(levels)@[i as int].queue@ == old(levels)@[i as int].queue@.push(key),
        final(levels)@[i as int].price == old(levels)@[i as int].price,
        final(levels)@[i as int].order_count == old(levels)@[i as int].order_count + 1,
        final(levels)@[i as int].total_quantity == old(levels)@[i as int].total_quantity
            + slab_contents(*old(slab))[key].order.remaining,
        slab_contents(*final(slab)).dom() == slab_contents(*old(slab)).dom(),
        forall|k: usize|
            slab_contents(*old(slab)).contains_key(k) ==> slab_contents(*final(slab))[k].order
                == slab_contents(*old(slab))[k].order,
        forall|k: usize|
            slab_contents(*old(slab)).contains_key(k) && k != key && Some(k) != old(levels)@[
                i as int].tail ==> slab_contents(*final(slab))[k] == slab_contents(*old(slab))[k],
{
    let lvl = &mut levels[i];
    lvl.push_back(key, slab);
}

/// Splice the node `key` out of the level at position `li`; a level left
/// empty disappears from the side. The node itself stays in the slab with
/// cleared links.
#[verifier::rlimit(100)]
#[verifier::spinoff_prover]
fn side_remove(
    levels: &mut Vec<PriceLevel>,
    slab: &mut Slab<OrderNode>,
    li: usize,
    key: usize,
    descending: bool,
    side_raw: u8,
)
    requires
        side_wf(old(levels)@, slab_contents(*old(slab)), side_raw, descending),
        li < old(levels)@.len(),
        old(levels)@[li as int].queue@.contains(key),
    ensures
        side_wf(final(levels)@, slab_contents(*final(slab)), side_raw, descending),
        side_view_remove(
            side_view(old(levels)@, slab_contents(*old(slab))),
            side_view(final(levels)@, slab_contents(*final(slab))),
            slab_contents(*old(slab))[key].order,
        ),
        levels_count(final(levels)@) == levels_count(old(levels)@) - 1,
        levels_total(final(levels)@, slab_contents(*final(slab))) == levels_total(
            old(levels)@,
            slab_contents(*old(slab)),
        ) - slab_contents(*old(slab))[key].order.remaining,
        slab_contents(*final(slab)).dom() == slab_contents(*old(slab)).dom(),
        forall|k: usize|
            slab_contents(*old(slab)).contains_key(k) ==> slab_contents(*final(slab))[k].order
                == slab_contents(*old(slab))[k].order,
        forall|k: usize|
            slab_contents(*old(slab)).contains_key(k) && !old(levels)@[li as int].queue@.contains(
                k,
            ) ==> slab_contents(*final(slab))[k] == slab_contents(*old(slab))[k],
        !side_has_key(final(levels)@, key),
        forall|k: usize|
            k != key ==> (side_has_key(old(levels)@, k) <==> side_has_key(final(levels)@, k)),
{
    let ghost ls0 = levels@;
    let ghost m0 = slab_contents(*slab);
    let ghost lvl0 = ls0[li as int];
    let ghost o = m0[key].order;
    proof {
        assert(lvl0.wf(m0));
    }
    let lvl = &mut levels[li];
    let _qty = lvl.remove(key, slab);
    let is_now_empty = levels[li].order_count == 0;
    let ghost m2 = slab_contents(*slab);
    let ghost lvl2 = levels@[li as int];
    let ghost qi = choose|i: int|
        0 <= i < lvl0.queue@.len() && lvl0.queue@[i] == key && lvl2.queue@ == lvl0.queue@.remove(i);
    proof {
        assert(levels@ =~= ls0.update(li as int, lvl2));
        assert(links_ok(lvl0.queue@, m0, lvl0.price, qi));
        // levels other than li are untouched: their keys avoid lvl0's queue
        assert forall|j: int| 0 <= j < ls0.len() && j != li implies (#[trigger] ls0[j]).wf(m2)
            && level_view(ls0[j], m2) == level_view(ls0[j], m0) by {
            assert forall|p: int| 0 <= p < ls0[j].queue@.len() implies m2.contains_key(
                #[trigger] ls0[j].queue@[p],
            ) && m2[ls0[j].queue@[p]] == m0[ls0[j].queue@[p]] by {
                let k = ls0[j].queue@[p];
                assert(links_ok(ls0[j].queue@, m0, ls0[j].price, p));
                assert(ls0[j].queue@.contains(k));
                lemma_side_queues_disjoint(ls0, m0, side_raw, descending, j, li as int, k);
            }
            lemma_level_unchanged(ls0[j], m0, m2);
        }
        assert forall|a: int, b: int|
            0 <= a < ls0.len() && 0 <= b < ls0[a].queue@.len() implies m0[#[trigger] ls0[a].queue@[b]].order.remaining
            == m2[ls0[a].queue@[b]].order.remaining by {
            assert(ls0[a].wf(m0));
            assert(links_ok(ls0[a].queue@, m0, ls0[a].price, b));
        }
        lemma_levels_total_congruence(ls0, m0, m2);
        lemma_levels_update(ls0, m2, li as int, lvl2);
        lemma_queue_total_congruence(lvl0.queue@, m0, m2);
        // side bytes of what stays queued
        assert forall|a: int, b: int|
            0 <= a < levels@.len() && 0 <= b < levels@[a].queue@.len() implies m2[
            #[trigger] levels@[a].queue@[b]].order.side_raw == side_raw by {
            if a == li {
                let b0: int = if b < qi {
                    b
                } else {
                    b + 1
                };
                assert(lvl0.queue@[b0] == lvl2.queue@[b]);
                assert(m2[lvl0.queue@[b0]].order == m0[lvl0.queue@[b0]].order) by {
                    assert(links_ok(lvl0.queue@, m0, lvl0.price, b0));
                }
            } else {
                assert(ls0[a].queue@.contains(ls0[a].queue@[b]));
                assert(links_ok(ls0[a].queue@, m0, ls0[a].price, b));
                assert(m2[ls0[a].queue@[b]].order == m0[ls0[a].queue@[b]].order);
            }
        }
        // the level view transition at li
        assert(level_view(lvl2, m2).orders =~= level_view(lvl0, m0).orders.remove(qi)) by {
            assert forall|p: int| 0 <= p < lvl2.queue@.len() implies m2[#[trigger] lvl2.queue@[p]].order
                == m0[lvl0.queue@.remove(qi)[p]].order by {
                let p0: int = if p < qi {
                    p
                } else {
                    p + 1
                };
                assert(lvl2.queue@[p] == lvl0.queue@[p0]);
                assert(links_ok(lvl0.queue@, m0, lvl0.price, p0));
            }
        }
        assert(level_view(lvl0, m0).orders[qi] == o);
    }
    if is_now_empty {
        levels.remove(li);
    }
    proof {
        let ls2 = levels@;
        let pre = side_view(ls0, m0);
        if lvl0.queue@.len() == 1 {
            assert(lvl2.queue@.len() == 0);
            assert(ls2 =~= ls0.remove(li as int));
            lemma_levels_remove(ls0.update(li as int, lvl2), m2, li as int);
            lemma_levels_update(ls0, m2, li as int, lvl2);
            assert(ls0.update(li as int, lvl2).remove(li as int) =~= ls0.remove(li as int));
            // well-formedness of the shortened side
            assert forall|j: int| 0 <= j < ls2.len() implies (#[trigger] ls2[j]).wf(m2)
                && ls2[j].queue@.len() > 0 by {
                let j0: int = if j < li {
                    j
                } else {
                    j + 1
                };
                assert(ls2[j] == ls0[j0]);
            }
            assert forall|a: int, b: int| 0 <= a < b < ls2.len() implies (if descending {
                (#[trigger] ls2[a]).price > (#[trigger] ls2[b]).price
            } else {
                ls2[a].price < ls2[b].price
            }) by {
                let a0: int = if a < li {
                    a
                } else {
                    a + 1
                };
                let b0: int = if b < li {
                    b
                } else {
                    b + 1
                };
                assert(ls2[a] == ls0[a0] && ls2[b] == ls0[b0]);
            }
            assert forall|a: int, b: int|
                0 <= a < ls2.len() && 0 <= b < ls2[a].queue@.len() implies m2[#[trigger] ls2[a].queue@[b]].order.side_raw
                == side_raw by {
                let a0: int = if a < li {
                    a
                } else {
                    a + 1
                };
                assert(ls2[a] == ls0[a0]);
                assert(ls0[a0].queue@.contains(ls0[a0].queue@[b]));
                assert(links_ok(ls0[a0].queue@, m0, ls0[a0].price, b));
                assert(m2[ls0[a0].queue@[b]].order == m0[ls0[a0].queue@[b]].order);
            }
            // the view transition: the level disappears
            assert(side_view(ls2, m2) =~~= pre.remove(li as int)) by {
                assert forall|j: int| 0 <= j < ls2.len() implies level_view(ls2[j], m2)
                    == pre.remove(li as int)[j] by {
                    let j0: int = if j < li {
                        j
                    } else {
                        j + 1
                    };
                    assert(ls2[j] == ls0[j0]);
                    assert(level_view(ls0[j0], m2) == level_view(ls0[j0], m0));
                }
            }
            assert(pre[li as int].orders.len() == 1);
            assert(side_view_remove(pre, side_view(ls2, m2), o));
            // membership
            assert forall|k: usize| k != key implies (side_has_key(ls0, k) <==> side_has_key(
                ls2,
                k,
            )) by {
                if side_has_key(ls0, k) {
                    let j = choose|j: int|
                        0 <= j < ls0.len() && (#[trigger] ls0[j]).queue@.contains(k);
                    if j == li {
                        let p = choose|p: int|
                            0 <= p < lvl0.queue@.len() && lvl0.queue@[p] == k;
                        assert(p == qi) by {
                            if p != qi {
                                assert(lvl0.queue@.len() > 1);
                            }
                        }
                        assert(false);
                    } else {
                        let j2: int = if j < li {
                            j
                        } else {
                            j - 1
                        };
                        assert(ls2[j2].queue@.contains(k));
                    }
                }
                if side_has_key(ls2, k) {
                    let j = choose|j: int|
                        0 <= j < ls2.len() && (#[trigger] ls2[j]).queue@.contains(k);
                    let j0: int = if j < li {
                        j
                    } else {
                        j + 1
                    };
                    assert(ls0[j0].queue@.contains(k));
                }
            }
            assert forall|j: int| 0 <= j < ls2.len() implies !(#[trigger] ls2[j]).queue@.contains(
                key,
            ) by {
                let j0: int = if j < li {
                    j
                } else {
                    j + 1
                };
                assert(ls2[j] == ls0[j0]);
                lemma_side_queues_disjoint(ls0, m0, side_raw, descending, li as int, j0, key);
            }
        } else {
            assert(ls2 =~= ls0.update(li as int, lvl2));
            // well-formedness: only level li changed, and it stays non-empty
            assert(forall|j: int| 0 <= j < ls2.len() ==> (#[trigger] ls2[j]).wf(m2));
            assert(forall|j: int| 0 <= j < ls2.len() ==> (#[trigger] ls2[j]).queue@.len() > 0);
            // the view transition: one order leaves the level
            assert(side_view(ls2, m2) =~~= pre.update(
                li as int,
                LevelView { price: pre[li as int].price, orders: pre[li as int].orders.remove(qi) },
            )) by {
                assert forall|j: int| 0 <= j < ls2.len() && j != li implies level_view(ls2[j], m2)
                    == pre[j] by {
                    assert(ls2[j] == ls0[j]);
                    assert(level_view(ls0[j], m2) == level_view(ls0[j], m0));
                }
            }
            assert(pre[li as int].orders.len() == lvl0.queue@.len());
            assert(side_view_remove(pre, side_view(ls2, m2), o));
            // membership
            assert forall|k: usize| k != key implies (side_has_key(ls0, k) <==> side_has_key(
                ls2,
                k,
            )) by {
                if side_has_key(ls0, k) {
                    let j = choose|j: int|
                        0 <= j < ls0.len() && (#[trigger] ls0[j]).queue@.contains(k);
                    if j == li {
                        let p = choose|p: int|
                            0 <= p < lvl0.queue@.len() && lvl0.queue@[p] == k;
                        if p < qi {
                            assert(lvl2.queue@[p] == k);
                        } else {
                            assert(p != qi);
                            assert(lvl2.queue@[p - 1] == k);
                        }
                        assert(lvl2.queue@.contains(k));
                    } else {
                        assert(ls2[j].queue@.contains(k));
                    }
                }
                if side_has_key(ls2, k) {
                    let j = choose|j: int|
                        0 <= j < ls2.len() && (#[trigger] ls2[j]).queue@.contains(k);
                    if j == li {
                        let p = choose|p: int|
                            0 <= p < lvl2.queue@.len() && lvl2.queue@[p] == k;
                        let p0: int = if p < qi {
                            p
                        } else {
                            p + 1
                        };
                        assert(lvl0.queue@[p0] == k);
                        assert(lvl0.queue@.contains(k));
                    } else {
                        assert(ls0[j].queue@.contains(k));
                    }
                }
            }
            assert forall|j: int| 0 <= j < ls2.len() implies !(#[trigger] ls2[j]).queue@.contains(
                key,
            ) by {
                if j != li {
                    lemma_side_queues_disjoint(ls0, m0, side_raw, descending, li as int, j, key);
                } else {
                    if lvl2.queue@.contains(key) {
                        let p = choose|p: int|
                            0 <= p < lvl2.queue@.len() && lvl2.queue@[p] == key;
                        let p0: int = if p < qi {
                            p
                        } else {
                            p + 1
                        };
                        assert(lvl0.queue@[p0] == key && p0 != qi);
                        assert(false);
                    }
                }
            }
        }
    }
}

impl Default for CLOB {
    /// A new empty book.
    fn default() -> (r: CLOB)
        ensures
            r.wf(),
            r.bids_view() == Seq::<LevelView>::empty(),
            r.asks_view() == Seq::<LevelView>::empty(),
            r.orders_view() == Map::<u64, Order>::empty(),
            r.next_order_id == 1,
            r.next_trade_id == 1,
    {
        CLOB::new()
    }
}

/// Removing a resting order never crosses the book: the best prices can
/// only move apart. Together with the matching engine's own contract this
/// gives the book invariant that whenever both sides rest, the best ask
/// is strictly above the best bid, after every operation.
pub proof fn lemma_remove_uncrossed(pre: CLOB, post: CLOB, o: Order)
    requires
        pre.wf(),
        post.wf(),
        pre.not_crossed(),
        o.side_raw == 0 ==> side_view_remove(pre.bids_view(), post.bids_view(), o)
            && post.asks_view() == pre.asks_view(),
        o.side_raw != 0 ==> side_view_remove(pre.asks_view(), post.asks_view(), o)
            && post.bids_view() == pre.bids_view(),
    ensures
        post.not_crossed(),
{
    if post.bids@.len() > 0 && post.asks@.len() > 0 {
        assert(post.bids_view()[0].price == post.bids@[0].price);
        assert(post.asks_view()[0].price == post.asks@[0].price);
        if o.side_raw == 0 {
            let prev = pre.bids_view();
            let (li, pos) = choose|li: int, pos: int|
                {
                    &&& 0 <= li < prev.len()
                    &&& 0 <= pos < prev[li].orders.len()
                    &&& prev[li].orders[pos] == o
                    &&& post.bids_view() =~~= (if prev[li].orders.len() == 1 {
                        prev.remove(li)
                    } else {
                        prev.update(
                            li,
                            LevelView {
                                price: prev[li].price,
                                orders: prev[li].orders.remove(pos),
                            },
                        )
                    })
                };
            assert(pre.bids@.len() > 0);
            assert(prev[0].price == pre.bids@[0].price);
            if prev[li].orders.len() == 1 && li == 0 {
                assert(post.bids_view()[0] == prev[1]);
                assert(prev[1].price == pre.bids@[1].price);
                assert(pre.bids@[1].price < pre.bids@[0].price);
            } else if prev[li].orders.len() == 1 {
                assert(post.bids_view()[0] == prev[0]);
            } else {
                assert(post.bids_view()[0].price == prev[li].price || post.bids_view()[0]
                    == prev[0]);
                if li == 0 {
                    assert(post.bids_view()[0].price == prev[0].price);
                } else {
                    assert(post.bids_view()[0] == prev[0]);
                }
            }
            assert(post.bids@[0].price <= pre.bids@[0].price);
            assert(pre.asks@.len() > 0) by {
                assert(pre.asks_view().len() == post.asks_view().len());
            }
            assert(post.asks_view()[0].price == pre.asks_view()[0].price);
            assert(pre.asks_view()[0].price == pre.asks@[0].price);
            assert(pre.asks@[0].price > pre.bids@[0].price);
        } else {
            let prev = pre.asks_view();
            let (li, pos) = choose|li: int, pos: int|
                {
                    &&& 0 <= li < prev.len()
                    &&& 0 <= pos < prev[li].orders.len()
                    &&& prev[li].orders[pos] == o
                    &&& post.asks_view() =~~= (if prev[li].orders.len() == 1 {
                        prev.remove(li)
                    } else {
                        prev.update(
                            li,
                            LevelView {
                                price: prev[li].price,
                                orders: prev[li].orders.remove(pos),
                            },
                        )
                    })
                };
            assert(pre.asks@.len() > 0);
            assert(prev[0].price == pre.asks@[0].price);
            if prev[li].orders.len() == 1 && li == 0 {
                assert(post.asks_view()[0] == prev[1]);
                assert(prev[1].price == pre.asks@[1].price);
                assert(pre.asks@[1].price > pre.asks@[0].price);
            } else if prev[li].orders.len() == 1 {
                assert(post.asks_view()[0] == prev[0]);
            } else {
                if li == 0 {
                    assert(post.asks_view()[0].price == prev[0].price);
                } else {
                    assert(post.asks_view()[0] == prev[0]);
                }
            }
            assert(post.asks@[0].price >= pre.asks@[0].price);
            assert(pre.bids@.len() > 0) by {
                assert(pre.bids_view().len() == post.bids_view().len());
            }
            assert(post.bids_view()[0].price == pre.bids_view()[0].price);
            assert(pre.bids_view()[0].price == pre.bids@[0].price);
            assert(pre.asks@[0].price > pre.bids@[0].price);
        }
    }
}

/// Central limit order book: slab-backed nodes, sorted price levels per
/// side, and an id index for O(1) cancels.
pub struct CLOB {
    /// Order node storage; handles are slab keys
    pub orders: Slab<OrderNode>,
    /// Bid price levels, sorted by price descending (best bid first)
    pub bids: Vec<PriceLevel>,
    /// Ask price levels, sorted by price ascending (best ask first)
    pub asks: Vec<PriceLevel>,
    /// Order id to slab key
    pub order_index: HashMap<u64, usize>,
    /// Next order id for auto-assignment (starts at 1)
    pub next_order_id: u64,
    /// Next trade id (starts at 1)
    pub next_trade_id: u64,
    /// Cached number of bid orders
    pub bid_count: usize,
    /// Cached number of ask orders
    pub ask_count: usize,
}

impl CLOB {
    /// The slab's contents.
    pub open spec fn arena(self) -> Map<usize, OrderNode> {
        slab_contents(self.orders)
    }

    /// The bid side: levels best (highest) price first, orders oldest first.
    pub open spec fn bids_view(self) -> Seq<LevelView> {
        side_view(self.bids@, self.arena())
    }

    /// The ask side: levels best (lowest) price first, orders oldest first.
    pub open spec fn asks_view(self) -> Seq<LevelView> {
        side_view(self.asks@, self.arena())
    }

    /// The resting orders by id.
    pub open spec fn orders_view(self) -> Map<u64, Order> {
        Map::new(
            |id: u64| self.order_index@.contains_key(id),
            |id: u64| self.arena()[self.order_index@[id]].order,
        )
    }

    /// Total remaining quantity across the whole book.
    pub open spec fn book_quantity(self) -> int {
        levels_total(self.bids@, self.arena()) + levels_total(self.asks@, self.arena())
    }

    /// Best bid price, if any bid rests.
    pub open spec fn best_bid_spec(self) -> Option<u64> {
        if self.bids@.len() == 0 {
            None
        } else {
            Some(self.bids@[0].price)
        }
    }

    /// Best ask price, if any ask rests.
    pub open spec fn best_ask_spec(self) -> Option<u64> {
        if self.asks@.len() == 0 {
            None
        } else {
            Some(self.asks@[0].price)
        }
    }

    /// The book is not crossed: when both sides rest, the best ask is
    /// strictly above the best bid.
    pub open spec fn not_crossed(self) -> bool {
        self.bids@.len() > 0 && self.asks@.len() > 0 ==> self.asks@[0].price > self.bids@[0].price
    }

    /// Book well-formedness; every public operation preserves it.
    pub open spec fn wf(self) -> bool {
        let m = self.arena();
        &&& m.dom().finite()
        &&& side_wf(self.bids@, m, 0, true)
        &&& side_wf(self.asks@, m, 1, false)
        &&& (forall|k: usize|
            #[trigger] m.contains_key(k) ==> side_has_key(self.bids@, k) || side_has_key(
                self.asks@,
                k,
            ))
        &&& (forall|k: usize|
            #[trigger] m.contains_key(k) ==> self.order_index@.contains_key(m[k].order.id)
                && self.order_index@[m[k].order.id] == k)
        &&& (forall|id: u64|
            #[trigger] self.order_index@.contains_key(id) ==> m.contains_key(
                self.order_index@[id],
            ) && m[self.order_index@[id]].order.id == id)
        &&& self.bid_count == levels_count(self.bids@)
        &&& self.ask_count == levels_count(self.asks@)
        &&& self.bid_count + self.ask_count == m.dom().len()
        &&& self.book_quantity() <= u64::MAX
    }

    /// Create a new empty book.
    pub fn new() -> (r: CLOB)
        ensures
            r.wf(),
            r.bids_view() == Seq::<LevelView>::empty(),
            r.asks_view() == Seq::<LevelView>::empty(),
            r.orders_view() == Map::<u64, Order>::empty(),
            r.next_order_id == 1,
            r.next_trade_id == 1,
            r.bid_count == 0,
            r.ask_count == 0,
    {
        let r = CLOB {
            orders: slab_new(),
            bids: Vec::new(),
            asks: Vec::new(),
            order_index: HashMap::new(),
            next_order_id: 1,
            next_trade_id: 1,
            bid_count: 0,
            ask_count: 0,
        };
        proof {
            assert(r.arena().dom() =~= Set::<usize>::empty());
            assert(r.bids_view() =~= Seq::<LevelView>::empty());
            assert(r.asks_view() =~= Seq::<LevelView>::empty());
            assert(r.orders_view() =~= Map::<u64, Order>::empty());
        }
        r
    }

    /// Create a book whose arena starts with room for `order_capacity`
    /// orders.
    pub fn with_capacity(order_capacity: usize) -> (r: CLOB)
        ensures
            r.wf(),
            r.bids_view() == Seq::<LevelView>::empty(),
            r.asks_view() == Seq::<LevelView>::empty(),
            r.orders_view() == Map::<u64, Order>::empty(),
            r.next_order_id == 1,
            r.next_trade_id == 1,
            r.bid_count == 0,
            r.ask_count == 0,
    {
        let r = CLOB {
            orders: slab_with_capacity(order_capacity),
            bids: Vec::new(),
            asks: Vec::new(),
            order_index: HashMap::new(),
            next_order_id: 1,
            next_trade_id: 1,
            bid_count: 0,
            ask_count: 0,
        };
        proof {
            assert(r.arena().dom() =~= Set::<usize>::empty());
            assert(r.bids_view() =~= Seq::<LevelView>::empty());
            assert(r.asks_view() =~= Seq::<LevelView>::empty());
            assert(r.orders_view() =~= Map::<u64, Order>::empty());
        }
        r
    }

    /// The arena's current capacity (pre-allocated slots).
    pub fn capacity(&self) -> (r: usize)
        ensures
            self.arena().dom().finite() ==> r >= self.arena().dom().len(),
    {
        slab_capacity(&self.orders)
    }

    /// The total number of orders resting in the book.
    pub fn order_count(&self) -> (r: usize)
        ensures
            self.arena().dom().finite() ==> r == self.arena().dom().len(),
            self.wf() ==> r == self.bid_count + self.ask_count,
    {
        slab_len(&self.orders)
    }

    /// The number of resting bid orders.
    pub fn bid_count(&self) -> (r: usize)
        ensures
            r == self.bid_count,
    {
        self.bid_count
    }

    /// The number of resting ask orders.
    pub fn ask_count(&self) -> (r: usize)
        ensures
            r == self.ask_count,
    {
        self.ask_count
    }

    /// Whether no order rests in the book.
    pub fn is_empty(&self) -> (r: bool)
        ensures
            self.arena().dom().finite() ==> r == (self.arena().dom().len() == 0),
    {
        slab_len(&self.orders) == 0
    }

    /// The number of bid price levels.
    pub fn bid_levels(&self) -> (r: usize)
        ensures
            r == self.bids_view().len(),
    {
        self.bids.len()
    }

    /// The number of ask price levels.
    pub fn ask_levels(&self) -> (r: usize)
        ensures
            r == self.asks_view().len(),
    {
        self.asks.len()
    }

    /// The best (highest) bid price, or None if no bids rest.
    pub fn best_bid(&self) -> (r: Option<u64>)
        ensures
            r == self.best_bid_spec(),
            r.is_some() == (self.bids_view().len() > 0),
            r is Some ==> r->0 == self.bids_view()[0].price,
    {
        if self.bids.len() > 0 {
            Some(self.bids[0].price)
        } else {
            None
        }
    }

    /// The best (lowest) ask price, or None if no asks rest.
    pub fn best_ask(&self) -> (r: Option<u64>)
        ensures
            r == self.best_ask_spec(),
            r.is_some() == (self.asks_view().len() > 0),
            r is Some ==> r->0 == self.asks_view()[0].price,
    {
        if self.asks.len() > 0 {
            Some(self.asks[0].price)
        } else {
            None
        }
    }

    /// The spread `best_ask - best_bid`, when both sides rest and the book
    /// is not crossed.
    pub fn spread(&self) -> (r: Option<u64>)
        ensures
            r == (match (self.best_bid_spec(), self.best_ask_spec()) {
                (Some(bid), Some(ask)) => if ask >= bid {
                    Some((ask - bid) as u64)
                } else {
                    None::<u64>
                },
                _ => None::<u64>,
            }),
    {
        if self.bids.len() > 0 && self.asks.len() > 0 {
            let bid = self.bids[0].price;
            let ask = self.asks[0].price;
            if ask >= bid {
                Some(ask - bid)
            } else {
                None
            }
        } else {
            None
        }
    }

    /// The best bid price level.
    pub fn best_bid_level(&self) -> (r: Option<&PriceLevel>)
        ensures
            match r {
                Some(l) => self.bids@.len() > 0 && *l == self.bids@[0],
                None => self.bids@.len() == 0,
            },
    {
        if self.bids.len() > 0 {
            Some(&self.bids[0])
        } else {
            None
        }
    }

    /// The best ask price level.
    pub fn best_ask_level(&self) -> (r: Option<&PriceLevel>)
        ensures
            match r {
                Some(l) => self.asks@.len() > 0 && *l == self.asks@[0],
                None => self.asks@.len() == 0,
            },
    {
        if self.asks.len() > 0 {
            Some(&self.asks[0])
        } else {
            None
        }
    }

    /// A reference to the order stored under a slab key.
    pub fn get_order(&self, key: usize) -> (r: Option<&Order>)
        ensures
            match r {
                Some(o) => self.arena().contains_key(key) && *o == self.arena()[key].order,
                None => !self.arena().contains_key(key),
            },
    {
        match slab_get(&self.orders, key) {
            Some(node) => Some(&node.order),
            None => None,
        }
    }

    /// The slab key under which the order with this id rests.
    pub fn get_key(&self, order_id: u64) -> (r: Option<usize>)
        ensures
            self.wf() ==> r == (if self.orders_view().contains_key(order_id) {
                Some(self.order_index@[order_id])
            } else {
                None::<usize>
            }),
    {
        match self.order_index.get(&order_id) {
            Some(k) => Some(*k),
            None => None,
        }
    }

    /// Whether an order with this id rests in the book.
    pub fn contains_order(&self, order_id: u64) -> (r: bool)
        ensures
            self.wf() ==> r == self.orders_view().contains_key(order_id),
    {
        self.order_index.contains_key(&order_id)
    }

    /// A reference to the orders slab.
    pub fn orders(&self) -> (r: &Slab<OrderNode>)
        ensures
            r == &self.orders,
    {
        &self.orders
    }

    /// A reference to the bid levels, best price first.
    pub fn bids(&self) -> (r: &Vec<PriceLevel>)
        ensures
            r == &self.bids,
    {
        &self.bids
    }

    /// A reference to the ask levels, best price first.
    pub fn asks(&self) -> (r: &Vec<PriceLevel>)
        ensures
            r == &self.asks,
    {
        &self.asks
    }

    /// A mutable reference to the orders slab. Mutating through it can
    /// break `wf`; it exists for callers that rebuild the book themselves.
    pub fn orders_mut(&mut self) -> (r: &mut Slab<OrderNode>)
        ensures
            *r == old(self).orders,
            final(self).orders == *final(r),
            final(self).bids == old(self).bids,
            final(self).asks == old(self).asks,
            final(self).order_index == old(self).order_index,
            final(self).next_order_id == old(self).next_order_id,
            final(self).next_trade_id == old(self).next_trade_id,
            final(self).bid_count == old(self).bid_count,
            final(self).ask_count == old(self).ask_count,
    {
        &mut self.orders
    }

    /// A mutable reference to the bid levels; the same caution applies.
    pub fn bids_mut(&mut self) -> (r: &mut Vec<PriceLevel>)
        ensures
            *r == old(self).bids,
            final(self).bids == *final(r),
            final(self).orders == old(self).orders,
            final(self).asks == old(self).asks,
            final(self).order_index == old(self).order_index,
            final(self).next_order_id == old(self).next_order_id,
            final(self).next_trade_id == old(self).next_trade_id,
            final(self).bid_count == old(self).bid_count,
            final(self).ask_count == old(self).ask_count,
    {
        &mut self.bids
    }

    /// A mutable reference to the ask levels; the same caution applies.
    pub fn asks_mut(&mut self) -> (r: &mut Vec<PriceLevel>)
        ensures
            *r == old(self).asks,
            final(self).asks == *final(r),
            final(self).orders == old(self).orders,
            final(self).bids == old(self).bids,
            final(self).order_index == old(self).order_index,
            final(self).next_order_id == old(self).next_order_id,
            final(self).next_trade_id == old(self).next_trade_id,
            final(self).bid_count == old(self).bid_count,
            final(self).ask_count == old(self).ask_count,
    {
        &mut self.asks
    }

    /// A mutable reference to the best bid level, if any bid rests.
    pub fn best_bid_level_mut(&mut self) -> (r: Option<&mut PriceLevel>)
        ensures
            old(self).bids@.len() == 0 ==> r is None && *final(self) == *old(self),
            old(self).bids@.len() > 0 ==> match r {
                Some(l) => *l == old(self).bids@[0] && final(self).bids@ == old(self).bids@.update(0, *final(l)) && final(self).orders == old(self).orders && final(self).asks == old(self).asks && final(self).order_index == old(self).order_index && final(self).next_order_id == old(self).next_order_id && final(self).next_trade_id == old(self).next_trade_id && final(self).bid_count == old(self).bid_count && final(self).ask_count == old(self).ask_count,
                None => false,
            },
    {
        if self.bids.len() > 0 {
            Some(&mut self.bids[0])
        } else {
            None
        }
    }

    /// A mutable reference to the best ask level, if any ask rests.
    pub fn best_ask_level_mut(&mut self) -> (r: Option<&mut PriceLevel>)
        ensures
            old(self).asks@.len() == 0 ==> r is None && *final(self) == *old(self),
            old(self).asks@.len() > 0 ==> match r {
                Some(l) => *l == old(self).asks@[0] && final(self).asks@ == old(self).asks@.update(0, *final(l)) && final(self).orders == old(self).orders && final(self).bids == old(self).bids && final(self).order_index == old(self).order_index && final(self).next_order_id == old(self).next_order_id && final(self).next_trade_id == old(self).next_trade_id && final(self).bid_count == old(self).bid_count && final(self).ask_count == old(self).ask_count,
                None => false,
            },
    {
        if self.asks.len() > 0 {
            Some(&mut self.asks[0])
        } else {
            None
        }
    }

    /// Take the next trade id and advance the counter.
    pub fn next_trade_id(&mut self) -> (r: u64)
        requires
            old(self).next_trade_id < u64::MAX,
        ensures
            r == old(self).next_trade_id,
            *final(self) == (CLOB { next_trade_id: (old(self).next_trade_id + 1) as u64, ..*old(self) }),
    {
        let id = self.next_trade_id;
        self.next_trade_id = self.next_trade_id + 1;
        id
    }

    /// The order id the book would auto-assign next.
    pub fn peek_next_order_id(&self) -> (r: u64)
        ensures
            r == self.next_order_id,
    {
        self.next_order_id
    }

    /// Add an order to the book **without matching**: matching is the
    /// engine's job, the book only files residual quantity. The order
    /// joins the tail of the level at its price on its side; an absent
    /// level is created at its sorted position. An id of 0 asks the book
    /// to assign `next_order_id` and advance the counter.
    ///
    /// A duplicate id is excluded by precondition rather than silently
    /// overwriting the index entry.
    #[verifier::rlimit(100)]
    #[verifier::spinoff_prover]
    pub fn add_order(&mut self, order: Order) -> (key: usize)
        requires
            old(self).wf(),
            0 < order.remaining,
            order.remaining <= order.quantity,
            order.side_raw == 0 || order.side_raw == 1,
            order.id == 0 ==> old(self).next_order_id < u64::MAX && !old(self).orders_view().contains_key(old(self).next_order_id),
            order.id != 0 ==> !old(self).orders_view().contains_key(order.id),
            old(self).book_quantity() + order.remaining <= u64::MAX,
            old(self).bid_count + old(self).ask_count < usize::MAX,
        ensures
            final(self).wf(),
            final(self).arena().contains_key(key),
            final(self).arena()[key].order == spec_stored_order(order, old(self).next_order_id),
            final(self).orders_view() == old(self).orders_view().insert(
                spec_assigned_id(order, old(self).next_order_id),
                spec_stored_order(order, old(self).next_order_id),
            ),
            order.side_raw == 0 ==> final(self).asks_view() == old(self).asks_view()
                && side_view_add(
                old(self).bids_view(),
                final(self).bids_view(),
                spec_stored_order(order, old(self).next_order_id),
            ) && final(self).bid_count == old(self).bid_count + 1 && final(self).ask_count == old(self).ask_count,
            order.side_raw == 1 ==> final(self).bids_view() == old(self).bids_view()
                && side_view_add(
                old(self).asks_view(),
                final(self).asks_view(),
                spec_stored_order(order, old(self).next_order_id),
            ) && final(self).ask_count == old(self).ask_count + 1 && final(self).bid_count == old(self).bid_count,
            final(self).book_quantity() == old(self).book_quantity() + order.remaining,
            final(self).next_order_id == (if order.id == 0 {
                old(self).next_order_id as int + 1
            } else {
                old(self).next_order_id as int
            }),
            final(self).next_trade_id == old(self).next_trade_id,
            order.side_raw == 0 ==> final(self).bids_view().len() > 0 && final(
                self
            ).bids_view()[0].price == (if old(self).bids_view().len() == 0 {
                order.price
            } else if order.price > old(self).bids_view()[0].price {
                order.price
            } else {
                old(self).bids_view()[0].price
            }) && final(self).asks@ == old(self).asks@,
            order.side_raw == 1 ==> final(self).asks_view().len() > 0 && final(
                self
            ).asks_view()[0].price == (if old(self).asks_view().len() == 0 {
                order.price
            } else if order.price < old(self).asks_view()[0].price {
                order.price
            } else {
                old(self).asks_view()[0].price
            }) && final(self).bids@ == old(self).bids@,
    {
        let ghost pre = *old(self);
        let mut order = order;
        if order.id == 0 {
            order.id = self.next_order_id;
            self.next_order_id = self.next_order_id + 1;
        }
        let ghost aid = order.id;
        let order_id = order.id;
        let is_buy = order.side_raw == 0;
        let ghost m0 = self.arena();
        proof {
            assert(self.orders == pre.orders);
            assert(m0 == pre.arena());
            assert(pre.wf());
        }
        let node = OrderNode::new(order);
        let key = slab_insert(&mut self.orders, node);
        let ghost m1 = self.arena();
        proof {
            lemma_arena_insert_fresh(pre.bids@, m0, key, node, 0, true);
            lemma_arena_insert_fresh(pre.asks@, m0, key, node, 1, false);
            assert(m1.dom() =~= m0.dom().insert(key));
            lemma_levels_total_nonneg(pre.bids@, m1);
            lemma_levels_total_nonneg(pre.asks@, m1);
            lemma_levels_count_nonneg(pre.bids@);
            lemma_levels_count_nonneg(pre.asks@);
        }
        self.order_index.insert(order_id, key);
        proof {
            assert(self.order_index@ == pre.order_index@.insert(aid, key));
        }
        if is_buy {
            side_insert(&mut self.bids, &mut self.orders, key, true, 0);
            self.bid_count = self.bid_count + 1;
        } else {
            side_insert(&mut self.asks, &mut self.orders, key, false, 1);
            self.ask_count = self.ask_count + 1;
        }
        proof {
            let m2 = self.arena();
            let stored = spec_stored_order(order, pre.next_order_id);
            assert(node.order == stored);
            assert(m2[key].order == m1[key].order);
            // the untouched side is untouched in every sense
            if is_buy {
                assert forall|j: int| 0 <= j < pre.asks@.len() implies (#[trigger] pre.asks@[j]).wf(
                    m2,
                ) && level_view(pre.asks@[j], m2) == level_view(pre.asks@[j], m1) by {
                    assert forall|p: int| 0 <= p < pre.asks@[j].queue@.len() implies m2.contains_key(
                        #[trigger] pre.asks@[j].queue@[p],
                    ) && m2[pre.asks@[j].queue@[p]] == m1[pre.asks@[j].queue@[p]] by {
                        let k = pre.asks@[j].queue@[p];
                        assert(links_ok(pre.asks@[j].queue@, m1, pre.asks@[j].price, p));
                        assert(pre.asks@[j].queue@.contains(k));
                        if side_has_key(pre.bids@, k) {
                            let bi = choose|bi: int|
                                0 <= bi < pre.bids@.len() && (#[trigger] pre.bids@[bi]).queue@.contains(k);
                            lemma_cross_side_disjoint(pre.bids@, pre.asks@, m1, bi, j, k);
                        }
                        assert(k != key);
                    }
                    lemma_level_unchanged(pre.asks@[j], m1, m2);
                }
                assert forall|i: int, j: int|
                    0 <= i < pre.asks@.len() && 0 <= j < pre.asks@[i].queue@.len() implies m2[
                    #[trigger] pre.asks@[i].queue@[j]].order.side_raw == 1 by {
                    assert(links_ok(pre.asks@[i].queue@, m1, pre.asks@[i].price, j));
                    assert(m2[pre.asks@[i].queue@[j]].order == m1[pre.asks@[i].queue@[j]].order);
                }
                assert forall|i: int, j: int|
                    0 <= i < pre.asks@.len() && 0 <= j < pre.asks@[i].queue@.len() implies m1[
                    #[trigger] pre.asks@[i].queue@[j]].order.remaining == m2[pre.asks@[
                    i].queue@[j]].order.remaining by {
                    assert(links_ok(pre.asks@[i].queue@, m1, pre.asks@[i].price, j));
                }
                lemma_levels_total_congruence(pre.asks@, m1, m2);
                assert(side_view(pre.asks@, m2) =~= side_view(pre.asks@, m1));
                assert(side_wf(self.asks@, m2, 1, false));
            } else {
                assert forall|j: int| 0 <= j < pre.bids@.len() implies (#[trigger] pre.bids@[j]).wf(
                    m2,
                ) && level_view(pre.bids@[j], m2) == level_view(pre.bids@[j], m1) by {
                    assert forall|p: int| 0 <= p < pre.bids@[j].queue@.len() implies m2.contains_key(
                        #[trigger] pre.bids@[j].queue@[p],
                    ) && m2[pre.bids@[j].queue@[p]] == m1[pre.bids@[j].queue@[p]] by {
                        let k = pre.bids@[j].queue@[p];
                        assert(links_ok(pre.bids@[j].queue@, m1, pre.bids@[j].price, p));
                        assert(pre.bids@[j].queue@.contains(k));
                        if side_has_key(pre.asks@, k) {
                            let ai = choose|ai: int|
                                0 <= ai < pre.asks@.len() && (#[trigger] pre.asks@[ai]).queue@.contains(k);
                            lemma_cross_side_disjoint(pre.bids@, pre.asks@, m1, j, ai, k);
                            assert(false);
                        }
                        assert(k != key);
                    }
                    lemma_level_unchanged(pre.bids@[j], m1, m2);
                }
                assert forall|i: int, j: int|
                    0 <= i < pre.bids@.len() && 0 <= j < pre.bids@[i].queue@.len() implies m2[
                    #[trigger] pre.bids@[i].queue@[j]].order.side_raw == 0 by {
                    assert(links_ok(pre.bids@[i].queue@, m1, pre.bids@[i].price, j));
                    assert(m2[pre.bids@[i].queue@[j]].order == m1[pre.bids@[i].queue@[j]].order);
                }
                assert forall|i: int, j: int|
                    0 <= i < pre.bids@.len() && 0 <= j < pre.bids@[i].queue@.len() implies m1[
                    #[trigger] pre.bids@[i].queue@[j]].order.remaining == m2[pre.bids@[
                    i].queue@[j]].order.remaining by {
                    assert(links_ok(pre.bids@[i].queue@, m1, pre.bids@[i].price, j));
                }
                lemma_levels_total_congruence(pre.bids@, m1, m2);
                assert(side_view(pre.bids@, m2) =~= side_view(pre.bids@, m1));
                assert(side_wf(self.bids@, m2, 0, true));
            }
            // coverage: the new key is filed; old keys keep their homes
            assert forall|k: usize| #[trigger] m2.contains_key(k) implies side_has_key(
                self.bids@,
                k,
            ) || side_has_key(self.asks@, k) by {
                if k != key {
                    assert(m0.contains_key(k));
                }
            }
            // the index stays a bijection
            assert forall|k: usize| #[trigger] m2.contains_key(k) implies self.order_index@.contains_key(
                m2[k].order.id,
            ) && self.order_index@[m2[k].order.id] == k by {
                if k == key {
                } else {
                    assert(m0.contains_key(k));
                    assert(m2[k].order == m0[k].order);
                    assert(pre.order_index@.contains_key(m0[k].order.id));
                    assert(m0[k].order.id != aid) by {
                        if m0[k].order.id == aid {
                            assert(pre.orders_view().contains_key(aid));
                        }
                    }
                }
            }
            assert forall|id: u64| #[trigger] self.order_index@.contains_key(id) implies m2.contains_key(
                self.order_index@[id],
            ) && m2[self.order_index@[id]].order.id == id by {
                if id == aid {
                } else {
                    assert(pre.order_index@.contains_key(id));
                    assert(m0.contains_key(pre.order_index@[id]));
                    assert(m1.contains_key(pre.order_index@[id]));
                    assert(m2[pre.order_index@[id]].order == m0[pre.order_index@[id]].order);
                }
            }
            // cardinality
            assert(m1.dom().len() == m0.dom().len() + 1);
            // the id-indexed view gains exactly the stored order
            assert(self.orders_view() =~= pre.orders_view().insert(aid, stored)) by {
                assert(self.order_index@ == pre.order_index@.insert(aid, key));
                assert(m2[key].order == stored);
                assert forall|id: u64| #[trigger] pre.order_index@.contains_key(id) && id != aid
                    implies self.order_index@[id] == pre.order_index@[id] && m0.contains_key(
                    pre.order_index@[id],
                ) && m2[pre.order_index@[id]].order == m0[pre.order_index@[id]].order by {
                    assert(pre.order_index@.contains_key(id));
                    assert(m0.contains_key(pre.order_index@[id]));
                    assert(m1.contains_key(pre.order_index@[id]));
                }
            }
        }
        key
    }

    /// Remove an order by slab key: splice it out of its level, drop the
    /// level if it empties, erase the id index entry and free the slab
    /// slot. Returns the removed order, or None for a vacant key.
    ///
    /// Every other resting order is untouched: their ids still look up the
    /// same records afterwards.
    #[verifier::rlimit(100)]
    #[verifier::spinoff_prover]
    pub fn remove_order(&mut self, key: usize) -> (r: Option<Order>)
        requires
            old(self).wf(),
        ensures
            final(self).wf(),
            r is None ==> !old(self).arena().contains_key(key) && *final(self) == *old(self),
            r is Some ==> {
                let o = r->0;
                &&& old(self).arena().contains_key(key)
                &&& o == old(self).arena()[key].order
                &&& old(self).orders_view().contains_key(o.id)
                &&& old(self).orders_view()[o.id] == o
                &&& final(self).orders_view() == old(self).orders_view().remove(o.id)
                &&& (o.side_raw == 0 ==> side_view_remove(
                    old(self).bids_view(),
                    final(self).bids_view(),
                    o,
                ) && final(self).asks_view() == old(self).asks_view() && final(self).bid_count
                    == old(self).bid_count - 1 && final(self).ask_count == old(self).ask_count)
                &&& (o.side_raw != 0 ==> side_view_remove(
                    old(self).asks_view(),
                    final(self).asks_view(),
                    o,
                ) && final(self).bids_view() == old(self).bids_view() && final(self).ask_count
                    == old(self).ask_count - 1 && final(self).bid_count == old(self).bid_count)
                &&& final(self).book_quantity() == old(self).book_quantity() - o.remaining
                &&& !final(self).arena().contains_key(key)
                &&& (o.side_raw == 0 ==> final(self).asks@ == old(self).asks@)
                &&& (o.side_raw != 0 ==> final(self).bids@ == old(self).bids@)
            },
            final(self).next_order_id == old(self).next_order_id,
            final(self).next_trade_id == old(self).next_trade_id,
    {
        let ghost pre = *old(self);
        let ghost m0 = self.arena();
        let node = match slab_get(&self.orders, key) {
            Some(n) => *n,
            None => {
                return None;
            },
        };
        let price = node.order.price;
        let is_buy = node.order.side_raw == 0;
        let ghost o = node.order;
        // locate the level that holds the node: its side byte picks the
        // side, its stored price picks the level
        proof {
            assert(side_has_key(pre.bids@, key) || side_has_key(pre.asks@, key));
        }
        if is_buy {
            let li = find_level(&self.bids, price, true);
            proof {
                assert(side_has_key(pre.bids@, key)) by {
                    if side_has_key(pre.asks@, key) {
                        let aj = choose|j: int|
                            0 <= j < pre.asks@.len() && (#[trigger] pre.asks@[j]).queue@.contains(
                                key,
                            );
                        let p = choose|p: int|
                            0 <= p < pre.asks@[aj].queue@.len() && pre.asks@[aj].queue@[p] == key;
                        assert(m0[pre.asks@[aj].queue@[p]].order.side_raw == 1);
                    }
                }
                let bj = choose|j: int|
                    0 <= j < pre.bids@.len() && (#[trigger] pre.bids@[j]).queue@.contains(key);
                let p = choose|p: int|
                    0 <= p < pre.bids@[bj].queue@.len() && pre.bids@[bj].queue@[p] == key;
                assert(links_ok(pre.bids@[bj].queue@, m0, pre.bids@[bj].price, p));
                assert(pre.bids@[bj].price == price);
                assert(li == bj) by {
                    if bj < li {
                        assert(pre.bids@[bj].price > price);
                    }
                    if li < bj {
                        assert(pre.bids@[li as int].price > pre.bids@[bj].price);
                    }
                }
                lemma_level_count_le(pre.bids@, li as int);
            }
            side_remove(&mut self.bids, &mut self.orders, li, key, true, 0);
            self.bid_count = self.bid_count - 1;
        } else {
            let li = find_level(&self.asks, price, false);
            proof {
                assert(node.order.side_raw == 1) by {
                    if side_has_key(pre.bids@, key) {
                        let bj = choose|j: int|
                            0 <= j < pre.bids@.len() && (#[trigger] pre.bids@[j]).queue@.contains(
                                key,
                            );
                        let p = choose|p: int|
                            0 <= p < pre.bids@[bj].queue@.len() && pre.bids@[bj].queue@[p] == key;
                        assert(m0[pre.bids@[bj].queue@[p]].order.side_raw == 0);
                    } else {
                        let aj = choose|j: int|
                            0 <= j < pre.asks@.len() && (#[trigger] pre.asks@[j]).queue@.contains(
                                key,
                            );
                        let p = choose|p: int|
                            0 <= p < pre.asks@[aj].queue@.len() && pre.asks@[aj].queue@[p] == key;
                        assert(m0[pre.asks@[aj].queue@[p]].order.side_raw == 1);
                    }
                }
                assert(side_has_key(pre.asks@, key));
                let aj = choose|j: int|
                    0 <= j < pre.asks@.len() && (#[trigger] pre.asks@[j]).queue@.contains(key);
                let p = choose|p: int|
                    0 <= p < pre.asks@[aj].queue@.len() && pre.asks@[aj].queue@[p] == key;
                assert(links_ok(pre.asks@[aj].queue@, m0, pre.asks@[aj].price, p));
                assert(pre.asks@[aj].price == price);
                assert(li == aj) by {
                    if aj < li {
                        assert(pre.asks@[aj].price < price);
                    }
                    if li < aj {
                        assert(pre.asks@[li as int].price < pre.asks@[aj].price);
                    }
                }
                lemma_level_count_le(pre.asks@, li as int);
            }
            side_remove(&mut self.asks, &mut self.orders, li, key, false, 1);
            self.ask_count = self.ask_count - 1;
        }
        let ghost m2 = self.arena();
        proof {
            // the untouched side is untouched
            if is_buy {
                assert forall|j: int| 0 <= j < pre.asks@.len() implies (#[trigger] pre.asks@[j]).wf(
                    m2,
                ) && level_view(pre.asks@[j], m2) == level_view(pre.asks@[j], m0) by {
                    assert forall|p: int| 0 <= p < pre.asks@[j].queue@.len() implies m2.contains_key(
                        #[trigger] pre.asks@[j].queue@[p],
                    ) && m2[pre.asks@[j].queue@[p]] == m0[pre.asks@[j].queue@[p]] by {
                        let k = pre.asks@[j].queue@[p];
                        assert(links_ok(pre.asks@[j].queue@, m0, pre.asks@[j].price, p));
                        assert(pre.asks@[j].queue@.contains(k));
                        if side_has_key(pre.bids@, k) {
                            let bi = choose|bi: int|
                                0 <= bi < pre.bids@.len() && (#[trigger] pre.bids@[bi]).queue@.contains(k);
                            lemma_cross_side_disjoint(pre.bids@, pre.asks@, m0, bi, j, k);
                            assert(false);
                        }
                    }
                    lemma_level_unchanged(pre.asks@[j], m0, m2);
                }
                assert forall|i: int, j: int|
                    0 <= i < pre.asks@.len() && 0 <= j < pre.asks@[i].queue@.len() implies m2[
                    #[trigger] pre.asks@[i].queue@[j]].order.side_raw == 1 by {
                    assert(links_ok(pre.asks@[i].queue@, m0, pre.asks@[i].price, j));
                    assert(m2[pre.asks@[i].queue@[j]].order == m0[pre.asks@[i].queue@[j]].order);
                }
                assert forall|i: int, j: int|
                    0 <= i < pre.asks@.len() && 0 <= j < pre.asks@[i].queue@.len() implies m0[
                    #[trigger] pre.asks@[i].queue@[j]].order.remaining == m2[pre.asks@[
                    i].queue@[j]].order.remaining by {
                    assert(links_ok(pre.asks@[i].queue@, m0, pre.asks@[i].price, j));
                }
                lemma_levels_total_congruence(pre.asks@, m0, m2);
                assert(side_view(pre.asks@, m2) =~= side_view(pre.asks@, m0));
            } else {
                assert forall|j: int| 0 <= j < pre.bids@.len() implies (#[trigger] pre.bids@[j]).wf(
                    m2,
                ) && level_view(pre.bids@[j], m2) == level_view(pre.bids@[j], m0) by {
                    assert forall|p: int| 0 <= p < pre.bids@[j].queue@.len() implies m2.contains_key(
                        #[trigger] pre.bids@[j].queue@[p],
                    ) && m2[pre.bids@[j].queue@[p]] == m0[pre.bids@[j].queue@[p]] by {
                        let k = pre.bids@[j].queue@[p];
                        assert(links_ok(pre.bids@[j].queue@, m0, pre.bids@[j].price, p));
                        assert(pre.bids@[j].queue@.contains(k));
                        if side_has_key(pre.asks@, k) {
                            let ai = choose|ai: int|
                                0 <= ai < pre.asks@.len() && (#[trigger] pre.asks@[ai]).queue@.contains(k);
                            lemma_cross_side_disjoint(pre.bids@, pre.asks@, m0, j, ai, k);
                            assert(false);
                        }
                    }
                    lemma_level_unchanged(pre.bids@[j], m0, m2);
                }
                assert forall|i: int, j: int|
                    0 <= i < pre.bids@.len() && 0 <= j < pre.bids@[i].queue@.len() implies m2[
                    #[trigger] pre.bids@[i].queue@[j]].order.side_raw == 0 by {
                    assert(links_ok(pre.bids@[i].queue@, m0, pre.bids@[i].price, j));
                    assert(m2[pre.bids@[i].queue@[j]].order == m0[pre.bids@[i].queue@[j]].order);
                }
                assert forall|i: int, j: int|
                    0 <= i < pre.bids@.len() && 0 <= j < pre.bids@[i].queue@.len() implies m0[
                    #[trigger] pre.bids@[i].queue@[j]].order.remaining == m2[pre.bids@[
                    i].queue@[j]].order.remaining by {
                    assert(links_ok(pre.bids@[i].queue@, m0, pre.bids@[i].price, j));
                }
                lemma_levels_total_congruence(pre.bids@, m0, m2);
                assert(side_view(pre.bids@, m2) =~= side_view(pre.bids@, m0));
            }
        }
        self.order_index.remove(&node.order.id);
        let removed = slab_remove(&mut self.orders, key);
        let ghost m3 = self.arena();
        proof {
            assert(m3 == m2.remove(key));
            assert(m3.dom() =~= m2.dom().remove(key));
            // every remaining level avoids the freed key, so survives
            assert forall|j: int| 0 <= j < self.bids@.len() implies (#[trigger] self.bids@[j]).wf(
                m3,
            ) && level_view(self.bids@[j], m3) == level_view(self.bids@[j], m2) by {
                assert forall|p: int| 0 <= p < self.bids@[j].queue@.len() implies m3.contains_key(
                    #[trigger] self.bids@[j].queue@[p],
                ) && m3[self.bids@[j].queue@[p]] == m2[self.bids@[j].queue@[p]] by {
                    assert(self.bids@[j].wf(m2));
                    assert(links_ok(self.bids@[j].queue@, m2, self.bids@[j].price, p));
                    assert(self.bids@[j].queue@.contains(self.bids@[j].queue@[p]));
                    if is_buy {
                        assert(!side_has_key(self.bids@, key));
                    } else {
                        if self.bids@[j].queue@[p] == key {
                            assert(side_has_key(pre.bids@, key));
                            let bj = choose|bj: int|
                                0 <= bj < pre.bids@.len() && (#[trigger] pre.bids@[bj]).queue@.contains(key);
                            let pp = choose|pp: int|
                                0 <= pp < pre.bids@[bj].queue@.len() && pre.bids@[bj].queue@[pp]
                                    == key;
                            assert(m0[pre.bids@[bj].queue@[pp]].order.side_raw == 0);
                            assert(false);
                        }
                    }
                }
                lemma_level_unchanged(self.bids@[j], m2, m3);
            }
            assert forall|j: int| 0 <= j < self.asks@.len() implies (#[trigger] self.asks@[j]).wf(
                m3,
            ) && level_view(self.asks@[j], m3) == level_view(self.asks@[j], m2) by {
                assert forall|p: int| 0 <= p < self.asks@[j].queue@.len() implies m3.contains_key(
                    #[trigger] self.asks@[j].queue@[p],
                ) && m3[self.asks@[j].queue@[p]] == m2[self.asks@[j].queue@[p]] by {
                    assert(self.asks@[j].wf(m2));
                    assert(links_ok(self.asks@[j].queue@, m2, self.asks@[j].price, p));
                    assert(self.asks@[j].queue@.contains(self.asks@[j].queue@[p]));
                    if !is_buy {
                        assert(!side_has_key(self.asks@, key));
                    } else {
                        if self.asks@[j].queue@[p] == key {
                            assert(side_has_key(pre.asks@, key));
                            let aj = choose|aj: int|
                                0 <= aj < pre.asks@.len() && (#[trigger] pre.asks@[aj]).queue@.contains(key);
                            let pp = choose|pp: int|
                                0 <= pp < pre.asks@[aj].queue@.len() && pre.asks@[aj].queue@[pp]
                                    == key;
                            assert(m0[pre.asks@[aj].queue@[pp]].order.side_raw == 1);
                            assert(false);
                        }
                    }
                }
                lemma_level_unchanged(self.asks@[j], m2, m3);
            }
            assert(side_view(self.bids@, m3) =~= side_view(self.bids@, m2));
            assert(side_view(self.asks@, m3) =~= side_view(self.asks@, m2));
            assert forall|i: int, j: int|
                0 <= i < self.bids@.len() && 0 <= j < self.bids@[i].queue@.len() implies m3[
                #[trigger] self.bids@[i].queue@[j]].order.side_raw == 0 by {
                assert(self.bids@[i].wf(m2));
                assert(links_ok(self.bids@[i].queue@, m2, self.bids@[i].price, j));
                assert(m3[self.bids@[i].queue@[j]] == m2[self.bids@[i].queue@[j]]);
            }
            assert forall|i: int, j: int|
                0 <= i < self.asks@.len() && 0 <= j < self.asks@[i].queue@.len() implies m3[
                #[trigger] self.asks@[i].queue@[j]].order.side_raw == 1 by {
                assert(self.asks@[i].wf(m2));
                assert(links_ok(self.asks@[i].queue@, m2, self.asks@[i].price, j));
                assert(m3[self.asks@[i].queue@[j]] == m2[self.asks@[i].queue@[j]]);
            }
            assert forall|i: int, j: int|
                0 <= i < self.bids@.len() && 0 <= j < self.bids@[i].queue@.len() implies m2[
                #[trigger] self.bids@[i].queue@[j]].order.remaining == m3[self.bids@[
                i].queue@[j]].order.remaining by {
                assert(self.bids@[i].wf(m2));
                assert(links_ok(self.bids@[i].queue@, m2, self.bids@[i].price, j));
            }
            assert forall|i: int, j: int|
                0 <= i < self.asks@.len() && 0 <= j < self.asks@[i].queue@.len() implies m2[
                #[trigger] self.asks@[i].queue@[j]].order.remaining == m3[self.asks@[
                i].queue@[j]].order.remaining by {
                assert(self.asks@[i].wf(m2));
                assert(links_ok(self.asks@[i].queue@, m2, self.asks@[i].price, j));
            }
            lemma_levels_total_congruence(self.bids@, m2, m3);
            lemma_levels_total_congruence(self.asks@, m2, m3);
            lemma_levels_total_nonneg(self.bids@, m3);
            lemma_levels_total_nonneg(self.asks@, m3);
            // coverage: everything still stored is still filed
            assert forall|k: usize| #[trigger] m3.contains_key(k) implies side_has_key(
                self.bids@,
                k,
            ) || side_has_key(self.asks@, k) by {
                assert(m0.contains_key(k) && k != key);
            }
            // the index stays a bijection after dropping the removed id
            assert(self.order_index@ == pre.order_index@.remove(o.id));
            assert forall|k: usize| #[trigger] m3.contains_key(k) implies self.order_index@.contains_key(
                m3[k].order.id,
            ) && self.order_index@[m3[k].order.id] == k by {
                assert(m0.contains_key(k) && k != key);
                assert(m3[k].order == m0[k].order);
                assert(pre.order_index@.contains_key(m0[k].order.id));
                assert(pre.order_index@[m0[k].order.id] == k);
                assert(m0[k].order.id != o.id) by {
                    if m0[k].order.id == o.id {
                        assert(pre.order_index@[o.id] == k);
                        assert(pre.order_index@[o.id] == key) by {
                            assert(m0.contains_key(key));
                        }
                    }
                }
            }
            assert forall|id: u64| #[trigger] self.order_index@.contains_key(id) implies m3.contains_key(
                self.order_index@[id],
            ) && m3[self.order_index@[id]].order.id == id by {
                assert(pre.order_index@.contains_key(id));
                assert(m0.contains_key(pre.order_index@[id]));
                assert(pre.order_index@[id] != key) by {
                    if pre.order_index@[id] == key {
                        assert(m0[key].order.id == id);
                        assert(id == o.id);
                    }
                }
                assert(m3[pre.order_index@[id]].order == m0[pre.order_index@[id]].order);
            }
            // cardinality
            assert(m2.dom().len() == m0.dom().len());
            assert(m3.dom().len() == m2.dom().len() - 1) by {
                assert(m2.dom().contains(key));
            }
            // the id-indexed view loses exactly the removed order
            assert(self.orders_view() =~= pre.orders_view().remove(o.id)) by {
                assert forall|id: u64| #[trigger] pre.order_index@.contains_key(id) && id != o.id
                    implies self.order_index@[id] == pre.order_index@[id] && m3.contains_key(
                    pre.order_index@[id],
                ) && m3[pre.order_index@[id]].order == m0[pre.order_index@[id]].order by {
                    assert(m0.contains_key(pre.order_index@[id]));
                    assert(pre.order_index@[id] != key) by {
                        if pre.order_index@[id] == key {
                            assert(m0[key].order.id == id);
                        }
                    }
                }
            }
            assert(pre.orders_view().contains_key(o.id)) by {
                assert(m0.contains_key(key));
            }
            assert(pre.orders_view()[o.id] == o) by {
                assert(pre.order_index@[o.id] == key);
            }
        }
        Some(removed.order)
    }

    /// Cancel an order by its id.
    ///
    /// A missing id is a silent no-op returning None, and leaves the book
    /// exactly as it was: cancelling twice is the same as cancelling once.
    pub fn cancel_order(&mut self, order_id: u64) -> (r: Option<Order>)
        requires
            old(self).wf(),
        ensures
            final(self).wf(),
            r == (if old(self).orders_view().contains_key(order_id) {
                Some(old(self).orders_view()[order_id])
            } else {
                None::<Order>
            }),
            final(self).orders_view() == old(self).orders_view().remove(order_id),
            !old(self).orders_view().contains_key(order_id) ==> *final(self) == *old(self),
            r is Some ==> {
                let o = r->0;
                &&& o.id == order_id
                &&& (o.side_raw == 0 ==> side_view_remove(
                    old(self).bids_view(),
                    final(self).bids_view(),
                    o,
                ) && final(self).asks_view() == old(self).asks_view() && final(self).bid_count
                    == old(self).bid_count - 1 && final(self).ask_count == old(self).ask_count)
                &&& (o.side_raw != 0 ==> side_view_remove(
                    old(self).asks_view(),
                    final(self).asks_view(),
                    o,
                ) && final(self).bids_view() == old(self).bids_view() && final(self).ask_count
                    == old(self).ask_count - 1 && final(self).bid_count == old(self).bid_count)
                &&& final(self).book_quantity() == old(self).book_quantity() - o.remaining
            },
            final(self).next_order_id == old(self).next_order_id,
            final(self).next_trade_id == old(self).next_trade_id,
    {
        let key = match self.order_index.get(&order_id) {
            Some(k) => *k,
            None => {
                proof {
                    assert(self.orders_view() =~= self.orders_view().remove(order_id));
                }
                return None;
            },
        };
        proof {
            assert(self.arena().contains_key(key));
            assert(self.arena()[key].order.id == order_id);
        }
        self.remove_order(key)
    }

    /// No two positions of a well-formed book's views hold the same order
    /// id: the id index maps each id to a single slab key.
    pub proof fn lemma_ids_distinct(self)
        requires
            self.wf(),
        ensures
            ids_distinct(self.bids_view()),
            ids_distinct(self.asks_view()),
    {
        let m = self.arena();
        assert forall|a: int, b: int, c: int, d: int|
            0 <= a < self.bids_view().len() && 0 <= b < self.bids_view()[a].orders.len() && 0 <= c
                < self.bids_view().len() && 0 <= d < self.bids_view()[c].orders.len() && (a != c
                || b != d) implies (#[trigger] self.bids_view()[a].orders[b]).id
            != (#[trigger] self.bids_view()[c].orders[d]).id by {
            let k1 = self.bids@[a].queue@[b];
            let k2 = self.bids@[c].queue@[d];
            assert(links_ok(self.bids@[a].queue@, m, self.bids@[a].price, b));
            assert(links_ok(self.bids@[c].queue@, m, self.bids@[c].price, d));
            if a != c {
                assert(self.bids@[a].queue@.contains(k1));
                lemma_side_queues_disjoint(self.bids@, m, 0, true, a, c, k1);
                if k1 == k2 {
                    assert(self.bids@[c].queue@.contains(k1));
                }
            }
            assert(k1 != k2);
            if m[k1].order.id == m[k2].order.id {
                assert(self.order_index@[m[k1].order.id] == k1);
                assert(self.order_index@[m[k2].order.id] == k2);
            }
        }
        assert forall|a: int, b: int, c: int, d: int|
            0 <= a < self.asks_view().len() && 0 <= b < self.asks_view()[a].orders.len() && 0 <= c
                < self.asks_view().len() && 0 <= d < self.asks_view()[c].orders.len() && (a != c
                || b != d) implies (#[trigger] self.asks_view()[a].orders[b]).id
            != (#[trigger] self.asks_view()[c].orders[d]).id by {
            let k1 = self.asks@[a].queue@[b];
            let k2 = self.asks@[c].queue@[d];
            assert(links_ok(self.asks@[a].queue@, m, self.asks@[a].price, b));
            assert(links_ok(self.asks@[c].queue@, m, self.asks@[c].price, d));
            if a != c {
                assert(self.asks@[a].queue@.contains(k1));
                lemma_side_queues_disjoint(self.asks@, m, 1, false, a, c, k1);
                if k1 == k2 {
                    assert(self.asks@[c].queue@.contains(k1));
                }
            }
            assert(k1 != k2);
            if m[k1].order.id == m[k2].order.id {
                assert(self.order_index@[m[k1].order.id] == k1);
                assert(self.order_index@[m[k2].order.id] == k2);
            }
        }
    }

    /// The oldest order at the best level of the given resting side: the
    /// maker the matching engine would fill next.
    pub fn peek_best(&self, side: Side) -> (r: Order)
        requires
            self.wf(),
            side == Side::Sell ==> self.asks_view().len() > 0,
            side == Side::Buy ==> self.bids_view().len() > 0,
        ensures
            side == Side::Sell ==> r == self.asks_view()[0].orders[0] && r.price
                == self.asks_view()[0].price,
            side == Side::Buy ==> r == self.bids_view()[0].orders[0] && r.price
                == self.bids_view()[0].price,
            r.remaining > 0,
            r.remaining <= r.quantity,
            self.orders_view().contains_key(r.id),
            self.orders_view()[r.id] == r,
    {
        let consuming_asks = match side {
            Side::Sell => true,
            Side::Buy => false,
        };
        let key = if consuming_asks {
            proof {
                assert(self.asks@[0].wf(self.arena()));
            }
            self.asks[0].head.unwrap()
        } else {
            proof {
                assert(self.bids@[0].wf(self.arena()));
            }
            self.bids[0].head.unwrap()
        };
        proof {
            if consuming_asks {
                assert(links_ok(self.asks@[0].queue@, self.arena(), self.asks@[0].price, 0));
            } else {
                assert(links_ok(self.bids@[0].queue@, self.arena(), self.bids@[0].price, 0));
            }
            assert(self.order_index@[self.arena()[key].order.id] == key);
        }
        let node = *slab_get(&self.orders, key).unwrap();
        node.order
    }

    /// Fill `qty` against the oldest order at the best level of the given
    /// resting side (`Side::Sell` consumes the best ask, `Side::Buy` the
    /// best bid). A maker filled completely leaves the book, and its level
    /// too if it empties; a partial fill only decrements the head order.
    ///
    /// Returns the maker order as it rested before the fill.
    #[verifier::rlimit(100)]
    #[verifier::spinoff_prover]
    pub fn fill_best(&mut self, side: Side, qty: u64) -> (maker: Order)
        requires
            old(self).wf(),
            side == Side::Sell ==> old(self).asks_view().len() > 0 && 0 < qty <= old(self).asks_view()[0].orders[0].remaining,
            side == Side::Buy ==> old(self).bids_view().len() > 0 && 0 < qty <= old(self).bids_view()[0].orders[0].remaining,
        ensures
            final(self).wf(),
            final(self).next_order_id == old(self).next_order_id,
            final(self).next_trade_id == old(self).next_trade_id,
            final(self).book_quantity() == old(self).book_quantity() - qty,
            side == Side::Sell ==> {
                let pre = old(self).asks_view();
                let dec = Order { remaining: (maker.remaining - qty) as u64, ..maker };
                &&& maker == pre[0].orders[0]
                &&& final(self).bids_view() == old(self).bids_view()
                &&& final(self).bids@ == old(self).bids@
                &&& final(self).bid_count == old(self).bid_count
                &&& (qty < maker.remaining ==> final(self).asks_view() =~~= pre.update(
                    0,
                    LevelView { price: pre[0].price, orders: pre[0].orders.update(0, dec) },
                ) && final(self).orders_view() == old(self).orders_view().insert(maker.id, dec)
                    && final(self).ask_count == old(self).ask_count)
                &&& (qty == maker.remaining ==> final(self).orders_view() == old(self).orders_view().remove(maker.id) && final(self).ask_count == old(self).ask_count
                    - 1 && (pre[0].orders.len() == 1 ==> final(self).asks_view() =~~= pre.remove(0))
                    && (pre[0].orders.len() > 1 ==> final(self).asks_view() =~~= pre.update(
                    0,
                    LevelView { price: pre[0].price, orders: pre[0].orders.remove(0) },
                )))
            },
            side == Side::Buy ==> {
                let pre = old(self).bids_view();
                let dec = Order { remaining: (maker.remaining - qty) as u64, ..maker };
                &&& maker == pre[0].orders[0]
                &&& final(self).asks_view() == old(self).asks_view()
                &&& final(self).asks@ == old(self).asks@
                &&& final(self).ask_count == old(self).ask_count
                &&& (qty < maker.remaining ==> final(self).bids_view() =~~= pre.update(
                    0,
                    LevelView { price: pre[0].price, orders: pre[0].orders.update(0, dec) },
                ) && final(self).orders_view() == old(self).orders_view().insert(maker.id, dec)
                    && final(self).bid_count == old(self).bid_count)
                &&& (qty == maker.remaining ==> final(self).orders_view() == old(self).orders_view().remove(maker.id) && final(self).bid_count == old(self).bid_count
                    - 1 && (pre[0].orders.len() == 1 ==> final(self).bids_view() =~~= pre.remove(0))
                    && (pre[0].orders.len() > 1 ==> final(self).bids_view() =~~= pre.update(
                    0,
                    LevelView { price: pre[0].price, orders: pre[0].orders.remove(0) },
                )))
            },
    {
        let ghost pre = *old(self);
        let ghost m0 = self.arena();
        let consuming_asks = match side {
            Side::Sell => true,
            Side::Buy => false,
        };
        let key = if consuming_asks {
            proof {
                assert(pre.asks@[0].wf(m0));
            }
            self.asks[0].head.unwrap()
        } else {
            proof {
                assert(pre.bids@[0].wf(m0));
            }
            self.bids[0].head.unwrap()
        };
        let ghost lvl0 = if consuming_asks {
            pre.asks@[0]
        } else {
            pre.bids@[0]
        };
        proof {
            assert(lvl0.queue@[0] == key);
            assert(lvl0.queue@.contains(key));
            assert(links_ok(lvl0.queue@, m0, lvl0.price, 0));
        }
        let node = *slab_get(&self.orders, key).unwrap();
        let maker = node.order;
        if qty < maker.remaining {
            // partial fill: only the head node's remaining changes
            let dec_order = Order { remaining: maker.remaining - qty, ..maker };
            let new_node = OrderNode { order: dec_order, ..node };
            slab_set(&mut self.orders, key, new_node);
            let ghost m1 = self.arena();
            if consuming_asks {
                let lvl = &mut self.asks[0];
                lvl.reduce_quantity(qty);
            } else {
                let lvl = &mut self.bids[0];
                lvl.reduce_quantity(qty);
            }
            proof {
                let ls0 = if consuming_asks {
                    pre.asks@
                } else {
                    pre.bids@
                };
                let ot0 = if consuming_asks {
                    pre.bids@
                } else {
                    pre.asks@
                };
                let ghost side_raw: u8 = if consuming_asks {
                    1
                } else {
                    0
                };
                let ghost ot_raw: u8 = if consuming_asks {
                    0
                } else {
                    1
                };
                let lvl2 = if consuming_asks {
                    self.asks@[0]
                } else {
                    self.bids@[0]
                };
                // the head level stays well-formed: same queue, head order
                // decremented but still positive
                lemma_queue_total_remove(lvl0.queue@, m0, 0);
                lemma_queue_total_nonneg(lvl0.queue@.remove(0), m0);
                lemma_queue_total_update(lvl0.queue@, m0, 0, new_node);
                assert(lvl2.queue@ == lvl0.queue@);
                assert forall|p: int| 0 <= p < lvl2.queue@.len() implies #[trigger] links_ok(
                    lvl2.queue@,
                    m1,
                    lvl2.price,
                    p,
                ) by {
                    assert(links_ok(lvl0.queue@, m0, lvl0.price, p));
                    if p != 0 {
                        assert(lvl0.queue@[p] != key);
                    }
                }
                assert(lvl2.wf(m1));
                // every other level on both sides is untouched
                assert forall|j: int| 0 <= j < ls0.len() && j != 0 implies (#[trigger] ls0[j]).wf(
                    m1,
                ) && level_view(ls0[j], m1) == level_view(ls0[j], m0) by {
                    assert forall|p: int| 0 <= p < ls0[j].queue@.len() implies m1.contains_key(
                        #[trigger] ls0[j].queue@[p],
                    ) && m1[ls0[j].queue@[p]] == m0[ls0[j].queue@[p]] by {
                        assert(links_ok(ls0[j].queue@, m0, ls0[j].price, p));
                        assert(ls0[j].queue@.contains(ls0[j].queue@[p]));
                        lemma_side_queues_disjoint(
                            ls0,
                            m0,
                            side_raw,
                            !consuming_asks,
                            j,
                            0,
                            ls0[j].queue@[p],
                        );
                        assert(ls0[j].queue@[p] != key) by {
                            if ls0[j].queue@[p] == key {
                                assert(ls0[0].queue@.contains(key));
                            }
                        }
                    }
                    lemma_level_unchanged(ls0[j], m0, m1);
                }
                assert forall|j: int| 0 <= j < ot0.len() implies (#[trigger] ot0[j]).wf(m1)
                    && level_view(ot0[j], m1) == level_view(ot0[j], m0) by {
                    assert forall|p: int| 0 <= p < ot0[j].queue@.len() implies m1.contains_key(
                        #[trigger] ot0[j].queue@[p],
                    ) && m1[ot0[j].queue@[p]] == m0[ot0[j].queue@[p]] by {
                        assert(links_ok(ot0[j].queue@, m0, ot0[j].price, p));
                        assert(ot0[j].queue@.contains(ot0[j].queue@[p]));
                        assert(ot0[j].queue@[p] != key) by {
                            if ot0[j].queue@[p] == key {
                                if consuming_asks {
                                    lemma_cross_side_disjoint(ot0, ls0, m0, j, 0, key);
                                    assert(!ls0[0].queue@.contains(key));
                                } else {
                                    lemma_cross_side_disjoint(ls0, ot0, m0, 0, j, key);
                                    assert(!ot0[j].queue@.contains(key));
                                    assert(ot0[j].queue@.contains(key));
                                }
                                assert(false);
                            }
                        }
                    }
                    lemma_level_unchanged(ot0[j], m0, m1);
                }
                // side bytes and totals carry over
                assert(forall|a: int, b: int|
                    0 <= a < ls0.len() && 0 <= b < ls0[a].queue@.len() ==> m0[#[trigger] ls0[a].queue@[b]].order.side_raw
                        == side_raw && m1[ls0[a].queue@[b]].order.side_raw == m0[ls0[
                        a].queue@[b]].order.side_raw);
                assert(forall|a: int, b: int|
                    0 <= a < ot0.len() && 0 <= b < ot0[a].queue@.len() ==> m1[#[trigger] ot0[a].queue@[b]]
                        == m0[ot0[a].queue@[b]]);
                let lss = if consuming_asks {
                    self.asks@
                } else {
                    self.bids@
                };
                assert(lss =~= ls0.update(0, lvl2));
                assert forall|a: int, b: int|
                    0 <= a < lss.len() && 0 <= b < lss[a].queue@.len() implies m1[#[trigger] lss[a].queue@[b]].order.side_raw
                    == side_raw by {
                    assert(lss[a].queue@ == ls0[a].queue@);
                }
                // totals: only the head level changed, by exactly qty
                lemma_levels_remove(ls0, m0, 0);
                lemma_levels_remove(lss, m1, 0);
                assert(lss.remove(0) =~= ls0.remove(0));
                assert forall|a: int, b: int|
                    0 <= a < ls0.remove(0).len() && 0 <= b < ls0.remove(0)[a].queue@.len() implies
                    m0[#[trigger] ls0.remove(0)[a].queue@[b]].order.remaining == m1[ls0.remove(0)[
                    a].queue@[b]].order.remaining by {
                    assert(ls0.remove(0)[a] == ls0[a + 1]);
                    assert(level_view(ls0[a + 1], m1) == level_view(ls0[a + 1], m0));
                    assert(level_view(ls0[a + 1], m1).orders[b] == level_view(ls0[a + 1], m0).orders[b]);
                }
                lemma_levels_total_congruence(ls0.remove(0), m0, m1);
                assert(queue_total(lvl2.queue@, m1) == queue_total(lvl0.queue@, m0) - qty);
                assert(levels_total(lss, m1) == levels_total(ls0, m0) - qty);
                assert(forall|a: int, b: int|
                    0 <= a < ot0.len() && 0 <= b < ot0[a].queue@.len() ==> m0[#[trigger] ot0[a].queue@[b]].order.remaining
                        == m1[ot0[a].queue@[b]].order.remaining);
                lemma_levels_total_congruence(ot0, m0, m1);
                // index bijection: ids unchanged
                assert forall|k: usize| #[trigger] m1.contains_key(k) implies self.order_index@.contains_key(
                    m1[k].order.id,
                ) && self.order_index@[m1[k].order.id] == k by {
                    assert(m0.contains_key(k));
                    assert(m1[k].order.id == m0[k].order.id);
                }
                assert forall|id: u64| #[trigger] self.order_index@.contains_key(id) implies m1.contains_key(
                    self.order_index@[id],
                ) && m1[self.order_index@[id]].order.id == id by {
                    assert(m0.contains_key(self.order_index@[id]));
                    assert(m1[self.order_index@[id]].order.id == m0[self.order_index@[id]].order.id);
                }
                assert(m1.dom() =~= m0.dom());
                // reassemble well-formedness of the whole book
                lemma_levels_update(ls0, m1, 0, lvl2);
                assert(levels_count(lss) == levels_count(ls0));
                assert forall|j: int| 0 <= j < lss.len() implies (#[trigger] lss[j]).wf(m1)
                    && lss[j].queue@.len() > 0 && lss[j].price == ls0[j].price by {
                    if j != 0 {
                        assert(lss[j] == ls0[j]);
                        assert(ls0[j].wf(m1));
                    }
                }
                assert(side_wf(lss, m1, side_raw, consuming_asks == false)) by {
                    assert(forall|a: int, c: int|
                        0 <= a < c < lss.len() ==> (if consuming_asks == false {
                            (#[trigger] lss[a]).price > (#[trigger] lss[c]).price
                        } else {
                            lss[a].price < lss[c].price
                        }));
                }
                assert forall|a: int, b: int|
                    0 <= a < ot0.len() && 0 <= b < ot0[a].queue@.len() implies m1[#[trigger] ot0[a].queue@[b]].order.side_raw
                    == ot_raw by {
                    assert(m1[ot0[a].queue@[b]] == m0[ot0[a].queue@[b]]);
                }
                assert(side_wf(ot0, m1, ot_raw, consuming_asks));
                if consuming_asks {
                    assert(self.bids@ == ot0 && self.asks@ == lss);
                } else {
                    assert(self.bids@ == lss && self.asks@ == ot0);
                }
                assert forall|k: usize| #[trigger] m1.contains_key(k) implies side_has_key(
                    self.bids@,
                    k,
                ) || side_has_key(self.asks@, k) by {
                    assert(m0.contains_key(k));
                    if side_has_key(ls0, k) {
                        let j = choose|j: int|
                            0 <= j < ls0.len() && (#[trigger] ls0[j]).queue@.contains(k);
                        assert(lss[j].queue@.contains(k));
                        assert(side_has_key(lss, k));
                    }
                }
                assert(self.wf());
                // the views change exactly at the head order
                assert(self.orders_view() =~= pre.orders_view().insert(maker.id, dec_order)) by {
                    assert(pre.order_index@[maker.id] == key);
                    assert forall|id: u64| #[trigger] pre.order_index@.contains_key(id) && id
                        != maker.id implies m1[pre.order_index@[id]].order == m0[pre.order_index@[
                        id]].order by {
                        assert(m0.contains_key(pre.order_index@[id]));
                        assert(pre.order_index@[id] != key);
                    }
                }
                assert(level_view(lvl2, m1).orders =~= level_view(lvl0, m0).orders.update(
                    0,
                    dec_order,
                )) by {
                    assert forall|p: int| 0 < p < lvl0.queue@.len() implies m1[
                    #[trigger] lvl0.queue@[p]].order == m0[lvl0.queue@[p]].order by {
                        assert(links_ok(lvl0.queue@, m0, lvl0.price, p));
                        assert(lvl0.queue@[p] != key);
                    }
                }
                if consuming_asks {
                    assert(self.asks_view() =~~= pre.asks_view().update(
                        0,
                        LevelView {
                            price: pre.asks_view()[0].price,
                            orders: pre.asks_view()[0].orders.update(0, dec_order),
                        },
                    ));
                    assert(self.bids_view() =~= pre.bids_view());
                } else {
                    assert(self.bids_view() =~~= pre.bids_view().update(
                        0,
                        LevelView {
                            price: pre.bids_view()[0].price,
                            orders: pre.bids_view()[0].orders.update(0, dec_order),
                        },
                    ));
                    assert(self.asks_view() =~= pre.asks_view());
                }
            }
            maker
        } else {
            // the maker is filled completely: it leaves the book
            proof {
                pre.lemma_ids_distinct();
                if consuming_asks {
                    assert(m0[pre.asks@[0].queue@[0]].order.side_raw == 1);
                } else {
                    assert(m0[pre.bids@[0].queue@[0]].order.side_raw == 0);
                }
            }
            let removed = self.remove_order(key);
            proof {
                let prev = if consuming_asks {
                    pre.asks_view()
                } else {
                    pre.bids_view()
                };
                assert(maker == prev[0].orders[0]);
                let (li, pos) = choose|li: int, pos: int|
                    {
                        &&& 0 <= li < prev.len()
                        &&& 0 <= pos < prev[li].orders.len()
                        &&& prev[li].orders[pos] == maker
                        &&& (if consuming_asks {
                            self.asks_view()
                        } else {
                            self.bids_view()
                        }) =~~= (if prev[li].orders.len() == 1 {
                            prev.remove(li)
                        } else {
                            prev.update(
                                li,
                                LevelView {
                                    price: prev[li].price,
                                    orders: prev[li].orders.remove(pos),
                                },
                            )
                        })
                    };
                assert(li == 0 && pos == 0) by {
                    assert(prev[li].orders[pos].id == prev[0].orders[0].id);
                }
            }
            maker
        }
    }

    /// The canonical byte stream of the book: bid levels in descending
    /// price order, then ask levels in ascending price order, each level's
    /// orders head to tail, each order as its 50-byte record.
    pub open spec fn book_bytes(self) -> Seq<u8> {
        side_bytes(self.bids_view()) + side_bytes(self.asks_view())
    }

    /// The canonical 32-byte state root: the SHA-256 digest of the book's
    /// canonical byte stream. It depends only on the logical content of
    /// the book, never on slab keys or allocation history.
    #[verifier::rlimit(100)]
    #[verifier::spinoff_prover]
    pub fn compute_state_root(&self) -> (r: [u8; 32])
        requires
            self.wf(),
        ensures
            r@ == crate::receipt::sha256_of(self.book_bytes()),
    {
        let mut bytes: Vec<u8> = Vec::new();
        let mut li: usize = 0;
        while li < self.bids.len()
            invariant
                self.wf(),
                li <= self.bids@.len(),
                bytes@ == side_bytes(self.bids_view().take(li as int)),
            decreases self.bids@.len() - li,
        {
            let ghost pre_bytes = bytes@;
            self.walk_level(&mut bytes, li, true);
            proof {
                assert(self.bids_view().take(li + 1).drop_last() =~= self.bids_view().take(
                    li as int,
                ));
                assert(self.bids_view().take(li + 1).last() == self.bids_view()[li as int]);
            }
            li = li + 1;
        }
        proof {
            assert(self.bids_view().take(self.bids@.len() as int) =~= self.bids_view());
        }
        let mut li: usize = 0;
        while li < self.asks.len()
            invariant
                self.wf(),
                li <= self.asks@.len(),
                bytes@ == side_bytes(self.bids_view()) + side_bytes(
                    self.asks_view().take(li as int),
                ),
            decreases self.asks@.len() - li,
        {
            let ghost pre_bytes = bytes@;
            self.walk_level(&mut bytes, li, false);
            proof {
                assert(self.asks_view().take(li + 1).drop_last() =~= self.asks_view().take(
                    li as int,
                ));
                assert(self.asks_view().take(li + 1).last() == self.asks_view()[li as int]);
            }
            li = li + 1;
        }
        proof {
            assert(self.asks_view().take(self.asks@.len() as int) =~= self.asks_view());
            assert(bytes@ == self.book_bytes());
        }
        crate::receipt::ExecutionReceipt::compute_hash(bytes.as_slice())
    }

    /// Append the canonical records of one level's orders, head to tail.
    fn walk_level(&self, bytes: &mut Vec<u8>, li: usize, bids_side: bool)
        requires
            self.wf(),
            bids_side ==> li < self.bids@.len(),
            !bids_side ==> li < self.asks@.len(),
        ensures
            bids_side ==> final(bytes)@ == old(bytes)@ + level_bytes(self.bids_view()[li as int]),
            !bids_side ==> final(bytes)@ == old(bytes)@ + level_bytes(
                self.asks_view()[li as int],
            ),
    {
        let ghost m = self.arena();
        let ghost lvl = if bids_side {
            self.bids@[li as int]
        } else {
            self.asks@[li as int]
        };
        let ghost lv = level_view(lvl, m);
        let ghost base = bytes@;
        proof {
            assert(lvl.wf(m));
        }
        let mut cur: Option<usize> = if bids_side {
            self.bids[li].head
        } else {
            self.asks[li].head
        };
        let ghost mut j: int = 0;
        loop
            invariant
                self.wf(),
                lvl == (if bids_side {
                    self.bids@[li as int]
                } else {
                    self.asks@[li as int]
                }),
                bids_side ==> li < self.bids@.len(),
                !bids_side ==> li < self.asks@.len(),
                lv == level_view(lvl, self.arena()),
                m == self.arena(),
                0 <= j <= lvl.queue@.len(),
                cur == (if j < lvl.queue@.len() {
                    Some(lvl.queue@[j])
                } else {
                    None::<usize>
                }),
                bytes@ == base + level_bytes(
                    LevelView { price: lv.price, orders: lv.orders.take(j) },
                ),
            ensures
                j == lvl.queue@.len(),
            decreases lvl.queue@.len() - j,
        {
            let k = match cur {
                Some(k) => k,
                None => {
                    break ;
                },
            };
            proof {
                assert(links_ok(lvl.queue@, m, lvl.price, j));
            }
            let node = *slab_get(&self.orders, k).unwrap();
            let mut enc = crate::codec::encode_order(&node.order);
            bytes.append(&mut enc);
            cur = node.next;
            proof {
                let jj = j + 1;
                assert(lv.orders.take(jj).drop_last() =~= lv.orders.take(j));
                assert(lv.orders.take(jj).last() == lv.orders[j]);
                assert(lv.orders[j] == m[lvl.queue@[j]].order);
                j = jj;
            }
        }
        proof {
            assert(lv.orders.take(lvl.queue@.len() as int) =~= lv.orders);
            assert((LevelView { price: lv.price, orders: lv.orders.take(lvl.queue@.len() as int) })
                =~= lv);
            if bids_side {
                assert(lv == self.bids_view()[li as int]);
            } else {
                assert(lv == self.asks_view()[li as int]);
            }
            assert(bytes@ == base + level_bytes(lv));
        }
    }

    /// Take an unlinked node out of the slab. Used after a fill has
    /// already spliced the node out of its level; the caller is
    /// responsible for the book's bookkeeping around it.
    pub fn remove_from_slab(&mut self, key: usize) -> (r: OrderNode)
        requires
            old(self).arena().contains_key(key),
        ensures
            r == old(self).arena()[key],
            *final(self) == (CLOB { orders: final(self).orders, ..*old(self) }),
            final(self).arena() == old(self).arena().remove(key),
    {
        slab_remove(&mut self.orders, key)
    }

    /// Drop the bid level at the given price, if one exists. The level's
    /// queued nodes are not touched; the caller empties them first.
    pub fn remove_bid_level(&mut self, price: u64)
        ensures
            *final(self) == (CLOB { bids: final(self).bids, ..*old(self) }),
            final(self).bids@ == (if exists|i: int|
                0 <= i < old(self).bids@.len() && (#[trigger] old(self).bids@[i]).price == price {
                old(self).bids@.remove(
                    choose|i: int|
                        0 <= i < old(self).bids@.len() && (#[trigger] old(self).bids@[i]).price
                            == price && (forall|j: int|
                            0 <= j < i ==> (#[trigger] old(self).bids@[j]).price != price),
                )
            } else {
                old(self).bids@
            }),
    {
        let ghost ls0 = self.bids@;
        let mut i: usize = 0;
        while i < self.bids.len() && self.bids[i].price != price
            invariant
                i <= ls0.len(),
                self.bids@ == ls0,
                forall|j: int| 0 <= j < i ==> (#[trigger] ls0[j]).price != price,
            decreases ls0.len() - i,
        {
            i = i + 1;
        }
        if i < self.bids.len() {
            self.bids.remove(i);
            proof {
                assert(0 <= i < ls0.len() && ls0[i as int].price == price && (forall|j: int|
                    0 <= j < i ==> (#[trigger] ls0[j]).price != price));
                let w = choose|w: int|
                    0 <= w < ls0.len() && (#[trigger] ls0[w]).price == price && (forall|j: int|
                        0 <= j < w ==> (#[trigger] ls0[j]).price != price);
                assert(w == i) by {
                    if w < i {
                        assert(ls0[w].price != price);
                    }
                    if w > i {
                        assert(ls0[i as int].price != price);
                    }
                }
            }
        } else {
            proof {
                assert(forall|j: int| 0 <= j < ls0.len() ==> (#[trigger] ls0[j]).price != price);
            }
        }
    }

    /// Drop the ask level at the given price, if one exists.
    pub fn remove_ask_level(&mut self, price: u64)
        ensures
            *final(self) == (CLOB { asks: final(self).asks, ..*old(self) }),
            final(self).asks@ == (if exists|i: int|
                0 <= i < old(self).asks@.len() && (#[trigger] old(self).asks@[i]).price == price {
                old(self).asks@.remove(
                    choose|i: int|
                        0 <= i < old(self).asks@.len() && (#[trigger] old(self).asks@[i]).price
                            == price && (forall|j: int|
                            0 <= j < i ==> (#[trigger] old(self).asks@[j]).price != price),
                )
            } else {
                old(self).asks@
            }),
    {
        let ghost ls0 = self.asks@;
        let mut i: usize = 0;
        while i < self.asks.len() && self.asks[i].price != price
            invariant
                i <= ls0.len(),
                self.asks@ == ls0,
                forall|j: int| 0 <= j < i ==> (#[trigger] ls0[j]).price != price,
            decreases ls0.len() - i,
        {
            i = i + 1;
        }
        if i < self.asks.len() {
            self.asks.remove(i);
            proof {
                assert(0 <= i < ls0.len() && ls0[i as int].price == price && (forall|j: int|
                    0 <= j < i ==> (#[trigger] ls0[j]).price != price));
                let w = choose|w: int|
                    0 <= w < ls0.len() && (#[trigger] ls0[w]).price == price && (forall|j: int|
                        0 <= j < w ==> (#[trigger] ls0[j]).price != price);
                assert(w == i) by {
                    if w < i {
                        assert(ls0[w].price != price);
                    }
                    if w > i {
                        assert(ls0[i as int].price != price);
                    }
                }
            }
        } else {
            proof {
                assert(forall|j: int| 0 <= j < ls0.len() ==> (#[trigger] ls0[j]).price != price);
            }
        }
    }

    /// Erase one id from the order index.
    pub fn remove_from_index(&mut self, order_id: u64)
        ensures
            *final(self) == (CLOB { order_index: final(self).order_index, ..*old(self) }),
            final(self).order_index@ == old(self).order_index@.remove(order_id),
    {
        self.order_index.remove(&order_id);
    }

    /// Decrement the cached bid order count, saturating at zero.
    pub fn decrement_bid_count(&mut self)
        ensures
            *final(self) == (CLOB {
                bid_count: (if old(self).bid_count > 0 {
                    old(self).bid_count - 1
                } else {
                    0
                }) as usize,
                ..*old(self)
            }),
    {
        if self.bid_count > 0 {
            self.bid_count = self.bid_count - 1;
        }
    }

    /// Decrement the cached ask order count, saturating at zero.
    pub fn decrement_ask_count(&mut self)
        ensures
            *final(self) == (CLOB {
                ask_count: (if old(self).ask_count > 0 {
                    old(self).ask_count - 1
                } else {
                    0
                }) as usize,
                ..*old(self)
            }),
    {
        if self.ask_count > 0 {
            self.ask_count = self.ask_count - 1;
        }
    }

    /// Clear all orders from the book.
    pub fn clear(&mut self)
        ensures
            final(self).wf(),
            final(self).bids_view() == Seq::<LevelView>::empty(),
            final(self).asks_view() == Seq::<LevelView>::empty(),
            final(self).orders_view() == Map::<u64, Order>::empty(),
            final(self).bid_count == 0,
            final(self).ask_count == 0,
            final(self).next_order_id == old(self).next_order_id,
            final(self).next_trade_id == old(self).next_trade_id,
    {
        slab_clear(&mut self.orders);
        self.bids = Vec::new();
        self.asks = Vec::new();
        self.order_index = HashMap::new();
        self.bid_count = 0;
        self.ask_count = 0;
        proof {
            assert(self.arena().dom() =~= Set::<usize>::empty());
            assert(self.bids_view() =~= Seq::<LevelView>::empty());
            assert(self.asks_view() =~= Seq::<LevelView>::empty());
            assert(self.orders_view() =~= Map::<u64, Order>::empty());
        }
    }
}

} // verus!
