//! Deterministic matching engine: price-time priority over a CLOB.
//!
//! An incoming Buy matches against asks from the lowest price up while the
//! best ask does not exceed its limit; a Sell matches against bids from the
//! highest price down. Within a level, the oldest resting order fills
//! first. Residual quantity rests on the book; the book itself never
//! matches.

use vstd::prelude::*;
use crate::clob::{lemma_level_count_le, CLOB};
use crate::order::{Order, Side};
use crate::trade::Trade;

verus! {

/// The sum of the quantities of a trade sequence.
pub open spec fn trades_qty_sum(ts: Seq<Trade>) -> int
    decreases ts.len(),
{
    if ts.len() == 0 {
        0
    } else {
        trades_qty_sum(ts.drop_last()) + ts.last().quantity
    }
}

/// FIFO fairness at one price level: a single engine fill touches only
/// the head order - it is decremented or leaves the queue - while every
/// order resting behind it keeps its record and its place. An aggressing
/// order therefore fills an earlier resting order before a later one at
/// the same price.
pub proof fn lemma_fifo_fairness(pre: Seq<Order>, post: Seq<Order>, dec: Order, a: int, b: int)
    requires
        pre.len() > 0,
        post == pre.remove(0) || post == pre.update(0, dec),
        1 <= a < b < pre.len(),
    ensures
        post == pre.remove(0) ==> post[a - 1] == pre[a] && post[b - 1] == pre[b] && a - 1 < b - 1,
        post == pre.update(0, dec) ==> post[a] == pre[a] && post[b] == pre[b] && a < b,
{
}

/// The result of matching one incoming order.
pub struct MatchResult {
    /// The trades executed, in execution order
    pub trades: Vec<Trade>,
    /// Whether the incoming order was filled completely
    pub fully_filled: bool,
    /// The total executed quantity
    pub executed_quantity: u64,
    /// The slab key of the resting residual order, if any quantity rested
    pub resting_handle: Option<usize>,
}

/// The matching engine. It owns no state: trade ids come from the book's
/// counter, so the produced trade stream is totally ordered per book.
pub struct MatchingEngine {
}

impl MatchingEngine {
    /// Create a new matching engine
    pub fn new() -> (r: MatchingEngine) {
        MatchingEngine {  }
    }

    /// Apply one incoming order to the book.
    ///
    /// The contract pins down, in order: balance (the executed quantity is
    /// the sum of the trade quantities, and the book's resting quantity
    /// changes by exactly the matched and rested amounts); trade prices
    /// (always the maker's resting price, never beyond the taker's limit,
    /// monotone across the returned sequence - non-decreasing for a Buy,
    /// non-increasing for a Sell); trade ids (consecutive from the book's
    /// counter); and that the book stays well-formed and uncrossed.
    #[verifier::rlimit(100)]
    #[verifier::spinoff_prover]
    pub fn match_order(&mut self, book: &mut CLOB, order: Order, timestamp: u64) -> (r: MatchResult)
        requires
            old(book).wf(),
            old(book).not_crossed(),
            order.remaining == order.quantity,
            order.side_raw == 0 || order.side_raw == 1,
            order.id == 0 ==> old(book).next_order_id < u64::MAX && !old(
                book,
            ).orders_view().contains_key(old(book).next_order_id),
            order.id != 0 ==> !old(book).orders_view().contains_key(order.id),
            old(book).book_quantity() + order.quantity <= u64::MAX,
            old(book).bid_count + old(book).ask_count < usize::MAX,
            old(book).next_trade_id + old(book).bid_count + old(book).ask_count < u64::MAX,
        ensures
            final(book).wf(),
            final(book).not_crossed(),
            r.executed_quantity == trades_qty_sum(r.trades@),
            r.executed_quantity <= order.quantity,
            r.fully_filled == (r.executed_quantity == order.quantity),
            r.resting_handle is Some <==> r.executed_quantity < order.quantity,
            final(book).book_quantity() == old(book).book_quantity() - r.executed_quantity + (
            if r.executed_quantity < order.quantity {
                order.quantity - r.executed_quantity
            } else {
                0
            }),
            final(book).next_trade_id == old(book).next_trade_id + r.trades@.len(),
            forall|i: int|
                0 <= i < r.trades@.len() ==> (#[trigger] r.trades@[i]).id == old(
                    book,
                ).next_trade_id + i,
            forall|i: int|
                0 <= i < r.trades@.len() ==> (#[trigger] r.trades@[i]).taker_order_id == order.id
                    && r.trades@[i].taker_user_id == order.user_id && r.trades@[i].timestamp
                    == timestamp && r.trades@[i].quantity > 0,
            order.side_raw == 0 ==> forall|i: int|
                0 <= i < r.trades@.len() ==> (#[trigger] r.trades@[i]).price <= order.price,
            order.side_raw == 1 ==> forall|i: int|
                0 <= i < r.trades@.len() ==> (#[trigger] r.trades@[i]).price >= order.price,
            order.side_raw == 0 ==> forall|i: int, j: int|
                0 <= i < j < r.trades@.len() ==> (#[trigger] r.trades@[i]).price <= (
                #[trigger] r.trades@[j]).price,
            order.side_raw == 1 ==> forall|i: int, j: int|
                0 <= i < j < r.trades@.len() ==> (#[trigger] r.trades@[i]).price >= (
                #[trigger] r.trades@[j]).price,
            forall|i: int|
                0 <= i < r.trades@.len() ==> old(book).orders_view().contains_key(
                    (#[trigger] r.trades@[i]).maker_order_id,
                ) && r.trades@[i].price == old(book).orders_view()[
                    r.trades@[i].maker_order_id].price && r.trades@[i].maker_user_id == old(
                    book,
                ).orders_view()[r.trades@[i].maker_order_id].user_id,
            forall|i: int|
                0 <= i < r.trades@.len() - 1 ==> !final(book).orders_view().contains_key(
                    (#[trigger] r.trades@[i]).maker_order_id,
                ),
            order.quantity == 0 ==> *final(book) == *old(book) && r.trades@.len() == 0,
            final(book).next_order_id == (if r.resting_handle is Some && order.id == 0 {
                old(book).next_order_id as int + 1
            } else {
                old(book).next_order_id as int
            }),
    {
        let ghost pre = *old(book);
        let is_buy = order.side_raw == 0;
        let mut remaining = order.quantity;
        let mut trades: Vec<Trade> = Vec::new();
        let ghost old_tid = pre.next_trade_id;
        loop
            invariant
                pre.wf(),
                pre.not_crossed(),
                old_tid == pre.next_trade_id,
                old_tid + pre.bid_count + pre.ask_count < u64::MAX,
                pre.book_quantity() + order.quantity <= u64::MAX,
                pre.bid_count + pre.ask_count < usize::MAX,
                book.wf(),
                book.not_crossed(),
                is_buy == (order.side_raw == 0),
                remaining <= order.quantity,
                trades_qty_sum(trades@) == order.quantity - remaining,
                trades@.len() <= order.quantity - remaining,
                book.book_quantity() == pre.book_quantity() - (order.quantity - remaining),
                book.next_trade_id == old_tid + trades@.len(),
                book.next_order_id == pre.next_order_id,
                forall|i: int|
                    0 <= i < trades@.len() ==> (#[trigger] trades@[i]).id == old_tid + i,
                forall|i: int|
                    0 <= i < trades@.len() ==> (#[trigger] trades@[i]).taker_order_id == order.id
                        && trades@[i].taker_user_id == order.user_id && trades@[i].timestamp
                        == timestamp && trades@[i].quantity > 0,
                is_buy ==> forall|i: int|
                    0 <= i < trades@.len() ==> (#[trigger] trades@[i]).price <= order.price,
                !is_buy ==> forall|i: int|
                    0 <= i < trades@.len() ==> (#[trigger] trades@[i]).price >= order.price,
                is_buy ==> forall|i: int, j: int|
                    0 <= i < j < trades@.len() ==> (#[trigger] trades@[i]).price <= (
                    #[trigger] trades@[j]).price,
                !is_buy ==> forall|i: int, j: int|
                    0 <= i < j < trades@.len() ==> (#[trigger] trades@[i]).price >= (
                    #[trigger] trades@[j]).price,
                is_buy ==> book.bids_view() == pre.bids_view() && book.bids@ == pre.bids@
                    && book.bid_count == pre.bid_count && book.ask_count <= pre.ask_count,
                !is_buy ==> book.asks_view() == pre.asks_view() && book.asks@ == pre.asks@
                    && book.ask_count == pre.ask_count && book.bid_count <= pre.bid_count,
                is_buy && trades@.len() > 0 && book.asks_view().len() > 0 ==> trades@.last().price
                    <= book.asks_view()[0].price,
                !is_buy && trades@.len() > 0 && book.bids_view().len() > 0 ==> trades@.last().price
                    >= book.bids_view()[0].price,
                forall|id: u64|
                    #[trigger] book.orders_view().contains_key(id)
                        ==> pre.orders_view().contains_key(id) && book.orders_view()[id].price
                        == pre.orders_view()[id].price && book.orders_view()[id].user_id
                        == pre.orders_view()[id].user_id,
                forall|i: int|
                    0 <= i < trades@.len() ==> pre.orders_view().contains_key(
                        (#[trigger] trades@[i]).maker_order_id,
                    ) && trades@[i].price == pre.orders_view()[trades@[i].maker_order_id].price
                        && trades@[i].maker_user_id == pre.orders_view()[
                        trades@[i].maker_order_id].user_id,
                forall|i: int|
                    0 <= i < trades@.len() - 1 ==> !book.orders_view().contains_key(
                        (#[trigger] trades@[i]).maker_order_id,
                    ),
                trades@.len() > 0 && remaining > 0 ==> !book.orders_view().contains_key(
                    trades@.last().maker_order_id,
                ),
                book.next_trade_id + book.bid_count + book.ask_count + (if remaining > 0 {
                    1int
                } else {
                    0int
                }) <= old_tid + pre.bid_count + pre.ask_count + 1,
                remaining == order.quantity ==> trades@.len() == 0 && *book == pre,
            ensures
                remaining > 0 && is_buy ==> book.asks_view().len() == 0
                    || book.asks_view()[0].price > order.price,
                remaining > 0 && !is_buy ==> book.bids_view().len() == 0
                    || book.bids_view()[0].price < order.price,
            decreases (if is_buy {
                book.ask_count as int
            } else {
                book.bid_count as int
            }), remaining as int,
        {
            if remaining == 0 {
                break ;
            }
            let opposing_len = if is_buy {
                book.ask_levels()
            } else {
                book.bid_levels()
            };
            if opposing_len == 0 {
                break ;
            }
            let best_price = if is_buy {
                book.asks[0].price
            } else {
                book.bids[0].price
            };
            proof {
                if is_buy {
                    assert(book.asks_view()[0].price == best_price);
                } else {
                    assert(book.bids_view()[0].price == best_price);
                }
            }
            if is_buy && best_price > order.price {
                break ;
            }
            if !is_buy && best_price < order.price {
                break ;
            }
            let opp_side = if is_buy {
                Side::Sell
            } else {
                Side::Buy
            };
            let maker_preview = book.peek_best(opp_side);
            let qty = if remaining <= maker_preview.remaining {
                remaining
            } else {
                maker_preview.remaining
            };
            proof {
                if is_buy {
                    assert(book.ask_count as int >= book.asks@[0].queue@.len() >= 1) by {
                        lemma_level_count_le(book.asks@, 0);
                        assert(book.asks@[0].wf(book.arena()));
                    }
                } else {
                    assert(book.bid_count as int >= book.bids@[0].queue@.len() >= 1) by {
                        lemma_level_count_le(book.bids@, 0);
                        assert(book.bids@[0].wf(book.arena()));
                    }
                }
                assert(book.next_trade_id < u64::MAX);
            }
            let tid = book.next_trade_id();
            let ghost bpre = *book;
            let maker = book.fill_best(opp_side, qty);
            let trade = Trade::new(
                tid,
                maker.id,
                order.id,
                maker.user_id,
                order.user_id,
                maker.price,
                qty,
                timestamp,
            );
            let ghost trades0 = trades@;
            trades.push(trade);
            remaining = remaining - qty;
            proof {
                assert(trades@.drop_last() =~= trades0);
                assert(maker.price == best_price);
                // after the fill, the best opposing price is no better:
                // the head level kept its price or gave way to a worse one
                if is_buy {
                    let prev = bpre.asks_view();
                    if book.asks_view().len() > 0 {
                        if qty < maker.remaining || prev[0].orders.len() > 1 {
                            assert(book.asks_view()[0].price == best_price);
                        } else {
                            assert(book.asks_view() == prev.remove(0));
                            assert(book.asks_view()[0] == prev[1]);
                            assert(prev[1].price == bpre.asks@[1].price);
                            assert(bpre.asks@[1].price > bpre.asks@[0].price);
                        }
                        assert(book.asks_view()[0].price >= best_price);
                        assert(book.asks@[0].price == book.asks_view()[0].price);
                    }
                    assert(book.bids@ == bpre.bids@);
                    assert(book.not_crossed()) by {
                        if book.bids@.len() > 0 && book.asks@.len() > 0 {
                            assert(book.asks_view().len() > 0);
                            assert(bpre.asks@.len() > 0);
                            assert(bpre.asks@[0].price > bpre.bids@[0].price);
                            assert(bpre.asks_view()[0].price == bpre.asks@[0].price);
                        }
                    }
                } else {
                    let prev = bpre.bids_view();
                    if book.bids_view().len() > 0 {
                        if qty < maker.remaining || prev[0].orders.len() > 1 {
                            assert(book.bids_view()[0].price == best_price);
                        } else {
                            assert(book.bids_view() == prev.remove(0));
                            assert(book.bids_view()[0] == prev[1]);
                            assert(prev[1].price == bpre.bids@[1].price);
                            assert(bpre.bids@[1].price < bpre.bids@[0].price);
                        }
                        assert(book.bids_view()[0].price <= best_price);
                        assert(book.bids@[0].price == book.bids_view()[0].price);
                    }
                    assert(book.asks@ == bpre.asks@);
                    assert(book.not_crossed()) by {
                        if book.bids@.len() > 0 && book.asks@.len() > 0 {
                            assert(book.bids_view().len() > 0);
                            assert(bpre.bids@.len() > 0);
                            assert(bpre.asks@[0].price > bpre.bids@[0].price);
                            assert(bpre.bids_view()[0].price == bpre.bids@[0].price);
                        }
                    }
                }
            }
        }
        let executed = order.quantity - remaining;
        let fully_filled = remaining == 0;
        let mut resting_handle: Option<usize> = None;
        if remaining > 0 {
            let mut residual = order;
            residual.remaining = remaining;
            let ghost mid = *book;
            let key = book.add_order(residual);
            resting_handle = Some(key);
            proof {
                // the residual rests strictly inside the spread, so the
                // book stays uncrossed
                if is_buy {
                    assert(book.asks@ == mid.asks@);
                    if book.asks@.len() > 0 && book.bids@.len() > 0 {
                        assert(mid.asks_view()[0].price > order.price);
                        assert(mid.asks_view()[0].price == mid.asks@[0].price);
                        assert(book.bids_view()[0].price == book.bids@[0].price);
                        assert(book.asks_view()[0].price == book.asks@[0].price);
                        if mid.bids_view().len() > 0 {
                            assert(mid.bids_view()[0].price == mid.bids@[0].price);
                            assert(mid.asks@[0].price > mid.bids@[0].price);
                        }
                        assert(book.bids_view()[0].price < book.asks_view()[0].price);
                    }
                } else {
                    assert(book.bids@ == mid.bids@);
                    if book.asks@.len() > 0 && book.bids@.len() > 0 {
                        assert(mid.bids_view()[0].price < order.price);
                        assert(mid.bids_view()[0].price == mid.bids@[0].price);
                        assert(book.bids_view()[0].price == book.bids@[0].price);
                        assert(book.asks_view()[0].price == book.asks@[0].price);
                        if mid.asks_view().len() > 0 {
                            assert(mid.asks_view()[0].price == mid.asks@[0].price);
                            assert(mid.asks@[0].price > mid.bids@[0].price);
                        }
                        assert(book.bids_view()[0].price < book.asks_view()[0].price);
                    }
                }
            }
        }
        MatchResult { trades, fully_filled, executed_quantity: executed, resting_handle }
    }
}

} // verus!
