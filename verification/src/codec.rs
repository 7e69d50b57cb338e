//! Canonical byte encodings: fixed-size little-endian records.
//!
//! These encodings are normative: the state root and any external
//! verification depend on them byte for byte.
//! - `Order`: 50 bytes, `id(8) user_id(8) side(1) price(8) quantity(8)
//!   remaining(8) timestamp(8) order_type(1)`.
//! - `Trade`: 64 bytes, eight 8-byte fields.
//! - `ExecutionReceipt`: 64 bytes, `batch_id(8) orders_processed(8)
//!   trades_executed(8) state_root(32) timestamp(8)`.

use vstd::prelude::*;
use vstd::bytes::{
    lemma_auto_spec_u64_to_from_le_bytes, spec_u64_from_le_bytes, spec_u64_to_le_bytes,
    u64_from_le_bytes, u64_to_le_bytes,
};
use vstd::slice::slice_subrange;
use crate::order::Order;
use crate::receipt::ExecutionReceipt;
use crate::trade::Trade;

verus! {

/// The 50-byte wire image of an order.
pub open spec fn spec_encode_order(o: Order) -> Seq<u8> {
    spec_u64_to_le_bytes(o.id) + spec_u64_to_le_bytes(o.user_id) + seq![o.side_raw]
        + spec_u64_to_le_bytes(o.price) + spec_u64_to_le_bytes(o.quantity) + spec_u64_to_le_bytes(
        o.remaining,
    ) + spec_u64_to_le_bytes(o.timestamp) + seq![o.order_type_raw]
}

/// The order a 50-byte record stands for.
pub open spec fn spec_decode_order(b: Seq<u8>) -> Order {
    Order {
        id: spec_u64_from_le_bytes(b.subrange(0, 8)),
        user_id: spec_u64_from_le_bytes(b.subrange(8, 16)),
        side_raw: b[16],
        price: spec_u64_from_le_bytes(b.subrange(17, 25)),
        quantity: spec_u64_from_le_bytes(b.subrange(25, 33)),
        remaining: spec_u64_from_le_bytes(b.subrange(33, 41)),
        timestamp: spec_u64_from_le_bytes(b.subrange(41, 49)),
        order_type_raw: b[49],
    }
}

/// The 64-byte wire image of a trade.
pub open spec fn spec_encode_trade(t: Trade) -> Seq<u8> {
    spec_u64_to_le_bytes(t.id) + spec_u64_to_le_bytes(t.maker_order_id) + spec_u64_to_le_bytes(
        t.taker_order_id,
    ) + spec_u64_to_le_bytes(t.maker_user_id) + spec_u64_to_le_bytes(t.taker_user_id)
        + spec_u64_to_le_bytes(t.price) + spec_u64_to_le_bytes(t.quantity) + spec_u64_to_le_bytes(
        t.timestamp,
    )
}

/// The trade a 64-byte record stands for.
pub open spec fn spec_decode_trade(b: Seq<u8>) -> Trade {
    Trade {
        id: spec_u64_from_le_bytes(b.subrange(0, 8)),
        maker_order_id: spec_u64_from_le_bytes(b.subrange(8, 16)),
        taker_order_id: spec_u64_from_le_bytes(b.subrange(16, 24)),
        maker_user_id: spec_u64_from_le_bytes(b.subrange(24, 32)),
        taker_user_id: spec_u64_from_le_bytes(b.subrange(32, 40)),
        price: spec_u64_from_le_bytes(b.subrange(40, 48)),
        quantity: spec_u64_from_le_bytes(b.subrange(48, 56)),
        timestamp: spec_u64_from_le_bytes(b.subrange(56, 64)),
    }
}

/// The 64-byte wire image of a receipt.
pub open spec fn spec_encode_receipt(r: ExecutionReceipt) -> Seq<u8> {
    spec_u64_to_le_bytes(r.batch_id) + spec_u64_to_le_bytes(r.orders_processed)
        + spec_u64_to_le_bytes(r.trades_executed) + r.state_root@ + spec_u64_to_le_bytes(
        r.timestamp,
    )
}

/// The receipt a 64-byte record stands for.
pub open spec fn spec_decode_receipt(b: Seq<u8>) -> ExecutionReceipt {
    ExecutionReceipt {
        batch_id: spec_u64_from_le_bytes(b.subrange(0, 8)),
        orders_processed: spec_u64_from_le_bytes(b.subrange(8, 16)),
        trades_executed: spec_u64_from_le_bytes(b.subrange(16, 24)),
        state_root: spec_root_from_bytes(b),
        timestamp: spec_u64_from_le_bytes(b.subrange(56, 64)),
    }
}

/// The state-root array held in bytes 24..56 of a receipt record.
pub open spec fn spec_root_from_bytes(b: Seq<u8>) -> [u8; 32] {
    choose|a: [u8; 32]| a@ == b.subrange(24, 56)
}

/// Encode an order as its 50-byte record.
pub fn encode_order(o: &Order) -> (r: Vec<u8>)
    ensures
        r@ == spec_encode_order(*o),
        r@.len() == 50,
{
    let mut v: Vec<u8> = Vec::new();
    let mut part = u64_to_le_bytes(o.id);
    v.append(&mut part);
    let mut part = u64_to_le_bytes(o.user_id);
    v.append(&mut part);
    v.push(o.side_raw);
    let mut part = u64_to_le_bytes(o.price);
    v.append(&mut part);
    let mut part = u64_to_le_bytes(o.quantity);
    v.append(&mut part);
    let mut part = u64_to_le_bytes(o.remaining);
    v.append(&mut part);
    let mut part = u64_to_le_bytes(o.timestamp);
    v.append(&mut part);
    v.push(o.order_type_raw);
    proof {
        assert(v@ =~= spec_encode_order(*o));
    }
    v
}

/// Decode a 50-byte record as an order; any other length is rejected.
pub fn decode_order(b: &[u8]) -> (r: Option<Order>)
    ensures
        b@.len() == 50 ==> r == Some(spec_decode_order(b@)),
        b@.len() != 50 ==> r is None,
{
    if b.len() != 50 {
        return None;
    }
    let id = u64_from_le_bytes(slice_subrange(b, 0, 8));
    let user_id = u64_from_le_bytes(slice_subrange(b, 8, 16));
    let side_raw = *vstd::slice::slice_index_get(b, 16);
    let price = u64_from_le_bytes(slice_subrange(b, 17, 25));
    let quantity = u64_from_le_bytes(slice_subrange(b, 25, 33));
    let remaining = u64_from_le_bytes(slice_subrange(b, 33, 41));
    let timestamp = u64_from_le_bytes(slice_subrange(b, 41, 49));
    let order_type_raw = *vstd::slice::slice_index_get(b, 49);
    Some(Order { id, user_id, side_raw, price, quantity, remaining, timestamp, order_type_raw })
}

/// Encoding then decoding an order gives it back, and the record has the
/// declared length.
pub proof fn lemma_order_roundtrip(o: Order)
    ensures
        spec_encode_order(o).len() == 50,
        spec_decode_order(spec_encode_order(o)) == o,
{
    lemma_auto_spec_u64_to_from_le_bytes();
    let b = spec_encode_order(o);
    assert(b.subrange(0, 8) =~= spec_u64_to_le_bytes(o.id));
    assert(b.subrange(8, 16) =~= spec_u64_to_le_bytes(o.user_id));
    assert(b.subrange(17, 25) =~= spec_u64_to_le_bytes(o.price));
    assert(b.subrange(25, 33) =~= spec_u64_to_le_bytes(o.quantity));
    assert(b.subrange(33, 41) =~= spec_u64_to_le_bytes(o.remaining));
    assert(b.subrange(41, 49) =~= spec_u64_to_le_bytes(o.timestamp));
    assert(spec_decode_order(b) == o);
}

/// Encode a trade as its 64-byte record.
pub fn encode_trade(t: &Trade) -> (r: Vec<u8>)
    ensures
        r@ == spec_encode_trade(*t),
        r@.len() == 64,
{
    let mut v: Vec<u8> = Vec::new();
    let mut part = u64_to_le_bytes(t.id);
    v.append(&mut part);
    let mut part = u64_to_le_bytes(t.maker_order_id);
    v.append(&mut part);
    let mut part = u64_to_le_bytes(t.taker_order_id);
    v.append(&mut part);
    let mut part = u64_to_le_bytes(t.maker_user_id);
    v.append(&mut part);
    let mut part = u64_to_le_bytes(t.taker_user_id);
    v.append(&mut part);
    let mut part = u64_to_le_bytes(t.price);
    v.append(&mut part);
    let mut part = u64_to_le_bytes(t.quantity);
    v.append(&mut part);
    let mut part = u64_to_le_bytes(t.timestamp);
    v.append(&mut part);
    proof {
        assert(v@ =~= spec_encode_trade(*t));
    }
    v
}

/// Decode a 64-byte record as a trade; any other length is rejected.
pub fn decode_trade(b: &[u8]) -> (r: Option<Trade>)
    ensures
        b@.len() == 64 ==> r == Some(spec_decode_trade(b@)),
        b@.len() != 64 ==> r is None,
{
    if b.len() != 64 {
        return None;
    }
    let id = u64_from_le_bytes(slice_subrange(b, 0, 8));
    let maker_order_id = u64_from_le_bytes(slice_subrange(b, 8, 16));
    let taker_order_id = u64_from_le_bytes(slice_subrange(b, 16, 24));
    let maker_user_id = u64_from_le_bytes(slice_subrange(b, 24, 32));
    let taker_user_id = u64_from_le_bytes(slice_subrange(b, 32, 40));
    let price = u64_from_le_bytes(slice_subrange(b, 40, 48));
    let quantity = u64_from_le_bytes(slice_subrange(b, 48, 56));
    let timestamp = u64_from_le_bytes(slice_subrange(b, 56, 64));
    Some(
        Trade {
            id,
            maker_order_id,
            taker_order_id,
            maker_user_id,
            taker_user_id,
            price,
            quantity,
            timestamp,
        },
    )
}

/// Encoding then decoding a trade gives it back, and the record has the
/// declared length.
pub proof fn lemma_trade_roundtrip(t: Trade)
    ensures
        spec_encode_trade(t).len() == 64,
        spec_decode_trade(spec_encode_trade(t)) == t,
{
    lemma_auto_spec_u64_to_from_le_bytes();
    let b = spec_encode_trade(t);
    assert(b.subrange(0, 8) =~= spec_u64_to_le_bytes(t.id));
    assert(b.subrange(8, 16) =~= spec_u64_to_le_bytes(t.maker_order_id));
    assert(b.subrange(16, 24) =~= spec_u64_to_le_bytes(t.taker_order_id));
    assert(b.subrange(24, 32) =~= spec_u64_to_le_bytes(t.maker_user_id));
    assert(b.subrange(32, 40) =~= spec_u64_to_le_bytes(t.taker_user_id));
    assert(b.subrange(40, 48) =~= spec_u64_to_le_bytes(t.price));
    assert(b.subrange(48, 56) =~= spec_u64_to_le_bytes(t.quantity));
    assert(b.subrange(56, 64) =~= spec_u64_to_le_bytes(t.timestamp));
    assert(spec_decode_trade(b) == t);
}

/// Encode a receipt as its 64-byte record.
pub fn encode_receipt(r: &ExecutionReceipt) -> (out: Vec<u8>)
    ensures
        out@ == spec_encode_receipt(*r),
        out@.len() == 64,
{
    let mut v: Vec<u8> = Vec::new();
    let mut part = u64_to_le_bytes(r.batch_id);
    v.append(&mut part);
    let mut part = u64_to_le_bytes(r.orders_processed);
    v.append(&mut part);
    let mut part = u64_to_le_bytes(r.trades_executed);
    v.append(&mut part);
    let mut i: usize = 0;
    while i < 32
        invariant
            i <= 32,
            v@ == spec_u64_to_le_bytes(r.batch_id) + spec_u64_to_le_bytes(r.orders_processed)
                + spec_u64_to_le_bytes(r.trades_executed) + r.state_root@.subrange(0, i as int),
        decreases 32 - i,
    {
        let ghost v0 = v@;
        v.push(r.state_root[i]);
        proof {
            assert(v@ =~= spec_u64_to_le_bytes(r.batch_id) + spec_u64_to_le_bytes(
                r.orders_processed,
            ) + spec_u64_to_le_bytes(r.trades_executed) + r.state_root@.subrange(0, i + 1));
        }
        i = i + 1;
    }
    proof {
        assert(r.state_root@.subrange(0, 32) =~= r.state_root@);
    }
    let mut part = u64_to_le_bytes(r.timestamp);
    v.append(&mut part);
    proof {
        assert(v@ =~= spec_encode_receipt(*r));
    }
    v
}

/// Decode a 64-byte record as a receipt; any other length is rejected.
pub fn decode_receipt(b: &[u8]) -> (r: Option<ExecutionReceipt>)
    ensures
        b@.len() == 64 ==> r == Some(spec_decode_receipt(b@)),
        b@.len() != 64 ==> r is None,
{
    if b.len() != 64 {
        return None;
    }
    let batch_id = u64_from_le_bytes(slice_subrange(b, 0, 8));
    let orders_processed = u64_from_le_bytes(slice_subrange(b, 8, 16));
    let trades_executed = u64_from_le_bytes(slice_subrange(b, 16, 24));
    let mut state_root = [0u8; 32];
    let mut i: usize = 0;
    while i < 32
        invariant
            i <= 32,
            b@.len() == 64,
            forall|j: int| 0 <= j < i ==> state_root@[j] == b@[24 + j],
        decreases 32 - i,
    {
        state_root[i] = *vstd::slice::slice_index_get(b, 24 + i);
        i = i + 1;
    }
    let timestamp = u64_from_le_bytes(slice_subrange(b, 56, 64));
    proof {
        assert(state_root@ =~= b@.subrange(24, 56));
        assert(spec_root_from_bytes(b@)@ == b@.subrange(24, 56));
        assert(state_root@ =~= spec_root_from_bytes(b@)@);
        assert(state_root =~= spec_root_from_bytes(b@));
    }
    Some(ExecutionReceipt { batch_id, orders_processed, trades_executed, state_root, timestamp })
}

/// Encoding then decoding a receipt gives it back, and the record has the
/// declared length.
pub proof fn lemma_receipt_roundtrip(r: ExecutionReceipt)
    ensures
        spec_encode_receipt(r).len() == 64,
        spec_decode_receipt(spec_encode_receipt(r)) == r,
{
    lemma_auto_spec_u64_to_from_le_bytes();
    let b = spec_encode_receipt(r);
    assert(b.subrange(0, 8) =~= spec_u64_to_le_bytes(r.batch_id));
    assert(b.subrange(8, 16) =~= spec_u64_to_le_bytes(r.orders_processed));
    assert(b.subrange(16, 24) =~= spec_u64_to_le_bytes(r.trades_executed));
    assert(b.subrange(24, 56) =~= r.state_root@);
    assert(b.subrange(56, 64) =~= spec_u64_to_le_bytes(r.timestamp));
    assert(spec_root_from_bytes(b)@ == r.state_root@);
    assert(spec_root_from_bytes(b) =~= r.state_root);
    assert(spec_decode_receipt(b) == r);
}

} // verus!
