//! Trade records: one executed match between a maker and a taker order.
//!
//! The maker is the resting order that was already in the book; the taker
//! is the incoming order that removed liquidity. A trade always executes
//! at the maker's resting price.

use vstd::prelude::*;

verus! {

/// A single match between a maker and a taker order.
#[derive(Debug, Clone, Copy, PartialEq, Eq, Default, Structural)]
pub struct Trade {
    /// Unique trade identifier (assigned by the book's counter)
    pub id: u64,
    /// Maker order ID (the resting order)
    pub maker_order_id: u64,
    /// Taker order ID (the incoming order)
    pub taker_order_id: u64,
    /// Maker user/account ID
    pub maker_user_id: u64,
    /// Taker user/account ID
    pub taker_user_id: u64,
    /// Execution price in fixed-point (scaled by 10^8); always the maker's price
    pub price: u64,
    /// Executed quantity in fixed-point (scaled by 10^8)
    pub quantity: u64,
    /// Execution timestamp in milliseconds
    pub timestamp: u64,
}

impl Trade {
    /// Create a new trade
    pub fn new(
        id: u64,
        maker_order_id: u64,
        taker_order_id: u64,
        maker_user_id: u64,
        taker_user_id: u64,
        price: u64,
        quantity: u64,
        timestamp: u64,
    ) -> (r: Trade)
        ensures
            r == (Trade {
                id,
                maker_order_id,
                taker_order_id,
                maker_user_id,
                taker_user_id,
                price,
                quantity,
                timestamp,
            }),
    {
        Trade {
            id,
            maker_order_id,
            taker_order_id,
            maker_user_id,
            taker_user_id,
            price,
            quantity,
            timestamp,
        }
    }

    /// The notional value of this trade, `price * quantity`, in raw form:
    /// the result is scaled by 10^16 (10^8 * 10^8).
    pub fn notional_raw(&self) -> (r: u128)
        ensures
            r == self.price * self.quantity,
    {
        proof {
            assert((self.price as u128) * (self.quantity as u128) <= u64::MAX as u128 * u64::MAX as u128) by (nonlinear_arith)
                requires
                    self.price <= u64::MAX,
                    self.quantity <= u64::MAX,
            ;
        }
        (self.price as u128) * (self.quantity as u128)
    }
}

} // verus!
