//! Order records: side, type, and the resting/incoming limit order.
//!
//! Prices and quantities are fixed-point `u64` values scaled by `10^8`
//! (see `crate::price`). The byte encoding of an order is defined in
//! `crate::codec`.

use vstd::prelude::*;

verus! {

/// Order side: Buy (bid) or Sell (ask). Encoded as one byte: Buy = 0, Sell = 1.
#[derive(Debug, Clone, Copy, PartialEq, Eq, Hash, Default, Structural)]
pub enum Side {
    /// Buy order (bid) - wants to purchase the asset
    #[default]
    Buy,
    /// Sell order (ask) - wants to sell the asset
    Sell,
}

/// The byte that stands for a side on the wire.
pub open spec fn side_byte(s: Side) -> u8 {
    match s {
        Side::Buy => 0,
        Side::Sell => 1,
    }
}

impl Side {
    /// Convert to u8 for serialization
    pub fn to_u8(self) -> (r: u8)
        ensures
            r == side_byte(self),
    {
        match self {
            Side::Buy => 0,
            Side::Sell => 1,
        }
    }

    /// Convert from u8 for deserialization
    pub fn from_u8(value: u8) -> (r: Option<Side>)
        ensures
            value == 0 ==> r == Some(Side::Buy),
            value == 1 ==> r == Some(Side::Sell),
            value > 1 ==> r is None,
    {
        match value {
            0 => Some(Side::Buy),
            1 => Some(Side::Sell),
            _ => None,
        }
    }

    /// Returns the opposite side
    pub fn opposite(self) -> (r: Side)
        ensures
            self == Side::Buy ==> r == Side::Sell,
            self == Side::Sell ==> r == Side::Buy,
    {
        match self {
            Side::Buy => Side::Sell,
            Side::Sell => Side::Buy,
        }
    }
}

/// Order type. Only good-till-cancelled limit orders are supported;
/// the variant is encoded as the byte 0.
#[derive(Debug, Clone, Copy, PartialEq, Eq, Hash, Default, Structural)]
pub enum OrderType {
    /// Limit order - executes at specified price or better
    #[default]
    Limit,
}

impl OrderType {
    /// Convert to u8 for serialization
    pub fn to_u8(self) -> (r: u8)
        ensures
            r == 0,
    {
        match self {
            OrderType::Limit => 0,
        }
    }

    /// Convert from u8 for deserialization
    pub fn from_u8(value: u8) -> (r: Option<OrderType>)
        ensures
            value == 0 ==> r == Some(OrderType::Limit),
            value != 0 ==> r is None,
    {
        match value {
            0 => Some(OrderType::Limit),
            _ => None,
        }
    }
}

/// A limit order.
///
/// `remaining` is the size not yet filled; `0 <= remaining <= quantity`
/// holds for every order the book ever stores. Side and order type are
/// kept as raw bytes so that a record is exactly its wire image.
#[derive(Debug, Clone, Copy, PartialEq, Eq, Default, Structural)]
pub struct Order {
    /// Unique order identifier (0 asks the book to assign one)
    pub id: u64,
    /// User/account identifier
    pub user_id: u64,
    /// Order side as a byte (0 = Buy, 1 = Sell)
    pub side_raw: u8,
    /// Price in fixed-point (scaled by 10^8)
    pub price: u64,
    /// Original quantity in fixed-point (scaled by 10^8)
    pub quantity: u64,
    /// Remaining quantity (decremented by partial fills)
    pub remaining: u64,
    /// Caller-supplied sequencing timestamp (milliseconds)
    pub timestamp: u64,
    /// Order type as a byte (0 = Limit)
    pub order_type_raw: u8,
}

impl Order {
    /// The side this order's `side_raw` byte stands for; any byte other
    /// than 1 is read as Buy.
    pub open spec fn side_spec(self) -> Side {
        if self.side_raw == 1 {
            Side::Sell
        } else {
            Side::Buy
        }
    }

    /// True of an order whose counters are consistent.
    pub open spec fn wf(self) -> bool {
        self.remaining <= self.quantity
    }

    /// Create a new limit order; `remaining` starts equal to `quantity`.
    pub fn new(id: u64, user_id: u64, side: Side, price: u64, quantity: u64, timestamp: u64) -> (r:
        Order)
        ensures
            r == (Order {
                id,
                user_id,
                side_raw: side_byte(side),
                price,
                quantity,
                remaining: quantity,
                timestamp,
                order_type_raw: 0,
            }),
            r.side_spec() == side,
            r.wf(),
    {
        Order {
            id,
            user_id,
            side_raw: side.to_u8(),
            price,
            quantity,
            remaining: quantity,
            timestamp,
            order_type_raw: OrderType::Limit.to_u8(),
        }
    }

    /// Get the order side
    pub fn side(&self) -> (r: Side)
        ensures
            r == self.side_spec(),
    {
        match Side::from_u8(self.side_raw) {
            Some(s) => s,
            None => Side::Buy,
        }
    }

    /// Set the order side
    pub fn set_side(&mut self, side: Side)
        ensures
            *final(self) == (Order { side_raw: side_byte(side), ..*old(self) }),
            final(self).side_spec() == side,
    {
        self.side_raw = side.to_u8();
    }

    /// Get the order type
    pub fn order_type(&self) -> (r: OrderType)
        ensures
            r == OrderType::Limit,
    {
        match OrderType::from_u8(self.order_type_raw) {
            Some(t) => t,
            None => OrderType::Limit,
        }
    }

    /// Check if the order is fully filled
    pub fn is_filled(&self) -> (r: bool)
        ensures
            r == (self.remaining == 0),
    {
        self.remaining == 0
    }

    /// Get the filled quantity; saturates if `remaining` exceeds `quantity`.
    pub fn filled_quantity(&self) -> (r: u64)
        ensures
            self.wf() ==> r == self.quantity - self.remaining,
            !self.wf() ==> r == 0,
    {
        if self.quantity >= self.remaining {
            self.quantity - self.remaining
        } else {
            0
        }
    }

    /// Fill a portion of this order: `remaining` drops by the actual fill,
    /// which is capped at what is left.
    pub fn fill(&mut self, fill_qty: u64) -> (r: u64)
        ensures
            r == if fill_qty <= old(self).remaining {
                fill_qty
            } else {
                old(self).remaining
            },
            *final(self) == (Order { remaining: (old(self).remaining - r) as u64, ..*old(self) }),
    {
        let actual_fill: u64 = if fill_qty <= self.remaining {
            fill_qty
        } else {
            self.remaining
        };
        self.remaining = self.remaining - actual_fill;
        actual_fill
    }
}

} // verus!
