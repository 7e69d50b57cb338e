//! Deterministic central limit order book (CLOB) matching engine core.
//!
//! The crate provides:
//! - fixed-point price/quantity arithmetic with scale `10^8` (`price`),
//! - order, trade and receipt records with a canonical byte codec (`order`,
//!   `trade`, `receipt`, `codec`),
//! - a slab-backed order book with price-time priority (`node`, `level`,
//!   `clob`),
//! - a deterministic matching engine (`engine`).
//!
//! All observable behaviour is stated in the function contracts and checked
//! by Verus; the only unchecked assumptions are the contracts of the thin
//! wrappers around the slab allocator, the SHA-256 digest and hex encoding.

pub mod clob;
pub mod codec;
pub mod engine;
pub mod level;
pub mod node;
pub mod receipt;
pub mod order;
pub mod price;
pub mod trade;

pub use clob::CLOB;
pub use engine::{MatchResult, MatchingEngine};
pub use level::PriceLevel;
pub use node::OrderNode;
pub use receipt::ExecutionReceipt;
pub use order::{Order, OrderType, Side};
pub use price::{MAX_VALUE, SCALE};
pub use trade::Trade;
