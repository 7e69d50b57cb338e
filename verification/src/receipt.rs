//! Execution receipts: the summary of a processed batch, carrying the
//! 32-byte SHA-256 state root that callers use to verify replay
//! equivalence.

use vstd::prelude::*;
use sha2::{Digest, Sha256};

verus! {

/// What SHA-256 digests a byte string to. The digest depends on the bytes
/// alone, so it gets a name rather than a transcription of the algorithm.
pub uninterp spec fn sha256_of(data: Seq<u8>) -> Seq<u8>;

/// The lowercase hex character for a value below 16.
pub open spec fn hex_char(n: u8) -> char {
    if n == 0 {
        '0'
    } else if n == 1 {
        '1'
    } else if n == 2 {
        '2'
    } else if n == 3 {
        '3'
    } else if n == 4 {
        '4'
    } else if n == 5 {
        '5'
    } else if n == 6 {
        '6'
    } else if n == 7 {
        '7'
    } else if n == 8 {
        '8'
    } else if n == 9 {
        '9'
    } else if n == 10 {
        'a'
    } else if n == 11 {
        'b'
    } else if n == 12 {
        'c'
    } else if n == 13 {
        'd'
    } else if n == 14 {
        'e'
    } else {
        'f'
    }
}

/// Relies on hex::encode: two lowercase hex digits per byte, high nibble
/// first.
#[verifier::external_body]
fn hex_encode(data: &[u8]) -> (r: String)
    ensures
        r@.len() == 2 * data@.len(),
        forall|i: int|
            0 <= i < data@.len() ==> r@[2 * i] == hex_char(#[trigger] data@[i] / 16) && r@[2 * i
                + 1] == hex_char(data@[i] % 16),
{
    hex::encode(data)
}

/// Execution receipt summarizing a batch of processed orders.
///
/// The state root is the SHA-256 digest of the book's canonical encoding;
/// it identifies the book's logical state without revealing its orders.
#[derive(Debug, Clone, Copy, PartialEq, Eq, Default)]
pub struct ExecutionReceipt {
    /// Batch sequence number
    pub batch_id: u64,
    /// Number of orders processed in this batch
    pub orders_processed: u64,
    /// Number of trades executed in this batch
    pub trades_executed: u64,
    /// State root after execution (SHA-256, 32 bytes)
    pub state_root: [u8; 32],
    /// Batch completion timestamp in milliseconds
    pub timestamp: u64,
}

impl ExecutionReceipt {
    /// Create a new execution receipt
    pub fn new(
        batch_id: u64,
        orders_processed: u64,
        trades_executed: u64,
        state_root: [u8; 32],
        timestamp: u64,
    ) -> (r: ExecutionReceipt)
        ensures
            r == (ExecutionReceipt {
                batch_id,
                orders_processed,
                trades_executed,
                state_root,
                timestamp,
            }),
    {
        ExecutionReceipt { batch_id, orders_processed, trades_executed, state_root, timestamp }
    }

    /// Relies on sha2::Sha256: the 32-byte digest of the data, a function
    /// of the bytes alone.
    #[verifier::external_body]
    pub fn compute_hash(data: &[u8]) -> (r: [u8; 32])
        ensures
            r@ == sha256_of(data@),
            r@.len() == 32,
    {
        let mut hasher = Sha256::new();
        hasher.update(data);
        let result = hasher.finalize();
        let mut hash = [0u8; 32];
        hash.copy_from_slice(&result);
        hash
    }

    /// Create a receipt whose state root is the digest of the given bytes.
    pub fn with_computed_root(
        batch_id: u64,
        orders_processed: u64,
        trades_executed: u64,
        state_data: &[u8],
        timestamp: u64,
    ) -> (r: ExecutionReceipt)
        ensures
            r == (ExecutionReceipt {
                batch_id,
                orders_processed,
                trades_executed,
                state_root: r.state_root,
                timestamp,
            }),
            r.state_root@ == sha256_of(state_data@),
    {
        let state_root = Self::compute_hash(state_data);
        Self::new(batch_id, orders_processed, trades_executed, state_root, timestamp)
    }

    /// The state root as a lowercase hex string of 64 characters.
    pub fn state_root_hex(&self) -> (r: String)
        ensures
            r@.len() == 64,
            forall|i: int|
                0 <= i < 32 ==> r@[2 * i] == hex_char(#[trigger] self.state_root@[i] / 16) && r@[2
                    * i + 1] == hex_char(self.state_root@[i] % 16),
    {
        hex_encode(self.state_root.as_slice())
    }

    /// Whether this receipt stands for an empty batch.
    pub fn is_empty(&self) -> (r: bool)
        ensures
            r == (self.orders_processed == 0),
    {
        self.orders_processed == 0
    }
}

} // verus!
