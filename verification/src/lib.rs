//! Chain state engine of a small proof-of-work currency: 256-bit targets and
//! hashes, signed transactions, blocks, the unspent-output set, the mempool,
//! difficulty retargeting and the decisions of a mining client.
use vstd::prelude::*;

pub mod codec;
pub mod crypto;
pub mod error;
pub mod ledger;
pub mod miner;
pub mod network;
pub mod sha256;
pub mod template;
pub mod types;
pub mod u256;
pub mod util;
pub mod utxo;

verus! {

/// Block subsidy before any halving, in whole coins.
pub const INITIAL_REWARD: u64 = 50;

/// Number of blocks between two halvings of the subsidy.
pub const HALVING_INTERVAL: u64 = 210;

/// Ideal time between two blocks, in seconds.
pub const IDEAL_BLOCK_TIME: u64 = 10;

/// Number of blocks between two adjustments of the target.
pub const DIFFICULTY_UPDATE_INTERVAL: u64 = 50;

/// Age in seconds after which a pending transaction is dropped.
pub const MAX_MEMPOOL_TRANSACTION_AGE: u64 = 600;

/// Smallest units in one whole coin.
pub const UNITS_PER_COIN: u64 = 100_000_000;

} // verus!
