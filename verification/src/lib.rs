//! Consensus and transaction-pool engine of a small proof-of-work currency:
//! 256-bit targets, hashes, blocks, the chain with its index of unspent
//! outputs, and the pool of unconfirmed transactions.

pub mod codec;
pub mod crypto;
pub mod error;
pub mod network;
pub mod sha256;
pub mod time;
pub mod types;
pub mod u256;
pub mod utils;
pub mod wallet;

pub use u256::U256;

use vstd::prelude::*;

verus! {

/// Initial block reward in whole coins; one coin is `10^8` of the smallest unit.
pub const INITIAL_REWARD: u64 = 50;

/// Number of blocks after which the block reward halves.
pub const HALVING_INTERVAL: u64 = 210;

/// Ideal time between two blocks, in seconds.
pub const IDEAL_BLOCK_TIME: u64 = 10;

/// Number of blocks between two adjustments of the target.
pub const DIFFICULTY_UPDATE_INTERVAL: u64 = 50;

/// Age in seconds after which an unconfirmed transaction is evicted.
pub const MAX_MEMPOOL_TRANSACTION_AGE: u64 = 600;

/// The largest target allowed, `2^224 - 1`, as a number; a lower target is harder to meet.
pub open spec fn min_target_value() -> nat {
    0xFFFF_FFFF_FFFF_FFFF_FFFF_FFFF_FFFF_FFFF_FFFF_FFFF_FFFF_FFFF_FFFF_FFFFnat
}

/// The largest target allowed, `2^224 - 1`.
pub fn min_target() -> (r: U256)
    ensures
        r@ == min_target_value(),
{
    U256 { l0: 0xFFFF_FFFF_FFFF_FFFF, l1: 0xFFFF_FFFF_FFFF_FFFF, l2: 0xFFFF_FFFF_FFFF_FFFF, l3: 0x0000_0000_FFFF_FFFF }
}

} // verus!
