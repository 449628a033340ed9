//! A greedy block-template builder: selects transactions from a pending pool
//! into a sequence of weight-capped blocks, admitting a transaction only once
//! every pool-resident parent has been placed in the same or an earlier block.

use vstd::prelude::*;

pub mod tx;
pub mod errors;
pub mod ancestry;
pub mod rank;
pub mod admission;
pub mod miner;
pub mod parse;
pub mod laws;

pub use tx::Transaction;
pub use errors::{ParseError, SelectError};
pub use miner::Miner;

verus! {

/// The configured maximum total weight of one block.
pub const MAX_BLOCK_TX_WEIGHT: u32 = 4_000_000;

} // verus!
