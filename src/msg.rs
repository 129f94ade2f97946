use vstd::prelude::*;

use crate::pair::{Pair, PairConfig, PairImmutable};

verus! {

/// Creates the factory of pools.
#[derive(Debug, Clone, PartialEq, Eq)]
pub struct InstantiateMsg {
    /// The address of the contract that holds the global parameters.
    pub infinity_global: String,
}

/// Requests the factory executes.
#[derive(Debug, Clone, PartialEq, Eq)]
pub enum ExecuteMsg {
    /// Creates a pool at an address derived from the sender and a counter.
    CreatePair {
        /// The immutable parameters of the pool.
        pair_immutable: PairImmutable,
        /// The owner-configurable parameters of the pool.
        pair_config: PairConfig,
    },
    /// Creates a pool at an address derived from the sender and a salt.
    CreatePair2 {
        /// The immutable parameters of the pool.
        pair_immutable: PairImmutable,
        /// The owner-configurable parameters of the pool.
        pair_config: PairConfig,
    },
}

/// Where the next pool of a sender will be created.
#[derive(Debug, Clone, PartialEq, Eq)]
pub struct NextPairResponse {
    pub sender: String,
    pub code_id: u64,
    pub counter: u64,
    pub salt: Vec<u8>,
    pub pair: String,
}

/// Queries the factory answers.
#[derive(Debug, Clone, PartialEq, Eq)]
pub enum QueryMsg {
    NextPair { sender: String },
    PairsByOwner { owner: String, code_id: u64, start_after: Option<u64>, limit: Option<u32> },
    SimSellToPairQuotes { pair: Pair, limit: u32 },
    SimBuyFromPairQuotes { pair: Pair, limit: u32 },
}

/// Successive quotes of one pool, in the denomination it trades.
#[derive(Debug, Clone, PartialEq, Eq)]
pub struct QuotesResponse {
    pub denom: String,
    pub quotes: Vec<u128>,
}

} // verus!
