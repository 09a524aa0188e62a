//! A single-market order matching core: an in-memory exchange that accepts
//! trading intents from accounts, validates them against available collateral,
//! matches buy and sell orders by price-time priority, and records the
//! resulting balance movements in an append-only per-account ledger.

pub mod actors;
pub mod matching;
pub mod pipeline;
