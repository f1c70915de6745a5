//! Settlement engine of an up/down prediction market: the round scheduler,
//! the pari-mutuel payout rule, the fee accumulator and the indexed ledgers
//! of bets and receipts, with their contracts proved.

pub mod types;
pub mod math;
pub mod settlement;
pub mod order;
pub mod ledger;
pub mod market;
pub mod collect;
pub mod query;
