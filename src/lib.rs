//! A staking ledger: accounts deposit principal, accrue a time-based reward on
//! it, and withdraw principal plus reward. The ledger keeps a running total of
//! staked principal that always equals the sum of the principals it records.

pub mod ledger;
pub mod model;
