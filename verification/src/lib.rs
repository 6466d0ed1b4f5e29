//! Verified core of a proportional rental-yield distribution contract.
//!
//! Stakers lock property share tokens in a pool and earn a pro-rata cut of the
//! reward token paid into it.  Reward accounting is O(1): a running
//! `acc_reward_per_share` accumulator (scaled by `SCALE`) and a per-position
//! `reward_debt` baseline.
//!
//! Every contract entry point is a function from the stored state it reads and
//! its arguments to the ordered host effects it performs (authorization
//! demands, token transfers, events) and the result with the state it writes.
//! The host glue performs those effects and storage writes.
pub mod types;
pub mod math;
pub mod contract;
pub mod ledger;
pub mod custody;
pub mod laws;
