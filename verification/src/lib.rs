//! Accounting core of a token-staking protocol.
//!
//! The library tracks how much each participant has bonded into a pool,
//! distributes pool rewards as bonded amounts change, enforces a time delay
//! (or an instant-release fee) before unbonded funds become withdrawable, and
//! keeps a height-indexed history of balances so that callers can ask how much
//! was staked as of an earlier block height.

pub mod assoc;
pub mod contract;
pub mod decimal;
pub mod errors;
pub mod fees;
pub mod locks;
pub mod msg;
pub mod proxy;
pub mod rewards;
pub mod snapshot;
pub mod staking;
pub mod state;
