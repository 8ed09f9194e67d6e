//! Request and response types of the staking contract.
//!
//! Requests form a tagged union dispatched by `execute`; responses carry
//! transfer intents (the contract never moves funds itself) and typed
//! events describing what happened.

use vstd::prelude::*;
use crate::decimal::Decimal;
use crate::state::{Asset, AssetInfo};

verus! {

/// Identities the contract is created with; a missing owner defaults to
/// the instantiating sender.
#[derive(Clone, Debug, PartialEq, Eq)]
pub struct InstantiateMsg {
    pub owner: Option<String>,
    pub rewarder: String,
    pub withdraw_fee_receiver: String,
}

/// The message a token hook may carry.
#[derive(Clone, Copy, Debug, PartialEq, Eq, Structural)]
pub enum Cw20HookMsg {
    Bond {},
}

/// Migrations take no arguments.
#[derive(Clone, Copy, Debug, PartialEq, Eq, Structural)]
pub struct MigrateMsg {}

/// A token send forwarded by a token contract: who sent, how much, and
/// the decoded hook (or `None` when the payload was not one this
/// contract accepts).
#[derive(Clone, Debug, PartialEq, Eq)]
pub struct Cw20ReceiveMsg {
    pub sender: String,
    pub amount: u128,
    pub msg: Option<Cw20HookMsg>,
}

/// One pool's reward deposit.
#[derive(Clone, Debug, PartialEq, Eq)]
pub struct RewardMsg {
    pub staking_token: String,
    pub total_accumulation_amount: u128,
}

/// An asset amount, as reported in queries.
#[derive(Clone, Debug, PartialEq, Eq)]
pub struct AmountInfo {
    pub asset_info: AssetInfo,
    pub amount: u128,
}

/// The contract's executable requests.
#[derive(Clone, Debug, PartialEq, Eq)]
pub enum ExecuteMsg {
    Receive(Cw20ReceiveMsg),
    UpdateConfig {
        rewarder: Option<String>,
        owner: Option<String>,
        withdraw_fee_receiver: Option<String>,
    },
    UpdateUnbondingPeriod { staking_token: String, unbonding_period: u64 },
    RegisterAsset { staking_token: String, unbonding_period: Option<u64> },
    UpdateRewardsPerSec { staking_token: String, assets: Vec<Asset> },
    DepositReward { rewards: Vec<RewardMsg> },
    Unbond { staking_token: String, amount: u128, unbond_period: Option<u64> },
    Restake { staking_token: String },
    UpdateUnbondOption { staking_token: String, period: u64, fee: Decimal },
    RemoveUnbondOption { staking_token: String, period: u64 },
}

/// The contract's read-only requests.
#[derive(Clone, Debug, PartialEq, Eq)]
pub enum QueryMsg {
    Config {},
    PoolInfo { staking_token: String },
    RewardsPerSec { staking_token: String },
    RewardInfo { staker_addr: String, staking_token: Option<String> },
    RewardInfos {
        staking_token: String,
        start_after: Option<String>,
        limit: Option<u32>,
        order: Option<i32>,
    },
    GetPoolsInformation {},
    LockInfos {
        staker_addr: String,
        staking_token: String,
        start_after: Option<u64>,
        limit: Option<u32>,
        order: Option<i32>,
    },
    StakedBalanceAtHeight { asset_key: String, address: String, height: Option<u64> },
    TotalStakedAtHeight { asset_key: String, height: Option<u64> },
    UnbondFee { staking_token: String, period: u64 },
    UnbondOptions { staking_token: String },
}

/// A transfer the host is asked to perform: the contract computes
/// amounts and emits intents, it never moves funds itself.
#[derive(Clone, Debug, PartialEq, Eq)]
pub struct TransferMsg {
    pub recipient: String,
    pub asset: AssetInfo,
    pub amount: u128,
}

/// What an operation did, in typed form.
#[derive(Clone, Debug, PartialEq, Eq)]
pub enum Event {
    Bond { staker_addr: String, staking_token: String, amount: u128 },
    Unbonding { staker_addr: String, amount: u128, staking_token: String, unlock_time: u64 },
    Unbond { staker_addr: String, amount: u128, staking_token: String },
    Restake { staker_addr: String, staking_token: String, amount: u128 },
    RegisterAsset { staking_token: String, unbonding_period: u64 },
    UpdateConfig {},
    UpdateRewardsPerSec {},
    DepositReward {},
    UpdateUnbondingPeriod { unbonding_period: u64 },
    UpdateUnbondOption { staking_token: String, unbonding_period: u64, fee: Decimal },
    RemoveUnbondOption { staking_token: String, unbonding_period: u64 },
}

/// What an operation hands back: transfer intents and typed events.
#[derive(Clone, Debug, PartialEq, Eq)]
pub struct Response {
    pub messages: Vec<TransferMsg>,
    pub events: Vec<Event>,
}

impl Response {
    /// An empty response: no transfers, no events.
    pub fn new() -> (r: Self)
        ensures
            r.messages@ =~= Seq::<TransferMsg>::empty(),
            r.events@ =~= Seq::<Event>::empty(),
    {
        Response { messages: Vec::new(), events: Vec::new() }
    }
}

/// The configured identities.
#[derive(Clone, Debug, PartialEq, Eq)]
pub struct ConfigResponse {
    pub owner: String,
    pub rewarder: String,
    pub withdraw_fee_receiver: String,
}

/// One pool's aggregate state and default delay.
#[derive(Clone, Debug, PartialEq, Eq)]
pub struct PoolInfoResponse {
    pub staking_token: String,
    pub total_bond_amount: u128,
    pub reward_index: Decimal,
    pub pending_reward: u128,
    pub unbonding_period: Option<u64>,
}

/// The reward rates of one pool.
#[derive(Clone, Debug, PartialEq, Eq)]
pub struct RewardsPerSecResponse {
    pub assets: Vec<Asset>,
}

/// One staker's share record in one pool.
#[derive(Clone, Debug, PartialEq, Eq)]
pub struct RewardInfoResponseItem {
    pub staking_token: String,
    pub bond_amount: u128,
    pub pending_reward: u128,
    pub pending_withdraw: Vec<Asset>,
}

/// One staker's share records.
#[derive(Clone, Debug, PartialEq, Eq)]
pub struct RewardInfoResponse {
    pub staker_addr: String,
    pub reward_infos: Vec<RewardInfoResponseItem>,
}

/// One pool, keyed for enumeration.
#[derive(Clone, Debug, PartialEq, Eq)]
pub struct QueryPoolInfoResponse {
    pub asset_key: String,
    pub pool_info: PoolInfoResponse,
}

/// One outstanding lock entry.
#[derive(Clone, Copy, Debug, PartialEq, Eq, Structural)]
pub struct LockInfoResponse {
    pub amount: u128,
    pub unlock_time: u64,
}

/// One page of a position's outstanding lock entries.
#[derive(Clone, Debug, PartialEq, Eq)]
pub struct LockInfosResponse {
    pub staker_addr: String,
    pub staking_token: String,
    pub lock_infos: Vec<LockInfoResponse>,
}

/// A balance as of a height.
#[derive(Clone, Debug, PartialEq, Eq)]
pub struct StakedBalanceAtHeightResponse {
    pub balance: u128,
    pub height: u64,
}

/// A pool total as of a height.
#[derive(Clone, Debug, PartialEq, Eq)]
pub struct TotalStakedAtHeightResponse {
    pub total: u128,
    pub height: u64,
}

/// One fee-schedule entry.
#[derive(Clone, Copy, Debug, PartialEq, Eq, Structural)]
pub struct UnbondOptionResponse {
    pub period: u64,
    pub fee: Decimal,
}

/// A query's typed answer.
#[derive(Clone, Debug, PartialEq, Eq)]
pub enum QueryAnswer {
    Config(ConfigResponse),
    PoolInfo(PoolInfoResponse),
    RewardsPerSec(RewardsPerSecResponse),
    RewardInfo(RewardInfoResponse),
    RewardInfos(Vec<RewardInfoResponse>),
    PoolsInformation(Vec<QueryPoolInfoResponse>),
    LockInfos(LockInfosResponse),
    StakedBalanceAtHeight(StakedBalanceAtHeightResponse),
    TotalStakedAtHeight(TotalStakedAtHeightResponse),
    UnbondFee(Decimal),
    UnbondOptions(Vec<UnbondOptionResponse>),
}

} // verus!
