//! A thin snapshot proxy: it holds one staking pool's identity and
//! forwards point-in-time balance and total queries to the staking
//! contract, so that voting-power consumers can read one fixed pool.

use vstd::prelude::*;
use crate::errors::StakingError;
use crate::msg::{StakedBalanceAtHeightResponse, TotalStakedAtHeightResponse};
use crate::state::StakingState;

verus! {

/// The proxy's configuration: its owner, the pool it watches, and the
/// staking contract it forwards to.
#[derive(Clone, Debug, PartialEq, Eq)]
pub struct Config {
    pub owner: String,
    pub asset_key: String,
    pub staking_contract: String,
}

/// The identities the proxy is created with; a missing owner defaults to
/// the instantiating sender.
#[derive(Clone, Debug, PartialEq, Eq)]
pub struct InstantiateMsg {
    pub owner: Option<String>,
    pub asset_key: String,
    pub staking_contract: String,
}

/// The proxy's executable requests.
#[derive(Clone, Debug, PartialEq, Eq)]
pub enum ExecuteMsg {
    UpdateConfig {
        owner: Option<String>,
        asset_key: Option<String>,
        staking_contract: Option<String>,
    },
}

/// Migrations take no arguments.
#[derive(Clone, Copy, Debug, PartialEq, Eq, Structural)]
pub struct MigrateMsg {}

/// The proxy's read-only requests.
#[derive(Clone, Debug, PartialEq, Eq)]
pub enum QueryMsg {
    GetConfig {},
    Config {},
    StakedBalanceAtHeight { address: String, height: Option<u64> },
    TotalStakedAtHeight { height: Option<u64> },
}

/// The watched pool's token and its unstaking delay in seconds, if one
/// is registered.
#[derive(Clone, Debug, PartialEq, Eq)]
pub struct ConfigTokenStakingResponse {
    pub token_address: String,
    pub unstaking_duration: Option<u64>,
}

/// Create the proxy configuration: the sender becomes owner unless the
/// message names one.
pub fn instantiate(sender: String, msg: InstantiateMsg) -> (r: Config)
    ensures
        r.owner@ == match msg.owner {
            Some(o) => o@,
            None => sender@,
        },
        r.asset_key == msg.asset_key,
        r.staking_contract == msg.staking_contract,
{
    let owner = match msg.owner {
        Some(o) => o,
        None => sender,
    };
    Config { owner, asset_key: msg.asset_key, staking_contract: msg.staking_contract }
}

/// Change the proxy's configuration; only the current owner may, and a
/// missing field keeps its value.
pub fn update_config(config: &mut Config, sender: String, owner: Option<String>, asset_key:
    Option<String>, staking_contract: Option<String>) -> (r: Result<(), StakingError>)
    ensures
        sender@ != old(config).owner@ ==> r == Err::<(), StakingError>(
            StakingError::Unauthorized,
        ) && *final(config) == *old(config),
        sender@ == old(config).owner@ ==> r is Ok && final(config).owner@ == (match owner {
            Some(o) => o@,
            None => old(config).owner@,
        }) && final(config).asset_key@ == (match asset_key {
            Some(a) => a@,
            None => old(config).asset_key@,
        }) && final(config).staking_contract@ == (match staking_contract {
            Some(c) => c@,
            None => old(config).staking_contract@,
        }),
{
    if !(sender == config.owner) {
        return Err(StakingError::Unauthorized);
    }
    if let Some(o) = owner {
        config.owner = o;
    }
    if let Some(a) = asset_key {
        config.asset_key = a;
    }
    if let Some(c) = staking_contract {
        config.staking_contract = c;
    }
    Ok(())
}

/// Dispatch one executable request.
pub fn execute(config: &mut Config, sender: String, msg: ExecuteMsg) -> (r: Result<
    (),
    StakingError,
>)
    ensures
        r is Err ==> *final(config) == *old(config),
{
    match msg {
        ExecuteMsg::UpdateConfig { owner, asset_key, staking_contract } => update_config(
            config,
            sender,
            owner,
            asset_key,
            staking_contract,
        ),
    }
}

/// Forward a balance-at-height query for the watched pool to the staking
/// contract.
pub fn query_staked_balance_at_height(config: &Config, staking: &StakingState, env_height: u64,
    address: String, height: Option<u64>) -> (r: StakedBalanceAtHeightResponse)
    requires
        staking.wf(),
    ensures
        r.height == match height {
            Some(h) => h,
            None => env_height,
        },
        r.balance as int == {
            let hist = if crate::assoc::has_key(
                staking.balances@,
                (config.asset_key@, address@),
            ) {
                crate::assoc::lookup(staking.balances@, (config.asset_key@, address@))@
            } else {
                Seq::empty()
            };
            match crate::snapshot::spec_value_at(hist, r.height) {
                Some(v) => v as int,
                None => 0,
            }
        },
{
    crate::contract::query_staked_balance_at_height(
        staking,
        env_height,
        config.asset_key.clone(),
        address,
        height,
    )
}

/// Forward a total-at-height query for the watched pool to the staking
/// contract.
pub fn query_total_staked_at_height(config: &Config, staking: &StakingState, env_height: u64,
    height: Option<u64>) -> (r: TotalStakedAtHeightResponse)
    requires
        staking.wf(),
    ensures
        r.height == match height {
            Some(h) => h,
            None => env_height,
        },
        r.total as int == {
            let hist = if crate::assoc::has_key(staking.totals@, config.asset_key@) {
                crate::assoc::lookup(staking.totals@, config.asset_key@)@
            } else {
                Seq::empty()
            };
            match crate::snapshot::spec_value_at(hist, r.height) {
                Some(v) => v as int,
                None => 0,
            }
        },
{
    crate::contract::query_total_staked_at_height(
        staking,
        env_height,
        config.asset_key.clone(),
        height,
    )
}

/// The watched pool's token and unstaking delay, read from the staking
/// contract's pool registry.
pub fn query_config_token_staking(config: &Config, staking: &StakingState) -> (r: Result<
    ConfigTokenStakingResponse,
    StakingError,
>)
    requires
        staking.wf(),
    ensures
        !crate::assoc::has_key(staking.pools@, config.asset_key@) ==> r == Err::<
            ConfigTokenStakingResponse,
            StakingError,
        >(StakingError::NotFound),
        crate::assoc::has_key(staking.pools@, config.asset_key@) ==> (r matches Ok(resp)
            && resp.token_address@ == config.asset_key@ && resp.unstaking_duration == (
        if crate::assoc::has_key(staking.unbonding_periods@, config.asset_key@) {
            Some(crate::assoc::lookup(staking.unbonding_periods@, config.asset_key@))
        } else {
            None::<u64>
        })),
{
    let pool_info = match crate::contract::query_pool_info(staking, config.asset_key.clone()) {
        Ok(p) => p,
        Err(e) => {
            return Err(e);
        },
    };
    Ok(
        ConfigTokenStakingResponse {
            token_address: config.asset_key.clone(),
            unstaking_duration: pool_info.unbonding_period,
        },
    )
}

/// Migrations change nothing.
pub fn migrate(config: &mut Config, _msg: MigrateMsg) -> (r: Result<(), StakingError>)
    ensures
        *final(config) == *old(config),
        r is Ok,
{
    Ok(())
}

} // verus!
