use cw20_staking::contract::{execute, instantiate, query, query_get_pools_infomation};
use cw20_staking::decimal::Decimal;
use cw20_staking::locks::MAX_LIMIT;
use cw20_staking::msg::{
    Cw20HookMsg, Cw20ReceiveMsg, Event, ExecuteMsg, InstantiateMsg, PoolInfoResponse, QueryAnswer,
    QueryMsg, RewardInfoResponse, RewardInfoResponseItem, RewardMsg, TransferMsg,
};
use cw20_staking::state::{Asset, AssetInfo, PoolInfo, StakingState};

// a fixed host environment: one block height and time for every call
const MOCK_HEIGHT: u64 = 12_345;
const MOCK_TIME: u64 = 1_571_797_419;

const ORAI_DENOM: &str = "orai";
const ATOM_DENOM: &str = "ibc/atom";

fn native(denom: &str, amount: u128) -> Asset {
    Asset { info: AssetInfo::NativeToken { denom: denom.to_string() }, amount }
}

fn bank_send(to: &str, amount: u128, denom: &str) -> TransferMsg {
    TransferMsg {
        recipient: to.to_string(),
        asset: AssetInfo::NativeToken { denom: denom.to_string() },
        amount,
    }
}

fn token_transfer(contract: &str, recipient: &str, amount: u128) -> TransferMsg {
    TransferMsg {
        recipient: recipient.to_string(),
        asset: AssetInfo::Token { contract_addr: contract.to_string() },
        amount,
    }
}

fn query_pool(deps: &StakingState, token: &str) -> PoolInfoResponse {
    match query(deps, MOCK_HEIGHT, QueryMsg::PoolInfo { staking_token: token.to_string() })
        .unwrap()
    {
        QueryAnswer::PoolInfo(p) => p,
        _ => panic!("wrong answer kind"),
    }
}

fn query_locks(
    deps: &StakingState,
    staker: &str,
    token: &str,
    limit: Option<u32>,
) -> cw20_staking::msg::LockInfosResponse {
    match query(
        deps,
        MOCK_HEIGHT,
        QueryMsg::LockInfos {
            staker_addr: staker.to_string(),
            staking_token: token.to_string(),
            start_after: None,
            limit,
            order: None,
        },
    )
    .unwrap()
    {
        QueryAnswer::LockInfos(l) => l,
        _ => panic!("wrong answer kind"),
    }
}

fn _setup_staking(unbonding_period: Option<u64>) -> StakingState {
    let mut deps = instantiate(
        "addr".to_string(),
        InstantiateMsg {
            owner: Some("owner".to_string()),
            rewarder: "rewarder".to_string(),
            withdraw_fee_receiver: "withdraw_fee_receiver".to_string(),
        },
    );

    // will also add to the index the pending rewards from before the migration
    let msg = ExecuteMsg::UpdateRewardsPerSec {
        staking_token: "staking".to_string(),
        assets: vec![native(ORAI_DENOM, 100u128), native(ATOM_DENOM, 200u128)],
    };
    let _res = execute(&mut deps, MOCK_HEIGHT, MOCK_TIME, "owner".to_string(), msg).unwrap();

    // register asset
    let msg = ExecuteMsg::RegisterAsset { staking_token: "staking".to_string(), unbonding_period };
    let res = execute(&mut deps, MOCK_HEIGHT, MOCK_TIME, "owner".to_string(), msg).unwrap();
    assert_eq!(
        res.events,
        vec![Event::RegisterAsset {
            staking_token: "staking".to_string(),
            unbonding_period: unbonding_period.unwrap_or(0),
        }]
    );

    // bond 100 tokens
    let msg = ExecuteMsg::Receive(Cw20ReceiveMsg {
        sender: "addr".to_string(),
        amount: 100u128,
        msg: Some(Cw20HookMsg::Bond {}),
    });
    let _res = execute(&mut deps, MOCK_HEIGHT, MOCK_TIME, "staking".to_string(), msg).unwrap();

    let msg = ExecuteMsg::DepositReward {
        rewards: vec![RewardMsg {
            staking_token: "staking".to_string(),
            total_accumulation_amount: 300u128,
        }],
    };
    let _res = execute(&mut deps, MOCK_HEIGHT, MOCK_TIME, "rewarder".to_string(), msg).unwrap();

    // will also add to the index the pending rewards from before the migration
    let msg = ExecuteMsg::UpdateRewardsPerSec {
        staking_token: "staking".to_string(),
        assets: vec![native(ORAI_DENOM, 100u128), native(ATOM_DENOM, 100u128)],
    };
    let _res = execute(&mut deps, MOCK_HEIGHT, MOCK_TIME, "owner".to_string(), msg).unwrap();
    deps
}

#[test]
fn test_query_all_pool_keys() {
    let mut deps = instantiate(
        "addr".to_string(),
        InstantiateMsg {
            owner: Some("owner".to_string()),
            rewarder: "rewarder".to_string(),
            withdraw_fee_receiver: "withdraw_fee_receiver".to_string(),
        },
    );

    // populate fake data, can change to 100 if want
    for n in 0..10u64 {
        let amount = n as u128;
        let key = if n < 5 { "staking1" } else { "staking2" };
        let pool_info = PoolInfo {
            staking_token: key.to_string(),
            pending_reward: amount,
            total_bond_amount: amount,
            reward_index: Decimal::zero(),
        };
        // store the pool under its key, overwriting an earlier entry
        match deps.pools.iter().position(|(k, _)| k == key) {
            Some(i) => deps.pools[i].1 = pool_info,
            None => deps.pools.push((key.to_string(), pool_info)),
        }
    }

    let all_pool_keys = query_get_pools_infomation(&deps);
    assert_eq!(all_pool_keys.len(), 2);
}

#[test]
fn test_bond_tokens() {
    let mut deps = instantiate(
        "addr".to_string(),
        InstantiateMsg {
            owner: Some("owner".to_string()),
            rewarder: "rewarder".to_string(),
            withdraw_fee_receiver: "withdraw_fee_receiver".to_string(),
        },
    );

    let msg = ExecuteMsg::RegisterAsset {
        staking_token: "staking".to_string(),
        unbonding_period: None,
    };
    let _res = execute(&mut deps, MOCK_HEIGHT, MOCK_TIME, "owner".to_string(), msg).unwrap();

    let msg = ExecuteMsg::Receive(Cw20ReceiveMsg {
        sender: "addr".to_string(),
        amount: 100u128,
        msg: Some(Cw20HookMsg::Bond {}),
    });
    let _res = execute(&mut deps, MOCK_HEIGHT, MOCK_TIME, "staking".to_string(), msg).unwrap();

    let res = match query(
        &deps,
        MOCK_HEIGHT,
        QueryMsg::RewardInfo {
            staking_token: Some("staking".to_string()),
            staker_addr: "addr".to_string(),
        },
    )
    .unwrap()
    {
        QueryAnswer::RewardInfo(r) => r,
        _ => panic!("wrong answer kind"),
    };
    assert_eq!(
        res,
        RewardInfoResponse {
            staker_addr: "addr".to_string(),
            reward_infos: vec![RewardInfoResponseItem {
                staking_token: "staking".to_string(),
                pending_reward: 0u128,
                pending_withdraw: vec![],
                bond_amount: 100u128,
            }],
        }
    );

    let pool_info = query_pool(&deps, "staking");
    assert_eq!(
        pool_info,
        PoolInfoResponse {
            staking_token: "staking".to_string(),
            total_bond_amount: 100u128,
            reward_index: Decimal::zero(),
            pending_reward: 0u128,
            unbonding_period: None,
        }
    );

    // bond 100 more tokens from other account
    let msg = ExecuteMsg::Receive(Cw20ReceiveMsg {
        sender: "addr2".to_string(),
        amount: 100u128,
        msg: Some(Cw20HookMsg::Bond {}),
    });
    let _res = execute(&mut deps, MOCK_HEIGHT, MOCK_TIME, "staking".to_string(), msg).unwrap();

    let pool_info = query_pool(&deps, "staking");
    assert_eq!(
        pool_info,
        PoolInfoResponse {
            staking_token: "staking".to_string(),
            total_bond_amount: 200u128,
            reward_index: Decimal::zero(),
            pending_reward: 0u128,
            unbonding_period: None,
        }
    );
}

#[test]
fn test_unbond() {
    let mut deps = _setup_staking(None);

    // unbond 150 tokens; failed
    let msg = ExecuteMsg::Unbond {
        staking_token: "staking".to_string(),
        amount: 150u128,
        unbond_period: None,
    };
    let res = execute(&mut deps, MOCK_HEIGHT, MOCK_TIME, "addr".to_string(), msg).unwrap_err();
    assert_eq!(res.message(), "Cannot unbond more than bond amount");

    // normal unbond
    let msg = ExecuteMsg::Unbond {
        staking_token: "staking".to_string(),
        amount: 100u128,
        unbond_period: None,
    };
    let res = execute(&mut deps, MOCK_HEIGHT, MOCK_TIME, "addr".to_string(), msg).unwrap();
    assert_eq!(
        res.messages,
        vec![
            bank_send("addr", 99u128, ORAI_DENOM),
            bank_send("addr", 199u128, ATOM_DENOM),
            token_transfer("staking", "addr", 100u128),
        ]
    );

    let pool_info = query_pool(&deps, "staking");
    assert_eq!(
        pool_info,
        PoolInfoResponse {
            staking_token: "staking".to_string(),
            total_bond_amount: 0u128,
            reward_index: Decimal::checked_from_ratio(300u128, 100u128).unwrap(),
            pending_reward: 0u128,
            unbonding_period: None,
        }
    );

    let res = match query(
        &deps,
        MOCK_HEIGHT,
        QueryMsg::RewardInfo { staking_token: None, staker_addr: "addr".to_string() },
    )
    .unwrap()
    {
        QueryAnswer::RewardInfo(r) => r,
        _ => panic!("wrong answer kind"),
    };
    assert_eq!(
        res,
        RewardInfoResponse {
            staker_addr: "addr".to_string(),
            reward_infos: vec![RewardInfoResponseItem {
                staking_token: "staking".to_string(),
                bond_amount: 0u128,
                pending_reward: 0u128,
                pending_withdraw: vec![],
            }],
        }
    );
}

#[test]
fn test_unbonding_period_happy_case() {
    let unbonding_period = 100;
    let mut deps = _setup_staking(Some(unbonding_period));

    let msg = ExecuteMsg::Unbond {
        staking_token: "staking".to_string(),
        amount: 50u128,
        unbond_period: None,
    };
    let res = execute(&mut deps, MOCK_HEIGHT, MOCK_TIME, "addr".to_string(), msg).unwrap();
    assert_eq!(
        res.events,
        vec![Event::Unbonding {
            staker_addr: "addr".to_string(),
            amount: 50u128,
            staking_token: "staking".to_string(),
            unlock_time: MOCK_TIME + unbonding_period,
        }]
    );

    let lock_ids = query_locks(&deps, "addr", "staking", None);
    assert_eq!(lock_ids.lock_infos.len(), 1);
    assert_eq!(lock_ids.lock_infos[0].amount, 50u128);
    assert_eq!(lock_ids.lock_infos[0].unlock_time, MOCK_TIME + unbonding_period);
    assert_eq!(lock_ids.staking_token, "staking".to_string());
    assert_eq!(lock_ids.staker_addr, "addr".to_string());

    // increase block.time
    let time2 = MOCK_TIME + unbonding_period + 1;
    // Unbond and withdraw_lock
    let msg = ExecuteMsg::Unbond {
        staking_token: "staking".to_string(),
        amount: 50u128,
        unbond_period: None,
    };
    let res = execute(&mut deps, MOCK_HEIGHT, time2, "addr".to_string(), msg).unwrap();
    let lock_ids = query_locks(&deps, "addr", "staking", None);
    assert_eq!(lock_ids.staking_token, "staking".to_string());
    assert_eq!(lock_ids.staker_addr, "addr".to_string());
    assert_eq!(
        res.events,
        vec![
            Event::Unbond {
                staker_addr: "addr".to_string(),
                amount: 50u128,
                staking_token: "staking".to_string(),
            },
            Event::Unbonding {
                staker_addr: "addr".to_string(),
                amount: 50u128,
                staking_token: "staking".to_string(),
                unlock_time: time2 + unbonding_period,
            },
        ]
    );
    assert_eq!(
        res.messages,
        vec![
            token_transfer("staking", "addr", 50u128),
            bank_send("addr", 99u128, ORAI_DENOM),
            bank_send("addr", 199u128, ATOM_DENOM),
        ]
    );

    let time3 = time2 + unbonding_period + 1;
    let msg = ExecuteMsg::Unbond {
        staking_token: "staking".to_string(),
        amount: 0u128,
        unbond_period: None,
    };
    let res = execute(&mut deps, MOCK_HEIGHT, time3, "addr".to_string(), msg).unwrap();

    let lock_ids = query_locks(&deps, "addr", "staking", None);
    assert_eq!(lock_ids.lock_infos.len(), 0);

    assert_eq!(
        res.events,
        vec![Event::Unbond {
            staker_addr: "addr".to_string(),
            amount: 50u128,
            staking_token: "staking".to_string(),
        }]
    );
    assert_eq!(res.messages, vec![token_transfer("staking", "addr", 50u128)]);
}

#[test]
pub fn test_multiple_lock() {
    let unbonding_period = 10000;
    let mut deps = _setup_staking(Some(unbonding_period));

    for i in 0..MAX_LIMIT {
        let msg = ExecuteMsg::Unbond {
            staking_token: "staking".to_string(),
            amount: 1u128,
            unbond_period: None,
        };
        let time = MOCK_TIME + (i as u64) * unbonding_period / 50;
        let _res = execute(&mut deps, MOCK_HEIGHT, time, "addr".to_string(), msg).unwrap();
    }
    let lock_infos = query_locks(&deps, "addr", "staking", Some(30));
    assert_eq!(lock_infos.lock_infos.len(), MAX_LIMIT as usize);

    // Since we anchor the timestamp by the mock time, we must add the
    // unbonding period to the block time to get the first unlock
    // timestamp; another unbonding period covers the rest of the locks.
    let time = MOCK_TIME + unbonding_period + unbonding_period;

    let msg = ExecuteMsg::Unbond {
        staking_token: "staking".to_string(),
        amount: 0u128,
        unbond_period: None,
    };
    let res = execute(&mut deps, MOCK_HEIGHT, time, "addr".to_string(), msg).unwrap();

    assert_eq!(
        res.events,
        vec![Event::Unbond {
            staker_addr: "addr".to_string(),
            amount: MAX_LIMIT as u128,
            staking_token: "staking".to_string(),
        }]
    );
    assert_eq!(res.messages, vec![token_transfer("staking", "addr", MAX_LIMIT as u128)]);

    // assert after we withdraw all locks
    let lock_infos = query_locks(&deps, "addr", "staking", None);
    assert_eq!(lock_infos.lock_infos.len(), 0);
}

#[test]
fn test_balance_and_bonded_snapshot() {
    let mut deps = _setup_staking(None);

    // staker balance
    let res = match query(
        &deps,
        MOCK_HEIGHT,
        QueryMsg::StakedBalanceAtHeight {
            asset_key: "staking".to_string(),
            address: "sender".to_string(),
            height: None,
        },
    )
    .unwrap()
    {
        QueryAnswer::StakedBalanceAtHeight(b) => b,
        _ => panic!("wrong answer kind"),
    };
    assert_eq!(res.balance, 0u128);
    assert_eq!(res.height, MOCK_HEIGHT);

    // total snapshot
    let res = match query(
        &deps,
        MOCK_HEIGHT,
        QueryMsg::TotalStakedAtHeight {
            asset_key: "staking".to_string(),
            height: Some(MOCK_HEIGHT + 1),
        },
    )
    .unwrap()
    {
        QueryAnswer::TotalStakedAtHeight(t) => t,
        _ => panic!("wrong answer kind"),
    };
    assert_eq!(res.total, 100u128);
    assert_eq!(res.height, MOCK_HEIGHT + 1);

    // bond 100 tokens, 100 blocks later
    let msg = ExecuteMsg::Receive(Cw20ReceiveMsg {
        sender: "sender".to_string(),
        amount: 100u128,
        msg: Some(Cw20HookMsg::Bond {}),
    });
    let _res =
        execute(&mut deps, MOCK_HEIGHT + 100, MOCK_TIME, "staking".to_string(), msg).unwrap();

    let res = match query(
        &deps,
        MOCK_HEIGHT,
        QueryMsg::StakedBalanceAtHeight {
            asset_key: "staking".to_string(),
            address: "sender".to_string(),
            height: Some(MOCK_HEIGHT + 101),
        },
    )
    .unwrap()
    {
        QueryAnswer::StakedBalanceAtHeight(b) => b,
        _ => panic!("wrong answer kind"),
    };
    assert_eq!(res.balance, 100u128);
    // because the block height snapshot is after the execute block
    assert_eq!(res.height, MOCK_HEIGHT + 101);

    // total snapshot
    let res = match query(
        &deps,
        MOCK_HEIGHT,
        QueryMsg::TotalStakedAtHeight {
            asset_key: "staking".to_string(),
            height: Some(MOCK_HEIGHT + 101),
        },
    )
    .unwrap()
    {
        QueryAnswer::TotalStakedAtHeight(t) => t,
        _ => panic!("wrong answer kind"),
    };
    // because the setup already bonded 100 tokens
    assert_eq!(res.total, 200u128);
    assert_eq!(res.height, MOCK_HEIGHT + 101);

    let msg = ExecuteMsg::Unbond {
        staking_token: "staking".to_string(),
        amount: 100u128,
        unbond_period: None,
    };
    let _res =
        execute(&mut deps, MOCK_HEIGHT + 200, MOCK_TIME, "sender".to_string(), msg).unwrap();

    let res = match query(
        &deps,
        MOCK_HEIGHT,
        QueryMsg::StakedBalanceAtHeight {
            asset_key: "staking".to_string(),
            address: "sender".to_string(),
            height: Some(MOCK_HEIGHT + 201),
        },
    )
    .unwrap()
    {
        QueryAnswer::StakedBalanceAtHeight(b) => b,
        _ => panic!("wrong answer kind"),
    };
    assert_eq!(res.balance, 0u128);
    assert_eq!(res.height, MOCK_HEIGHT + 201);

    // total snapshot
    let res = match query(
        &deps,
        MOCK_HEIGHT,
        QueryMsg::TotalStakedAtHeight {
            asset_key: "staking".to_string(),
            height: Some(MOCK_HEIGHT + 201),
        },
    )
    .unwrap()
    {
        QueryAnswer::TotalStakedAtHeight(t) => t,
        _ => panic!("wrong answer kind"),
    };
    assert_eq!(res.total, 100u128);
    assert_eq!(res.height, MOCK_HEIGHT + 201);
}

#[test]
fn test_restake() {
    // Arrange
    let unbonding_period = 10000;
    let mut deps = _setup_staking(Some(unbonding_period));

    for i in 0..MAX_LIMIT {
        let msg = ExecuteMsg::Unbond {
            staking_token: "staking".to_string(),
            amount: 1u128,
            unbond_period: None,
        };
        let time = MOCK_TIME + (i as u64) * unbonding_period / 50;
        let _res = execute(&mut deps, MOCK_HEIGHT, time, "addr".to_string(), msg).unwrap();
    }
    let lock_infos = query_locks(&deps, "addr", "staking", Some(30));
    assert_eq!(lock_infos.lock_infos.len(), MAX_LIMIT as usize);
    let pool_info = query_pool(&deps, "staking");
    assert_eq!(pool_info.total_bond_amount, 100u128 - MAX_LIMIT as u128);

    // Act
    let msg = ExecuteMsg::Restake { staking_token: "staking".to_string() };
    let _res = execute(&mut deps, MOCK_HEIGHT, MOCK_TIME, "addr".to_string(), msg).unwrap();

    // Assert
    let pool_info = query_pool(&deps, "staking");
    assert_eq!(pool_info.total_bond_amount, 100u128);
}
