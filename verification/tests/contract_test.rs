use cw20_staking::contract::{execute, instantiate, query, query_unbond_options};
use cw20_staking::decimal::Decimal;
use cw20_staking::msg::{
    Cw20HookMsg, Cw20ReceiveMsg, ExecuteMsg, InstantiateMsg, PoolInfoResponse, QueryAnswer,
    QueryMsg, UnbondOptionResponse,
};
use cw20_staking::state::{Asset, AssetInfo, StakingState};

// a fixed host environment: one block height and time for every call
const MOCK_HEIGHT: u64 = 12_345;
const MOCK_TIME: u64 = 1_571_797_419;

fn mock_instantiate(sender: &str) -> StakingState {
    instantiate(
        sender.to_string(),
        InstantiateMsg {
            owner: Some("owner".to_string()),
            rewarder: "reward".to_string(),
            withdraw_fee_receiver: "withdraw_fee_receiver".to_string(),
        },
    )
}

#[test]
fn proper_initialization() {
    let deps = mock_instantiate("addr");

    let res = query(&deps, MOCK_HEIGHT, QueryMsg::Config {}).unwrap();
    match res {
        QueryAnswer::Config(config) => {
            assert_eq!(config.owner, "owner".to_string());
            assert_eq!(config.rewarder, "reward".to_string());
            assert_eq!(config.withdraw_fee_receiver, "withdraw_fee_receiver".to_string());
        }
        _ => panic!("wrong answer kind"),
    }
}

#[test]
fn update_config() {
    let mut deps = mock_instantiate("addr");

    // update owner
    let msg = ExecuteMsg::UpdateConfig {
        owner: Some("owner2".to_string()),
        rewarder: None,
        withdraw_fee_receiver: None,
    };
    let res = execute(&mut deps, MOCK_HEIGHT, MOCK_TIME, "owner".to_string(), msg).unwrap();
    assert_eq!(0, res.messages.len());

    let res = query(&deps, MOCK_HEIGHT, QueryMsg::Config {}).unwrap();
    match res {
        QueryAnswer::Config(config) => {
            assert_eq!(config.owner, "owner2".to_string());
            assert_eq!(config.rewarder, "reward".to_string());
            assert_eq!(config.withdraw_fee_receiver, "withdraw_fee_receiver".to_string());
        }
        _ => panic!("wrong answer kind"),
    }

    // unauthorized err
    let msg = ExecuteMsg::UpdateConfig { rewarder: None, owner: None, withdraw_fee_receiver: None };
    let res = execute(&mut deps, MOCK_HEIGHT, MOCK_TIME, "owner".to_string(), msg);
    match res {
        Err(e) => assert_eq!(e.message(), "unauthorized"),
        _ => panic!("Must return unauthorized error"),
    }
}

#[test]
fn test_register() {
    let mut deps = mock_instantiate("addr");

    let msg = ExecuteMsg::RegisterAsset {
        staking_token: "staking".to_string(),
        unbonding_period: None,
    };

    // failed with unauthorized error
    let res = execute(&mut deps, MOCK_HEIGHT, MOCK_TIME, "addr".to_string(), msg.clone());
    match res {
        Err(e) => assert_eq!(e.message(), "unauthorized"),
        _ => panic!("DO NOT ENTER HERE"),
    }

    let res = execute(&mut deps, MOCK_HEIGHT, MOCK_TIME, "owner".to_string(), msg).unwrap();
    assert_eq!(res.events.len(), 1);
    match &res.events[0] {
        cw20_staking::msg::Event::RegisterAsset { staking_token, unbonding_period } => {
            assert_eq!(staking_token, "staking");
            assert_eq!(*unbonding_period, 0u64);
        }
        _ => panic!("wrong event"),
    }

    let res = query(
        &deps,
        MOCK_HEIGHT,
        QueryMsg::PoolInfo { staking_token: "staking".to_string() },
    )
    .unwrap();
    match res {
        QueryAnswer::PoolInfo(pool_info) => {
            assert_eq!(
                pool_info,
                PoolInfoResponse {
                    staking_token: "staking".to_string(),
                    total_bond_amount: 0u128,
                    reward_index: Decimal::zero(),
                    pending_reward: 0u128,
                    unbonding_period: None,
                }
            );
        }
        _ => panic!("wrong answer kind"),
    }
}

#[test]
fn test_query_staker_pagination() {
    let mut deps = mock_instantiate("addr");

    // set rewards per second for asset
    let msg = ExecuteMsg::UpdateRewardsPerSec {
        staking_token: "staking".to_string(),
        assets: vec![Asset {
            info: AssetInfo::NativeToken { denom: "orai".to_string() },
            amount: 100u128,
        }],
    };
    let _res = execute(&mut deps, MOCK_HEIGHT, MOCK_TIME, "owner".to_string(), msg).unwrap();

    let msg = ExecuteMsg::RegisterAsset {
        staking_token: "staking".to_string(),
        unbonding_period: None,
    };
    let _res = execute(&mut deps, MOCK_HEIGHT, MOCK_TIME, "owner".to_string(), msg).unwrap();

    // bond 100 tokens for 100 stakers
    for i in 0..100 {
        let msg = ExecuteMsg::Receive(Cw20ReceiveMsg {
            sender: format!("addr{}", i),
            amount: 100u128,
            msg: Some(Cw20HookMsg::Bond {}),
        });
        let _res = execute(&mut deps, MOCK_HEIGHT, MOCK_TIME, "staking".to_string(), msg).unwrap();
    }

    // query stakers by order
    let mut start_after: Option<String> = None;
    for _ in 0..100 / 10 {
        let res = query(
            &deps,
            MOCK_HEIGHT,
            QueryMsg::RewardInfos {
                staking_token: "staking".to_string(),
                limit: Some(10),
                order: Some(1),
                start_after: start_after.clone(),
            },
        )
        .unwrap();
        let infos = match res {
            QueryAnswer::RewardInfos(infos) => infos,
            _ => panic!("wrong answer kind"),
        };
        let stakers: Vec<String> = infos.into_iter().map(|r| r.staker_addr).collect();
        start_after = stakers.clone().into_iter().last();
        println!("{:?}", stakers);
    }
}

#[test]
fn test_register_unbond_options() {
    let mut deps = mock_instantiate("addr");

    // register unbond option failed, unauthorized
    let msg = ExecuteMsg::UpdateUnbondOption {
        staking_token: "staking_token".to_string(),
        period: 86400,
        fee: Decimal::checked_from_ratio(1u128, 10u128).unwrap(),
    };
    let res = execute(&mut deps, MOCK_HEIGHT, MOCK_TIME, "addr".to_string(), msg);
    match res {
        Err(e) => assert_eq!(e.message(), "unauthorized"),
        _ => panic!("Must return unauthorized error"),
    }

    // register failed, fee > 1
    let msg = ExecuteMsg::UpdateUnbondOption {
        staking_token: "staking_token".to_string(),
        period: 86400,
        fee: Decimal::checked_from_ratio(11u128, 10u128).unwrap(),
    };
    let res = execute(&mut deps, MOCK_HEIGHT, MOCK_TIME, "owner".to_string(), msg);
    match res {
        Err(e) => assert_eq!(e.message(), "Unbond fee must be less than or equal 1"),
        _ => panic!("Must return invalid fee"),
    }

    // register successful
    let msg = ExecuteMsg::UpdateUnbondOption {
        staking_token: "staking_token".to_string(),
        period: 86400,
        fee: Decimal::checked_from_ratio(1u128, 10u128).unwrap(),
    };
    execute(&mut deps, MOCK_HEIGHT, MOCK_TIME, "owner".to_string(), msg).unwrap();

    // query unbond fee
    let fee = match query(
        &deps,
        MOCK_HEIGHT,
        QueryMsg::UnbondFee { staking_token: "staking_token".to_string(), period: 86400 },
    )
    .unwrap()
    {
        QueryAnswer::UnbondFee(f) => f,
        _ => panic!("wrong answer kind"),
    };
    assert_eq!(fee, Decimal::checked_from_ratio(1u128, 10u128).unwrap());

    // add other option
    let msg = ExecuteMsg::UpdateUnbondOption {
        staking_token: "staking_token".to_string(),
        period: 50000,
        fee: Decimal::checked_from_ratio(2u128, 10u128).unwrap(),
    };
    execute(&mut deps, MOCK_HEIGHT, MOCK_TIME, "owner".to_string(), msg).unwrap();

    // query all options
    let unbond_options = query_unbond_options(&deps, "staking_token".to_string());
    assert_eq!(
        unbond_options,
        vec![
            UnbondOptionResponse {
                period: 50000,
                fee: Decimal::checked_from_ratio(2u128, 10u128).unwrap(),
            },
            UnbondOptionResponse {
                period: 86400,
                fee: Decimal::checked_from_ratio(1u128, 10u128).unwrap(),
            }
        ]
    );

    // remove unbond option failed, unauthorized
    let msg = ExecuteMsg::RemoveUnbondOption {
        staking_token: "staking_token".to_string(),
        period: 50000,
    };
    let res = execute(&mut deps, MOCK_HEIGHT, MOCK_TIME, "addr".to_string(), msg.clone());
    match res {
        Err(e) => assert_eq!(e.message(), "unauthorized"),
        _ => panic!("Must return unauthorized error"),
    }
    // remove success
    execute(&mut deps, MOCK_HEIGHT, MOCK_TIME, "owner".to_string(), msg).unwrap();

    let unbond_options = query_unbond_options(&deps, "staking_token".to_string());
    assert_eq!(
        unbond_options,
        vec![UnbondOptionResponse {
            period: 86400,
            fee: Decimal::checked_from_ratio(1u128, 10u128).unwrap(),
        }]
    );
}
