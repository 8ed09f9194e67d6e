use cw20_staking::contract::{execute, instantiate, receive_cw20};
use cw20_staking::msg::{Cw20HookMsg, Cw20ReceiveMsg, ExecuteMsg, InstantiateMsg};
use cw20_staking::proxy;

const START_HEIGHT: u64 = 12_345;
const START_TIME: u64 = 1_571_797_419;

#[test]
fn test_query_snapshot_balance() {
    // Arrange: the staking contract and the mock token it stakes
    let owner = "owner".to_string();
    let cw20 = "cw20_token".to_string();

    let mut staking = instantiate(
        owner.clone(),
        InstantiateMsg {
            owner: Some(owner.clone()),
            rewarder: owner.clone(),
            withdraw_fee_receiver: owner.clone(),
        },
    );
    let snapshot = proxy::instantiate(
        owner.clone(),
        proxy::InstantiateMsg {
            owner: Some(owner.clone()),
            asset_key: cw20.clone(),
            staking_contract: "staking_contract".to_string(),
        },
    );

    // setup the staking contract
    execute(
        &mut staking,
        START_HEIGHT,
        START_TIME,
        owner.clone(),
        ExecuteMsg::RegisterAsset { staking_token: cw20.clone(), unbonding_period: Some(100) },
    )
    .unwrap();

    execute(
        &mut staking,
        START_HEIGHT,
        START_TIME,
        owner.clone(),
        ExecuteMsg::UpdateRewardsPerSec {
            staking_token: cw20.clone(),
            assets: vec![cw20_staking::state::Asset {
                info: cw20_staking::state::AssetInfo::Token { contract_addr: cw20.clone() },
                amount: 100u128,
            }],
        },
    )
    .unwrap();

    // Action: staked, then unstaked half
    receive_cw20(
        &mut staking,
        START_HEIGHT,
        cw20.clone(),
        Cw20ReceiveMsg { sender: owner.clone(), amount: 100u128, msg: Some(Cw20HookMsg::Bond {}) },
    )
    .unwrap();
    execute(
        &mut staking,
        START_HEIGHT,
        START_TIME,
        owner.clone(),
        ExecuteMsg::Unbond { staking_token: cw20.clone(), amount: 50u128, unbond_period: None },
    )
    .unwrap();

    // increase block height to confirmed, and read the snapshot
    let query_height = START_HEIGHT + 1;
    let total = proxy::query_total_staked_at_height(&snapshot, &staking, query_height, None);
    let staked_balance = proxy::query_staked_balance_at_height(
        &snapshot,
        &staking,
        query_height,
        owner.clone(),
        None,
    );

    // Assert
    let config_token_response = proxy::query_config_token_staking(&snapshot, &staking).unwrap();

    assert_eq!(config_token_response.unstaking_duration, Some(100));
    assert_eq!(config_token_response.token_address, cw20.clone());
    assert_eq!(total.total, 50u128);
    assert_eq!(staked_balance.balance, 50u128);
}
