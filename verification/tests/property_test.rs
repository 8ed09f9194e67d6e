use cw20_staking::contract::{execute, instantiate};
use cw20_staking::decimal::{Decimal, FRACTIONAL};
use cw20_staking::errors::StakingError;
use cw20_staking::locks::MAX_LIMIT;
use cw20_staking::msg::{
    Cw20HookMsg, Cw20ReceiveMsg, Event, ExecuteMsg, InstantiateMsg, TransferMsg,
};
use cw20_staking::state::{AssetInfo, StakingState};

const START_HEIGHT: u64 = 12_345;
const START_TIME: u64 = 1_571_797_419;

fn fresh_pool(default_period: Option<u64>) -> StakingState {
    let mut deps = instantiate(
        "creator".to_string(),
        InstantiateMsg {
            owner: Some("owner".to_string()),
            rewarder: "rewarder".to_string(),
            withdraw_fee_receiver: "fee_receiver".to_string(),
        },
    );
    execute(
        &mut deps,
        START_HEIGHT,
        START_TIME,
        "owner".to_string(),
        ExecuteMsg::RegisterAsset {
            staking_token: "pool".to_string(),
            unbonding_period: default_period,
        },
    )
    .unwrap();
    deps
}

fn bond(deps: &mut StakingState, height: u64, staker: &str, amount: u128) {
    execute(
        deps,
        height,
        START_TIME,
        "pool".to_string(),
        ExecuteMsg::Receive(Cw20ReceiveMsg {
            sender: staker.to_string(),
            amount,
            msg: Some(Cw20HookMsg::Bond {}),
        }),
    )
    .unwrap();
}

// Bonding then immediately unbonding the same amount with zero delay
// pays back exactly that amount and leaves nothing bonded.
#[test]
fn round_trip_pays_back_exactly() {
    let mut deps = fresh_pool(None);
    bond(&mut deps, START_HEIGHT, "s1", 7777);
    let res = execute(
        &mut deps,
        START_HEIGHT,
        START_TIME,
        "s1".to_string(),
        ExecuteMsg::Unbond { staking_token: "pool".to_string(), amount: 7777, unbond_period: None },
    )
    .unwrap();
    assert_eq!(
        res.messages,
        vec![TransferMsg {
            recipient: "s1".to_string(),
            asset: AssetInfo::Token { contract_addr: "pool".to_string() },
            amount: 7777,
        }]
    );
    assert_eq!(deps.rewards[0].1.bond_amount, 0u128);
    assert_eq!(deps.pools[0].1.total_bond_amount, 0u128);
}

// Draining maturities twice in a row with no time advance releases
// nothing the second time.
#[test]
fn drain_matured_is_idempotent() {
    let mut deps = fresh_pool(Some(10));
    bond(&mut deps, START_HEIGHT, "s1", 100);
    // a delayed unbond creates one lock entry
    execute(
        &mut deps,
        START_HEIGHT,
        START_TIME,
        "s1".to_string(),
        ExecuteMsg::Unbond { staking_token: "pool".to_string(), amount: 40, unbond_period: None },
    )
    .unwrap();
    let when_matured = START_TIME + 11;
    let first = execute(
        &mut deps,
        START_HEIGHT,
        when_matured,
        "s1".to_string(),
        ExecuteMsg::Unbond { staking_token: "pool".to_string(), amount: 0, unbond_period: None },
    )
    .unwrap();
    assert_eq!(first.messages.len(), 1);
    assert_eq!(first.messages[0].amount, 40u128);
    let second = execute(
        &mut deps,
        START_HEIGHT,
        when_matured,
        "s1".to_string(),
        ExecuteMsg::Unbond { staking_token: "pool".to_string(), amount: 0, unbond_period: None },
    )
    .unwrap();
    assert_eq!(second.messages.len(), 0);
    assert_eq!(second.events.len(), 0);
}

// A bond at height H is invisible to a query for H and visible at H+1;
// a second bond 100 blocks later behaves the same.
#[test]
fn snapshot_heights_example() {
    let mut deps = fresh_pool(None);
    bond(&mut deps, START_HEIGHT, "s1", 100);
    bond(&mut deps, START_HEIGHT + 100, "s1", 100);

    let at = |deps: &StakingState, h: u64| -> u128 {
        cw20_staking::contract::query_staked_balance_at_height(
            deps,
            START_HEIGHT,
            "pool".to_string(),
            "s1".to_string(),
            Some(h),
        )
        .balance
    };
    assert_eq!(at(&deps, START_HEIGHT), 0u128);
    assert_eq!(at(&deps, START_HEIGHT + 1), 100u128);
    assert_eq!(at(&deps, START_HEIGHT + 100), 100u128);
    assert_eq!(at(&deps, START_HEIGHT + 101), 200u128);
}

// An explicit unbonding period charges the registered fee: 10% of 100
// goes to the fee receiver and a lock entry holds the remaining 90.
#[test]
fn instant_unbond_fee_example() {
    let mut deps = fresh_pool(None);
    execute(
        &mut deps,
        START_HEIGHT,
        START_TIME,
        "owner".to_string(),
        ExecuteMsg::UpdateUnbondOption {
            staking_token: "pool".to_string(),
            period: 86400,
            fee: Decimal::checked_from_ratio(1u128, 10u128).unwrap(),
        },
    )
    .unwrap();
    bond(&mut deps, START_HEIGHT, "s1", 100);
    let res = execute(
        &mut deps,
        START_HEIGHT,
        START_TIME,
        "s1".to_string(),
        ExecuteMsg::Unbond {
            staking_token: "pool".to_string(),
            amount: 100,
            unbond_period: Some(86400),
        },
    )
    .unwrap();
    // the fee goes out at once; the rest waits in the lock queue
    assert_eq!(
        res.messages,
        vec![TransferMsg {
            recipient: "fee_receiver".to_string(),
            asset: AssetInfo::Token { contract_addr: "pool".to_string() },
            amount: 10,
        }]
    );
    assert_eq!(
        res.events,
        vec![Event::Unbonding {
            staker_addr: "s1".to_string(),
            amount: 100,
            staking_token: "pool".to_string(),
            unlock_time: START_TIME + 86400,
        }]
    );
    let locks = cw20_staking::contract::query_lock_infos(
        &deps,
        "s1".to_string(),
        "pool".to_string(),
        None,
        None,
        None,
    )
    .unwrap();
    assert_eq!(locks.lock_infos.len(), 1);
    assert_eq!(locks.lock_infos[0].amount, 90u128);
    assert_eq!(locks.lock_infos[0].unlock_time, START_TIME + 86400);
}

// An explicit period without a registered fee entry is rejected.
#[test]
fn unknown_fee_option_is_rejected() {
    let mut deps = fresh_pool(None);
    bond(&mut deps, START_HEIGHT, "s1", 100);
    let res = execute(
        &mut deps,
        START_HEIGHT,
        START_TIME,
        "s1".to_string(),
        ExecuteMsg::Unbond {
            staking_token: "pool".to_string(),
            amount: 100,
            unbond_period: Some(3600),
        },
    );
    assert_eq!(res.unwrap_err(), StakingError::UnknownFeeOption);
}

// A token registers only once.
#[test]
fn double_registration_is_rejected() {
    let mut deps = fresh_pool(None);
    let res = execute(
        &mut deps,
        START_HEIGHT,
        START_TIME,
        "owner".to_string(),
        ExecuteMsg::RegisterAsset { staking_token: "pool".to_string(), unbonding_period: None },
    );
    assert_eq!(res.unwrap_err(), StakingError::AlreadyRegistered);
}

// Bonding into an unregistered pool is rejected.
#[test]
fn bond_unregistered_pool_is_rejected() {
    let mut deps = fresh_pool(None);
    let res = execute(
        &mut deps,
        START_HEIGHT,
        START_TIME,
        "other_pool".to_string(),
        ExecuteMsg::Receive(Cw20ReceiveMsg {
            sender: "s1".to_string(),
            amount: 5,
            msg: Some(Cw20HookMsg::Bond {}),
        }),
    );
    assert_eq!(res.unwrap_err(), StakingError::NotFound);
}

// A token send whose hook payload is not one this contract accepts is
// rejected.
#[test]
fn invalid_hook_is_rejected() {
    let mut deps = fresh_pool(None);
    let res = execute(
        &mut deps,
        START_HEIGHT,
        START_TIME,
        "pool".to_string(),
        ExecuteMsg::Receive(Cw20ReceiveMsg { sender: "s1".to_string(), amount: 5, msg: None }),
    );
    assert_eq!(res.unwrap_err(), StakingError::InvalidHookMsg);
}

// A position holds at most the cap of lock entries; one more delayed
// unbond is rejected and changes nothing.
#[test]
fn lock_queue_cap_is_enforced() {
    let mut deps = fresh_pool(Some(1_000_000));
    bond(&mut deps, START_HEIGHT, "s1", 1000);
    for _ in 0..MAX_LIMIT {
        execute(
            &mut deps,
            START_HEIGHT,
            START_TIME,
            "s1".to_string(),
            ExecuteMsg::Unbond {
                staking_token: "pool".to_string(),
                amount: 1,
                unbond_period: None,
            },
        )
        .unwrap();
    }
    let res = execute(
        &mut deps,
        START_HEIGHT,
        START_TIME,
        "s1".to_string(),
        ExecuteMsg::Unbond { staking_token: "pool".to_string(), amount: 1, unbond_period: None },
    );
    assert_eq!(res.unwrap_err(), StakingError::TooManyLocks);
    assert_eq!(deps.pools[0].1.total_bond_amount, 1000 - MAX_LIMIT as u128);
    // restake reclaims every entry, matured or not
    execute(
        &mut deps,
        START_HEIGHT,
        START_TIME,
        "s1".to_string(),
        ExecuteMsg::Restake { staking_token: "pool".to_string() },
    )
    .unwrap();
    assert_eq!(deps.pools[0].1.total_bond_amount, 1000u128);
    assert_eq!(deps.locks[0].1.entries.len(), 0);
}

// Bonding past the integer width is rejected, and nothing changes.
#[test]
fn bond_overflow_is_rejected() {
    let mut deps = fresh_pool(None);
    bond(&mut deps, START_HEIGHT, "s1", u128::MAX);
    let res = execute(
        &mut deps,
        START_HEIGHT,
        START_TIME,
        "pool".to_string(),
        ExecuteMsg::Receive(Cw20ReceiveMsg {
            sender: "s2".to_string(),
            amount: 1,
            msg: Some(Cw20HookMsg::Bond {}),
        }),
    );
    assert_eq!(res.unwrap_err(), StakingError::Overflow);
    assert_eq!(deps.pools[0].1.total_bond_amount, u128::MAX);
}

// Releasing maturities alone pays out the matured locks and touches
// nothing else.
#[test]
fn withdraw_lock_releases_matured() {
    let mut deps = fresh_pool(Some(10));
    bond(&mut deps, START_HEIGHT, "s1", 100);
    execute(
        &mut deps,
        START_HEIGHT,
        START_TIME,
        "s1".to_string(),
        ExecuteMsg::Unbond { staking_token: "pool".to_string(), amount: 25, unbond_period: None },
    )
    .unwrap();
    let res = cw20_staking::staking::_withdraw_lock(
        &mut deps,
        START_TIME + 10,
        &"s1".to_string(),
        &"pool".to_string(),
    )
    .unwrap();
    assert_eq!(
        res.messages,
        vec![TransferMsg {
            recipient: "s1".to_string(),
            asset: AssetInfo::Token { contract_addr: "pool".to_string() },
            amount: 25,
        }]
    );
    assert_eq!(deps.locks[0].1.entries.len(), 0);
    assert_eq!(deps.pools[0].1.total_bond_amount, 75u128);
}

// Exact fixed-point arithmetic: the ratio of one third rounds down to
// eighteen digits, and multiplying it back truncates.
#[test]
fn decimal_exact_values() {
    let third = Decimal::checked_from_ratio(100u128, 300u128).unwrap();
    assert_eq!(third.atomics, 333_333_333_333_333_333u128);
    assert_eq!(third.checked_mul_uint_floor(300u128), Some(99u128));
    let two_thirds = Decimal::checked_from_ratio(200u128, 300u128).unwrap();
    assert_eq!(two_thirds.atomics, 666_666_666_666_666_666u128);
    assert_eq!(two_thirds.checked_mul_uint_floor(300u128), Some(199u128));
    let three = Decimal::checked_from_ratio(300u128, 100u128).unwrap();
    assert_eq!(three.atomics, 3 * FRACTIONAL);
    // a huge ratio still computes exactly
    let big = Decimal::checked_from_ratio(u128::MAX, u128::MAX - 1).unwrap();
    assert_eq!(big.atomics, FRACTIONAL);
    assert_eq!(Decimal::checked_from_ratio(u128::MAX, 1u128), None);
}

// Rewards deposited while nothing is bonded park in the pool and enter
// the index with the next deposit after a bond.
#[test]
fn deposit_parks_without_bonders() {
    let mut deps = fresh_pool(None);
    execute(
        &mut deps,
        START_HEIGHT,
        START_TIME,
        "rewarder".to_string(),
        ExecuteMsg::DepositReward {
            rewards: vec![cw20_staking::msg::RewardMsg {
                staking_token: "pool".to_string(),
                total_accumulation_amount: 500,
            }],
        },
    )
    .unwrap();
    assert_eq!(deps.pools[0].1.pending_reward, 500u128);
    assert_eq!(deps.pools[0].1.reward_index, Decimal::zero());
    bond(&mut deps, START_HEIGHT, "s1", 100);
    execute(
        &mut deps,
        START_HEIGHT,
        START_TIME,
        "rewarder".to_string(),
        ExecuteMsg::DepositReward {
            rewards: vec![cw20_staking::msg::RewardMsg {
                staking_token: "pool".to_string(),
                total_accumulation_amount: 100,
            }],
        },
    )
    .unwrap();
    assert_eq!(deps.pools[0].1.pending_reward, 0u128);
    assert_eq!(
        deps.pools[0].1.reward_index,
        Decimal::checked_from_ratio(600u128, 100u128).unwrap()
    );
}
