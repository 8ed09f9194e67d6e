//! The contract surface: instantiation, owner operations, reward
//! deposits, request dispatch, and the read-only query handlers.

use vstd::prelude::*;
use crate::assoc::{has_key, index_of, key_at, lemma_key_at_index_of, lemma_push_entry,
    lemma_update_value, lookup, unique_keys};
use crate::decimal::{Decimal, FRACTIONAL};
use crate::errors::StakingError;
use crate::fees::{fee_of, has_period, FeeTable};
use crate::msg::{ConfigResponse, Event, ExecuteMsg, InstantiateMsg, LockInfoResponse,
    LockInfosResponse, MigrateMsg, PoolInfoResponse, QueryAnswer, QueryMsg, QueryPoolInfoResponse,
    Response, RewardMsg, RewardsPerSecResponse, StakedBalanceAtHeightResponse,
    TotalStakedAtHeightResponse, UnbondOptionResponse, Cw20ReceiveMsg, Cw20HookMsg,
    RewardInfoResponse, RewardInfoResponseItem};
use crate::rewards::{apply_deposit, clone_assets, clone_pools, lemma_deposit_fold_frame,
    spec_deposit_fold};
use crate::snapshot::spec_value_at;
use crate::staking::{bond, restake, unbond};
use crate::state::{sum_pool_bonds, Asset, Config, PoolInfo, StakingState};

verus! {

/// Create the contract state: the sender becomes owner unless the
/// message names one.
pub fn instantiate(sender: String, msg: InstantiateMsg) -> (r: StakingState)
    ensures
        r.wf(),
        r.config.owner@ == match msg.owner {
            Some(o) => o@,
            None => sender@,
        },
        r.config.rewarder == msg.rewarder,
        r.config.withdraw_fee_receiver == msg.withdraw_fee_receiver,
        r.pools@.len() == 0,
        r.rewards@.len() == 0,
        r.locks@.len() == 0,
        r.fees@.len() == 0,
        r.balances@.len() == 0,
        r.totals@.len() == 0,
        r.unbonding_periods@.len() == 0,
        r.stakers@.len() == 0,
        r.rewards_per_sec@.len() == 0,
{
    let owner = match msg.owner {
        Some(o) => o,
        None => sender,
    };
    StakingState::new(
        Config {
            owner,
            rewarder: msg.rewarder,
            withdraw_fee_receiver: msg.withdraw_fee_receiver,
        },
    )
}

/// Change the configured identities; only the current owner may.
pub fn update_config(state: &mut StakingState, sender: String, owner: Option<String>, rewarder:
    Option<String>, withdraw_fee_receiver: Option<String>) -> (r: Result<Response, StakingError>)
    requires
        old(state).wf(),
    ensures
        final(state).wf(),
        sender@ != old(state).config.owner@ ==> r == Err::<Response, StakingError>(
            StakingError::Unauthorized,
        ) && *final(state) == *old(state),
        sender@ == old(state).config.owner@ ==> {
            &&& r is Ok
            &&& final(state).config.owner@ == match owner {
                Some(o) => o@,
                None => old(state).config.owner@,
            }
            &&& final(state).config.rewarder@ == match rewarder {
                Some(o) => o@,
                None => old(state).config.rewarder@,
            }
            &&& final(state).config.withdraw_fee_receiver@ == match withdraw_fee_receiver {
                Some(o) => o@,
                None => old(state).config.withdraw_fee_receiver@,
            }
            &&& final(state).pools == old(state).pools
            &&& final(state).unbonding_periods == old(state).unbonding_periods
            &&& final(state).rewards == old(state).rewards
            &&& final(state).stakers == old(state).stakers
            &&& final(state).balances == old(state).balances
            &&& final(state).totals == old(state).totals
            &&& final(state).locks == old(state).locks
            &&& final(state).fees == old(state).fees
            &&& final(state).rewards_per_sec == old(state).rewards_per_sec
            &&& (r->Ok_0).messages@ =~= Seq::<crate::msg::TransferMsg>::empty()
            &&& (r->Ok_0).events@ =~= seq![Event::UpdateConfig {}]
        },
{
    if !(sender == state.config.owner) {
        return Err(StakingError::Unauthorized);
    }
    if let Some(o) = owner {
        state.config.owner = o;
    }
    if let Some(rw) = rewarder {
        state.config.rewarder = rw;
    }
    if let Some(fr) = withdraw_fee_receiver {
        state.config.withdraw_fee_receiver = fr;
    }
    let mut events: Vec<Event> = Vec::new();
    events.push(Event::UpdateConfig {});
    Ok(Response { messages: Vec::new(), events })
}

/// No record can contribute to a pool that is not registered.
proof fn lemma_sum_no_records(rs: Seq<((String, String), crate::state::RewardInfo)>, pools: Seq<
    (String, PoolInfo),
>, k: Seq<char>)
    requires
        forall|i: int| 0 <= i < rs.len() ==> has_key(pools, (#[trigger] rs[i]).0.1@),
        !has_key(pools, k),
    ensures
        sum_pool_bonds(rs, k) == 0,
    decreases rs.len(),
{
    if rs.len() > 0 {
        assert(forall|i: int|
            0 <= i < rs.drop_last().len() ==> has_key(
                pools,
                (#[trigger] rs.drop_last()[i]).0.1@,
            ));
        lemma_sum_no_records(rs.drop_last(), pools, k);
        assert(rs.last().0.1@ != k);
    }
}

/// Register a new pool under its staking token, with an optional default
/// unbonding delay; only the owner may, and a token registers once.
pub fn register_asset(state: &mut StakingState, sender: String, staking_token: String,
    unbonding_period: Option<u64>) -> (r: Result<Response, StakingError>)
    requires
        old(state).wf(),
    ensures
        final(state).wf(),
        r is Err ==> *final(state) == *old(state),
        sender@ != old(state).config.owner@ ==> r == Err::<Response, StakingError>(
            StakingError::Unauthorized,
        ),
        sender@ == old(state).config.owner@ && has_key(old(state).pools@, staking_token@) ==> r
            == Err::<Response, StakingError>(StakingError::AlreadyRegistered),
        sender@ == old(state).config.owner@ && !has_key(old(state).pools@, staking_token@)
            ==> {
            &&& r is Ok
            &&& final(state).pools@.len() == old(state).pools@.len() + 1
            &&& final(state).pools@.take(old(state).pools@.len() as int) =~= old(state).pools@
            &&& final(state).pools@.last().0@ == staking_token@
            &&& final(state).pools@.last().1.staking_token@ == staking_token@
            &&& final(state).pools@.last().1.total_bond_amount == 0
            &&& final(state).pools@.last().1.reward_index.atomics == 0
            &&& final(state).pools@.last().1.pending_reward == 0
            &&& {
                let stored = match unbonding_period {
                    Some(p) => p > 0,
                    None => false,
                };
                if stored {
                    &&& has_key(final(state).unbonding_periods@, staking_token@)
                    &&& lookup(final(state).unbonding_periods@, staking_token@)
                        == unbonding_period->0
                    &&& forall|k2: (Seq<char>)|
                        k2 != staking_token@ ==> #[trigger] has_key(
                            final(state).unbonding_periods@,
                            k2,
                        ) == has_key(old(state).unbonding_periods@, k2)
                    &&& forall|k2: (Seq<char>)|
                        k2 != staking_token@ && has_key(old(state).unbonding_periods@, k2)
                            ==> #[trigger] lookup(final(state).unbonding_periods@, k2) == lookup(
                            old(state).unbonding_periods@,
                            k2,
                        )
                } else {
                    final(state).unbonding_periods == old(state).unbonding_periods
                }
            }
            &&& final(state).rewards == old(state).rewards
            &&& final(state).stakers == old(state).stakers
            &&& final(state).balances == old(state).balances
            &&& final(state).totals == old(state).totals
            &&& final(state).locks == old(state).locks
            &&& final(state).fees == old(state).fees
            &&& final(state).rewards_per_sec == old(state).rewards_per_sec
            &&& final(state).config == old(state).config
            &&& (r->Ok_0).messages@ =~= Seq::<crate::msg::TransferMsg>::empty()
            &&& (r->Ok_0).events@ =~= seq![
                Event::RegisterAsset {
                    staking_token: staking_token,
                    unbonding_period: match unbonding_period {
                        Some(p) => p,
                        None => 0,
                    },
                },
            ]
        },
{
    let ghost pre = *state;
    if !(sender == state.config.owner) {
        return Err(StakingError::Unauthorized);
    }
    match state.find_pool(&staking_token) {
        Some(_) => {
            return Err(StakingError::AlreadyRegistered);
        },
        None => (),
    }
    state.pools.push(
        (
            staking_token.clone(),
            PoolInfo {
                staking_token: staking_token.clone(),
                total_bond_amount: 0,
                reward_index: Decimal::zero(),
                pending_reward: 0,
            },
        ),
    );
    proof {
        lemma_push_entry(pre.pools@, state.pools@.last());
        assert(state.pools@.take(pre.pools@.len() as int) =~= pre.pools@);
    }
    let mut stored_period: u64 = 0;
    if let Some(p) = unbonding_period {
        if p > 0 {
            stored_period = p;
            let ghost mid_periods = state.unbonding_periods@;
            match state.find_period(&staking_token) {
                Some(i) => {
                    state.unbonding_periods[i].1 = p;
                    proof {
                        lemma_key_at_index_of(pre.unbonding_periods@, staking_token@, i as int);
                        assert(state.unbonding_periods@ =~= pre.unbonding_periods@.update(
                            i as int,
                            (pre.unbonding_periods@[i as int].0, p),
                        ));
                        lemma_update_value(pre.unbonding_periods@, i as int, p);
                    }
                },
                None => {
                    state.unbonding_periods.push((staking_token.clone(), p));
                    proof {
                        lemma_push_entry(pre.unbonding_periods@, state.unbonding_periods@.last());
                    }
                },
            }
        }
    }
    proof {
        lemma_register_wf(pre, *state, staking_token@);
    }
    let mut events: Vec<Event> = Vec::new();
    events.push(
        Event::RegisterAsset {
            staking_token: staking_token,
            unbonding_period: match unbonding_period {
                Some(p) => p,
                None => 0,
            },
        },
    );
    Ok(Response { messages: Vec::new(), events })
}

/// Registering a fresh, empty pool keeps the state well formed.
proof fn lemma_register_wf(pre: StakingState, post: StakingState, token: Seq<char>)
    requires
        pre.wf(),
        !has_key(pre.pools@, token),
        post.pools@.len() == pre.pools@.len() + 1,
        post.pools@.take(pre.pools@.len() as int) =~= pre.pools@,
        post.pools@.last().0@ == token,
        post.pools@.last().1.total_bond_amount == 0,
        unique_keys(post.unbonding_periods@),
        post.rewards == pre.rewards,
        post.stakers == pre.stakers,
        post.balances == pre.balances,
        post.totals == pre.totals,
        post.locks == pre.locks,
        post.fees == pre.fees,
        post.rewards_per_sec == pre.rewards_per_sec,
    ensures
        post.wf(),
{
    assert(forall|j: int| 0 <= j < pre.pools@.len() ==> post.pools@[j] == pre.pools@[j]);
    assert(unique_keys(post.pools@)) by {
        assert forall|a: int, b: int| 0 <= a < b < post.pools@.len() implies post.pools@[a].0@
            != post.pools@[b].0@ by {
            if b == pre.pools@.len() as int {
                if post.pools@[a].0@ == token {
                    assert(key_at(pre.pools@, token, a));
                    assert(false);
                }
            }
        }
    }
    assert(post.pools_consistent()) by {
        assert forall|i: int| 0 <= i < post.pools@.len() implies (#[trigger] post.pools@[
            i]).1.total_bond_amount == sum_pool_bonds(post.rewards@, post.pools@[i].0@) by {
            if i < pre.pools@.len() {
                assert(post.pools@[i] == pre.pools@[i]);
            } else {
                lemma_sum_no_records(pre.rewards@, pre.pools@, token);
            }
        }
    }
    assert(post.indexes_bounded()) by {
        assert forall|i: int| 0 <= i < post.rewards@.len() implies has_key(
            post.pools@,
            (#[trigger] post.rewards@[i]).0.1@,
        ) && post.rewards@[i].1.index.atomics <= lookup(
            post.pools@,
            post.rewards@[i].0.1@,
        ).reward_index.atomics by {
            let k2 = post.rewards@[i].0.1@;
            assert(has_key(pre.pools@, k2));
            let w = index_of(pre.pools@, k2);
            assert(key_at(pre.pools@, k2, w));
            lemma_key_at_index_of(pre.pools@, k2, w);
            assert(key_at(post.pools@, k2, w));
            lemma_key_at_index_of(post.pools@, k2, w);
            assert(post.pools@[w] == pre.pools@[w]);
        }
    }
}

/// Set a pool's default unbonding delay; only the owner may.
pub fn execute_update_unbonding_period(state: &mut StakingState, sender: String, staking_token:
    String, unbonding_period: u64) -> (r: Result<Response, StakingError>)
    requires
        old(state).wf(),
    ensures
        final(state).wf(),
        sender@ != old(state).config.owner@ ==> r == Err::<Response, StakingError>(
            StakingError::Unauthorized,
        ) && *final(state) == *old(state),
        sender@ == old(state).config.owner@ ==> {
            &&& r is Ok
            &&& has_key(final(state).unbonding_periods@, staking_token@)
            &&& lookup(final(state).unbonding_periods@, staking_token@) == unbonding_period
            &&& forall|k2: (Seq<char>)|
                k2 != staking_token@ ==> #[trigger] has_key(final(state).unbonding_periods@, k2)
                    == has_key(old(state).unbonding_periods@, k2)
            &&& forall|k2: (Seq<char>)|
                k2 != staking_token@ && has_key(old(state).unbonding_periods@, k2)
                    ==> #[trigger] lookup(final(state).unbonding_periods@, k2) == lookup(
                    old(state).unbonding_periods@,
                    k2,
                )
            &&& final(state).pools == old(state).pools
            &&& final(state).rewards == old(state).rewards
            &&& final(state).stakers == old(state).stakers
            &&& final(state).balances == old(state).balances
            &&& final(state).totals == old(state).totals
            &&& final(state).locks == old(state).locks
            &&& final(state).fees == old(state).fees
            &&& final(state).rewards_per_sec == old(state).rewards_per_sec
            &&& final(state).config == old(state).config
            &&& (r->Ok_0).events@ =~= seq![
                Event::UpdateUnbondingPeriod { unbonding_period: unbonding_period },
            ]
            &&& (r->Ok_0).messages@ =~= Seq::<crate::msg::TransferMsg>::empty()
        },
{
    let ghost pre = *state;
    if !(sender == state.config.owner) {
        return Err(StakingError::Unauthorized);
    }
    match state.find_period(&staking_token) {
        Some(i) => {
            state.unbonding_periods[i].1 = unbonding_period;
            proof {
                lemma_key_at_index_of(pre.unbonding_periods@, staking_token@, i as int);
                assert(state.unbonding_periods@ =~= pre.unbonding_periods@.update(
                    i as int,
                    (pre.unbonding_periods@[i as int].0, unbonding_period),
                ));
                lemma_update_value(pre.unbonding_periods@, i as int, unbonding_period);
            }
        },
        None => {
            state.unbonding_periods.push((staking_token.clone(), unbonding_period));
            proof {
                lemma_push_entry(pre.unbonding_periods@, state.unbonding_periods@.last());
            }
        },
    }
    let mut events: Vec<Event> = Vec::new();
    events.push(Event::UpdateUnbondingPeriod { unbonding_period });
    Ok(Response { messages: Vec::new(), events })
}

/// Register or replace an instant-unbonding fee entry; only the owner
/// may, and the fee must lie in [0, 1].
pub fn execute_update_unbond_option(state: &mut StakingState, sender: String, staking_token:
    String, period: u64, fee: Decimal) -> (r: Result<Response, StakingError>)
    requires
        old(state).wf(),
    ensures
        final(state).wf(),
        sender@ != old(state).config.owner@ ==> r == Err::<Response, StakingError>(
            StakingError::Unauthorized,
        ) && *final(state) == *old(state),
        sender@ == old(state).config.owner@ && fee.atomics > FRACTIONAL ==> r == Err::<
            Response,
            StakingError,
        >(StakingError::InvalidFee) && *final(state) == *old(state),
        sender@ == old(state).config.owner@ && fee.atomics <= FRACTIONAL ==> {
            &&& r is Ok
            &&& has_key(final(state).fees@, staking_token@)
            &&& has_period(lookup(final(state).fees@, staking_token@)@, period)
            &&& fee_of(lookup(final(state).fees@, staking_token@)@, period) == fee
            &&& forall|q: u64|
                q != period && has_key(old(state).fees@, staking_token@) && has_period(
                    lookup(old(state).fees@, staking_token@)@,
                    q,
                ) ==> #[trigger] fee_of(lookup(final(state).fees@, staking_token@)@, q) == fee_of(
                    lookup(old(state).fees@, staking_token@)@,
                    q,
                )
            &&& final(state).pools == old(state).pools
            &&& final(state).rewards == old(state).rewards
            &&& final(state).locks == old(state).locks
            &&& final(state).balances == old(state).balances
            &&& final(state).totals == old(state).totals
            &&& final(state).stakers == old(state).stakers
            &&& final(state).unbonding_periods == old(state).unbonding_periods
            &&& final(state).rewards_per_sec == old(state).rewards_per_sec
            &&& final(state).config == old(state).config
            &&& (r->Ok_0).events@ =~= seq![
                Event::UpdateUnbondOption {
                    staking_token: staking_token,
                    unbonding_period: period,
                    fee: fee,
                },
            ]
            &&& (r->Ok_0).messages@ =~= Seq::<crate::msg::TransferMsg>::empty()
        },
{
    let ghost pre = *state;
    if !(sender == state.config.owner) {
        return Err(StakingError::Unauthorized);
    }
    if fee.atomics > FRACTIONAL {
        return Err(StakingError::InvalidFee);
    }
    match state.find_fees(&staking_token) {
        Some(i) => {
            proof {
                lemma_key_at_index_of(pre.fees@, staking_token@, i as int);
                assert(pre.fees@[i as int].1.wf());
            }
            state.fees[i].1.set(period, fee);
            proof {
                lemma_update_value(pre.fees@, i as int, state.fees@[i as int].1);
                assert(state.fees@ =~= pre.fees@.update(
                    i as int,
                    (pre.fees@[i as int].0, state.fees@[i as int].1),
                ));
                lemma_key_at_index_of(state.fees@, staking_token@, i as int);
            }
        },
        None => {
            let mut t = FeeTable::new();
            t.set(period, fee);
            state.fees.push((staking_token.clone(), t));
            proof {
                lemma_push_entry(pre.fees@, state.fees@.last());
            }
        },
    }
    proof {
        assert forall|i: int| 0 <= i < state.fees@.len() implies (#[trigger] state.fees@[
            i]).1.wf() by {
            if i < pre.fees@.len() && state.fees@[i] == pre.fees@[i] {
            }
        }
        assert(state.wf());
    }
    let mut events: Vec<Event> = Vec::new();
    events.push(
        Event::UpdateUnbondOption {
            staking_token: staking_token,
            unbonding_period: period,
            fee: fee,
        },
    );
    Ok(Response { messages: Vec::new(), events })
}

/// Remove an instant-unbonding fee entry; removing an absent one is
/// allowed and changes nothing.  Only the owner may.
pub fn execute_remove_unbond_option(state: &mut StakingState, sender: String, staking_token:
    String, period: u64) -> (r: Result<Response, StakingError>)
    requires
        old(state).wf(),
    ensures
        final(state).wf(),
        sender@ != old(state).config.owner@ ==> r == Err::<Response, StakingError>(
            StakingError::Unauthorized,
        ) && *final(state) == *old(state),
        sender@ == old(state).config.owner@ ==> {
            &&& r is Ok
            &&& (has_key(final(state).fees@, staking_token@) ==> !has_period(
                lookup(final(state).fees@, staking_token@)@,
                period,
            ))
            &&& forall|q: u64|
                q != period && has_key(old(state).fees@, staking_token@) && has_period(
                    lookup(old(state).fees@, staking_token@)@,
                    q,
                ) ==> #[trigger] fee_of(lookup(final(state).fees@, staking_token@)@, q) == fee_of(
                    lookup(old(state).fees@, staking_token@)@,
                    q,
                ) && has_period(lookup(final(state).fees@, staking_token@)@, q)
            &&& final(state).pools == old(state).pools
            &&& final(state).rewards == old(state).rewards
            &&& final(state).locks == old(state).locks
            &&& final(state).balances == old(state).balances
            &&& final(state).totals == old(state).totals
            &&& final(state).stakers == old(state).stakers
            &&& final(state).unbonding_periods == old(state).unbonding_periods
            &&& final(state).rewards_per_sec == old(state).rewards_per_sec
            &&& final(state).config == old(state).config
            &&& (r->Ok_0).events@ =~= seq![
                Event::RemoveUnbondOption {
                    staking_token: staking_token,
                    unbonding_period: period,
                },
            ]
            &&& (r->Ok_0).messages@ =~= Seq::<crate::msg::TransferMsg>::empty()
        },
{
    let ghost pre = *state;
    if !(sender == state.config.owner) {
        return Err(StakingError::Unauthorized);
    }
    match state.find_fees(&staking_token) {
        Some(i) => {
            proof {
                lemma_key_at_index_of(pre.fees@, staking_token@, i as int);
                assert(pre.fees@[i as int].1.wf());
            }
            state.fees[i].1.remove(period);
            proof {
                lemma_update_value(pre.fees@, i as int, state.fees@[i as int].1);
                assert(state.fees@ =~= pre.fees@.update(
                    i as int,
                    (pre.fees@[i as int].0, state.fees@[i as int].1),
                ));
                lemma_key_at_index_of(state.fees@, staking_token@, i as int);
            }
        },
        None => (),
    }
    proof {
        assert forall|i: int| 0 <= i < state.fees@.len() implies (#[trigger] state.fees@[
            i]).1.wf() by {
            if i < pre.fees@.len() && state.fees@[i] == pre.fees@[i] {
            }
        }
        assert(state.wf());
    }
    let mut events: Vec<Event> = Vec::new();
    events.push(
        Event::RemoveUnbondOption { staking_token: staking_token, unbonding_period: period },
    );
    Ok(Response { messages: Vec::new(), events })
}

/// Deposit rewards into pools; only the configured rewarder may.  Each
/// listed pool absorbs its amount into the reward index (or parks it
/// while nothing is bonded); either every deposit applies or none does.
pub fn deposit_reward(state: &mut StakingState, sender: String, rewards: Vec<RewardMsg>) -> (r:
    Result<Response, StakingError>)
    requires
        old(state).wf(),
    ensures
        final(state).wf(),
        sender@ != old(state).config.rewarder@ ==> r == Err::<Response, StakingError>(
            StakingError::Unauthorized,
        ) && *final(state) == *old(state),
        sender@ == old(state).config.rewarder@ ==> match spec_deposit_fold(
            old(state).pools@,
            rewards@,
        ) {
            Ok(np) => {
                &&& r is Ok
                &&& final(state).pools@ =~= np
                &&& final(state).rewards == old(state).rewards
                &&& final(state).stakers == old(state).stakers
                &&& final(state).balances == old(state).balances
                &&& final(state).totals == old(state).totals
                &&& final(state).locks == old(state).locks
                &&& final(state).fees == old(state).fees
                &&& final(state).unbonding_periods == old(state).unbonding_periods
                &&& final(state).rewards_per_sec == old(state).rewards_per_sec
                &&& final(state).config == old(state).config
                &&& (r->Ok_0).events@ =~= seq![Event::DepositReward {}]
                &&& (r->Ok_0).messages@ =~= Seq::<crate::msg::TransferMsg>::empty()
            },
            Err(e) => r == Err::<Response, StakingError>(e) && *final(state) == *old(state),
        },
{
    let ghost pre = *state;
    if !(sender == state.config.rewarder) {
        return Err(StakingError::Unauthorized);
    }
    let mut scratch = clone_pools(&state.pools);
    let ghost p0 = scratch@;
    proof {
        assert(p0 =~= pre.pools@);
        assert(rewards@.skip(0) =~= rewards@);
    }
    let n = rewards.len();
    let mut i: usize = 0;
    while i < n
        invariant
            n == rewards@.len(),
            i <= n,
            pre == *old(state),
            *state == pre,
            old(state).wf(),
            sender@ == old(state).config.rewarder@,
            unique_keys(scratch@),
            spec_deposit_fold(pre.pools@, rewards@) == spec_deposit_fold(
                scratch@,
                rewards@.skip(i as int),
            ),
        decreases n - i,
    {
        proof {
            assert(rewards@.skip(i as int)[0] == rewards@[i as int]);
        }
        let ti = match find_pool_in(&scratch, &rewards[i].staking_token) {
            Some(t) => t,
            None => {
                proof {
                    assert(spec_deposit_fold(scratch@, rewards@.skip(i as int)) == Err::<
                        Seq<(String, PoolInfo)>,
                        StakingError,
                    >(StakingError::NotFound));
                }
                return Err(StakingError::NotFound);
            },
        };
        proof {
            lemma_key_at_index_of(scratch@, rewards@[i as int].staking_token@, ti as int);
        }
        let np = match apply_deposit(&scratch[ti].1, rewards[i].total_accumulation_amount) {
            Ok(p) => p,
            Err(e) => {
                proof {
                    assert(spec_deposit_fold(scratch@, rewards@.skip(i as int)) == Err::<
                        Seq<(String, PoolInfo)>,
                        StakingError,
                    >(e));
                }
                return Err(e);
            },
        };
        let key_keep = scratch[ti].0.clone();
        proof {
            assert(key_keep == scratch@[ti as int].0);
        }
        let ghost before = scratch@;
        scratch[ti] = (key_keep, np);
        proof {
            assert(scratch@ =~= before.update(ti as int, (before[ti as int].0, np)));
            lemma_update_value(before, ti as int, np);
            assert(rewards@.skip(i as int).drop_first() =~= rewards@.skip(i as int + 1));
        }
        i = i + 1;
    }
    proof {
        assert(rewards@.skip(n as int).len() == 0);
        assert(spec_deposit_fold(pre.pools@, rewards@) == Ok::<
            Seq<(String, PoolInfo)>,
            StakingError,
        >(scratch@));
    }
    state.pools = scratch;
    proof {
        lemma_deposit_fold_frame(pre.pools@, rewards@, state.pools@);
        lemma_deposit_wf(pre, *state);
    }
    let mut events: Vec<Event> = Vec::new();
    events.push(Event::DepositReward {});
    Ok(Response { messages: Vec::new(), events })
}

/// A deposit that only raised reward indexes keeps the state well
/// formed.
proof fn lemma_deposit_wf(pre: StakingState, post: StakingState)
    requires
        pre.wf(),
        post.pools@.len() == pre.pools@.len(),
        forall|i: int|
            0 <= i < pre.pools@.len() ==> (#[trigger] post.pools@[i]).0 == pre.pools@[i].0
                && post.pools@[i].1.total_bond_amount == pre.pools@[i].1.total_bond_amount
                && post.pools@[i].1.reward_index.atomics >= pre.pools@[i].1.reward_index.atomics,
        post.rewards == pre.rewards,
        post.stakers == pre.stakers,
        post.balances == pre.balances,
        post.totals == pre.totals,
        post.locks == pre.locks,
        post.fees == pre.fees,
        post.unbonding_periods == pre.unbonding_periods,
        post.rewards_per_sec == pre.rewards_per_sec,
        post.config == pre.config,
    ensures
        post.wf(),
{
    assert(unique_keys(post.pools@)) by {
        assert forall|a: int, b: int| 0 <= a < b < post.pools@.len() implies post.pools@[a].0@
            != post.pools@[b].0@ by {
            assert(post.pools@[a].0 == pre.pools@[a].0);
            assert(post.pools@[b].0 == pre.pools@[b].0);
        }
    }
    assert(post.pools_consistent()) by {
        assert forall|i: int| 0 <= i < post.pools@.len() implies (#[trigger] post.pools@[
            i]).1.total_bond_amount == sum_pool_bonds(post.rewards@, post.pools@[i].0@) by {
            assert(post.pools@[i].0 == pre.pools@[i].0);
            assert(pre.pools@[i].1.total_bond_amount == sum_pool_bonds(
                pre.rewards@,
                pre.pools@[i].0@,
            ));
        }
    }
    assert(post.indexes_bounded()) by {
        assert forall|i: int| 0 <= i < post.rewards@.len() implies has_key(
            post.pools@,
            (#[trigger] post.rewards@[i]).0.1@,
        ) && post.rewards@[i].1.index.atomics <= lookup(
            post.pools@,
            post.rewards@[i].0.1@,
        ).reward_index.atomics by {
            let k2 = post.rewards@[i].0.1@;
            assert(has_key(pre.pools@, k2));
            let w = index_of(pre.pools@, k2);
            assert(key_at(pre.pools@, k2, w));
            lemma_key_at_index_of(pre.pools@, k2, w);
            assert(key_at(post.pools@, k2, w));
            lemma_key_at_index_of(post.pools@, k2, w);
        }
    }
}

/// Position of a pool in a scratch pool table.
fn find_pool_in(pools: &Vec<(String, PoolInfo)>, token: &String) -> (r: Option<usize>)
    ensures
        match r {
            Some(i) => key_at(pools@, token@, i as int),
            None => !has_key(pools@, token@),
        },
{
    let n = pools.len();
    let mut i: usize = 0;
    while i < n
        invariant
            n == pools@.len(),
            i <= n,
            forall|j: int| 0 <= j < i ==> (#[trigger] pools@[j]).0@ != token@,
        decreases n - i,
    {
        if pools[i].0 == *token {
            return Some(i);
        }
        i = i + 1;
    }
    proof {
        if has_key(pools@, token@) {
            let w = choose|w: int| key_at(pools@, token@, w);
            assert(pools@[w].0@ != token@);
        }
    }
    None
}

/// Migrations change nothing.
pub fn migrate(state: &mut StakingState, _msg: MigrateMsg) -> (r: Result<Response, StakingError>)
    ensures
        *final(state) == *old(state),
        r matches Ok(resp) && resp.messages@ =~= Seq::<crate::msg::TransferMsg>::empty()
            && resp.events@ =~= Seq::<Event>::empty(),
{
    Ok(Response::new())
}

/// Whether a staker is a listed member of a pool.
pub open spec fn is_pool_member(pre: StakingState, token: Seq<char>, staker: Seq<char>) ->
    bool {
    has_key(pre.stakers@, token) && crate::staking::member_of(
        lookup(pre.stakers@, token)@,
        staker,
    )
}

/// The reward rates registered for a pool before a rate change.
pub open spec fn base_rates(pre: StakingState, token: Seq<char>) -> Seq<Asset> {
    if has_key(pre.rewards_per_sec@, token) {
        lookup(pre.rewards_per_sec@, token)@
    } else {
        Seq::empty()
    }
}

/// Whether every member record of the pool can be synchronized.
pub open spec fn members_sync_ok(pre: StakingState, token: Seq<char>) -> bool {
    forall|i: int|
        0 <= i < pre.rewards@.len() && (#[trigger] pre.rewards@[i]).0.1@ == token
            && is_pool_member(pre, token, pre.rewards@[i].0.0@) ==> crate::rewards::sync_ok(
            lookup(pre.pools@, token).reward_index,
            pre.rewards@[i].1,
        )
}

/// Bond sums only read keys and bonded amounts, so they agree on tables
/// that agree there.
proof fn lemma_sum_congruent(rs1: Seq<((String, String), crate::state::RewardInfo)>, rs2: Seq<
    ((String, String), crate::state::RewardInfo),
>, pool: Seq<char>)
    requires
        rs1.len() == rs2.len(),
        forall|i: int|
            0 <= i < rs1.len() ==> (#[trigger] rs2[i]).0 == rs1[i].0 && rs2[i].1.bond_amount
                == rs1[i].1.bond_amount,
    ensures
        sum_pool_bonds(rs1, pool) == sum_pool_bonds(rs2, pool),
    decreases rs1.len(),
{
    if rs1.len() > 0 {
        assert(forall|i: int|
            0 <= i < rs1.drop_last().len() ==> (#[trigger] rs2.drop_last()[i]).0
                == rs1.drop_last()[i].0 && rs2.drop_last()[i].1.bond_amount == rs1.drop_last()[
            i].1.bond_amount);
        lemma_sum_congruent(rs1.drop_last(), rs2.drop_last(), pool);
    }
}

/// Processing a record twice against the same pool index gives the same
/// record as processing it once.
proof fn lemma_process_idempotent(a: crate::state::RewardInfo, b: crate::state::RewardInfo, c:
    crate::state::RewardInfo, pidx: Decimal, rates: Seq<Asset>)
    requires
        crate::rewards::rec_processed(a, b, pidx, rates),
        crate::rewards::rec_processed(b, c, pidx, rates),
    ensures
        crate::rewards::rec_processed(a, c, pidx, rates),
{
    assert(b.index == pidx);
    assert(crate::rewards::synced_pending(pidx, b) == b.pending_reward);
}

/// Replace a pool's reward rates; only the owner may.  Before the new
/// rates take effect, every member record of the pool is synchronized
/// and its accrued reward converted into deferred per-asset withdrawals
/// under the old rates.
#[verifier::rlimit(100)]
pub fn update_rewards_per_sec(state: &mut StakingState, sender: String, staking_token: String,
    assets: Vec<Asset>) -> (r: Result<Response, StakingError>)
    requires
        old(state).wf(),
    ensures
        final(state).wf(),
        r is Err ==> *final(state) == *old(state),
        (sender@ != old(state).config.owner@) ==> r == Err::<Response, StakingError>(
            StakingError::Unauthorized,
        ),
        r is Ok == (sender@ == old(state).config.owner@ && crate::rewards::spec_weight_sum(
            base_rates(*old(state), staking_token@),
        ) <= u128::MAX && members_sync_ok(*old(state), staking_token@)),
        r matches Ok(resp) ==> {
            let token = staking_token@;
            let pidx = lookup(old(state).pools@, token).reward_index;
            let rates = base_rates(*old(state), token);
            &&& has_key(final(state).rewards_per_sec@, token)
            &&& lookup(final(state).rewards_per_sec@, token)@ =~= assets@
            &&& forall|k2: (Seq<char>)|
                k2 != token ==> #[trigger] has_key(final(state).rewards_per_sec@, k2) == has_key(
                    old(state).rewards_per_sec@,
                    k2,
                )
            &&& forall|k2: (Seq<char>)|
                k2 != token && has_key(old(state).rewards_per_sec@, k2) ==> #[trigger] lookup(
                    final(state).rewards_per_sec@,
                    k2,
                ) == lookup(old(state).rewards_per_sec@, k2)
            &&& final(state).rewards@.len() == old(state).rewards@.len()
            &&& forall|i: int|
                0 <= i < old(state).rewards@.len() ==> (#[trigger] final(state).rewards@[i]).0
                    == old(state).rewards@[i].0
            &&& forall|i: int|
                0 <= i < old(state).rewards@.len() && !((#[trigger] old(state).rewards@[i]).0.1@
                    == token && is_pool_member(*old(state), token, old(state).rewards@[i].0.0@))
                    ==> final(state).rewards@[i] == old(state).rewards@[i]
            &&& forall|i: int|
                0 <= i < old(state).rewards@.len() && (#[trigger] old(state).rewards@[i]).0.1@
                    == token && is_pool_member(*old(state), token, old(state).rewards@[i].0.0@)
                    ==> crate::rewards::rec_processed(
                    old(state).rewards@[i].1,
                    final(state).rewards@[i].1,
                    pidx,
                    rates,
                )
            &&& final(state).pools == old(state).pools
            &&& final(state).stakers == old(state).stakers
            &&& final(state).balances == old(state).balances
            &&& final(state).totals == old(state).totals
            &&& final(state).locks == old(state).locks
            &&& final(state).fees == old(state).fees
            &&& final(state).unbonding_periods == old(state).unbonding_periods
            &&& final(state).config == old(state).config
            &&& resp.events@ =~= seq![Event::UpdateRewardsPerSec {}]
            &&& resp.messages@ =~= Seq::<crate::msg::TransferMsg>::empty()
        },
{
    let ghost pre = *state;
    if !(sender == state.config.owner) {
        return Err(StakingError::Unauthorized);
    }
    // the old rates drive the conversion; the new ones only get stored
    let rates: Vec<Asset> = match state.find_rps(&staking_token) {
        Some(ri) => {
            proof {
                lemma_key_at_index_of(pre.rewards_per_sec@, staking_token@, ri as int);
            }
            clone_assets(&state.rewards_per_sec[ri].1)
        },
        None => Vec::new(),
    };
    proof {
        assert(rates@ =~= base_rates(pre, staking_token@));
    }
    let wsum: u128 = match crate::rewards::weight_sum(&rates) {
        Some(w) => w,
        None => {
            return Err(StakingError::Overflow);
        },
    };
    let pidx_opt: Option<Decimal> = match state.find_pool(&staking_token) {
        Some(pi) => {
            proof {
                lemma_key_at_index_of(pre.pools@, staking_token@, pi as int);
            }
            Some(state.pools[pi].1.reward_index)
        },
        None => None,
    };
    let si_opt = state.find_stakers(&staking_token);
    // validation pass: every member record must synchronize in bounds
    if let Some(si) = si_opt {
        proof {
            lemma_key_at_index_of(pre.stakers@, staking_token@, si as int);
        }
        let m = state.stakers[si].1.len();
        let ghost mlist = pre.stakers@[si as int].1@;
        let mut j: usize = 0;
        while j < m
            invariant
                pre == *old(state),
                *state == pre,
                old(state).wf(),
                sender@ == old(state).config.owner@,
                si < pre.stakers@.len(),
                key_at(pre.stakers@, staking_token@, si as int),
                index_of(pre.stakers@, staking_token@) == si as int,
                m == mlist.len(),
                mlist == pre.stakers@[si as int].1@,
                j <= m,
                pidx_opt matches Some(p) ==> has_key(pre.pools@, staking_token@) && p == lookup(
                    pre.pools@,
                    staking_token@,
                ).reward_index,
                pidx_opt is None ==> !has_key(pre.pools@, staking_token@),
                forall|w: int|
                    0 <= w < j && has_key(
                        pre.rewards@,
                        ((#[trigger] mlist[w])@, staking_token@),
                    ) ==> crate::rewards::sync_ok(
                        lookup(pre.pools@, staking_token@).reward_index,
                        lookup(pre.rewards@, (mlist[w]@, staking_token@)),
                    ),
            decreases m - j,
        {
            let member = state.stakers[si].1[j].clone();
            match state.find_record(&member, &staking_token) {
                Some(ri) => {
                    proof {
                        lemma_key_at_index_of(pre.rewards@, (member@, staking_token@), ri as int);
                    }
                    let pidx = match pidx_opt {
                        Some(p) => p,
                        None => {
                            proof {
                                assert(has_key(pre.pools@, pre.rewards@[ri as int].0.1@));
                                assert(false);
                            }
                            Decimal::zero()
                        },
                    };
                    let oi = state.rewards[ri].1.index;
                    let ob = state.rewards[ri].1.bond_amount;
                    let op = state.rewards[ri].1.pending_reward;
                    let diff = match pidx.checked_sub(oi) {
                        Some(d) => d,
                        None => {
                            return Err(StakingError::Underflow);
                        },
                    };
                    let accrued = match diff.checked_mul_uint_floor(ob) {
                        Some(a) => a,
                        None => {
                            return Err(StakingError::Overflow);
                        },
                    };
                    match op.checked_add(accrued) {
                        Some(_) => (),
                        None => {
                            return Err(StakingError::Overflow);
                        },
                    }
                },
                None => (),
            }
            j = j + 1;
        }
        proof {
            assert(members_sync_ok(pre, staking_token@)) by {
                assert forall|i: int|
                    0 <= i < pre.rewards@.len() && (#[trigger] pre.rewards@[i]).0.1@
                        == staking_token@ && is_pool_member(
                        pre,
                        staking_token@,
                        pre.rewards@[i].0.0@,
                    ) implies crate::rewards::sync_ok(
                    lookup(pre.pools@, staking_token@).reward_index,
                    pre.rewards@[i].1,
                ) by {
                    let st = pre.rewards@[i].0.0@;
                    let w = choose|w: int| 0 <= w < mlist.len() && (#[trigger] mlist[w])@ == st;
                    assert(key_at(pre.rewards@, (mlist[w]@, staking_token@), i));
                    lemma_key_at_index_of(pre.rewards@, (mlist[w]@, staking_token@), i);
                }
            }
        }
    } else {
        proof {
            assert(members_sync_ok(pre, staking_token@));
        }
    }
    proof {
        crate::rewards::lemma_weight_sum_nonneg(rates@);
    }
    // mutation pass: synchronize and convert each member record
    if let Some(si) = si_opt {
        let m = state.stakers[si].1.len();
        let ghost mlist = pre.stakers@[si as int].1@;
        let ghost pidxg = lookup(pre.pools@, staking_token@).reward_index;
        let mut j: usize = 0;
        while j < m
            invariant
                pre == *old(state),
                old(state).wf(),
                sender@ == old(state).config.owner@,
                members_sync_ok(pre, staking_token@),
                si < pre.stakers@.len(),
                key_at(pre.stakers@, staking_token@, si as int),
                m == mlist.len(),
                mlist == pre.stakers@[si as int].1@,
                j <= m,
                rates@ == base_rates(pre, staking_token@),
                wsum == crate::rewards::spec_weight_sum(rates@),
                pidxg == lookup(pre.pools@, staking_token@).reward_index,
                pidx_opt matches Some(p) ==> has_key(pre.pools@, staking_token@) && p == pidxg,
                pidx_opt is None ==> !has_key(pre.pools@, staking_token@),
                state.pools == pre.pools,
                state.stakers == pre.stakers,
                state.balances == pre.balances,
                state.totals == pre.totals,
                state.locks == pre.locks,
                state.fees == pre.fees,
                state.unbonding_periods == pre.unbonding_periods,
                state.rewards_per_sec == pre.rewards_per_sec,
                state.config == pre.config,
                state.rewards@.len() == pre.rewards@.len(),
                forall|i: int|
                    0 <= i < pre.rewards@.len() ==> (#[trigger] state.rewards@[i]).0
                        == pre.rewards@[i].0,
                forall|i: int|
                    0 <= i < pre.rewards@.len() ==> (#[trigger] state.rewards@[i]).1.bond_amount
                        == pre.rewards@[i].1.bond_amount,
                forall|i: int|
                    0 <= i < pre.rewards@.len() ==> (#[trigger] state.rewards@[i])
                        == pre.rewards@[i] || (pre.rewards@[i].0.1@ == staking_token@
                        && is_pool_member(pre, staking_token@, pre.rewards@[i].0.0@)
                        && crate::rewards::rec_processed(
                        pre.rewards@[i].1,
                        state.rewards@[i].1,
                        pidxg,
                        rates@,
                    )),
                forall|i: int|
                    0 <= i < pre.rewards@.len() && (#[trigger] pre.rewards@[i]).0.1@
                        == staking_token@ && (exists|w: int|
                        0 <= w < j && (#[trigger] mlist[w])@ == pre.rewards@[i].0.0@)
                        ==> crate::rewards::rec_processed(
                        pre.rewards@[i].1,
                        state.rewards@[i].1,
                        pidxg,
                        rates@,
                    ),
            decreases m - j,
        {
            let member = state.stakers[si].1[j].clone();
            proof {
                assert(member@ == mlist[j as int]@);
            }
            match state.find_record(&member, &staking_token) {
                Some(ri) => {
                    proof {
                        assert(key_at(state.rewards@, (member@, staking_token@), ri as int));
                        assert(pre.rewards@[ri as int].0 == state.rewards@[ri as int].0);
                        assert(key_at(pre.rewards@, (member@, staking_token@), ri as int));
                        lemma_key_at_index_of(pre.rewards@, (member@, staking_token@), ri as int);
                        assert(is_pool_member(pre, staking_token@, member@)) by {
                            lemma_key_at_index_of(
                                pre.stakers@,
                                staking_token@,
                                si as int,
                            );
                            assert(lookup(pre.stakers@, staking_token@)
                                == pre.stakers@[si as int].1);
                            assert(lookup(pre.stakers@, staking_token@)@[j as int]@ == member@);
                        }
                        assert(pre.rewards@[ri as int].0.1@ == staking_token@);
                        assert(pre.rewards@[ri as int].0.0@ == member@);
                        assert(crate::rewards::sync_ok(pidxg, pre.rewards@[ri as int].1));
                        if state.rewards@[ri as int] != pre.rewards@[ri as int] {
                            assert(crate::rewards::rec_processed(
                                pre.rewards@[ri as int].1,
                                state.rewards@[ri as int].1,
                                pidxg,
                                rates@,
                            ));
                            assert(state.rewards@[ri as int].1.index == pidxg);
                            assert(crate::rewards::sync_ok(
                                pidxg,
                                state.rewards@[ri as int].1,
                            )) by {
                                assert(state.rewards@[ri as int].1.bond_amount as int * (
                                pidxg.atomics - pidxg.atomics) == 0) by (nonlinear_arith);
                            }
                        }
                    }
                    let pidx = match pidx_opt {
                        Some(p) => p,
                        None => {
                            proof {
                                assert(has_key(pre.pools@, pre.rewards@[ri as int].0.1@));
                                assert(false);
                            }
                            Decimal::zero()
                        },
                    };
                    let ghost before = state.rewards@;
                    let ghost before_rec = state.rewards@[ri as int].1;
                    match crate::rewards::process_record(
                        &mut state.rewards[ri].1,
                        pidx,
                        &rates,
                        wsum,
                    ) {
                        Ok(()) => (),
                        Err(e) => {
                            proof {
                                assert(false);
                            }
                            return Err(e);
                        },
                    }
                    proof {
                        assert(state.rewards@ =~= before.update(
                            ri as int,
                            (before[ri as int].0, state.rewards@[ri as int].1),
                        ));
                        if rates@.len() > 0 && wsum > 0 {
                            assert(crate::rewards::rec_processed(
                                before_rec,
                                state.rewards@[ri as int].1,
                                pidxg,
                                rates@,
                            ));
                        } else {
                            assert(state.rewards@[ri as int].1
                                == crate::rewards::spec_synced(pidxg, before_rec));
                            assert(crate::rewards::rec_processed(
                                before_rec,
                                state.rewards@[ri as int].1,
                                pidxg,
                                rates@,
                            ));
                        }
                        if before_rec != pre.rewards@[ri as int].1 {
                            lemma_process_idempotent(
                                pre.rewards@[ri as int].1,
                                before_rec,
                                state.rewards@[ri as int].1,
                                pidxg,
                                rates@,
                            );
                        }
                    }
                },
                None => {
                    proof {
                        assert forall|i: int|
                            0 <= i < pre.rewards@.len() && (#[trigger] pre.rewards@[i]).0.1@
                                == staking_token@ && pre.rewards@[i].0.0@ == member@ implies false
                        by {
                            assert(key_at(pre.rewards@, (member@, staking_token@), i));
                            assert(key_at(state.rewards@, (member@, staking_token@), i));
                            assert(has_key(state.rewards@, (member@, staking_token@)));
                        }
                    }
                },
            }
            j = j + 1;
        }
        proof {
            assert forall|i: int|
                0 <= i < pre.rewards@.len() && (#[trigger] pre.rewards@[i]).0.1@
                    == staking_token@ && is_pool_member(pre, staking_token@, pre.rewards@[
                i].0.0@) implies crate::rewards::rec_processed(
                pre.rewards@[i].1,
                state.rewards@[i].1,
                pidxg,
                rates@,
            ) by {
                lemma_key_at_index_of(pre.stakers@, staking_token@, si as int);
                let st = pre.rewards@[i].0.0@;
                let w = choose|w: int| 0 <= w < mlist.len() && (#[trigger] mlist[w])@ == st;
                assert(0 <= w < m && mlist[w]@ == pre.rewards@[i].0.0@);
            }
        }
    }
    let ghost mid = *state;
    // store the new rates
    match state.find_rps(&staking_token) {
        Some(ri) => {
            proof {
                lemma_key_at_index_of(mid.rewards_per_sec@, staking_token@, ri as int);
            }
            state.rewards_per_sec[ri].1 = assets;
            proof {
                assert(state.rewards_per_sec@ =~= mid.rewards_per_sec@.update(
                    ri as int,
                    (mid.rewards_per_sec@[ri as int].0, state.rewards_per_sec@[ri as int].1),
                ));
                lemma_update_value(
                    mid.rewards_per_sec@,
                    ri as int,
                    state.rewards_per_sec@[ri as int].1,
                );
                lemma_key_at_index_of(state.rewards_per_sec@, staking_token@, ri as int);
            }
        },
        None => {
            state.rewards_per_sec.push((staking_token.clone(), assets));
            proof {
                lemma_push_entry(mid.rewards_per_sec@, state.rewards_per_sec@.last());
            }
        },
    }
    proof {
        lemma_rates_wf(pre, *state, staking_token@);
    }
    let mut events: Vec<Event> = Vec::new();
    events.push(Event::UpdateRewardsPerSec {});
    Ok(Response { messages: Vec::new(), events })
}

/// A rate change keeps the state well formed: keys and bonded amounts
/// are untouched and synchronized indexes equal their pool's.
proof fn lemma_rates_wf(pre: StakingState, post: StakingState, token: Seq<char>)
    requires
        pre.wf(),
        unique_keys(post.rewards_per_sec@),
        post.pools == pre.pools,
        post.stakers == pre.stakers,
        post.balances == pre.balances,
        post.totals == pre.totals,
        post.locks == pre.locks,
        post.fees == pre.fees,
        post.unbonding_periods == pre.unbonding_periods,
        post.config == pre.config,
        post.rewards@.len() == pre.rewards@.len(),
        forall|i: int|
            0 <= i < pre.rewards@.len() ==> (#[trigger] post.rewards@[i]).0 == pre.rewards@[
            i].0,
        forall|i: int|
            0 <= i < pre.rewards@.len() ==> (#[trigger] post.rewards@[i]).1.bond_amount
                == pre.rewards@[i].1.bond_amount,
        forall|i: int|
            0 <= i < pre.rewards@.len() ==> (#[trigger] post.rewards@[i]) == pre.rewards@[i] || (
            has_key(pre.pools@, token) && post.rewards@[i].1.index == lookup(
                pre.pools@,
                token,
            ).reward_index && pre.rewards@[i].0.1@ == token),
    ensures
        post.wf(),
{
    assert(unique_keys(post.rewards@)) by {
        assert forall|a: int, b: int| 0 <= a < b < post.rewards@.len() implies post.rewards@[
            a].0@ != post.rewards@[b].0@ by {
            assert(post.rewards@[a].0 == pre.rewards@[a].0);
            assert(post.rewards@[b].0 == pre.rewards@[b].0);
        }
    }
    assert(post.pools_consistent()) by {
        assert forall|i: int| 0 <= i < post.pools@.len() implies (#[trigger] post.pools@[
            i]).1.total_bond_amount == sum_pool_bonds(post.rewards@, post.pools@[i].0@) by {
            lemma_sum_congruent(pre.rewards@, post.rewards@, post.pools@[i].0@);
        }
    }
    assert(post.indexes_bounded()) by {
        assert forall|i: int| 0 <= i < post.rewards@.len() implies has_key(
            post.pools@,
            (#[trigger] post.rewards@[i]).0.1@,
        ) && post.rewards@[i].1.index.atomics <= lookup(
            post.pools@,
            post.rewards@[i].0.1@,
        ).reward_index.atomics by {
            let k2 = post.rewards@[i].0.1@;
            assert(pre.rewards@[i].0.1@ == k2);
            assert(has_key(pre.pools@, k2));
            if post.rewards@[i] == pre.rewards@[i] {
            } else {
                assert(k2 == token);
            }
        }
    }
}

/// Route a decoded token-send hook: a bond hook bonds the sent amount
/// for the sending account into the pool of the sending token contract;
/// anything else is rejected.
pub fn receive_cw20(state: &mut StakingState, height: u64, info_sender: String, cw20_msg:
    Cw20ReceiveMsg) -> (r: Result<Response, StakingError>)
    requires
        old(state).wf(),
    ensures
        final(state).wf(),
        cw20_msg.msg is None ==> r == Err::<Response, StakingError>(StakingError::InvalidHookMsg)
            && *final(state) == *old(state),
        r is Err ==> *final(state) == *old(state),
        cw20_msg.msg == Some(Cw20HookMsg::Bond {}) && cw20_msg.amount > 0 ==> (r is Ok
            == crate::staking::increase_ok(
            *old(state),
            cw20_msg.sender@,
            info_sender@,
            cw20_msg.amount,
        )) && (r is Ok ==> crate::staking::increase_applied(
            *old(state),
            *final(state),
            height,
            cw20_msg.sender,
            info_sender,
            cw20_msg.amount,
        )),
        cw20_msg.msg == Some(Cw20HookMsg::Bond {}) && cw20_msg.amount == 0 ==> r is Ok
            && *final(state) == *old(state),
{
    match cw20_msg.msg {
        Some(Cw20HookMsg::Bond {}) => bond(
            state,
            height,
            cw20_msg.sender,
            info_sender,
            cw20_msg.amount,
        ),
        None => Err(StakingError::InvalidHookMsg),
    }
}

/// Dispatch one executable request to its handler.  The dispatch itself
/// decides nothing: each handler's own contract says what it does; a
/// failed request leaves the state unchanged.  For the bond, unbond and
/// restake requests the handlers' transition predicates are restated
/// here, so a caller of `execute` needs no other function's contract.
pub fn execute(state: &mut StakingState, height: u64, time: u64, sender: String, msg:
    ExecuteMsg) -> (r: Result<Response, StakingError>)
    requires
        old(state).wf(),
    ensures
        final(state).wf(),
        r is Err ==> *final(state) == *old(state),
        (msg matches ExecuteMsg::Unbond { staking_token, amount, unbond_period } ==> (r is Ok
            == crate::staking::unbond_ok(
            *old(state),
            sender@,
            staking_token@,
            amount,
            unbond_period,
            time,
        )) && (r matches Ok(resp) ==> resp.messages@ =~= crate::staking::unbond_msgs(
            *old(state),
            sender,
            staking_token,
            amount,
            unbond_period,
            time,
        ) && resp.events@ =~= crate::staking::unbond_events(
            *old(state),
            sender,
            staking_token,
            amount,
            unbond_period,
            time,
        ))),
        (msg matches ExecuteMsg::Restake { staking_token } ==> (r is Ok == (
        crate::staking::locked_total(*old(state), staking_token@, sender@) <= u128::MAX && (
        crate::staking::locked_total(*old(state), staking_token@, sender@) > 0
            ==> crate::staking::increase_ok(
            *old(state),
            sender@,
            staking_token@,
            crate::staking::locked_total(*old(state), staking_token@, sender@) as u128,
        )))) && (r is Ok && crate::staking::locked_total(*old(state), staking_token@, sender@)
            > 0 ==> crate::staking::increase_applied(
            *old(state),
            *final(state),
            height,
            sender,
            staking_token,
            crate::staking::locked_total(*old(state), staking_token@, sender@) as u128,
        ))),
        (msg matches ExecuteMsg::Receive(m) ==> {
            &&& (m.msg is None ==> r == Err::<Response, StakingError>(
                StakingError::InvalidHookMsg,
            ))
            &&& (m.msg == Some(Cw20HookMsg::Bond {}) && m.amount > 0 ==> (r is Ok
                == crate::staking::increase_ok(*old(state), m.sender@, sender@, m.amount)) && (
            r is Ok ==> crate::staking::increase_applied(
                *old(state),
                *final(state),
                height,
                m.sender,
                sender,
                m.amount,
            )))
        }),
{
    match msg {
        ExecuteMsg::Receive(m) => receive_cw20(state, height, sender, m),
        ExecuteMsg::UpdateConfig { rewarder, owner, withdraw_fee_receiver } => update_config(
            state,
            sender,
            owner,
            rewarder,
            withdraw_fee_receiver,
        ),
        ExecuteMsg::UpdateRewardsPerSec { staking_token, assets } => update_rewards_per_sec(
            state,
            sender,
            staking_token,
            assets,
        ),
        ExecuteMsg::DepositReward { rewards } => deposit_reward(state, sender, rewards),
        ExecuteMsg::RegisterAsset { staking_token, unbonding_period } => register_asset(
            state,
            sender,
            staking_token,
            unbonding_period,
        ),
        ExecuteMsg::Unbond { staking_token, amount, unbond_period } => unbond(
            state,
            height,
            time,
            sender,
            staking_token,
            amount,
            unbond_period,
        ),
        ExecuteMsg::UpdateUnbondingPeriod { staking_token, unbonding_period } =>
            execute_update_unbonding_period(state, sender, staking_token, unbonding_period),
        ExecuteMsg::Restake { staking_token } => restake(state, height, time, sender,
            staking_token),
        ExecuteMsg::UpdateUnbondOption { staking_token, period, fee } =>
            execute_update_unbond_option(state, sender, staking_token, period, fee),
        ExecuteMsg::RemoveUnbondOption { staking_token, period } => execute_remove_unbond_option(
            state,
            sender,
            staking_token,
            period,
        ),
    }
}

/// The configured identities.
pub fn query_config(state: &StakingState) -> (r: ConfigResponse)
    ensures
        r.owner == state.config.owner,
        r.rewarder == state.config.rewarder,
        r.withdraw_fee_receiver == state.config.withdraw_fee_receiver,
{
    ConfigResponse {
        owner: state.config.owner.clone(),
        rewarder: state.config.rewarder.clone(),
        withdraw_fee_receiver: state.config.withdraw_fee_receiver.clone(),
    }
}

/// One pool's aggregate state and default delay.
pub fn query_pool_info(state: &StakingState, staking_token: String) -> (r: Result<
    PoolInfoResponse,
    StakingError,
>)
    requires
        state.wf(),
    ensures
        !has_key(state.pools@, staking_token@) ==> r == Err::<PoolInfoResponse, StakingError>(
            StakingError::NotFound,
        ),
        has_key(state.pools@, staking_token@) ==> (r matches Ok(resp) && {
            let pool = lookup(state.pools@, staking_token@);
            &&& resp.staking_token@ == staking_token@
            &&& resp.total_bond_amount == pool.total_bond_amount
            &&& resp.reward_index == pool.reward_index
            &&& resp.pending_reward == pool.pending_reward
            &&& resp.unbonding_period == if has_key(state.unbonding_periods@, staking_token@) {
                Some(lookup(state.unbonding_periods@, staking_token@))
            } else {
                None::<u64>
            }
        }),
{
    let pi = match state.find_pool(&staking_token) {
        Some(i) => i,
        None => {
            return Err(StakingError::NotFound);
        },
    };
    proof {
        lemma_key_at_index_of(state.pools@, staking_token@, pi as int);
    }
    let unbonding_period: Option<u64> = match state.find_period(&staking_token) {
        Some(i) => {
            proof {
                lemma_key_at_index_of(state.unbonding_periods@, staking_token@, i as int);
            }
            Some(state.unbonding_periods[i].1)
        },
        None => None,
    };
    Ok(PoolInfoResponse {
        staking_token: staking_token,
        total_bond_amount: state.pools[pi].1.total_bond_amount,
        reward_index: state.pools[pi].1.reward_index,
        pending_reward: state.pools[pi].1.pending_reward,
        unbonding_period,
    })
}

/// The reward rates registered for a pool.
pub fn query_rewards_per_sec(state: &StakingState, staking_token: String) -> (r: Result<
    RewardsPerSecResponse,
    StakingError,
>)
    requires
        state.wf(),
    ensures
        !has_key(state.rewards_per_sec@, staking_token@) ==> r == Err::<
            RewardsPerSecResponse,
            StakingError,
        >(StakingError::NotFound),
        has_key(state.rewards_per_sec@, staking_token@) ==> (r matches Ok(resp) && resp.assets@
            =~= lookup(state.rewards_per_sec@, staking_token@)@),
{
    match state.find_rps(&staking_token) {
        Some(i) => {
            proof {
                lemma_key_at_index_of(state.rewards_per_sec@, staking_token@, i as int);
            }
            Ok(RewardsPerSecResponse { assets: clone_assets(&state.rewards_per_sec[i].1) })
        },
        None => Err(StakingError::NotFound),
    }
}

/// One staker's share records: the record in the named pool, or every
/// record of the staker when no pool is named, in table order.
pub fn query_reward_info(state: &StakingState, staker_addr: String, staking_token: Option<
    String,
>) -> (r: RewardInfoResponse)
    requires
        state.wf(),
    ensures
        r.staker_addr == staker_addr,
        staking_token matches Some(t) ==> {
            if has_key(state.rewards@, (staker_addr@, t@)) {
                let rec = lookup(state.rewards@, (staker_addr@, t@));
                &&& r.reward_infos@.len() == 1
                &&& r.reward_infos@[0].staking_token@ == t@
                &&& r.reward_infos@[0].bond_amount == rec.bond_amount
                &&& r.reward_infos@[0].pending_reward == rec.pending_reward
                &&& r.reward_infos@[0].pending_withdraw@ =~= rec.pending_withdraw@
            } else {
                r.reward_infos@.len() == 0
            }
        },
{
    let mut items: Vec<RewardInfoResponseItem> = Vec::new();
    match staking_token {
        Some(t) => {
            match state.find_record(&staker_addr, &t) {
                Some(ri) => {
                    proof {
                        lemma_key_at_index_of(state.rewards@, (staker_addr@, t@), ri as int);
                    }
                    items.push(
                        RewardInfoResponseItem {
                            staking_token: t,
                            bond_amount: state.rewards[ri].1.bond_amount,
                            pending_reward: state.rewards[ri].1.pending_reward,
                            pending_withdraw: clone_assets(&state.rewards[ri].1.pending_withdraw),
                        },
                    );
                },
                None => (),
            }
        },
        None => {
            let n = state.rewards.len();
            let mut i: usize = 0;
            while i < n
                invariant
                    n == state.rewards@.len(),
                    i <= n,
                decreases n - i,
            {
                if state.rewards[i].0.0 == staker_addr {
                    items.push(
                        RewardInfoResponseItem {
                            staking_token: state.rewards[i].0.1.clone(),
                            bond_amount: state.rewards[i].1.bond_amount,
                            pending_reward: state.rewards[i].1.pending_reward,
                            pending_withdraw: clone_assets(&state.rewards[i].1.pending_withdraw),
                        },
                    );
                }
                i = i + 1;
            }
        },
    }
    RewardInfoResponse { staker_addr, reward_infos: items }
}

/// The pools, in registration order, each with its default delay.
pub fn parse_read_all_pool_infos(state: &StakingState, pool_infos: Vec<(String, PoolInfo)>) -> (
    r: Vec<QueryPoolInfoResponse>)
    requires
        state.wf(),
    ensures
        r@.len() == pool_infos@.len(),
        forall|i: int|
            0 <= i < pool_infos@.len() ==> {
                let e = #[trigger] r@[i];
                &&& e.asset_key@ == pool_infos@[i].0@
                &&& e.pool_info.staking_token@ == pool_infos@[i].0@
                &&& e.pool_info.total_bond_amount == pool_infos@[i].1.total_bond_amount
                &&& e.pool_info.reward_index == pool_infos@[i].1.reward_index
                &&& e.pool_info.pending_reward == pool_infos@[i].1.pending_reward
                &&& e.pool_info.unbonding_period == if has_key(
                    state.unbonding_periods@,
                    pool_infos@[i].0@,
                ) {
                    Some(lookup(state.unbonding_periods@, pool_infos@[i].0@))
                } else {
                    None::<u64>
                }
            },
{
    let n = pool_infos.len();
    let mut out: Vec<QueryPoolInfoResponse> = Vec::new();
    let mut i: usize = 0;
    while i < n
        invariant
            state.wf(),
            n == pool_infos@.len(),
            i <= n,
            out@.len() == i,
            forall|k: int|
                0 <= k < i ==> {
                    let e = #[trigger] out@[k];
                    &&& e.asset_key@ == pool_infos@[k].0@
                    &&& e.pool_info.staking_token@ == pool_infos@[k].0@
                    &&& e.pool_info.total_bond_amount == pool_infos@[k].1.total_bond_amount
                    &&& e.pool_info.reward_index == pool_infos@[k].1.reward_index
                    &&& e.pool_info.pending_reward == pool_infos@[k].1.pending_reward
                    &&& e.pool_info.unbonding_period == if has_key(
                        state.unbonding_periods@,
                        pool_infos@[k].0@,
                    ) {
                        Some(lookup(state.unbonding_periods@, pool_infos@[k].0@))
                    } else {
                        None::<u64>
                    }
                },
        decreases n - i,
    {
        let key = pool_infos[i].0.clone();
        let unbonding_period: Option<u64> = match state.find_period(&key) {
            Some(w) => {
                proof {
                    lemma_key_at_index_of(state.unbonding_periods@, key@, w as int);
                }
                Some(state.unbonding_periods[w].1)
            },
            None => None,
        };
        out.push(
            QueryPoolInfoResponse {
                asset_key: pool_infos[i].0.clone(),
                pool_info: PoolInfoResponse {
                    staking_token: key,
                    total_bond_amount: pool_infos[i].1.total_bond_amount,
                    reward_index: pool_infos[i].1.reward_index,
                    pending_reward: pool_infos[i].1.pending_reward,
                    unbonding_period,
                },
            },
        );
        i = i + 1;
    }
    out
}

/// Every pool, in registration order.
pub fn query_get_pools_infomation(state: &StakingState) -> (r: Vec<QueryPoolInfoResponse>)
    requires
        state.wf(),
    ensures
        r@.len() == state.pools@.len(),
        forall|i: int|
            0 <= i < state.pools@.len() ==> (#[trigger] r@[i]).asset_key@ == state.pools@[i].0@
                && r@[i].pool_info.total_bond_amount == state.pools@[i].1.total_bond_amount,
{
    let pools = clone_pools(&state.pools);
    proof {
        assert(pools@ =~= state.pools@);
    }
    parse_read_all_pool_infos(state, pools)
}

/// One page of a position's outstanding lock entries, by maturation
/// time: ascending from the cursor, or newest first when descending
/// order is asked for (any value but two means ascending).
pub fn query_lock_infos(state: &StakingState, staker_addr: String, staking_token: String,
    start_after: Option<u64>, limit: Option<u32>, order: Option<i32>) -> (r: Result<
    LockInfosResponse,
    StakingError,
>)
    requires
        state.wf(),
    ensures
        r matches Ok(resp) && resp.staker_addr == staker_addr && resp.staking_token
            == staking_token,
        ({
            let q = if has_key(state.locks@, (staking_token@, staker_addr@)) {
                lookup(state.locks@, (staking_token@, staker_addr@))@
            } else {
                Seq::<crate::locks::LockInfo>::empty()
            };
            let page = crate::locks::spec_page(q, start_after, limit, match order {
                Some(o) => o == 2,
                None => false,
            });
            &&& (r->Ok_0).lock_infos@.len() == page.len()
            &&& forall|i: int|
                0 <= i < page.len() ==> ((#[trigger] (r->Ok_0).lock_infos@[i]).amount == page[
                i].amount && (r->Ok_0).lock_infos@[i].unlock_time == page[i].unlock_time)
        }),
{
    let descending: bool = match order {
        Some(o) => o == 2,
        None => false,
    };
    let mut infos: Vec<LockInfoResponse> = Vec::new();
    match state.find_locks(&staking_token, &staker_addr) {
        Some(li) => {
            proof {
                lemma_key_at_index_of(state.locks@, (staking_token@, staker_addr@), li as int);
                assert(state.locks@[li as int].1.wf());
            }
            let page = state.locks[li].1.list(start_after, limit, descending);
            let ghost pg = page@;
            let n = page.len();
            let mut i: usize = 0;
            while i < n
                invariant
                    n == pg.len(),
                    page@ == pg,
                    i <= n,
                    infos@.len() == i,
                    forall|k: int|
                        0 <= k < i ==> ((#[trigger] infos@[k]).amount == pg[k].amount && infos@[
                        k].unlock_time == pg[k].unlock_time),
                decreases n - i,
            {
                infos.push(
                    LockInfoResponse {
                        amount: page[i].amount,
                        unlock_time: page[i].unlock_time,
                    },
                );
                i = i + 1;
            }
        },
        None => {
            proof {
                let q = Seq::<crate::locks::LockInfo>::empty();
                crate::locks::lemma_matured_len_char(q, 0);
                assert(crate::locks::spec_page(q, start_after, limit, descending).len() == 0);
            }
        },
    }
    Ok(LockInfosResponse { staker_addr, staking_token, lock_infos: infos })
}

/// A staker's balance in a pool as of a height (the current height when
/// none is given): the value in effect at the start of that height,
/// zero if nothing was recorded before it.
pub fn query_staked_balance_at_height(state: &StakingState, env_height: u64, asset_key: String,
    address: String, height: Option<u64>) -> (r: StakedBalanceAtHeightResponse)
    requires
        state.wf(),
    ensures
        r.height == match height {
            Some(h) => h,
            None => env_height,
        },
        r.balance as int == {
            let hist = if has_key(state.balances@, (asset_key@, address@)) {
                lookup(state.balances@, (asset_key@, address@))@
            } else {
                Seq::empty()
            };
            match spec_value_at(hist, r.height) {
                Some(v) => v as int,
                None => 0,
            }
        },
{
    let h = match height {
        Some(h) => h,
        None => env_height,
    };
    let balance: u128 = match state.find_balance(&asset_key, &address) {
        Some(bi) => {
            proof {
                lemma_key_at_index_of(state.balances@, (asset_key@, address@), bi as int);
            }
            match state.balances[bi].1.value_at(h) {
                Some(v) => v,
                None => 0,
            }
        },
        None => 0,
    };
    StakedBalanceAtHeightResponse { balance, height: h }
}

/// A pool's bonded total as of a height (the current height when none is
/// given).
pub fn query_total_staked_at_height(state: &StakingState, env_height: u64, asset_key: String,
    height: Option<u64>) -> (r: TotalStakedAtHeightResponse)
    requires
        state.wf(),
    ensures
        r.height == match height {
            Some(h) => h,
            None => env_height,
        },
        r.total as int == {
            let hist = if has_key(state.totals@, asset_key@) {
                lookup(state.totals@, asset_key@)@
            } else {
                Seq::empty()
            };
            match spec_value_at(hist, r.height) {
                Some(v) => v as int,
                None => 0,
            }
        },
{
    let h = match height {
        Some(h) => h,
        None => env_height,
    };
    let total: u128 = match state.find_total(&asset_key) {
        Some(ti) => {
            proof {
                lemma_key_at_index_of(state.totals@, asset_key@, ti as int);
            }
            match state.totals[ti].1.value_at(h) {
                Some(v) => v,
                None => 0,
            }
        },
        None => 0,
    };
    TotalStakedAtHeightResponse { total, height: h }
}

/// The fee registered for one unbonding period of a pool.
pub fn query_unbond_fee(state: &StakingState, staking_token: String, period: u64) -> (r: Result<
    Decimal,
    StakingError,
>)
    requires
        state.wf(),
    ensures
        has_key(state.fees@, staking_token@) && has_period(
            lookup(state.fees@, staking_token@)@,
            period,
        ) ==> r == Ok::<Decimal, StakingError>(fee_of(lookup(state.fees@, staking_token@)@,
            period)),
        !(has_key(state.fees@, staking_token@) && has_period(
            lookup(state.fees@, staking_token@)@,
            period,
        )) ==> r == Err::<Decimal, StakingError>(StakingError::UnknownFeeOption),
{
    match state.find_fees(&staking_token) {
        Some(fi) => {
            proof {
                lemma_key_at_index_of(state.fees@, staking_token@, fi as int);
                assert(state.fees@[fi as int].1.wf());
            }
            match state.fees[fi].1.get(period) {
                Some(f) => Ok(f),
                None => Err(StakingError::UnknownFeeOption),
            }
        },
        None => Err(StakingError::UnknownFeeOption),
    }
}

/// Every fee entry of a pool, ascending by period.
pub fn query_unbond_options(state: &StakingState, staking_token: String) -> (r: Vec<
    UnbondOptionResponse,
>)
    requires
        state.wf(),
    ensures
        !has_key(state.fees@, staking_token@) ==> r@.len() == 0,
        has_key(state.fees@, staking_token@) ==> {
            let t = lookup(state.fees@, staking_token@)@;
            &&& r@.len() == t.len()
            &&& forall|i: int|
                0 <= i < t.len() ==> (#[trigger] r@[i]).period == t[i].0 && r@[i].fee == t[i].1
        },
{
    let mut out: Vec<UnbondOptionResponse> = Vec::new();
    match state.find_fees(&staking_token) {
        Some(fi) => {
            proof {
                lemma_key_at_index_of(state.fees@, staking_token@, fi as int);
            }
            let entries = state.fees[fi].1.list();
            let n = entries.len();
            let mut i: usize = 0;
            while i < n
                invariant
                    n == entries@.len(),
                    entries@ == lookup(state.fees@, staking_token@)@,
                    i <= n,
                    out@.len() == i,
                    forall|k: int|
                        0 <= k < i ==> (#[trigger] out@[k]).period == entries@[k].0 && out@[
                        k].fee == entries@[k].1,
                decreases n - i,
            {
                out.push(UnbondOptionResponse { period: entries[i].0, fee: entries[i].1 });
                i = i + 1;
            }
        },
        None => (),
    }
    out
}

/// Dispatch one read-only request to its handler.  The identity and
/// point-in-time queries are pinned here; the other answers are pinned
/// by their handlers' contracts.
pub fn query(state: &StakingState, env_height: u64, msg: QueryMsg) -> (r: Result<
    QueryAnswer,
    StakingError,
>)
    requires
        state.wf(),
    ensures
        (msg matches QueryMsg::Config {  } ==> r matches Ok(a) && a matches QueryAnswer::Config(
            c,
        ) && c.owner == state.config.owner && c.rewarder == state.config.rewarder
            && c.withdraw_fee_receiver == state.config.withdraw_fee_receiver),
        (msg matches QueryMsg::StakedBalanceAtHeight { asset_key, address, height } ==> r matches
            Ok(a) && a matches QueryAnswer::StakedBalanceAtHeight(b) && b.height == (match height {
            Some(h) => h,
            None => env_height,
        }) && b.balance as int == {
            let hist = if has_key(state.balances@, (asset_key@, address@)) {
                lookup(state.balances@, (asset_key@, address@))@
            } else {
                Seq::empty()
            };
            match spec_value_at(hist, b.height) {
                Some(v) => v as int,
                None => 0,
            }
        }),
        (msg matches QueryMsg::TotalStakedAtHeight { asset_key, height } ==> r matches Ok(a)
            && a matches QueryAnswer::TotalStakedAtHeight(t) && t.height == (match height {
            Some(h) => h,
            None => env_height,
        }) && t.total as int == {
            let hist = if has_key(state.totals@, asset_key@) {
                lookup(state.totals@, asset_key@)@
            } else {
                Seq::empty()
            };
            match spec_value_at(hist, t.height) {
                Some(v) => v as int,
                None => 0,
            }
        }),
        (msg matches QueryMsg::UnbondFee { staking_token, period } ==> (if has_key(
            state.fees@,
            staking_token@,
        ) && has_period(lookup(state.fees@, staking_token@)@, period) {
            r == Ok::<QueryAnswer, StakingError>(
                QueryAnswer::UnbondFee(fee_of(lookup(state.fees@, staking_token@)@, period)),
            )
        } else {
            r == Err::<QueryAnswer, StakingError>(StakingError::UnknownFeeOption)
        })),
{
    match msg {
        QueryMsg::Config {  } => Ok(QueryAnswer::Config(query_config(state))),
        QueryMsg::PoolInfo { staking_token } => match query_pool_info(state, staking_token) {
            Ok(p) => Ok(QueryAnswer::PoolInfo(p)),
            Err(e) => Err(e),
        },
        QueryMsg::RewardsPerSec { staking_token } => match query_rewards_per_sec(
            state,
            staking_token,
        ) {
            Ok(p) => Ok(QueryAnswer::RewardsPerSec(p)),
            Err(e) => Err(e),
        },
        QueryMsg::RewardInfo { staker_addr, staking_token } => Ok(
            QueryAnswer::RewardInfo(query_reward_info(state, staker_addr, staking_token)),
        ),
        QueryMsg::RewardInfos { staking_token, start_after, limit, order } => Ok(
            QueryAnswer::RewardInfos(
                query_all_reward_infos(state, staking_token, start_after, limit, order),
            ),
        ),
        QueryMsg::GetPoolsInformation {  } => Ok(
            QueryAnswer::PoolsInformation(query_get_pools_infomation(state)),
        ),
        QueryMsg::LockInfos { staker_addr, staking_token, start_after, limit, order } => match
            query_lock_infos(state, staker_addr, staking_token, start_after, limit, order) {
            Ok(p) => Ok(QueryAnswer::LockInfos(p)),
            Err(e) => Err(e),
        },
        QueryMsg::StakedBalanceAtHeight { asset_key, address, height } => Ok(
            QueryAnswer::StakedBalanceAtHeight(
                query_staked_balance_at_height(state, env_height, asset_key, address, height),
            ),
        ),
        QueryMsg::TotalStakedAtHeight { asset_key, height } => Ok(
            QueryAnswer::TotalStakedAtHeight(
                query_total_staked_at_height(state, env_height, asset_key, height),
            ),
        ),
        QueryMsg::UnbondFee { staking_token, period } => match query_unbond_fee(
            state,
            staking_token,
            period,
        ) {
            Ok(f) => Ok(QueryAnswer::UnbondFee(f)),
            Err(e) => Err(e),
        },
        QueryMsg::UnbondOptions { staking_token } => Ok(
            QueryAnswer::UnbondOptions(query_unbond_options(state, staking_token)),
        ),
    }
}

/// A page of the pool's member records, in membership order from the
/// cursor (the member named by `start_after` is skipped together with
/// everything before it); any order value but two means ascending, two
/// walks the membership list backwards.  Each item reports the member's
/// record in this pool.
pub fn query_all_reward_infos(state: &StakingState, staking_token: String, start_after: Option<
    String,
>, limit: Option<u32>, order: Option<i32>) -> (r: Vec<RewardInfoResponse>)
    requires
        state.wf(),
    ensures
        r@.len() <= crate::locks::MAX_LIMIT,
        forall|i: int|
            0 <= i < r@.len() ==> has_key(
                state.rewards@,
                ((#[trigger] r@[i]).staker_addr@, staking_token@),
            ),
{
    let cap: usize = match limit {
        Some(l) => if l > crate::locks::MAX_LIMIT {
            crate::locks::MAX_LIMIT as usize
        } else {
            l as usize
        },
        None => crate::locks::DEFAULT_LIMIT as usize,
    };
    let descending: bool = match order {
        Some(o) => o == 2,
        None => false,
    };
    let mut out: Vec<RewardInfoResponse> = Vec::new();
    let si = match state.find_stakers(&staking_token) {
        Some(s) => s,
        None => {
            return out;
        },
    };
    proof {
        lemma_key_at_index_of(state.stakers@, staking_token@, si as int);
    }
    let m = state.stakers[si].1.len();
    // the cursor position: just after the named member (ascending) or
    // just before it (descending)
    let mut pos: usize = if descending {
        m
    } else {
        0
    };
    if let Some(sa) = start_after {
        let mut j: usize = 0;
        let mut found = false;
        while j < m
            invariant
                m == state.stakers@[si as int].1@.len(),
                si < state.stakers@.len(),
                j <= m,
                found ==> pos <= m,
            decreases m - j,
        {
            if !found && state.stakers[si].1[j] == sa {
                found = true;
                pos = if descending {
                    j
                } else {
                    j + 1
                };
            }
            j = j + 1;
        }
        if !found && descending {
            pos = m;
        }
        if !found && !descending {
            pos = 0;
        }
    }
    if descending {
        let mut k: usize = pos;
        while k > 0 && out.len() < cap
            invariant
                si < state.stakers@.len(),
                k <= state.stakers@[si as int].1@.len(),
                out@.len() <= crate::locks::MAX_LIMIT,
                cap <= crate::locks::MAX_LIMIT,
                forall|i: int|
                    0 <= i < out@.len() ==> has_key(
                        state.rewards@,
                        ((#[trigger] out@[i]).staker_addr@, staking_token@),
                    ),
            decreases k,
        {
            let member = state.stakers[si].1[k - 1].clone();
            match state.find_record(&member, &staking_token) {
                Some(ri) => {
                    proof {
                        assert(key_at(state.rewards@, (member@, staking_token@), ri as int));
                    }
                    out.push(build_reward_info(state, member, &staking_token, ri));
                },
                None => (),
            }
            k = k - 1;
        }
    } else {
        let mut k: usize = pos;
        while k < m && out.len() < cap
            invariant
                si < state.stakers@.len(),
                m == state.stakers@[si as int].1@.len(),
                k <= m,
                out@.len() <= crate::locks::MAX_LIMIT,
                cap <= crate::locks::MAX_LIMIT,
                forall|i: int|
                    0 <= i < out@.len() ==> has_key(
                        state.rewards@,
                        ((#[trigger] out@[i]).staker_addr@, staking_token@),
                    ),
            decreases m - k,
        {
            let member = state.stakers[si].1[k].clone();
            match state.find_record(&member, &staking_token) {
                Some(ri) => {
                    proof {
                        assert(key_at(state.rewards@, (member@, staking_token@), ri as int));
                    }
                    out.push(build_reward_info(state, member, &staking_token, ri));
                },
                None => (),
            }
            k = k + 1;
        }
    }
    out
}

/// One member's record, shaped as a response.
fn build_reward_info(state: &StakingState, member: String, staking_token: &String, ri: usize) ->
    (r: RewardInfoResponse)
    requires
        ri < state.rewards@.len(),
        state.rewards@[ri as int].0@ == (member@, staking_token@),
    ensures
        r.staker_addr@ == member@,
        has_key(state.rewards@, (r.staker_addr@, staking_token@)),
{
    proof {
        assert(key_at(state.rewards@, (member@, staking_token@), ri as int));
    }
    let items_one = RewardInfoResponseItem {
        staking_token: staking_token.clone(),
        bond_amount: state.rewards[ri].1.bond_amount,
        pending_reward: state.rewards[ri].1.pending_reward,
        pending_withdraw: clone_assets(&state.rewards[ri].1.pending_withdraw),
    };
    let mut items: Vec<RewardInfoResponseItem> = Vec::new();
    items.push(items_one);
    RewardInfoResponse { staker_addr: member, reward_infos: items }
}

} // verus!
