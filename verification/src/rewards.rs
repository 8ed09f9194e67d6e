//! Reward-share accounting: index synchronization, reward deposits, and
//! the conversion of accrued rewards into withdrawable assets when rates
//! change.
//!
//! A pool's `reward_index` is a cumulative reward per bonded unit.  The
//! difference between the pool's index and a staker's last-synchronized
//! copy, times the staker's bonded amount, is the reward accrued since
//! the last synchronization; it is flushed into the record's
//! `pending_reward` before any change of the bonded amount.

use vstd::prelude::*;
use crate::assoc::{has_key, index_of, key_at, lemma_key_at_index_of, unique_keys};
use crate::decimal::{Decimal, FRACTIONAL};
use crate::errors::StakingError;
use crate::state::{Asset, AssetInfo, PoolInfo, RewardInfo};

verus! {

/// The pending reward after a synchronization, from the record's fields:
/// the old pending reward plus the bonded amount times the index
/// difference (exact, unbounded arithmetic).
pub open spec fn synced_pending_f(pidx: Decimal, oi: Decimal, bond: u128, pending: u128) -> int {
    pending + (bond as int * (pidx.atomics - oi.atomics)) / (FRACTIONAL as int)
}

/// The pending reward after synchronizing `rec` against pool index
/// `pidx` (exact, unbounded arithmetic).
pub open spec fn synced_pending(pidx: Decimal, rec: RewardInfo) -> int {
    synced_pending_f(pidx, rec.index, rec.bond_amount, rec.pending_reward)
}

/// Whether a synchronization from the given record fields stays in
/// bounds.
pub open spec fn sync_ok_f(pidx: Decimal, oi: Decimal, bond: u128, pending: u128) -> bool {
    &&& oi.atomics <= pidx.atomics
    &&& synced_pending_f(pidx, oi, bond, pending) <= u128::MAX
}

/// Whether synchronizing `rec` against pool index `pidx` stays in
/// bounds: the record is not ahead of the pool and the accrued reward
/// fits.
pub open spec fn sync_ok(pidx: Decimal, rec: RewardInfo) -> bool {
    sync_ok_f(pidx, rec.index, rec.bond_amount, rec.pending_reward)
}

/// The error a failed synchronization reports.
pub open spec fn sync_err(pidx: Decimal, rec: RewardInfo) -> StakingError {
    if rec.index.atomics > pidx.atomics {
        StakingError::Underflow
    } else {
        StakingError::Overflow
    }
}

/// The record after synchronization: accrued reward flushed into
/// `pending_reward`, index caught up to the pool's, everything else
/// untouched.
pub open spec fn spec_synced(pidx: Decimal, rec: RewardInfo) -> RewardInfo {
    RewardInfo {
        index: pidx,
        bond_amount: rec.bond_amount,
        pending_reward: synced_pending(pidx, rec) as u128,
        pending_withdraw: rec.pending_withdraw,
    }
}

/// Flush the reward accrued since the last synchronization into the
/// record's pending reward and catch its index up to the pool's.  Must
/// run before any change of the bonded amount.
pub fn before_share_change(pidx: Decimal, rec: &mut RewardInfo) -> (r: Result<(), StakingError>)
    ensures
        sync_ok(pidx, *old(rec)) ==> r is Ok && *final(rec) == spec_synced(pidx, *old(rec)),
        !sync_ok(pidx, *old(rec)) ==> r == Err::<(), StakingError>(sync_err(pidx, *old(rec)))
            && *final(rec) == *old(rec),
{
    let diff = match pidx.checked_sub(rec.index) {
        Some(d) => d,
        None => {
            return Err(StakingError::Underflow);
        },
    };
    let accrued = match diff.checked_mul_uint_floor(rec.bond_amount) {
        Some(a) => a,
        None => {
            return Err(StakingError::Overflow);
        },
    };
    let np = match rec.pending_reward.checked_add(accrued) {
        Some(p) => p,
        None => {
            return Err(StakingError::Overflow);
        },
    };
    rec.index = pidx;
    rec.pending_reward = np;
    Ok(())
}

/// The pool after one reward deposit: with bonders, the reward (plus any
/// parked remainder) enters the index per bonded unit; without bonders it
/// parks in `pending_reward` until someone bonds.
pub open spec fn spec_deposit_pool(p: PoolInfo, amount: u128) -> Result<PoolInfo, StakingError> {
    if p.pending_reward + amount > u128::MAX {
        Err(StakingError::Overflow)
    } else if p.total_bond_amount == 0 {
        Ok(PoolInfo {
            staking_token: p.staking_token,
            total_bond_amount: p.total_bond_amount,
            reward_index: p.reward_index,
            pending_reward: (p.pending_reward + amount) as u128,
        })
    } else {
        let normal = p.pending_reward + amount;
        let ratio = (normal * FRACTIONAL as int) / (p.total_bond_amount as int);
        if ratio > u128::MAX || p.reward_index.atomics + ratio > u128::MAX {
            Err(StakingError::Overflow)
        } else {
            Ok(PoolInfo {
                staking_token: p.staking_token,
                total_bond_amount: p.total_bond_amount,
                reward_index: Decimal { atomics: (p.reward_index.atomics + ratio) as u128 },
                pending_reward: 0,
            })
        }
    }
}

/// Apply one reward deposit to a pool value, returning the new one.
pub fn apply_deposit(p: &PoolInfo, amount: u128) -> (r: Result<PoolInfo, StakingError>)
    ensures
        r == spec_deposit_pool(*p, amount),
{
    let normal = match p.pending_reward.checked_add(amount) {
        Some(n) => n,
        None => {
            return Err(StakingError::Overflow);
        },
    };
    if p.total_bond_amount == 0 {
        Ok(PoolInfo {
            staking_token: p.staking_token.clone(),
            total_bond_amount: p.total_bond_amount,
            reward_index: p.reward_index,
            pending_reward: normal,
        })
    } else {
        let per_bond = match Decimal::checked_from_ratio(normal, p.total_bond_amount) {
            Some(d) => d,
            None => {
                return Err(StakingError::Overflow);
            },
        };
        match p.reward_index.checked_add(per_bond) {
            Some(ni) => Ok(PoolInfo {
                staking_token: p.staking_token.clone(),
                total_bond_amount: p.total_bond_amount,
                reward_index: ni,
                pending_reward: 0,
            }),
            None => Err(StakingError::Overflow),
        }
    }
}

/// The pool table after a list of deposits is applied in order.
pub open spec fn spec_deposit_fold(pools: Seq<(String, PoolInfo)>, msgs: Seq<
    crate::msg::RewardMsg,
>) -> Result<Seq<(String, PoolInfo)>, StakingError>
    decreases msgs.len(),
{
    if msgs.len() == 0 {
        Ok(pools)
    } else if !has_key(pools, msgs[0].staking_token@) {
        Err(StakingError::NotFound)
    } else {
        let i = index_of(pools, msgs[0].staking_token@);
        match spec_deposit_pool(pools[i].1, msgs[0].total_accumulation_amount) {
            Ok(np) => spec_deposit_fold(pools.update(i, (pools[i].0, np)), msgs.drop_first()),
            Err(e) => Err(e),
        }
    }
}

/// Depositing changes no pool's key, staking token, or bonded total, and
/// never lowers a reward index.
pub proof fn lemma_deposit_fold_frame(pools: Seq<(String, PoolInfo)>, msgs: Seq<
    crate::msg::RewardMsg,
>, np: Seq<(String, PoolInfo)>)
    requires
        unique_keys(pools),
        spec_deposit_fold(pools, msgs) == Ok::<Seq<(String, PoolInfo)>, StakingError>(np),
    ensures
        np.len() == pools.len(),
        forall|i: int|
            0 <= i < pools.len() ==> (#[trigger] np[i]).0 == pools[i].0 && np[i].1.staking_token
                == pools[i].1.staking_token && np[i].1.total_bond_amount
                == pools[i].1.total_bond_amount && np[i].1.reward_index.atomics
                >= pools[i].1.reward_index.atomics,
        unique_keys(np),
    decreases msgs.len(),
{
    if msgs.len() == 0 {
    } else {
        let i = index_of(pools, msgs[0].staking_token@);
        assert(key_at(pools, msgs[0].staking_token@, i));
        match spec_deposit_pool(pools[i].1, msgs[0].total_accumulation_amount) {
            Ok(p1) => {
                let mid = pools.update(i, (pools[i].0, p1));
                assert(unique_keys(mid));
                lemma_deposit_fold_frame(mid, msgs.drop_first(), np);
            },
            Err(_) => {
                assert(false);
            },
        }
    }
}

/// The weight a rate list carries in total.
pub open spec fn spec_weight_sum(rates: Seq<Asset>) -> int
    decreases rates.len(),
{
    if rates.len() == 0 {
        0
    } else {
        spec_weight_sum(rates.drop_last()) + rates.last().amount
    }
}

/// The share of `pending` owed for one rate entry out of total weight
/// `wsum`: the rounded-down fraction `weight / wsum` of `pending`.
pub open spec fn spec_share(pending: u128, weight: u128, wsum: int) -> int {
    (pending as int * ((weight as int * FRACTIONAL as int) / wsum)) / (FRACTIONAL as int)
}

/// The asset amounts a conversion appends, one per rate entry, in rate
/// order.
pub open spec fn spec_shares(pending: u128, rates: Seq<Asset>, wsum: int) -> Seq<Asset> {
    Seq::new(rates.len(), |i: int| Asset {
        info: rates[i].info,
        amount: spec_share(pending, rates[i].amount, wsum) as u128,
    })
}

/// Whether a rate list converts pending rewards at all: it must carry
/// entries whose total weight is positive and fits.
pub open spec fn rates_usable(rates: Seq<Asset>) -> bool {
    rates.len() > 0 && 0 < spec_weight_sum(rates) <= u128::MAX
}

/// How a rate change processes one record: synchronize it, then (when it
/// has pending reward and the rates are usable) convert the whole
/// pending reward into per-asset amounts appended to its deferred
/// withdrawals; rounding dust is dropped with the conversion.
pub open spec fn rec_processed(old_r: RewardInfo, new_r: RewardInfo, pidx: Decimal, rates: Seq<
    Asset,
>) -> bool {
    &&& sync_ok(pidx, old_r)
    &&& new_r.index == pidx
    &&& new_r.bond_amount == old_r.bond_amount
    &&& {
        let sp = synced_pending(pidx, old_r);
        if sp == 0 || !rates_usable(rates) {
            new_r.pending_reward == sp && new_r.pending_withdraw@ =~= old_r.pending_withdraw@
        } else {
            new_r.pending_reward == 0 && new_r.pending_withdraw@ =~= old_r.pending_withdraw@
                + spec_shares(sp as u128, rates, spec_weight_sum(rates))
        }
    }
}

/// Every share is at most the pending amount it is carved from.
pub proof fn lemma_share_fits(pending: u128, weight: u128, wsum: int)
    requires
        0 < wsum <= u128::MAX,
        weight <= wsum,
    ensures
        0 <= spec_share(pending, weight, wsum) <= pending,
        (weight as int * FRACTIONAL as int) / wsum <= FRACTIONAL as int,
{
    let f = FRACTIONAL as int;
    let ratio = (weight as int * f) / wsum;
    assert(weight as int * f <= wsum * f) by (nonlinear_arith)
        requires
            weight as int <= wsum,
            0 <= f,
    ;
    vstd::arithmetic::div_mod::lemma_div_is_ordered(weight as int * f, wsum * f, wsum);
    assert(wsum * f / wsum == f) by (nonlinear_arith)
        requires
            0 < wsum,
            0 <= f,
    ;
    assert(ratio <= f);
    vstd::arithmetic::div_mod::lemma_div_pos_is_pos(weight as int * f, wsum);
    assert(weight as int * f >= 0) by (nonlinear_arith)
        requires
            0 <= weight as int,
            0 <= f,
    ;
    assert(pending as int * ratio <= pending as int * f) by (nonlinear_arith)
        requires
            ratio <= f,
            0 <= pending as int,
    ;
    vstd::arithmetic::div_mod::lemma_div_is_ordered(
        pending as int * ratio,
        pending as int * f,
        f,
    );
    assert(pending as int * f / f == pending as int) by (nonlinear_arith)
        requires
            0 < f,
    ;
    assert(pending as int * ratio >= 0) by (nonlinear_arith)
        requires
            0 <= pending as int,
            0 <= ratio,
    ;
    vstd::arithmetic::div_mod::lemma_div_pos_is_pos(pending as int * ratio, f);
}

/// Each weight is at most the total weight.
pub proof fn lemma_weight_le_sum(rates: Seq<Asset>, i: int)
    requires
        0 <= i < rates.len(),
    ensures
        rates[i].amount <= spec_weight_sum(rates),
        spec_weight_sum(rates) >= 0,
    decreases rates.len(),
{
    lemma_weight_sum_nonneg(rates);
    if rates.len() > 0 {
        if i == rates.len() - 1 {
            lemma_weight_sum_nonneg(rates.drop_last());
        } else {
            lemma_weight_le_sum(rates.drop_last(), i);
        }
    }
}

/// A weight sum is never negative.
pub proof fn lemma_weight_sum_nonneg(rates: Seq<Asset>)
    ensures
        spec_weight_sum(rates) >= 0,
    decreases rates.len(),
{
    if rates.len() > 0 {
        lemma_weight_sum_nonneg(rates.drop_last());
    }
}

/// Convert one record in place for a rate change.  The caller has
/// checked that the synchronization fits.
pub fn process_record(rec: &mut RewardInfo, pidx: Decimal, rates: &Vec<Asset>, wsum: u128) -> (r:
    Result<(), StakingError>)
    requires
        sync_ok(pidx, *old(rec)),
        rates@.len() > 0 && wsum > 0 ==> wsum == spec_weight_sum(rates@),
    ensures
        r is Ok,
        rates@.len() > 0 && wsum > 0 ==> rec_processed(*old(rec), *final(rec), pidx, rates@),
        !(rates@.len() > 0 && wsum > 0) ==> *final(rec) == spec_synced(pidx, *old(rec)),
{
    let ghost old_rec = *rec;
    match before_share_change(pidx, rec) {
        Ok(()) => (),
        Err(e) => {
            proof {
                assert(false);
            }
            return Err(e);
        },
    }
    if rates.len() == 0 || wsum == 0 {
        return Ok(());
    }
    let pending = rec.pending_reward;
    if pending == 0 {
        proof {
            assert(rec_processed(old_rec, *rec, pidx, rates@));
        }
        return Ok(());
    }
    let ghost mid = *rec;
    let ghost ws = spec_weight_sum(rates@);
    let n = rates.len();
    let mut i: usize = 0;
    while i < n
        invariant
            n == rates@.len(),
            i <= n,
            0 < wsum,
            wsum == spec_weight_sum(rates@),
            rec.index == mid.index,
            rec.bond_amount == mid.bond_amount,
            rec.pending_reward == mid.pending_reward,
            pending == mid.pending_reward,
            ws == wsum,
            rec.pending_withdraw@ =~= mid.pending_withdraw@ + spec_shares(pending, rates@, ws)
                .take(i as int),
        decreases n - i,
    {
        proof {
            lemma_weight_le_sum(rates@, i as int);
            lemma_share_fits(pending, rates@[i as int].amount, ws);
        }
        let ratio = match Decimal::checked_from_ratio(rates[i].amount, wsum) {
            Some(d) => d,
            None => {
                proof {
                    assert(false);
                }
                return Err(StakingError::Overflow);
            },
        };
        let share = match ratio.checked_mul_uint_floor(pending) {
            Some(s) => s,
            None => {
                proof {
                    assert(false);
                }
                return Err(StakingError::Overflow);
            },
        };
        let info = clone_asset_info(&rates[i].info);
        proof {
            assert(spec_shares(pending, rates@, ws)[i as int] == Asset {
                info: rates@[i as int].info,
                amount: spec_share(pending, rates@[i as int].amount, ws) as u128,
            });
            assert(spec_shares(pending, rates@, ws).take(i as int + 1) =~= spec_shares(
                pending,
                rates@,
                ws,
            ).take(i as int).push(spec_shares(pending, rates@, ws)[i as int]));
        }
        rec.pending_withdraw.push(Asset { info, amount: share });
        i = i + 1;
    }
    rec.pending_reward = 0;
    proof {
        assert(spec_shares(pending, rates@, ws).take(n as int) =~= spec_shares(
            pending,
            rates@,
            ws,
        ));
    }
    Ok(())
}

/// A value-equal copy of an asset kind.
pub fn clone_asset_info(a: &AssetInfo) -> (r: AssetInfo)
    ensures
        r == *a,
{
    match a {
        AssetInfo::NativeToken { denom } => AssetInfo::NativeToken { denom: denom.clone() },
        AssetInfo::Token { contract_addr } => AssetInfo::Token {
            contract_addr: contract_addr.clone(),
        },
    }
}

/// A value-equal copy of an asset amount.
pub fn clone_asset(a: &Asset) -> (r: Asset)
    ensures
        r == *a,
{
    Asset { info: clone_asset_info(&a.info), amount: a.amount }
}

/// A value-equal copy of a whole rate list, as a sequence of values.
pub fn clone_assets(v: &Vec<Asset>) -> (r: Vec<Asset>)
    ensures
        r@ =~= v@,
{
    let n = v.len();
    let mut out: Vec<Asset> = Vec::new();
    let mut i: usize = 0;
    while i < n
        invariant
            n == v@.len(),
            i <= n,
            out@ =~= v@.take(i as int),
        decreases n - i,
    {
        proof {
            assert(v@.take(i as int + 1) =~= v@.take(i as int).push(v@[i as int]));
        }
        out.push(clone_asset(&v[i]));
        i = i + 1;
    }
    proof {
        assert(v@.take(n as int) =~= v@);
    }
    out
}

/// A value-equal copy of a pool entry.
pub fn clone_pool(p: &PoolInfo) -> (r: PoolInfo)
    ensures
        r == *p,
{
    PoolInfo {
        staking_token: p.staking_token.clone(),
        total_bond_amount: p.total_bond_amount,
        reward_index: p.reward_index,
        pending_reward: p.pending_reward,
    }
}

/// A value-equal copy of the whole pool table.
pub fn clone_pools(v: &Vec<(String, PoolInfo)>) -> (r: Vec<(String, PoolInfo)>)
    ensures
        r@ =~= v@,
{
    let n = v.len();
    let mut out: Vec<(String, PoolInfo)> = Vec::new();
    let mut i: usize = 0;
    while i < n
        invariant
            n == v@.len(),
            i <= n,
            out@ =~= v@.take(i as int),
        decreases n - i,
    {
        proof {
            assert(v@.take(i as int + 1) =~= v@.take(i as int).push(v@[i as int]));
        }
        out.push((v[i].0.clone(), clone_pool(&v[i].1)));
        i = i + 1;
    }
    proof {
        assert(v@.take(n as int) =~= v@);
    }
    out
}

/// The weight sum of a rate list, or `None` when it does not fit.
pub fn weight_sum(rates: &Vec<Asset>) -> (r: Option<u128>)
    ensures
        spec_weight_sum(rates@) <= u128::MAX ==> r == Some(spec_weight_sum(rates@) as u128),
        spec_weight_sum(rates@) > u128::MAX ==> r is None,
{
    let n = rates.len();
    let mut total: u128 = 0;
    let mut i: usize = 0;
    proof {
        assert(rates@.take(0).len() == 0);
    }
    while i < n
        invariant
            n == rates@.len(),
            i <= n,
            total == spec_weight_sum(rates@.take(i as int)),
        decreases n - i,
    {
        proof {
            assert(rates@.take(i as int + 1).drop_last() =~= rates@.take(i as int));
            assert(rates@.take(i as int + 1).last() == rates@[i as int]);
        }
        total = match total.checked_add(rates[i].amount) {
            Some(t) => t,
            None => {
                proof {
                    lemma_weight_prefix_monotonic(rates@, i as int + 1, n as int);
                    assert(rates@.take(n as int) =~= rates@);
                }
                return None;
            },
        };
        i = i + 1;
    }
    proof {
        assert(rates@.take(n as int) =~= rates@);
    }
    Some(total)
}

/// Weight sums grow along prefixes.
proof fn lemma_weight_prefix_monotonic(s: Seq<Asset>, i: int, j: int)
    requires
        0 <= i <= j <= s.len(),
    ensures
        spec_weight_sum(s.take(i)) <= spec_weight_sum(s.take(j)),
    decreases j - i,
{
    if i < j {
        lemma_weight_prefix_monotonic(s, i, j - 1);
        assert(s.take(j).drop_last() =~= s.take(j - 1));
        assert(s.take(j).last() == s[j - 1]);
    }
}

} // verus!
